//! The word that describes the state of a leaf and of each of its entries.

use vstd::prelude::*;

verus! {

/// The number of entries and number of state bits per entry.
#[derive(Clone, Copy, Debug, PartialEq, Eq, Structural)]
pub struct Dimension {
    pub num_entries: usize,
    pub num_bits_per_entry: usize,
}

/// The maximum number of entries in a leaf.
///
/// * `M`: The maximum number of entries.
/// * `B`: The minimum number of bits to express the state of an entry.
/// * `M + 2 <= 2^B`: two states besides the ranks, uninitialized and removed.
/// * `B * M + 3 <= 64`: three flags of the leaf, frozen, retired and unlinked.
pub const NUM_ENTRIES: usize = 14;

/// The number of state bits per entry.
pub const NUM_BITS_PER_ENTRY: usize = 4;

/// The state of an entry that was never written.
pub const UNINIT_RANK: usize = 0;

/// The state of an entry that was removed; greater than every valid rank.
pub const REMOVED_RANK: usize = 15;

/// The flag of a leaf that left its neighbours.
pub const UNLINKED: u64 = 0x2000_0000_0000_0000;

/// The flag of a frozen leaf.
pub const FROZEN: u64 = 0x4000_0000_0000_0000;

/// The flag of a retired leaf.
pub const RETIRED: u64 = 0x8000_0000_0000_0000;

/// The `b` bits of `metadata` that start at bit `s`.
pub open spec fn field(metadata: u64, s: u64, b: u64) -> u64 {
    (metadata >> s) & (((1u64 << b) - 1) as u64)
}

/// The dimension of every leaf.
#[verifier::allow_in_spec]
pub fn dimension() -> (d: Dimension)
    returns
        (Dimension { num_entries: NUM_ENTRIES, num_bits_per_entry: NUM_BITS_PER_ENTRY }),
{
    Dimension { num_entries: NUM_ENTRIES, num_bits_per_entry: NUM_BITS_PER_ENTRY }
}

impl Dimension {
    /// All entries and the three flags fit in the word, and the states of an entry in its bits.
    pub open spec fn wf(self) -> bool {
        &&& 1 <= self.num_bits_per_entry < 32
        &&& self.num_entries * self.num_bits_per_entry + 3 <= 64
    }

    /// The first bit of an entry.
    pub open spec fn shift(self, index: int) -> int {
        index * self.num_bits_per_entry
    }

    /// The rank that `metadata` gives to an entry.
    pub open spec fn rank_of(self, metadata: u64, index: int) -> u64 {
        field(metadata, self.shift(index) as u64, self.num_bits_per_entry as u64)
    }

    proof fn lemma_shift(self, index: int)
        requires
            self.wf(),
            0 <= index < self.num_entries,
        ensures
            0 <= self.shift(index),
            self.shift(index) + self.num_bits_per_entry <= 61,
    {
        assert(index * self.num_bits_per_entry + self.num_bits_per_entry
            <= self.num_entries * self.num_bits_per_entry) by (nonlinear_arith)
            requires
                0 <= index < self.num_entries,
                1 <= self.num_bits_per_entry,
        ;
        assert(0 <= index * self.num_bits_per_entry) by (nonlinear_arith)
            requires
                0 <= index,
                1 <= self.num_bits_per_entry,
        ;
    }

    /// The flags are no part of the state of an entry.
    pub proof fn lemma_flags(self, metadata: u64, index: int)
        requires
            self.wf(),
            0 <= index < self.num_entries,
        ensures
            self.rank_of(metadata | FROZEN, index) == self.rank_of(metadata, index),
            self.rank_of(metadata & !FROZEN, index) == self.rank_of(metadata, index),
            self.rank_of(metadata | RETIRED, index) == self.rank_of(metadata, index),
            self.rank_of(metadata | UNLINKED, index) == self.rank_of(metadata, index),
    {
        self.lemma_shift(index);
        let s = self.shift(index) as u64;
        let b = self.num_bits_per_entry as u64;
        assert(field(metadata | FROZEN, s, b) == field(metadata, s, b) && field(
            metadata & !FROZEN,
            s,
            b,
        ) == field(metadata, s, b) && field(metadata | RETIRED, s, b) == field(metadata, s, b)
            && field(metadata | UNLINKED, s, b) == field(metadata, s, b)) by (bit_vector)
            requires
                b < 61,
                s <= 61,
                s + b <= 61,
        ;
    }

    /// Checks if the leaf is unlinked.
    #[verifier::allow_in_spec]
    pub fn unlinked(metadata: u64) -> (r: bool)
        returns
            metadata & UNLINKED != 0,
    {
        metadata & UNLINKED != 0
    }

    /// Checks if the leaf is frozen.
    #[verifier::allow_in_spec]
    pub fn frozen(metadata: u64) -> (r: bool)
        returns
            metadata & FROZEN != 0,
    {
        metadata & FROZEN != 0
    }

    /// Makes the metadata represent a frozen state.
    pub fn freeze(metadata: u64) -> (r: u64)
        ensures
            r == metadata | FROZEN,
            Self::frozen(r),
            Self::retired(r) == Self::retired(metadata),
            Self::unlinked(r) == Self::unlinked(metadata),
            forall|s: u64, b: u64|
                b < 61 && s + b <= 61 ==> #[trigger] field(r, s, b) == field(metadata, s, b),
    {
        assert(forall|m: u64|
            {
                &&& (m | FROZEN) & FROZEN != 0
                &&& (m | FROZEN) & RETIRED == m & RETIRED
                &&& #[trigger] (m | FROZEN) & UNLINKED == m & UNLINKED
            }) by (bit_vector);
        assert(forall|m: u64, s: u64, b: u64|
            b < 61 && s <= 61 && s + b <= 61 ==> #[trigger] field((m | FROZEN), s, b) == field(m, s, b))
            by (bit_vector);
        metadata | FROZEN
    }

    /// Updates the metadata to represent a non-frozen state.
    pub fn unfreeze(metadata: u64) -> (r: u64)
        ensures
            r == metadata & !FROZEN,
            !Self::frozen(r),
            Self::retired(r) == Self::retired(metadata),
            Self::unlinked(r) == Self::unlinked(metadata),
            forall|s: u64, b: u64|
                b < 61 && s + b <= 61 ==> #[trigger] field(r, s, b) == field(metadata, s, b),
    {
        assert(forall|m: u64|
            {
                &&& (m & !FROZEN) & FROZEN == 0
                &&& (m & !FROZEN) & RETIRED == m & RETIRED
                &&& #[trigger] (m & !FROZEN) & UNLINKED == m & UNLINKED
            }) by (bit_vector);
        assert(forall|m: u64, s: u64, b: u64|
            b < 61 && s <= 61 && s + b <= 61 ==> #[trigger] field((m & !FROZEN), s, b) == field(m, s, b))
            by (bit_vector);
        metadata & (!FROZEN)
    }

    /// Checks if the leaf is retired.
    #[verifier::allow_in_spec]
    pub fn retired(metadata: u64) -> (r: bool)
        returns
            metadata & RETIRED != 0,
    {
        metadata & RETIRED != 0
    }

    /// Makes the metadata represent a retired state.
    pub fn retire(metadata: u64) -> (r: u64)
        ensures
            r == metadata | RETIRED,
            Self::retired(r),
            Self::frozen(r) == Self::frozen(metadata),
            Self::unlinked(r) == Self::unlinked(metadata),
            forall|s: u64, b: u64|
                b < 61 && s + b <= 61 ==> #[trigger] field(r, s, b) == field(metadata, s, b),
    {
        assert(forall|m: u64|
            {
                &&& (m | RETIRED) & RETIRED != 0
                &&& (m | RETIRED) & FROZEN == m & FROZEN
                &&& #[trigger] (m | RETIRED) & UNLINKED == m & UNLINKED
            }) by (bit_vector);
        assert(forall|m: u64, s: u64, b: u64|
            b < 61 && s <= 61 && s + b <= 61 ==> #[trigger] field((m | RETIRED), s, b) == field(m, s, b))
            by (bit_vector);
        metadata | RETIRED
    }

    /// Returns a bit mask for an entry.
    pub fn rank_mask(&self, index: usize) -> (r: u64)
        requires
            self.wf(),
            index < self.num_entries,
        ensures
            r == (((1u64 << (self.num_bits_per_entry as u64)) - 1) as u64) << (self.shift(
                index as int,
            ) as u64),
    {
        proof {
            self.lemma_shift(index as int);
        }
        let b: u64 = self.num_bits_per_entry as u64;
        let s: u64 = (index * self.num_bits_per_entry) as u64;
        assert(1u64 << b >= 1) by (bit_vector)
            requires
                b < 61,
        ;
        ((1u64 << b) - 1) << s
    }

    /// Returns the rank of an entry.
    pub fn rank(&self, metadata: u64, index: usize) -> (r: usize)
        requires
            self.wf(),
            index < self.num_entries,
        ensures
            r == self.rank_of(metadata, index as int),
    {
        proof {
            self.lemma_shift(index as int);
        }
        let b: u64 = self.num_bits_per_entry as u64;
        let s: u64 = (index * self.num_bits_per_entry) as u64;
        assert(1u64 << b >= 1 && 1u64 << b <= 0x8000_0000) by (bit_vector)
            requires
                b < 32,
        ;
        assert((metadata >> s) % (1u64 << b) == field(metadata, s, b)) by {
            vstd::bits::lemma_u64_low_bits_mask_is_mod(metadata >> s, b as nat);
            vstd::bits::lemma_low_bits_mask_values();
            vstd::bits::lemma_u64_shl_is_mul(1u64, b);
        }
        ((metadata >> s) % (1u64 << b)) as usize
    }

    /// Returns the uninitialized rank value which is smaller than all the valid rank values.
    pub fn uninit_rank() -> (r: usize)
        ensures
            r == UNINIT_RANK,
    {
        UNINIT_RANK
    }

    /// Returns the removed rank value which is greater than all the valid rank values.
    pub fn removed_rank(&self) -> (r: usize)
        requires
            self.wf(),
        ensures
            r == ((1u64 << (self.num_bits_per_entry as u64)) - 1),
    {
        let b: u64 = self.num_bits_per_entry as u64;
        assert(1u64 << b >= 1 && 1u64 << b <= 0x8000_0000) by (bit_vector)
            requires
                b < 32,
        ;
        ((1u64 << b) - 1) as usize
    }

    /// Augments the rank to the given metadata.
    pub fn augment(&self, metadata: u64, index: usize, rank: usize) -> (r: u64)
        requires
            self.wf(),
            index < self.num_entries,
            (rank as u64) >> (self.num_bits_per_entry as u64) == 0,
        ensures
            Self::retired(r) == Self::retired(metadata),
            Self::frozen(r) == Self::frozen(metadata),
            Self::unlinked(r) == Self::unlinked(metadata),
            self.rank_of(r, index as int) == rank,
            forall|j: int|
                0 <= j < self.num_entries && j != index ==> #[trigger] self.rank_of(r, j)
                    == self.rank_of(metadata, j),
    {
        proof {
            self.lemma_shift(index as int);
        }
        let b: u64 = self.num_bits_per_entry as u64;
        let s: u64 = (index * self.num_bits_per_entry) as u64;
        let w: u64 = rank as u64;
        let mask: u64 = self.rank_mask(index);
        let r: u64 = (metadata & !mask) | (w << s);
        proof {
            assert(field(r, s, b) == w && r & RETIRED == metadata & RETIRED && r & FROZEN == metadata
                & FROZEN && r & UNLINKED == metadata & UNLINKED) by (bit_vector)
                requires
                    b < 61,
                    s <= 61,
                    s + b <= 61,
                    w >> b == 0,
                    mask == (((1u64 << b) - 1) as u64) << s,
                    r == (metadata & !mask) | (w << s),
            ;
            assert forall|j: int|
                0 <= j < self.num_entries && j != index implies #[trigger] self.rank_of(r, j)
                == self.rank_of(metadata, j) by {
                self.lemma_shift(j);
                let t: u64 = self.shift(j) as u64;
                assert(s + b <= t || t + b <= s) by (nonlinear_arith)
                    requires
                        s == index * b,
                        t == j * b,
                        j != index,
                        0 <= j,
                ;
                assert(field(r, t, b) == field(metadata, t, b)) by (bit_vector)
                    requires
                        b < 61,
                        s <= 61,
                        t <= 61,
                        s + b <= 61,
                        t + b <= 61,
                        s + b <= t || t + b <= s,
                        w >> b == 0,
                        mask == (((1u64 << b) - 1) as u64) << s,
                        r == (metadata & !mask) | (w << s),
                ;
            }
        }
        r
    }
}

} // verus!
