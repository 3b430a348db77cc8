//! Ranges of keys.

use vstd::prelude::*;
use crate::tree::key;
use crate::tree::key::{KeyOrder, compare};

verus! {

/// An endpoint of a range of keys.
#[derive(Clone, Debug)]
pub enum KeyBound<K> {
    Included(K),
    Excluded(K),
    Unbounded,
}

/// The keys between two endpoints.
#[derive(Clone, Debug)]
pub struct KeyRange<K> {
    pub start: KeyBound<K>,
    pub end: KeyBound<K>,
}

impl<K: Ord + Clone> KeyRange<K> {
    /// The key does not lie below the start of the range.
    pub open spec fn from_start(self, k: K) -> bool {
        match self.start {
            KeyBound::Included(s) => !key::key_lt(k, s),
            KeyBound::Excluded(s) => key::key_lt(s, k),
            KeyBound::Unbounded => true,
        }
    }

    /// The key does not lie above the end of the range.
    pub open spec fn to_end(self, k: K) -> bool {
        match self.end {
            KeyBound::Included(e) => !key::key_lt(e, k),
            KeyBound::Excluded(e) => key::key_lt(k, e),
            KeyBound::Unbounded => true,
        }
    }

    /// The key lies in the range.
    pub open spec fn has_key(self, k: K) -> bool {
        self.from_start(k) && self.to_end(k)
    }

    /// The range of keys from `start` up to but not including `end`.
    pub fn between(start: K, end: K) -> (r: KeyRange<K>)
        ensures
            r.start == KeyBound::Included(start),
            r.end == KeyBound::Excluded(end),
    {
        KeyRange { start: KeyBound::Included(start), end: KeyBound::Excluded(end) }
    }

    /// The range of keys from `start` up to and including `end`.
    pub fn through(start: K, end: K) -> (r: KeyRange<K>)
        ensures
            r.start == KeyBound::Included(start),
            r.end == KeyBound::Included(end),
    {
        KeyRange { start: KeyBound::Included(start), end: KeyBound::Included(end) }
    }

    /// The range of all keys.
    pub fn full() -> (r: KeyRange<K>)
        ensures
            forall|k: K| #[trigger] r.has_key(k),
    {
        KeyRange { start: KeyBound::Unbounded, end: KeyBound::Unbounded }
    }

    /// Keys after one that is not below the start are not below it, and keys before one that is
    /// not above the end are not above it.
    pub proof fn lemma_monotone(self)
        requires
            key::ordered_key::<K>(),
        ensures
            forall|a: K, b: K|
                #![trigger key::key_lt(a, b)]
                key::key_lt(a, b) || key::key_eq(a, b) ==> (self.from_start(a) ==> self.from_start(
                    b,
                )) && (self.to_end(b) ==> self.to_end(a)),
            forall|a: K, b: K|
                #![trigger key::key_eq(a, b)]
                key::key_lt(a, b) || key::key_eq(a, b) ==> (self.from_start(a) ==> self.from_start(
                    b,
                )) && (self.to_end(b) ==> self.to_end(a)),
    {
        key::lemma_order::<K>();
        assert forall|a: K, b: K| key::key_lt(a, b) || key::key_eq(a, b) implies (self.from_start(a)
            ==> self.from_start(b)) && (self.to_end(b) ==> self.to_end(a)) by {
            match self.start {
                KeyBound::Included(s) => {
                    assert(key::key_lt(b, s) ==> key::key_lt(a, s));
                },
                KeyBound::Excluded(s) => {
                    assert(key::key_lt(s, a) ==> key::key_lt(s, b));
                },
                KeyBound::Unbounded => {},
            }
            match self.end {
                KeyBound::Included(e) => {
                    assert(key::key_lt(e, a) ==> key::key_lt(e, b));
                },
                KeyBound::Excluded(e) => {
                    assert(key::key_lt(b, e) ==> key::key_lt(a, e));
                },
                KeyBound::Unbounded => {},
            }
        }
    }
}

/// Returns `true` if the key lies in the range.
pub fn range_contains<K: Ord + Clone>(range: &KeyRange<K>, key: &K) -> (r: bool)
    requires
        key::ordered_key::<K>(),
    ensures
        r == range.has_key(*key),
{
    proof {
        key::lemma_order::<K>();
    }
    (match &range.start {
        KeyBound::Included(start) => compare(start, key) != KeyOrder::Greater,
        KeyBound::Excluded(start) => compare(start, key) == KeyOrder::Less,
        KeyBound::Unbounded => true,
    }) && (match &range.end {
        KeyBound::Included(end) => compare(end, key) != KeyOrder::Less,
        KeyBound::Excluded(end) => compare(end, key) == KeyOrder::Greater,
        KeyBound::Unbounded => true,
    })
}

/// A state machine to keep track of the progress of a bulk removal operation.
#[derive(Clone, Copy, Debug, PartialEq, Eq, Structural)]
pub enum RemoveRangeState {
    /// The maximum key of the node is less than the start bound of the range.
    Below,
    /// The maximum key of the node is contained in the range, but it is not clear whether the
    /// minimum key of the node is contained in the range.
    MaybeBelow,
    /// The maximum key and the minimum key of the node are contained in the range.
    FullyContained,
    /// The maximum key of the node is not contained in the range, but it is not clear whether
    /// the minimum key of the node is contained in the range.
    MaybeAbove,
}

impl RemoveRangeState {
    /// Returns the next state.
    ///
    /// The keys are taken in ascending order, up to the first one above the range.
    pub fn next<K: Ord + Clone>(
        self,
        key: &K,
        range: &KeyRange<K>,
        start_unbounded: bool,
    ) -> (r: RemoveRangeState)
        requires
            key::ordered_key::<K>(),
            self != RemoveRangeState::MaybeAbove,
        ensures
            r == RemoveRangeState::FullyContained <==> range.has_key(*key) && (start_unbounded
                || self != RemoveRangeState::Below),
            r == RemoveRangeState::MaybeBelow <==> range.has_key(*key) && !start_unbounded && self
                == RemoveRangeState::Below,
            r == RemoveRangeState::Below <==> !range.has_key(*key) && self
                == RemoveRangeState::Below && !range.from_start(*key),
    {
        proof {
            key::lemma_order::<K>();
        }
        if range_contains(range, key) {
            if self == RemoveRangeState::Below && !start_unbounded {
                RemoveRangeState::MaybeBelow
            } else {
                RemoveRangeState::FullyContained
            }
        } else if self == RemoveRangeState::Below {
            match &range.start {
                KeyBound::Included(k) => match compare(k, key) {
                    KeyOrder::Less | KeyOrder::Equal => RemoveRangeState::MaybeAbove,
                    KeyOrder::Greater => RemoveRangeState::Below,
                },
                KeyBound::Excluded(k) => match compare(k, key) {
                    KeyOrder::Less => RemoveRangeState::MaybeAbove,
                    KeyOrder::Greater | KeyOrder::Equal => RemoveRangeState::Below,
                },
                KeyBound::Unbounded => RemoveRangeState::MaybeAbove,
            }
        } else {
            RemoveRangeState::MaybeAbove
        }
    }
}

} // verus!
