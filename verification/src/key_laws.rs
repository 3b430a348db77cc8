//! How secrets are read, and what the hash of a token covers.

use vstd::prelude::*;
use crate::codec;
use crate::dynamic_key;
use crate::dynamic_key::{
    get_hash, hex_to_byte, init, message_of, update, DynamicKey, RawToken, Secret,
};
use crate::text;

verus! {

/// The byte is a hexadecimal digit.
pub open spec fn is_hex(b: u8) -> bool {
    '0' as u8 <= b <= '9' as u8 || 'a' as u8 <= b <= 'f' as u8 || 'A' as u8 <= b <= 'F' as u8
}

/// The value of a hexadecimal digit, whether large or small.
pub open spec fn hex_value(b: u8) -> int {
    if b <= '9' as u8 {
        b - '0' as u8
    } else if b <= 'F' as u8 {
        10 + (b - 'A' as u8)
    } else {
        10 + (b - 'a' as u8)
    }
}

/// Two hexadecimal digits write a byte, the higher one first; anything else writes none.
pub proof fn two_digits_write_a_byte(hi: u8, lo: u8, r: Option<u8>)
    requires
        call_ensures(hex_to_byte, (hi, lo), r),
    ensures
        r is Some <==> is_hex(hi) && is_hex(lo),
        r matches Some(b) ==> b == 16 * hex_value(hi) + hex_value(lo),
{
    lemma_byte(hi, lo);
}

proof fn lemma_byte(hi: u8, lo: u8)
    ensures
        dynamic_key::hex_byte(hi, lo) is Some <==> is_hex(hi) && is_hex(lo),
        dynamic_key::hex_byte(hi, lo) matches Some(b) ==> b == 16 * hex_value(hi) + hex_value(lo),
{
}

/// The pair of digits writes a byte.
spec fn hex_pair(d: Seq<u8>, j: int) -> bool {
    is_hex(d[2 * j]) && is_hex(d[2 * j + 1])
}

proof fn lemma_bad(d: Seq<u8>, i: int)
    requires
        0 <= i <= dynamic_key::pairs(d),
    ensures
        i <= dynamic_key::first_bad(d, i) <= dynamic_key::pairs(d),
        forall|j: int|
            i <= j < dynamic_key::first_bad(d, i) ==> #[trigger] hex_pair(d, j),
        dynamic_key::first_bad(d, i) < dynamic_key::pairs(d) ==> {
            let k = dynamic_key::first_bad(d, i);
            !hex_pair(d, k)
        },
    decreases 64 - i,
{
    if i < dynamic_key::pairs(d) {
        lemma_byte(d[2 * i], d[2 * i + 1]);
        if dynamic_key::hex_byte(d[2 * i], d[2 * i + 1]) is Some {
            lemma_bad(d, i + 1);
        }
    }
}

/// The digits of a word behind `hex:`, as bytes.
pub open spec fn digits_of(word: Seq<char>) -> Seq<u8> {
    vstd::utf8::encode_utf8(word.skip(4))
}

/// A word of `hex:` and at least 64 digits is the key that the digits write, filled up with zeros; of
/// more than 128 digits the first ones count, and a single digit at the end counts as if a zero
/// followed.
pub proof fn hex_words_are_keys(word: &str, digest: &[u8; 32], r: [u8; 64], i: int)
    requires
        call_ensures(Secret::key_from, (word, digest), r),
        text::begins(word@, "hex:"@),
        digits_of(word@).len() >= 64,
        forall|j: int|
            0 <= j < digits_of(word@).len() && j < 128 ==> is_hex(#[trigger] digits_of(word@)[j]),
        0 <= i < 64,
    ensures
        ({
            let d = digits_of(word@);
            &&& 2 * i + 1 < d.len() ==> r@[i] == 16 * hex_value(d[2 * i]) + hex_value(d[2 * i + 1])
            &&& 2 * i + 1 == d.len() ==> r@[i] == 16 * hex_value(d[2 * i])
            &&& 2 * i >= d.len() ==> r@[i] == 0
        }),
{
    reveal_strlit("hex:");
    let d = digits_of(word@);
    lemma_bad(d, 0);
    let n = dynamic_key::pairs(d);
    let k = dynamic_key::first_bad(d, 0);
    if k < n {
        assert(is_hex(d[2 * k]) && is_hex(d[2 * k + 1]));
    }
    assert(dynamic_key::hex_part(word@) == Some(d));
    if 2 * i + 1 < d.len() {
        lemma_byte(d[2 * i], d[2 * i + 1]);
        assert(is_hex(d[2 * i]) && is_hex(d[2 * i + 1]));
    }
    if d.len() < 128 && d.len() % 2 == 1 {
        assert(is_hex(d[d.len() - 1]));
        lemma_byte(d.last(), 48);
    }
}

/// Any other word is hashed: its digest is the first half of the key. The second half is zeros, but
/// for what the digits write before the first one that is none.
pub proof fn other_words_are_hashed(word: &str, digest: &[u8; 32], r: [u8; 64], i: int, j: int)
    requires
        call_ensures(Secret::key_from, (word, digest), r),
        !text::begins(word@, "hex:"@) || digits_of(word@).len() < 64 || (0 <= j < digits_of(
            word@,
        ).len() && j < 128 && !is_hex(digits_of(word@)[j])),
        0 <= i < 32,
    ensures
        r@[i] == digest@[i],
        !text::begins(word@, "hex:"@) || digits_of(word@).len() < 64 ==> r@[32 + i] == 0,
        r@[32 + i] == 0 || (2 * (32 + i) + 1 < digits_of(word@).len() && r@[32 + i] == 16
            * hex_value(digits_of(word@)[2 * (32 + i)]) + hex_value(
            digits_of(word@)[2 * (32 + i) + 1],
        )),
{
    reveal_strlit("hex:");
    let d = digits_of(word@);
    let k = dynamic_key::first_bad(d, 0);
    let n = dynamic_key::pairs(d);
    if text::begins(word@, "hex:"@) && d.len() >= 64 {
        lemma_bad(d, 0);
        assert(dynamic_key::hex_part(word@) == Some(d));
        if dynamic_key::hex_key(d) is Some {
            assert(k == n);
            if j / 2 < n {
                let m = j / 2;
                assert(hex_pair(d, m));
                assert(j == 2 * m || j == 2 * m + 1);
            } else {
                assert(j == d.len() - 1 && d.len() % 2 == 1);
                lemma_byte(d.last(), 48);
            }
        }
        assert(dynamic_key::hex_key(d) is None);
        if 32 + i < k {
            assert(hex_pair(d, 32 + i));
            lemma_byte(d[2 * (32 + i)], d[2 * (32 + i) + 1]);
        }
    } else {
        assert(dynamic_key::hex_part(word@) is None);
    }
    let left = dynamic_key::leftover(word@);
    assert(left.skip(32)[i] == left[32 + i]);
    assert(r@ == digest@ + left.skip(32));
}

/// The secret of a text is the key of its first word, by the digest of that word; white space before
/// it and anything behind it do not count. Without a word there is no secret.
pub proof fn secrets_are_first_words(
    s: &str,
    r: Secret,
    word: &str,
    digest: &[u8; 32],
    key: [u8; 64],
    before: Seq<char>,
    after: Seq<char>,
)
    requires
        call_ensures(Secret::parse_str, (s,), r),
        call_ensures(Secret::key_from, (word, digest), key),
        digest@ == codec::sha256_digest(vstd::utf8::encode_utf8(word@)),
        forall|i: int| 0 <= i < before.len() ==> text::is_space(#[trigger] before[i]),
        forall|i: int| 0 <= i < word@.len() ==> !text::is_space(#[trigger] word@[i]),
        after.len() > 0 ==> text::is_space(after[0]),
        s@ == before + word@ + after,
    ensures
        word@.len() > 0 ==> r.0 is Some && (r.0->0)@ == key@,
        word@.len() == 0 && after.len() == 0 ==> r.0 is None,
{
    if word@.len() > 0 {
        dynamic_key::only_first_word_counts(before, word@, after);
    } else if after.len() == 0 {
        assert(s@ =~= before);
        lemma_all_space(s@, 0);
    }
}

proof fn lemma_all_space(s: Seq<char>, from: int)
    requires
        0 <= from <= s.len(),
        forall|i: int| 0 <= i < s.len() ==> text::is_space(#[trigger] s[i]),
    ensures
        text::lead(s, from) == s.len(),
    decreases s.len() - from,
{
    if from < s.len() {
        assert(text::is_space(s[from]));
        lemma_all_space(s, from + 1);
    }
}

/// The hash of a token is the keyed code of all that the token says, each behind its name, in order:
/// the subject, the signature, the time for which it is valid, the random part and the kind.
pub proof fn hash_covers_the_token(
    key: &DynamicKey,
    raw: &RawToken,
    m: Vec<u8>,
    r: [u8; 32],
)
    requires
        call_ensures(message_of, (raw,), m),
        call_ensures(get_hash, (key, raw), r),
    ensures
        r@ == codec::hmac_code(key.secret@, m@),
        m@ == vstd::utf8::encode_utf8("subject"@) + vstd::utf8::encode_utf8(raw.provider@) + raw.id@
            + vstd::utf8::encode_utf8("signature"@) + raw.signature@ + vstd::utf8::encode_utf8(
            "duration"@,
        ) + raw.start@ + raw.end@ + vstd::utf8::encode_utf8("randomness"@) + raw.randomness@
            + vstd::utf8::encode_utf8("type"@) + vstd::utf8::encode_utf8(
            if raw.is_session {
                "session"@
            } else {
                "web"@
            },
        ),
{
}

/// The key is the secret that it was made with, until another one replaces it.
pub proof fn keys_hold_their_secret(
    secret: [u8; 64],
    made: DynamicKey,
    key: &mut DynamicKey,
    other: [u8; 64],
)
    requires
        call_ensures(init, (secret,), made),
        call_ensures(update, (key, other), ()),
    ensures
        made.secret == secret,
        final(key).secret == other,
{
}

} // verus!
