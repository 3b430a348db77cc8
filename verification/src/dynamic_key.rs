//! Keyed hashes of tokens.

use vstd::prelude::*;
use crate::codec;
use crate::text;

verus! {

/// The end of the word that reaches up to `from`.
pub open spec fn word_end(s: Seq<char>, from: int) -> int
    decreases s.len() - from,
{
    if 0 <= from < s.len() && !text::is_space(s[from]) {
        word_end(s, from + 1)
    } else {
        from
    }
}

/// The first word of a text; nothing where there is none.
pub open spec fn first_word(s: Seq<char>) -> Option<Seq<char>> {
    let a = text::lead(s, 0);
    if a >= s.len() {
        None
    } else {
        Some(s.subrange(a, word_end(s, a)))
    }
}

fn take_word(s: &str) -> (r: Option<String>)
    ensures
        text::opt(r) == first_word(s@),
{
    let x = text::chars(s);
    let mut a: usize = 0;
    while a < x.len() && text::is_whitespace(x[a])
        invariant
            x@ == s@,
            a <= x@.len(),
            text::lead(s@, 0) == text::lead(s@, a as int),
        decreases x@.len() - a,
    {
        a += 1;
    }
    assert(text::lead(s@, 0) == a);
    if a == x.len() {
        return None;
    }
    let mut b: usize = a;
    while b < x.len() && !text::is_whitespace(x[b])
        invariant
            x@ == s@,
            a <= b <= x@.len(),
            word_end(s@, a as int) == word_end(s@, b as int),
        decreases x@.len() - b,
    {
        b += 1;
    }
    assert(word_end(s@, a as int) == b);
    Some(text::text(&x, a, b))
}

/// The value of a hexadecimal digit.
pub open spec fn hex_digit(b: u8) -> Option<u8> {
    if 48 <= b <= 57 {
        Some((b - 48) as u8)
    } else if 65 <= b <= 70 {
        Some((b - 55) as u8)
    } else if 97 <= b <= 102 {
        Some((b - 87) as u8)
    } else {
        None
    }
}

/// The byte that two hexadecimal digits write.
pub open spec fn hex_byte(hi: u8, lo: u8) -> Option<u8> {
    match (hex_digit(hi), hex_digit(lo)) {
        (Some(h), Some(l)) => Some((16 * h + l) as u8),
        _ => None,
    }
}

fn digit(b: u8) -> (r: Option<u8>)
    ensures
        r == hex_digit(b),
{
    if 48 <= b && b <= 57 {
        Some(b - 48)
    } else if 65 <= b && b <= 70 {
        Some(b - 55)
    } else if 97 <= b && b <= 102 {
        Some(b - 87)
    } else {
        None
    }
}

/// Returns the byte that two hexadecimal digits write.
pub fn hex_to_byte(hi: u8, lo: u8) -> (r: Option<u8>)
    ensures
        r == hex_byte(hi, lo),
{
    match (digit(hi), digit(lo)) {
        (Some(h), Some(l)) => Some(16 * h + l),
        _ => None,
    }
}

/// The first pair of digits from `i` on, of the first 64, that writes no byte; their number where
/// all do.
pub open spec fn first_bad(digits: Seq<u8>, i: int) -> int
    decreases 64 - i,
{
    if 0 <= i < 64 && 2 * i + 1 < digits.len() && hex_byte(digits[2 * i], digits[2 * i + 1]) is Some {
        first_bad(digits, i + 1)
    } else {
        i
    }
}

/// How many of the first 64 pairs of digits there are.
pub open spec fn pairs(digits: Seq<u8>) -> int {
    if digits.len() / 2 < 64 {
        digits.len() as int / 2
    } else {
        64
    }
}

/// The bytes that the first `n` pairs of digits write, filled up with zeros to 64.
pub open spec fn filled(digits: Seq<u8>, n: int) -> Seq<u8> {
    Seq::new(
        64,
        |i: int|
            if i < n {
                hex_byte(digits[2 * i], digits[2 * i + 1])->0
            } else {
                0u8
            },
    )
}

/// The key that digits write; nothing where one of the first 128 is no digit. A single digit at
/// the end counts as if a zero followed.
pub open spec fn hex_key(digits: Seq<u8>) -> Option<Seq<u8>> {
    let n = pairs(digits);
    if first_bad(digits, 0) < n {
        None
    } else if digits.len() / 2 < 64 && digits.len() % 2 == 1 {
        match hex_byte(digits.last(), 48) {
            Some(b) => Some(filled(digits, n).update(n, b)),
            None => None,
        }
    } else {
        Some(filled(digits, n))
    }
}

/// The digits of `hex:` and at least 64 bytes.
pub open spec fn hex_part(word: Seq<char>) -> Option<Seq<u8>> {
    if text::begins(word, "hex:"@) {
        let digits = vstd::utf8::encode_utf8(word.skip("hex:"@.len() as int));
        if digits.len() >= 64 {
            Some(digits)
        } else {
            None
        }
    } else {
        None
    }
}

/// What digits that write no key leave behind the first 32 bytes.
pub open spec fn leftover(word: Seq<char>) -> Seq<u8> {
    match hex_part(word) {
        Some(digits) => filled(digits, first_bad(digits, 0)),
        None => Seq::new(64, |i: int| 0u8),
    }
}

/// The key of a word: the one that its digits write, or else its digest.
pub open spec fn key_of(word: Seq<char>, digest: Seq<u8>) -> Seq<u8> {
    match hex_part(word) {
        Some(digits) => match hex_key(digits) {
            Some(key) => key,
            None => digest + leftover(word).skip(32),
        },
        None => digest + leftover(word).skip(32),
    }
}

/// A secret for the keyed hash.
pub struct Secret(pub Option<[u8; 64]>);

impl View for Secret {
    type V = Option<Seq<u8>>;

    open spec fn view(&self) -> Option<Seq<u8>> {
        match self.0 {
            Some(key) => Some(key@),
            None => None,
        }
    }
}

/// Fills the key from digits, and returns whether all of it could be read.
fn read_hex(digits: &[u8], result: &mut [u8; 64]) -> (ok: bool)
    requires
        old(result)@ == Seq::new(64, |i: int| 0u8),
    ensures
        ok == (hex_key(digits@) is Some),
        ok ==> final(result)@ == hex_key(digits@)->0,
        !ok ==> final(result)@ == filled(digits@, first_bad(digits@, 0)),
{
    let n: usize = if digits.len() / 2 < 64 {
        digits.len() / 2
    } else {
        64
    };
    let mut i: usize = 0;
    assert(result@ =~= filled(digits@, 0));
    while i < n
        invariant
            i <= n <= 64,
            n == pairs(digits@),
            2 * n <= digits@.len(),
            result@ == filled(digits@, i as int),
            first_bad(digits@, 0) == first_bad(digits@, i as int),
        decreases n - i,
    {
        assert(2 * i + 1 < digits.len());
        match hex_to_byte(digits[2 * i], digits[2 * i + 1]) {
            Some(b) => {
                result[i] = b;
                assert(result@ =~= filled(digits@, i as int + 1));
            },
            None => {
                assert(first_bad(digits@, i as int) == i);
                return false;
            },
        }
        i += 1;
    }
    assert(first_bad(digits@, n as int) == n);
    if digits.len() / 2 < 64 && digits.len() % 2 == 1 {
        match hex_to_byte(digits[digits.len() - 1], 48) {
            Some(b) => {
                result[n] = b;
            },
            None => return false,
        }
    }
    true
}

impl Secret {
    /// Reads a secret: the first word of the text, in hexadecimal digits behind `hex:` or hashed.
    pub fn parse_str(s: &str) -> (r: Secret)
        ensures
            r@ == (match first_word(s@) {
                Some(word) => Some(
                    key_of(word, codec::sha256_digest(vstd::utf8::encode_utf8(word))),
                ),
                None => None,
            }),
    {
        let word = match take_word(s) {
            Some(word) => word,
            None => return Secret(None),
        };
        let digest = codec::sha256(word.as_str().as_bytes());
        Secret(Some(Secret::key_from(word.as_str(), &digest)))
    }

    /// Returns the key of a word whose digest is given.
    pub fn key_from(word: &str, digest: &[u8; 32]) -> (r: [u8; 64])
        ensures
            r@ == key_of(word@, digest@),
    {
        let mut result: [u8; 64] = [0;64];
        assert(result@ =~= Seq::new(64, |i: int| 0u8));
        if let Some(rest) = text::strip_prefix(word, "hex:") {
            let digits = rest.as_str().as_bytes();
            if digits.len() >= 64 {
                if read_hex(digits, &mut result) {
                    return result;
                }
            }
        }
        assert(result@ == leftover(word@));
        let mut i: usize = 0;
        assert(result@ =~= digest@.take(0) + leftover(word@).skip(0));
        while i < 32
            invariant
                i <= 32,
                digest@.len() == 32,
                leftover(word@).len() == 64,
                result@ == digest@.take(i as int) + leftover(word@).skip(i as int),
            decreases 32 - i,
        {
            result[i] = digest[i];
            assert(result@ =~= digest@.take(i as int + 1) + leftover(word@).skip(i as int + 1));
            i += 1;
        }
        assert(digest@.take(32) =~= digest@);
        result
    }
}

/// What a token says.
pub struct RawToken {
    pub provider: String,
    pub id: Vec<u8>,
    pub signature: Vec<u8>,
    /// The start of the time for which it is valid, in the byte order of the machine.
    pub start: [u8; 8],
    /// The end of the time for which it is valid, in the byte order of the machine.
    pub end: [u8; 8],
    pub randomness: Vec<u8>,
    pub is_session: bool,
}

/// The bytes of a text.
pub open spec fn bytes_of(s: Seq<char>) -> Seq<u8> {
    vstd::utf8::encode_utf8(s)
}

/// The message whose code is the hash of a token.
pub open spec fn hash_message(raw: RawToken) -> Seq<u8> {
    bytes_of("subject"@) + bytes_of(raw.provider@) + raw.id@ + bytes_of("signature"@)
        + raw.signature@ + bytes_of("duration"@) + raw.start@ + raw.end@ + bytes_of("randomness"@)
        + raw.randomness@ + bytes_of("type"@) + bytes_of(
        if raw.is_session {
            "session"@
        } else {
            "web"@
        },
    )
}

fn append(out: &mut Vec<u8>, bytes: &[u8])
    ensures
        final(out)@ == old(out)@ + bytes@,
{
    let ghost before = out@;
    let mut i: usize = 0;
    assert(out@ =~= before + bytes@.take(0));
    while i < bytes.len()
        invariant
            i <= bytes@.len(),
            out@ == before + bytes@.take(i as int),
        decreases bytes@.len() - i,
    {
        out.push(bytes[i]);
        assert(out@ =~= before + bytes@.take(i as int + 1));
        i += 1;
    }
    assert(bytes@.take(bytes@.len() as int) =~= bytes@);
}

/// The key of the hash.
pub struct DynamicKey {
    pub secret: [u8; 64],
}

/// Creates the key.
pub fn init(secret: [u8; 64]) -> (r: DynamicKey)
    ensures
        r.secret == secret,
{
    DynamicKey { secret }
}

/// Replaces the key.
pub fn update(key: &mut DynamicKey, secret: [u8; 64])
    ensures
        final(key).secret == secret,
{
    key.secret = secret;
}

/// Returns the message whose code is the hash of a token.
pub fn message_of(raw: &RawToken) -> (r: Vec<u8>)
    ensures
        r@ == hash_message(*raw),
{
    let mut out: Vec<u8> = Vec::new();
    append(&mut out, "subject".as_bytes());
    append(&mut out, raw.provider.as_str().as_bytes());
    append(&mut out, raw.id.as_slice());
    append(&mut out, "signature".as_bytes());
    append(&mut out, raw.signature.as_slice());
    append(&mut out, "duration".as_bytes());
    append(&mut out, raw.start.as_slice());
    append(&mut out, raw.end.as_slice());
    append(&mut out, "randomness".as_bytes());
    append(&mut out, raw.randomness.as_slice());
    append(&mut out, "type".as_bytes());
    if raw.is_session {
        append(&mut out, "session".as_bytes());
    } else {
        append(&mut out, "web".as_bytes());
    }
    assert(out@ =~= hash_message(*raw));
    out
}

/// Returns the keyed hash of a token.
pub fn get_hash(key: &DynamicKey, raw: &RawToken) -> (r: [u8; 32])
    ensures
        r@ == codec::hmac_code(key.secret@, hash_message(*raw)),
{
    codec::hmac_sha256(&key.secret, message_of(raw).as_slice())
}

/// The hexadecimal digit with the value.
pub open spec fn digit_of(v: int) -> u8 {
    if v < 10 {
        (48 + v) as u8
    } else {
        (87 + v) as u8
    }
}

/// The bytes in hexadecimal digits.
pub open spec fn hex_digits(key: Seq<u8>) -> Seq<u8> {
    Seq::new(
        2 * key.len(),
        |i: int|
            if i % 2 == 0 {
                digit_of(key[i / 2] as int / 16)
            } else {
                digit_of(key[i / 2] as int % 16)
            },
    )
}

proof fn lemma_digits(key: Seq<u8>, i: int)
    requires
        0 <= i < key.len(),
    ensures
        hex_byte(hex_digits(key)[2 * i], hex_digits(key)[2 * i + 1]) == Some(key[i]),
{
    let b = key[i] as int;
    assert(2 * i % 2 == 0 && 2 * i / 2 == i && (2 * i + 1) % 2 == 1 && (2 * i + 1) / 2 == i);
    assert(hex_digit(digit_of(b / 16)) == Some((b / 16) as u8));
    assert(hex_digit(digit_of(b % 16)) == Some((b % 16) as u8));
    assert(16 * (b / 16) + b % 16 == b);
}

proof fn lemma_no_bad(key: Seq<u8>, i: int)
    requires
        0 <= i <= key.len() <= 64,
    ensures
        first_bad(hex_digits(key), i) == key.len(),
    decreases key.len() - i,
{
    if i < key.len() {
        lemma_digits(key, i);
        lemma_no_bad(key, i + 1);
    }
}

/// A key in hexadecimal digits is read back, filled up with zeros.
pub proof fn hex_key_is_read_back(key: Seq<u8>)
    requires
        key.len() <= 64,
    ensures
        hex_key(hex_digits(key)) == Some(key + Seq::new((64 - key.len()) as nat, |i: int| 0u8)),
{
    lemma_no_bad(key, 0);
    let digits = hex_digits(key);
    assert(digits.len() / 2 == key.len());
    let want = key + Seq::new((64 - key.len()) as nat, |i: int| 0u8);
    assert forall|i: int| 0 <= i < 64 implies #[trigger] filled(digits, key.len() as int)[i]
        == want[i] by {
        if i < key.len() {
            lemma_digits(key, i);
        }
    }
    assert(filled(digits, key.len() as int) =~= want);
}

/// White space before a word and anything behind it do not change the secret.
pub proof fn only_first_word_counts(before: Seq<char>, word: Seq<char>, after: Seq<char>)
    requires
        word.len() > 0,
        forall|i: int| 0 <= i < before.len() ==> text::is_space(#[trigger] before[i]),
        forall|i: int| 0 <= i < word.len() ==> !text::is_space(#[trigger] word[i]),
        after.len() > 0 ==> text::is_space(after[0]),
    ensures
        first_word(before + word + after) == Some(word),
{
    let s = before + word + after;
    lemma_lead(s, 0, before.len() as int);
    lemma_word_end(s, before.len() as int, (before.len() + word.len()) as int);
    assert(s.subrange(before.len() as int, (before.len() + word.len()) as int) =~= word);
}

proof fn lemma_lead(s: Seq<char>, from: int, to: int)
    requires
        0 <= from <= to < s.len(),
        forall|i: int| from <= i < to ==> text::is_space(#[trigger] s[i]),
        !text::is_space(s[to]),
    ensures
        text::lead(s, from) == to,
    decreases to - from,
{
    if from < to {
        lemma_lead(s, from + 1, to);
    }
}

proof fn lemma_word_end(s: Seq<char>, from: int, to: int)
    requires
        0 <= from <= to <= s.len(),
        forall|i: int| from <= i < to ==> !text::is_space(#[trigger] s[i]),
        to < s.len() ==> text::is_space(s[to]),
    ensures
        word_end(s, from) == to,
    decreases to - from,
{
    if from < to {
        lemma_word_end(s, from + 1, to);
    }
}

} // verus!
