//! Compressed and encoded data, as other crates read it.

use vstd::prelude::*;

verus! {

/// The bytes of an optional vector.
pub open spec fn opt_bytes(o: Option<Vec<u8>>) -> Option<Seq<u8>> {
    match o {
        Some(v) => Some(v@),
        None => None,
    }
}

/// What `flate2::read::GzDecoder` reads from the first gzip member of the data; nothing where it
/// fails.
pub uninterp spec fn gunzipped(data: Seq<u8>) -> Option<Seq<u8>>;

/// Reads a `flate2::read::GzDecoder` over the data to its end.
///
/// The result is a function of the data: decompressed bytes, or none where the decoder reports an
/// error.
#[verifier::external_body]
pub(crate) fn gunzip(data: &[u8]) -> (r: Option<Vec<u8>>)
    ensures
        opt_bytes(r) == gunzipped(data@),
{
    let mut out: Vec<u8> = Vec::new();
    let mut decoder = flate2::read::GzDecoder::new(data);
    match std::io::Read::read_to_end(&mut decoder, &mut out) {
        Ok(_) => Some(out),
        Err(_) => None,
    }
}

/// What `brotli::Decompressor` reads from the data; nothing where it fails.
pub uninterp spec fn unbrotlied(data: Seq<u8>) -> Option<Seq<u8>>;

/// Reads a `brotli::Decompressor` with a buffer of 4096 bytes over the data to its end.
///
/// The result is a function of the data: decompressed bytes, or none where the decompressor
/// reports an error.
#[verifier::external_body]
pub(crate) fn unbrotli(data: &[u8]) -> (r: Option<Vec<u8>>)
    ensures
        opt_bytes(r) == unbrotlied(data@),
{
    let mut out: Vec<u8> = Vec::new();
    let mut decoder = brotli::Decompressor::new(std::io::Cursor::new(data), 4096);
    match std::io::Read::read_to_end(&mut decoder, &mut out) {
        Ok(_) => Some(out),
        Err(_) => None,
    }
}

/// The text that prost decodes from field 1 of a message; nothing where it fails.
pub uninterp spec fn proto_text(data: Seq<u8>) -> Option<Seq<char>>;

/// Decodes a message whose field 1 is its text with `<String as prost::Message>::decode`, which
/// skips all other fields.
///
/// The result is a function of the data: the text, or none where prost reports an error.
#[verifier::external_body]
pub(crate) fn decode_proto_text(data: &[u8]) -> (r: Option<String>)
    ensures
        crate::text::opt(r) == proto_text(data@),
{
    match <String as prost::Message>::decode(data) {
        Ok(text) => Some(text),
        Err(_) => None,
    }
}

/// [`String::from_utf8`]: the text that the bytes encode, where they are valid UTF-8.
#[verifier::external_body]
pub(crate) fn utf8_text(bytes: Vec<u8>) -> (r: Option<String>)
    ensures
        match r {
            Some(s) => vstd::utf8::valid_utf8(bytes@) && s@ == vstd::utf8::decode_utf8(bytes@),
            None => !vstd::utf8::valid_utf8(bytes@),
        },
{
    match String::from_utf8(bytes) {
        Ok(s) => Some(s),
        Err(_) => None,
    }
}

/// The bytes that `base64_simd::STANDARD` decodes from the text; nothing where it fails.
pub uninterp spec fn base64_decoded(text: Seq<char>) -> Option<Seq<u8>>;

/// `base64_simd::STANDARD.decode_to_vec` on the bytes of the text.
///
/// The result is a function of the text: the bytes, or none where the text is not valid padded
/// base64 in the standard alphabet.
#[verifier::external_body]
pub(crate) fn decode_base64(text: &str) -> (r: Option<Vec<u8>>)
    ensures
        opt_bytes(r) == base64_decoded(text@),
{
    match base64_simd::STANDARD.decode_to_vec(text) {
        Ok(data) => Some(data),
        Err(_) => None,
    }
}

/// `base64_simd::STANDARD` accepts the text.
pub uninterp spec fn base64_valid(text: Seq<char>) -> bool;

/// `base64_simd::STANDARD.check` on the bytes of the text.
///
/// The result is a function of the text.
#[verifier::external_body]
pub(crate) fn check_base64(text: &str) -> (r: bool)
    ensures
        r == base64_valid(text@),
{
    base64_simd::STANDARD.check(text.as_bytes()).is_ok()
}

/// `url::Url` parses the text.
pub uninterp spec fn is_url(text: Seq<char>) -> bool;

/// `url::Url::parse` succeeds on the text.
///
/// The result is a function of the text.
#[verifier::external_body]
pub(crate) fn parses_as_url(text: &str) -> (r: bool)
    ensures
        r == is_url(text@),
{
    url::Url::parse(text).is_ok()
}

/// The SHA-256 digest of the data.
pub uninterp spec fn sha256_digest(data: Seq<u8>) -> Seq<u8>;

/// `sha2::Sha256::digest`: the SHA-256 digest of the data, a function of the data.
#[verifier::external_body]
pub(crate) fn sha256(data: &[u8]) -> (r: [u8; 32])
    ensures
        r@ == sha256_digest(data@),
{
    <sha2::Sha256 as sha2::Digest>::digest(data).0
}

/// The HMAC-SHA256 code of the message under the key.
pub uninterp spec fn hmac_code(key: Seq<u8>, message: Seq<u8>) -> Seq<u8>;

/// `hmac::Hmac<sha2::Sha256>`, made with the key, fed with the message and finalized.
///
/// The code is a function of the key and the message.
#[verifier::external_body]
pub(crate) fn hmac_sha256(key: &[u8; 64], message: &[u8]) -> (r: [u8; 32])
    ensures
        r@ == hmac_code(key@, message@),
{
    let key = sha2::digest::array::Array(*key);
    let mut mac = <hmac::Hmac<sha2::Sha256> as hmac::KeyInit>::new(&key);
    hmac::Mac::update(&mut mac, message);
    hmac::Mac::finalize(mac).into_bytes().0
}

/// The text between quotes, with escapes, as source shows it.
pub uninterp spec fn quoted(text: Seq<char>) -> Seq<char>;

/// `std::fmt::Debug` of `str`: the text between quotes, with escapes.
///
/// The result is a function of the text.
#[verifier::external_body]
pub(crate) fn quote(text: &str) -> (r: String)
    ensures
        r@ == quoted(text@),
{
    format!("{:?}", text)
}

/// The time that lies so many seconds behind the start of 1970, in UTC, as RFC 3339 writes it;
/// nothing where chrono has no such date.
pub uninterp spec fn rfc3339(secs: i64) -> Option<Seq<char>>;

/// `chrono::DateTime::from_timestamp_secs` and `to_rfc3339_opts`, in whole seconds and with `Z`.
///
/// The result is a function of the number: the text, or none where chrono has no such date.
#[verifier::external_body]
pub(crate) fn format_rfc3339(secs: i64) -> (r: Option<String>)
    ensures
        crate::text::opt(r) == rfc3339(secs),
{
    match chrono::DateTime::from_timestamp_secs(secs) {
        Some(time) => Some(time.to_rfc3339_opts(chrono::SecondsFormat::Secs, true)),
        None => None,
    }
}

/// The decimal digits of a number.
pub open spec fn decimal(n: nat) -> Seq<char>
    decreases n,
{
    if n < 10 {
        seq![digit(n)]
    } else {
        decimal(n / 10).push(digit(n % 10))
    }
}

/// The character of a digit.
pub open spec fn digit(d: nat) -> char {
    (48 + d) as char
}

/// `itoa::Buffer::format`: writes the number in decimal, without sign or leading zeros.
#[verifier::external_body]
pub(crate) fn format_decimal(n: u64) -> (s: String)
    ensures
        s@ == decimal(n as nat),
{
    let mut buffer = itoa::Buffer::new();
    buffer.format(n).to_owned()
}

} // verus!
