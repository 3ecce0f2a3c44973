//! The calls this library makes into `sha2`, `hex`, `rand` and the clock of
//! `std`. Each item here is believed, not proved: its doc comment says what
//! its contract claims of the outside function.

use rand::seq::IndexedRandom;
use rand::seq::IteratorRandom;
use rand::RngExt;
use sha2::Digest;
use vstd::prelude::*;

verus! {

/// The SHA-256 digest of a byte string. SHA-256 is a fixed function of its
/// input; its definition is not written out here.
pub uninterp spec fn sha256(data: Seq<u8>) -> Seq<u8>;

/// The lower-case hexadecimal digit for a value below 16.
pub open spec fn hex_digit(n: int) -> char {
    if n < 10 {
        (n + 48) as char
    } else {
        (n + 87) as char
    }
}

/// Lower-case hexadecimal text of a byte string: two digits per byte, the
/// high nibble first.
pub open spec fn hex_encode_spec(bytes: Seq<u8>) -> Seq<char> {
    Seq::new(
        2 * bytes.len(),
        |i: int|
            if i % 2 == 0 {
                hex_digit(bytes[i / 2] as int / 16)
            } else {
                hex_digit(bytes[i / 2] as int % 16)
            },
    )
}

/// The value of one hexadecimal digit byte (either case), or -1.
pub open spec fn hex_value(b: u8) -> int {
    if 48 <= b <= 57 {
        b - 48
    } else if 97 <= b <= 102 {
        b - 87
    } else if 65 <= b <= 70 {
        b - 55
    } else {
        -1
    }
}

/// Whether a byte string is hexadecimal text: an even number of digits.
pub open spec fn is_hex_text(text: Seq<u8>) -> bool {
    &&& text.len() % 2 == 0
    &&& forall|i: int| 0 <= i < text.len() ==> hex_value(#[trigger] text[i]) >= 0
}

/// The bytes that hexadecimal text stands for.
pub open spec fn hex_decode_spec(text: Seq<u8>) -> Seq<u8> {
    Seq::new(
        text.len() / 2,
        |i: int| (hex_value(text[2 * i]) * 16 + hex_value(text[2 * i + 1])) as u8,
    )
}

/// Whether a character is an ASCII letter or digit.
pub open spec fn is_ascii_alphanumeric(c: char) -> bool {
    ('0' <= c <= '9') || ('a' <= c <= 'z') || ('A' <= c <= 'Z')
}

/// Calls `<sha2::Sha256 as Digest>::digest`. Claims that the result is
/// SHA-256 of the input and that it is 32 bytes long (the output size of
/// `Sha256`).
#[verifier::external_body]
pub(crate) fn sha256_digest(data: &[u8]) -> (digest: Vec<u8>)
    ensures
        digest@ == sha256(data@),
        digest@.len() == 32,
{
    sha2::Sha256::digest(data).to_vec()
}

/// Calls `hex::encode`. Claims that the result is the lower-case hexadecimal
/// text of the input, high nibble first, as `hex`'s table `0123456789abcdef`
/// gives it.
#[verifier::external_body]
pub(crate) fn hex_encode(bytes: &[u8]) -> (text: String)
    ensures
        text@ == hex_encode_spec(bytes@),
{
    hex::encode(bytes)
}

/// Calls `hex::decode`. Claims that it succeeds exactly on an even number of
/// digits `0-9`, `a-f`, `A-F`, and that each pair of digits gives one byte,
/// the first digit being the high nibble. The error is dropped.
#[verifier::external_body]
pub(crate) fn hex_decode(text: &[u8]) -> (bytes: Option<Vec<u8>>)
    ensures
        bytes is Some <==> is_hex_text(text@),
        bytes matches Some(b) ==> b@ == hex_decode_spec(text@),
{
    hex::decode(text).ok()
}

/// Calls `rand::rng().sample(rand::distr::Alphanumeric)`. The character is
/// random; what is claimed is only that it is an ASCII letter or digit, the
/// range that `Alphanumeric` samples from.
#[verifier::external_body]
pub(crate) fn random_alphanumeric() -> (c: char)
    ensures
        is_ascii_alphanumeric(c),
{
    char::from(rand::rng().sample(rand::distr::Alphanumeric))
}

/// Calls `IteratorRandom::choose` on the range `lo..hi` with the thread RNG.
/// Claims, as `rand` documents for an iterator whose size hint is right (a
/// range's is), that it gives a value exactly when the range is not empty,
/// and that the value lies in the range; which one is random.
#[verifier::external_body]
pub(crate) fn random_in_range(lo: u64, hi: u64) -> (r: Option<u64>)
    ensures
        r is Some <==> lo < hi,
        r matches Some(v) ==> lo <= v < hi,
{
    (lo..hi).choose(&mut rand::rng())
}

/// Calls `IndexedRandom::choose` on a list with the thread RNG and clones the
/// item. Claims, as `rand` documents, that it gives nothing exactly when the
/// list is empty, and otherwise one of the items; which one is random.
#[verifier::external_body]
pub(crate) fn random_item(items: &Vec<String>) -> (r: Option<String>)
    ensures
        r is None <==> items@.len() == 0,
        r matches Some(s) ==> items@.contains(s),
{
    items.choose(&mut rand::rng()).cloned()
}

/// Calls `String::push`. Claims that the character is appended.
#[verifier::external_body]
pub(crate) fn push_char(s: &mut String, c: char)
    ensures
        final(s)@ == old(s)@.push(c),
{
    s.push(c)
}

#[verifier::external_type_specification]
#[verifier::external_body]
pub struct ExSystemTime(std::time::SystemTime);

#[verifier::external_type_specification]
#[verifier::external_body]
pub struct ExSystemTimeError(std::time::SystemTimeError);

/// Calls `SystemTime::now`. The time is read from the machine: nothing is
/// claimed of it.
#[verifier::external_body]
pub(crate) fn clock_now() -> std::time::SystemTime {
    std::time::SystemTime::now()
}

/// Calls `SystemTime::duration_since(UNIX_EPOCH)`. It fails when the time
/// lies before the epoch; nothing more is claimed.
#[verifier::external_body]
pub(crate) fn since_unix_epoch(
    t: &std::time::SystemTime,
) -> Result<std::time::Duration, std::time::SystemTimeError> {
    t.duration_since(std::time::UNIX_EPOCH)
}

/// Calls `Duration::as_secs`. A duration is opaque here, so nothing is
/// claimed of the number of whole seconds.
#[verifier::external_body]
pub(crate) fn whole_seconds(d: &std::time::Duration) -> u64 {
    d.as_secs()
}

} // verus!
