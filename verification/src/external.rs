//! The calls into other crates and into parts of the standard library that the
//! verifier takes on trust. Each item says what is believed of the call.

use sha2::Digest;
use vstd::prelude::*;
use vstd::utf8::*;

verus! {

/// The CRC-32C (Castagnoli) checksum of some bytes.
pub uninterp spec fn crc32c_of(data: Seq<u8>) -> u32;

/// The SHA-256 digest of some bytes.
pub uninterp spec fn sha256_digest(data: Seq<u8>) -> [u8; 32];

/// The SHA-256 digest of some bytes, as a sequence.
pub open spec fn sha256_of(data: Seq<u8>) -> Seq<u8> {
    sha256_digest(data)@
}

/// Calls `crc32c::crc32c`. The result depends on the bytes alone, whichever
/// implementation the processor selects.
#[verifier::external_body]
pub(crate) fn crc32c(data: &[u8]) -> (crc: u32)
    ensures
        crc == crc32c_of(data@),
{
    crc32c::crc32c(data)
}

/// Calls `sha2::Sha256::digest`. The result depends on the bytes alone.
#[verifier::external_body]
pub(crate) fn sha256(data: &[u8]) -> (digest: [u8; 32])
    ensures
        digest@ == sha256_digest(data@)@,
{
    sha2::Sha256::digest(data).into()
}

/// Calls `getrandom::fill` on sixteen bytes. Nothing is claimed of the bytes:
/// they differ from call to call, and the system may refuse them. A refusal is
/// handed on as its text.
#[verifier::external_body]
pub(crate) fn random_bytes() -> (bytes: Result<[u8; 16], String>)
{
    let mut bytes = [0; 16];
    getrandom::fill(&mut bytes).map_err(|error| error.to_string())?;
    Ok(bytes)
}

/// Reads `tokio::sync::Semaphore::MAX_PERMITS`, which is `usize::MAX >> 3`.
#[verifier::external_body]
pub(crate) fn max_permits() -> (permits: usize)
    ensures
        permits == usize::MAX / 8,
{
    tokio::sync::Semaphore::MAX_PERMITS
}

/// Compares two string slices with `==`: they are equal exactly if they hold
/// the same characters.
#[verifier::external_body]
pub(crate) fn same_text(a: &str, b: &str) -> (same: bool)
    ensures
        same == (a@ == b@),
{
    a == b
}

/// Calls `slice::sort_unstable_by_key` with the second component as the key:
/// it arranges the pairs so that those keys do not decrease, and neither adds
/// nor drops a pair.
#[verifier::external_body]
pub(crate) fn sort_by_second(list: &mut Vec<(usize, u64)>)
    ensures
        final(list)@.to_multiset() == old(list)@.to_multiset(),
        forall|i: int, j: int|
            0 <= i <= j < final(list)@.len() ==> final(list)@[i].1 <= final(list)@[j].1,
{
    list.sort_unstable_by_key(|&(_, key)| key);
}

/// Calls `std::str::from_utf8`: it gives the text that the bytes encode, and
/// fails exactly if they are not UTF-8.
#[verifier::external_body]
pub(crate) fn utf8_text(bytes: &[u8]) -> (text: Option<String>)
    ensures
        text is Some <==> valid_utf8(bytes@),
        text matches Some(text) ==> encode_utf8(text@) == bytes@,
{
    std::str::from_utf8(bytes).ok().map(str::to_owned)
}

} // verus!
