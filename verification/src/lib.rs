//! A write-once, read-many key-value store kept in a single file: records
//! followed by a cuckoo-hashed index of record offsets.

use vstd::prelude::*;

pub mod cuckoo;
pub mod format;
pub mod layout;
pub mod mmap;
pub mod multihash;
pub mod round_trip;
pub mod sync_read;

verus! {

/// The 64-bit fingerprint that `farmhash::fingerprint64` computes of a byte string.
pub uninterp spec fn fingerprint64(bytes: Seq<u8>) -> u64;

/// Calls `farmhash::fingerprint64`, which reads the bytes and nothing else,
/// returns for every input, and is documented to give the same value on every
/// platform and in every version. The contract only gives that value its name.
#[verifier::external_body]
fn fingerprint64_of(key: &[u8]) -> (h: u64)
    ensures
        h == fingerprint64(key@),
{
    farmhash::fingerprint64(key)
}

/// The low and the high half of a 64-bit value.
pub open spec fn halves(h: u64) -> (u32, u32) {
    ((h as int % 0x1_0000_0000) as u32, (h as int / 0x1_0000_0000) as u32)
}

/// The two 32-bit hashes of a key: the low and the high half of its fingerprint.
pub open spec fn fingerprint(key: Seq<u8>) -> (u32, u32) {
    halves(fingerprint64(key))
}

/// Splits a 64-bit value into its low and its high half.
pub fn split_halves(h: u64) -> (r: (u32, u32))
    ensures
        r == halves(h),
{
    let lo = (h & 0xFFFFFFFF) as u32;
    let hi = (h >> 32) as u32;
    assert(h & 0xFFFFFFFF == h % 0x1_0000_0000) by (bit_vector);
    assert(h >> 32 == h / 0x1_0000_0000) by (bit_vector);
    (lo, hi)
}

/// The two hashes under which a key is indexed.
pub fn farmhash_fingerprint(key: &[u8]) -> (r: (u32, u32))
    ensures
        r == fingerprint(key@),
{
    split_halves(fingerprint64_of(key))
}

} // verus!
