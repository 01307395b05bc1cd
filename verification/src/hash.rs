//! FNV-1a, the 64-bit hash that places a station name in the table.

use vstd::prelude::*;

verus! {

/// The value the hash starts from.
pub const FNV_OFFSET: u64 = 0xcbf2_9ce4_8422_2325;

/// The multiplier applied after each byte.
pub const FNV_PRIME: u64 = 0x0000_0100_0000_01b3;

/// One round of FNV-1a: xor the byte in, then multiply modulo 2^64.
pub open spec fn fnv1a_step(hash: u64, byte: u8) -> u64 {
    (((hash ^ (byte as u64)) as nat * FNV_PRIME as nat) % 0x1_0000_0000_0000_0000) as u64
}

/// The FNV-1a hash of a byte string.
pub open spec fn fnv1a(bytes: Seq<u8>) -> u64
    decreases bytes.len(),
{
    if bytes.len() == 0 {
        FNV_OFFSET
    } else {
        fnv1a_step(fnv1a(bytes.drop_last()), bytes.last())
    }
}

/// Feeds one more byte into a running hash.
pub fn fnv1a_update(hash: u64, byte: u8) -> (next: u64)
    ensures
        next == fnv1a_step(hash, byte),
{
    (hash ^ (byte as u64)).wrapping_mul(FNV_PRIME)
}

/// Hashing a prefix and then one more byte hashes the longer prefix.
pub proof fn lemma_fnv1a_extend(bytes: Seq<u8>, n: int)
    requires
        0 <= n < bytes.len(),
    ensures
        fnv1a(bytes.take(n + 1)) == fnv1a_step(fnv1a(bytes.take(n)), bytes[n]),
{
    assert(bytes.take(n + 1).drop_last() =~= bytes.take(n));
}

} // verus!
