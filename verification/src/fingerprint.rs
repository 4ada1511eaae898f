//! Run-seeded 128-bit content fingerprint.
//!
//! Duplicate confirmation needs a digest with low collision probability
//! within a single run; cross-run attacker resistance is not required.
//! The digest is a seeded FNV-1a variant over the full file content: the
//! run seed is folded into the offset basis, then every byte is absorbed
//! with an xor followed by a wrapping multiplication by the FNV prime.
//! The fingerprint is a pure function of the seed and the bytes, so
//! fingerprinting the same content twice in one run gives the same value.

use vstd::prelude::*;

verus! {

/// FNV-1a 128-bit offset basis.
pub const FP_OFFSET_BASIS: u128 = 0x6c62272e07bb014262b821756295c58d;

/// FNV-1a 128-bit prime.
pub const FP_PRIME: u128 = 0x0000000001000000000000000000013b;

/// Digest state before any byte is absorbed: the offset basis with the
/// run seed folded in.
pub open spec fn fp_init(seed: u64) -> u128 {
    FP_OFFSET_BASIS ^ (seed as u128)
}

/// Absorbing one byte into the digest state.
pub open spec fn fp_absorb(acc: u128, byte: u8) -> u128 {
    (acc ^ (byte as u128)).wrapping_mul(FP_PRIME)
}

/// The fingerprint of `bytes` under run seed `seed`.
pub open spec fn fingerprint_of(seed: u64, bytes: Seq<u8>) -> u128
    decreases bytes.len(),
{
    if bytes.len() == 0 {
        fp_init(seed)
    } else {
        fp_absorb(fingerprint_of(seed, bytes.drop_last()), bytes.last())
    }
}

/// Computes the run-seeded fingerprint of a file's full content.
pub fn fingerprint_bytes(seed: u64, bytes: &Vec<u8>) -> (r: u128)
    ensures
        r == fingerprint_of(seed, bytes@),
{
    let mut acc: u128 = FP_OFFSET_BASIS ^ (seed as u128);
    let mut i: usize = 0;
    while i < bytes.len()
        invariant
            i <= bytes@.len(),
            acc == fingerprint_of(seed, bytes@.take(i as int)),
        decreases bytes@.len() - i,
    {
        acc = (acc ^ (bytes[i] as u128)).wrapping_mul(FP_PRIME);
        proof {
            assert(bytes@.take(i + 1 as int).drop_last() =~= bytes@.take(i as int));
            assert(bytes@.take(i + 1 as int).last() == bytes@[i as int]);
        }
        i = i + 1;
    }
    proof {
        assert(bytes@.take(bytes@.len() as int) =~= bytes@);
    }
    acc
}

/// The fingerprint depends on the seed and the content alone: two
/// fingerprinting passes over equal content within one run (same seed)
/// agree, so re-fingerprinting a file can never change its group.
pub proof fn lemma_fingerprint_deterministic(seed: u64, a: Seq<u8>, b: Seq<u8>)
    requires
        a == b,
    ensures
        fingerprint_of(seed, a) == fingerprint_of(seed, b),
{
}

} // verus!
