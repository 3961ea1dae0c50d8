//! The hashing capability used by every table.
//!
//! The map is generic over the hasher; the one requirement is that the hash
//! of a byte sequence depends only on its bytes, which the `KeyHasher` trait
//! captures by tying the executable `hash` to a spec-level function of the
//! byte sequence alone.

use vstd::prelude::*;

verus! {

/// A deterministic `hash(bytes) -> u64` capability.
///
/// Implementors promise that `hash` is a pure function of the bytes: the
/// result is `hash_spec(bytes)`, whatever the length of the key and whichever
/// size class later routes it. Callers may therefore compute a hash once and
/// reuse it across several operations on the same key.
pub trait KeyHasher {
    /// The mathematical hash function this hasher computes.
    spec fn hash_spec(&self, bytes: Seq<u8>) -> u64;

    /// Hash a byte string.
    fn hash(&self, bytes: &[u8]) -> (r: u64)
        ensures
            r == self.hash_spec(bytes@),
    ;
}

/// The FNV-1a initial state.
pub const FNV_OFFSET: u64 = 0xcbf2_9ce4_8422_2325;

/// The FNV-1a 64-bit prime.
pub const FNV_PRIME: u64 = 0x100_0000_01b3;

/// One FNV-1a round: fold one byte into the running state.
pub open spec fn fnv_step(h: u64, b: u8) -> u64 {
    vstd::wrapping::u64_specs::wrapping_mul(h ^ (b as u64), FNV_PRIME)
}

/// The FNV-1a state after folding all of `bytes` into `acc`, front to back.
pub open spec fn fnv_fold(bytes: Seq<u8>, acc: u64) -> u64
    decreases bytes.len(),
{
    if bytes.len() == 0 {
        acc
    } else {
        fnv_fold(bytes.drop_first(), fnv_step(acc, bytes.first()))
    }
}

/// The default hasher: 64-bit FNV-1a over the key bytes.
pub struct FnvHasher;

impl KeyHasher for FnvHasher {
    open spec fn hash_spec(&self, bytes: Seq<u8>) -> u64 {
        fnv_fold(bytes, FNV_OFFSET)
    }

    fn hash(&self, bytes: &[u8]) -> (r: u64) {
        let mut h: u64 = FNV_OFFSET;
        let mut i: usize = 0;
        proof {
            assert(bytes@.skip(0) =~= bytes@);
        }
        while i < bytes.len()
            invariant
                i <= bytes@.len(),
                fnv_fold(bytes@, FNV_OFFSET) == fnv_fold(bytes@.skip(i as int), h),
            decreases bytes@.len() - i,
        {
            let b = bytes[i];
            proof {
                assert(bytes@.skip(i as int).drop_first() =~= bytes@.skip(i as int + 1));
                assert(bytes@.skip(i as int).first() == bytes@[i as int]);
            }
            h = (h ^ (b as u64)).wrapping_mul(FNV_PRIME);
            i = i + 1;
        }
        proof {
            assert(bytes@.skip(i as int) =~= Seq::<u8>::empty());
        }
        h
    }
}

} // verus!
