//! The hash of a key and the seven-bit tag kept in a control byte.

use vstd::prelude::*;

verus! {

pub const HASH_SEED: u64 = 0xcbf2_9ce4_8422_2325;

pub const HASH_PRIME: u64 = 0x0000_0100_0000_01b3;

/// The 64-bit FNV-1a hash of a byte string.
pub open spec fn spec_hash(key: Seq<u8>) -> u64
    decreases key.len(),
{
    if key.len() == 0 {
        HASH_SEED
    } else {
        vstd::wrapping::u64_specs::wrapping_mul(
            spec_hash(key.drop_last()) ^ (key.last() as u64),
            HASH_PRIME,
        )
    }
}

/// The tag of a hash: its seven highest bits.
pub open spec fn spec_tag(hash: u64) -> u8 {
    (hash >> 57) as u8
}

/// Hashes a key.
pub fn hash_value(key: &Vec<u8>) -> (h: u64)
    ensures
        h == spec_hash(key@),
{
    let mut h: u64 = HASH_SEED;
    let mut i: usize = 0;
    while i < key.len()
        invariant
            i <= key.len(),
            h == spec_hash(key@.take(i as int)),
        decreases key.len() - i,
    {
        proof {
            assert(key@.take(i + 1).drop_last() == key@.take(i as int));
        }
        h = (h ^ (key[i] as u64)).wrapping_mul(HASH_PRIME);
        i += 1;
    }
    proof {
        assert(key@.take(key.len() as int) == key@);
    }
    h
}

/// The control-byte tag for a hash; always below `0x80`.
pub fn tag_of(hash: u64) -> (t: u8)
    ensures
        t == spec_tag(hash),
        t < 0x80,
{
    assert((hash >> 57) < 0x80) by (bit_vector);
    (hash >> 57) as u8
}

} // verus!
