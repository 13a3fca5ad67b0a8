//! The deterministic key hash that routes a pair to its reduce partition.
//!
//! The hash is a pure function of the key's characters (a 64-bit FNV-1a fold
//! over the scalar values), so independently running map tasks agree on the
//! partition of every key without coordination, within one run and across
//! repeated runs.

use vstd::prelude::*;
use vstd::string::StrSliceExecFns;

verus! {

pub const FNV_OFFSET: u64 = 0xcbf29ce484222325;

pub const FNV_PRIME: u64 = 0x100000001b3;

/// One round of the fold: mix one character into the running hash.
pub open spec fn fnv_step(h: u64, c: char) -> u64 {
    vstd::wrapping::u64_specs::wrapping_mul(h ^ (c as u64), FNV_PRIME)
}

/// The fold of `fnv_step` over `s`, left to right, starting from `h`.
pub open spec fn hash_acc(h: u64, s: Seq<char>) -> u64
    decreases s.len(),
{
    if s.len() == 0 {
        h
    } else {
        hash_acc(fnv_step(h, s[0]), s.drop_first())
    }
}

/// The hash of a key: a function of the key's characters alone.
pub open spec fn hash_spec(key: Seq<char>) -> u64 {
    hash_acc(FNV_OFFSET, key)
}

/// The reduce partition a key belongs to.
pub open spec fn partition_spec(key: Seq<char>, nreduce: nat) -> nat
    recommends
        nreduce >= 1,
{
    hash_spec(key) as nat % nreduce
}

/// Computes the hash of a key.
pub fn hash(key: &str) -> (r: u64)
    ensures
        r == hash_spec(key@),
{
    let len = key.unicode_len();
    let mut h: u64 = FNV_OFFSET;
    let mut i: usize = 0;
    proof {
        assert(key@.skip(0) =~= key@);
    }
    while i < len
        invariant
            0 <= i <= len,
            len == key@.len(),
            hash_spec(key@) == hash_acc(h, key@.skip(i as int)),
        decreases len - i,
    {
        let c = key.get_char(i);
        proof {
            assert(key@.skip(i as int)[0] == c);
            assert(key@.skip(i as int).drop_first() =~= key@.skip(i as int + 1));
        }
        h = (h ^ (c as u64)).wrapping_mul(FNV_PRIME);
        i = i + 1;
    }
    proof {
        assert(key@.skip(len as int) =~= Seq::<char>::empty());
    }
    h
}

/// Computes the partition of a key among `nreduce` buckets.
pub fn partition(key: &str, nreduce: usize) -> (r: usize)
    requires
        nreduce >= 1,
    ensures
        r as nat == partition_spec(key@, nreduce as nat),
        r < nreduce,
{
    let h = hash(key);
    (h % (nreduce as u64)) as usize
}

/// Every partition index is below the partition count.
pub proof fn lemma_partition_in_range(key: Seq<char>, nreduce: nat)
    requires
        nreduce >= 1,
    ensures
        partition_spec(key, nreduce) < nreduce,
{
}

/// Hasher determinism: the partition of a key is a function of the key text
/// and the partition count alone, so repeated calls and independent map tasks
/// with the same configuration route the key the same way.
pub proof fn lemma_partition_deterministic(k1: Seq<char>, k2: Seq<char>, nreduce: nat)
    requires
        nreduce >= 1,
        k1 == k2,
    ensures
        partition_spec(k1, nreduce) == partition_spec(k2, nreduce),
{
}

} // verus!
