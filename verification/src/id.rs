//! Identifiers, XOR distance, and the mapping from record keys into the
//! identifier space.
//!
//! Peers and record keys both live in a 64-bit identifier space; the
//! distance between two identifiers is their bitwise XOR read as an
//! unsigned number, so a smaller value means a closer peer.

use vstd::prelude::*;
use vstd::arithmetic::power2::{pow2, lemma2_to64, lemma2_to64_rest, lemma_pow2_strictly_increases};

verus! {

/// Opaque fixed-length identifier of a node, used for XOR-distance
/// computations.
#[derive(Clone, Copy, PartialEq, Eq, Structural, Debug, Hash)]
pub struct PeerId {
    pub id: u64,
}

/// A reachable network location for a peer, in the abstract transport's
/// host/port addressing scheme.
#[derive(Clone, Copy, PartialEq, Eq, Structural, Debug)]
pub struct Address {
    pub host: u64,
    pub port: u16,
}

/// XOR distance between two identifiers; smaller means closer.
pub open spec fn dist(a: u64, b: u64) -> u64 {
    a ^ b
}

/// The smaller of two integers.
pub open spec fn min_int(a: int, b: int) -> int {
    if a <= b {
        a
    } else {
        b
    }
}

/// Index of the routing-table bucket that holds identifiers at distance
/// `d` from the local identity: the unique `i` with
/// `2^i <= d < 2^(i+1)` (distance 0 never occurs in the table).
pub open spec fn bucket_index_of(d: nat) -> nat
    decreases d,
{
    if d < 2 {
        0
    } else {
        1 + bucket_index_of(d / 2)
    }
}

/// `bucket_index_of(d)` really is the exponent of the power-of-two range
/// that `d` falls in.
pub proof fn lemma_bucket_index_range(d: nat)
    requires
        d >= 1,
    ensures
        pow2(bucket_index_of(d)) <= d < pow2(bucket_index_of(d) + 1),
    decreases d,
{
    if d < 2 {
        lemma2_to64();
    } else {
        lemma_bucket_index_range(d / 2);
        let b = bucket_index_of(d / 2);
        assert(pow2(b + 1) == 2 * pow2(b)) by {
            vstd::arithmetic::power2::lemma_pow2_adds(b, 1);
            lemma2_to64();
        }
        assert(pow2(b + 2) == 2 * pow2(b + 1)) by {
            vstd::arithmetic::power2::lemma_pow2_adds(b + 1, 1);
            lemma2_to64();
        }
    }
}

/// Any 64-bit distance lands in one of the first 64 buckets.
pub proof fn lemma_bucket_index_bound(d: nat)
    requires
        1 <= d <= u64::MAX,
    ensures
        bucket_index_of(d) < 64,
{
    let b = bucket_index_of(d);
    lemma_bucket_index_range(d);
    if b >= 64 {
        lemma2_to64_rest();
        if b > 64 {
            lemma_pow2_strictly_increases(64, b);
        }
        assert(pow2(64) <= pow2(b));
        assert(false);
    }
}

/// Computes the bucket index of a nonzero distance.
pub fn bucket_index(d: u64) -> (i: usize)
    requires
        d >= 1,
    ensures
        i as nat == bucket_index_of(d as nat),
        i < 64,
{
    proof {
        lemma_bucket_index_bound(d as nat);
    }
    let mut x: u64 = d;
    let mut i: usize = 0;
    while x >= 2
        invariant
            1 <= x <= d,
            i as nat + bucket_index_of(x as nat) == bucket_index_of(d as nat),
            bucket_index_of(d as nat) < 64,
        decreases x,
    {
        x = x / 2;
        i = i + 1;
    }
    i
}

/// The point in the identifier space that a record key occupies: the
/// key's bytes folded into a 64-bit value, high bits dropping out as
/// later bytes arrive.
pub open spec fn key_id_of(s: Seq<u8>) -> u64
    decreases s.len(),
{
    if s.len() == 0 {
        0u64
    } else {
        (((key_id_of(s.drop_last()) as int % 0x100000000000000) * 0x100) + s.last()) as u64
    }
}

/// Computes the identifier-space point of a record key.
pub fn key_id(key: &Vec<u8>) -> (t: u64)
    ensures
        t == key_id_of(key@),
{
    let mut t: u64 = 0;
    let mut j: usize = 0;
    while j < key.len()
        invariant
            j <= key.len(),
            t == key_id_of(key@.take(j as int)),
        decreases key.len() - j,
    {
        let b = key[j];
        t = (t % 0x100000000000000u64) * 0x100 + (b as u64);
        proof {
            let s = key@.take(j + 1 as int);
            assert(s.drop_last() =~= key@.take(j as int));
            assert(s.last() == key@[j as int]);
        }
        j = j + 1;
    }
    proof {
        assert(key@.take(key@.len() as int) =~= key@);
    }
    t
}

} // verus!
