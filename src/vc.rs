//! An all-but-one vector commitment to `Q` pseudorandom seeds: each seed is
//! committed by the digest of the seed behind the prefix `COMMIT_TAG`, the
//! commitment is the digest of all of them, and an opening reveals every seed
//! but one together with the digest of the one kept hidden. A seed's bits are
//! drawn from its expansion behind the other prefix, `EXPAND_TAG`, so the
//! revealed digest is no part of the hidden seed's bits.
use crate::hash::{
    append_bytes, blake3_digest, blake3_xof, digest, expand, subvec, tagged, tagged_bytes,
    COMMIT_TAG,
};
use vstd::prelude::*;

verus! {

/// Base-two logarithm of the number of leaves.
pub const LOG_Q: usize = 8;

/// Number of leaves: one per element of GF(2^8).
pub const Q: usize = 256;

/// Length in bytes of a seed.
pub const SEED_LEN: usize = 32;

/// Seed of leaf `x` of the commitment made from `seed`.
pub open spec fn leaf_seed(seed: Seq<u8>, x: int) -> Seq<u8> {
    blake3_xof(seed, (SEED_LEN * Q) as nat).subrange(x * SEED_LEN, x * SEED_LEN + SEED_LEN)
}

/// The digest that commits to a leaf seed.
pub open spec fn leaf_digest(s: Seq<u8>) -> Seq<u8> {
    blake3_digest(tagged(COMMIT_TAG, s))
}

/// The digests of the first `k` leaf seeds, one after the other.
pub open spec fn leaf_digests(seed: Seq<u8>, k: nat) -> Seq<u8>
    decreases k,
{
    if k == 0 {
        seq![]
    } else {
        leaf_digests(seed, (k - 1) as nat) + leaf_digest(leaf_seed(seed, k - 1))
    }
}

/// The commitment made from `seed`.
pub open spec fn vc_digest(seed: Seq<u8>) -> Seq<u8> {
    blake3_digest(leaf_digests(seed, Q as nat))
}

/// What the committer keeps: every leaf seed and its digest.
pub struct DecommitmentKey {
    pub seeds: Vec<Vec<u8>>,
    pub digests: Vec<Vec<u8>>,
}

/// An opening at one leaf: the seeds of all other leaves, in order, and the
/// digest of the hidden one.
#[derive(Clone, Debug, PartialEq, Eq)]
pub struct Opening {
    pub index: u8,
    pub seeds: Vec<Vec<u8>>,
    pub hidden_digest: Vec<u8>,
}

impl DecommitmentKey {
    /// The key holds the leaves of the commitment made from `seed`.
    pub open spec fn is_for(&self, seed: Seq<u8>) -> bool {
        &&& self.seeds@.len() == Q
        &&& self.digests@.len() == Q
        &&& forall|x: int| 0 <= x < Q ==> (#[trigger] self.seeds@[x])@ == leaf_seed(seed, x)
        &&& forall|x: int|
            0 <= x < Q ==> (#[trigger] self.digests@[x])@ == leaf_digest(leaf_seed(seed, x))
    }
}

/// Commits to the `Q` leaves drawn from `seed`: returns the commitment and
/// the key that opens it.
pub fn vc_commit(seed: &Vec<u8>) -> (r: (Vec<u8>, DecommitmentKey))
    ensures
        r.0@ == vc_digest(seed@),
        r.1.is_for(seed@),
{
    let all = expand(seed.as_slice(), SEED_LEN * Q);
    let mut seeds: Vec<Vec<u8>> = Vec::new();
    let mut digests: Vec<Vec<u8>> = Vec::new();
    let mut concat: Vec<u8> = Vec::new();
    let mut x: usize = 0;
    while x < Q
        invariant
            x <= Q,
            all@ == blake3_xof(seed@, (SEED_LEN * Q) as nat),
            all@.len() == SEED_LEN * Q,
            seeds@.len() == x,
            digests@.len() == x,
            forall|y: int| 0 <= y < x ==> (#[trigger] seeds@[y])@ == leaf_seed(seed@, y),
            forall|y: int|
                0 <= y < x ==> (#[trigger] digests@[y])@ == leaf_digest(leaf_seed(seed@, y)),
            concat@ == leaf_digests(seed@, x as nat),
        decreases Q - x,
    {
        let s = subvec(&all, x * SEED_LEN, x * SEED_LEN + SEED_LEN);
        let t = tagged_bytes(COMMIT_TAG, &s);
        let d = digest(t.as_slice());
        append_bytes(&mut concat, &d);
        seeds.push(s);
        digests.push(d);
        x = x + 1;
    }
    let commitment = digest(concat.as_slice());
    (commitment, DecommitmentKey { seeds, digests })
}

/// Opens the commitment at every leaf but `index`.
pub fn vc_decommit(key: &DecommitmentKey, index: u8) -> (r: Opening)
    requires
        key.seeds@.len() == Q,
        key.digests@.len() == Q,
    ensures
        r.index == index,
        r.seeds@.len() == Q - 1,
        forall|k: int|
            0 <= k < Q - 1 ==> (#[trigger] r.seeds@[k])@ == key.seeds@[if k < index {
                k
            } else {
                k + 1
            }]@,
        r.hidden_digest@ == key.digests@[index as int]@,
{
    let mut seeds: Vec<Vec<u8>> = Vec::new();
    let mut x: usize = 0;
    while x < Q
        invariant
            x <= Q,
            key.seeds@.len() == Q,
            seeds@.len() == if x <= index {
                x as int
            } else {
                x - 1
            },
            forall|k: int|
                0 <= k < seeds@.len() ==> (#[trigger] seeds@[k])@ == key.seeds@[if k < index {
                    k
                } else {
                    k + 1
                }]@,
        decreases Q - x,
    {
        if x != index as usize {
            let s = copy_bytes(&key.seeds[x]);
            seeds.push(s);
        }
        x = x + 1;
    }
    let hidden_digest = copy_bytes(&key.digests[index as usize]);
    Opening { index, seeds, hidden_digest }
}

/// A copy of `v`.
pub fn copy_bytes(v: &Vec<u8>) -> (r: Vec<u8>)
    ensures
        r@ == v@,
{
    let r = subvec(v, 0, v.len());
    proof {
        assert(v@.subrange(0, v@.len() as int) =~= v@);
    }
    r
}

} // verus!
