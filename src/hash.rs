//! The hash function and the extendable-output function, both BLAKE3.
use vstd::prelude::*;

verus! {

/// Length in bytes of a digest.
pub const DIGEST_LEN: usize = 32;

/// The BLAKE3 digest of `data`.
pub uninterp spec fn blake3_digest(data: Seq<u8>) -> Seq<u8>;

/// The first `n` bytes of the BLAKE3 extendable output for `data`.
pub uninterp spec fn blake3_xof(data: Seq<u8>, n: nat) -> Seq<u8>;

/// Relies on `blake3::hash`: the 32-byte digest, a function of the input
/// alone.
#[verifier::external_body]
pub(crate) fn digest(data: &[u8]) -> (r: Vec<u8>)
    ensures
        r@ == blake3_digest(data@),
        r@.len() == DIGEST_LEN,
{
    blake3::hash(data).as_bytes().to_vec()
}

/// Relies on `blake3::Hasher::update`, `finalize_xof` and `OutputReader::fill`:
/// `n` bytes of extendable output, a function of the input and `n` alone.
#[verifier::external_body]
pub(crate) fn expand(data: &[u8], n: usize) -> (r: Vec<u8>)
    ensures
        r@ == blake3_xof(data@, n as nat),
        r@.len() == n,
{
    let mut out = vec![0u8; n];
    let mut hasher = blake3::Hasher::new();
    hasher.update(data);
    hasher.finalize_xof().fill(&mut out);
    out
}

/// The bytes `v[start..end]`.
pub fn subvec(v: &Vec<u8>, start: usize, end: usize) -> (r: Vec<u8>)
    requires
        start <= end <= v@.len(),
    ensures
        r@ == v@.subrange(start as int, end as int),
{
    let mut r: Vec<u8> = Vec::new();
    let mut i: usize = start;
    while i < end
        invariant
            start <= i <= end <= v@.len(),
            r@ == v@.subrange(start as int, i as int),
        decreases end - i,
    {
        r.push(v[i]);
        i = i + 1;
        proof {
            assert(r@ =~= v@.subrange(start as int, i as int));
        }
    }
    r
}

/// Prefix of what is hashed to commit to a seed.
pub const COMMIT_TAG: u8 = 0x63;

/// Prefix of what is expanded to draw a seed's bits.
pub const EXPAND_TAG: u8 = 0x65;

/// `s` with the one-byte prefix `tag`, which keeps apart the different uses
/// of one seed.
pub open spec fn tagged(tag: u8, s: Seq<u8>) -> Seq<u8> {
    seq![tag] + s
}

/// `s` with the one-byte prefix `tag`.
pub fn tagged_bytes(tag: u8, s: &Vec<u8>) -> (r: Vec<u8>)
    ensures
        r@ == tagged(tag, s@),
{
    let mut r: Vec<u8> = Vec::new();
    r.push(tag);
    append_bytes(&mut r, s);
    proof {
        assert(r@ =~= tagged(tag, s@));
    }
    r
}

/// Appends the bytes of `src` to `dst`.
pub fn append_bytes(dst: &mut Vec<u8>, src: &Vec<u8>)
    ensures
        final(dst)@ == old(dst)@ + src@,
{
    let mut i: usize = 0;
    while i < src.len()
        invariant
            i <= src@.len(),
            dst@ == old(dst)@ + src@.subrange(0, i as int),
        decreases src@.len() - i,
    {
        dst.push(src[i]);
        i = i + 1;
        proof {
            assert(dst@ =~= old(dst)@ + src@.subrange(0, i as int));
        }
    }
    proof {
        assert(src@.subrange(0, i as int) =~= src@);
    }
}

} // verus!
