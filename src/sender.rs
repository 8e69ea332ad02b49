//! The sender of VOLE-in-the-head: it commits to `num_repetitions` vectors of
//! `Q` pseudorandom leaves, combines the leaf expansions into one shared bit
//! vector `u` and a field matrix `V`, answers the consistency challenge, and
//! opens every commitment at all leaves but the challenged one.
use crate::gf2p128::{
    embed_sum, embedding_table, gf_add, gf_mul, lemma_gf_mul_assoc_comm, lemma_gf_mul_distrib,
    lemma_gf_mul_lt, lemma_gf_mul_zero, GF2p128,
};
use crate::poly::{lemma_pxor_lt, lemma_pxor_swap, lemma_pxor_zero};
use vstd::arithmetic::power2::pow2;
use crate::hash::{
    append_bytes, blake3_digest, blake3_xof, digest, expand, subvec, tagged, tagged_bytes,
    EXPAND_TAG,
};
use crate::vc::{
    leaf_seed, vc_commit, vc_decommit, vc_digest, DecommitmentKey, Opening, Q, SEED_LEN,
};
use vstd::prelude::*;

verus! {

// ---------------------------------------------------------------------------
// Model.

/// The first `n` bits of `b`, least significant bit of each byte first.
pub open spec fn bytes_to_bits(b: Seq<u8>, n: nat) -> Seq<bool> {
    Seq::new(n, |k: int| (b[k / 8] >> ((k % 8) as u8)) & 1 == 1)
}

/// The expansion of a leaf seed to `n` bits, drawn behind the prefix
/// `EXPAND_TAG`.
pub open spec fn leaf_bits(seed: Seq<u8>, n: nat) -> Seq<bool> {
    bytes_to_bits(blake3_xof(tagged(EXPAND_TAG, seed), (n + 7) / 8), n)
}

/// Bitwise exclusive or.
pub open spec fn bits_xor(a: Seq<bool>, b: Seq<bool>) -> Seq<bool> {
    Seq::new(a.len(), |k: int| a[k] != b[k])
}

/// `n` zero bits.
pub open spec fn zero_bits(n: nat) -> Seq<bool> {
    Seq::new(n, |k: int| false)
}

/// Exclusive or of the expansions of the first `k` leaves.
pub open spec fn xor_leaves(seeds: Seq<Seq<u8>>, n: nat, k: nat) -> Seq<bool>
    decreases k,
{
    if k == 0 {
        zero_bits(n)
    } else {
        bits_xor(xor_leaves(seeds, n, (k - 1) as nat), leaf_bits(seeds[k - 1], n))
    }
}

/// Image of the GF(2^8) element `x` in GF(2^128).
pub open spec fn embed(x: nat) -> nat {
    embed_sum(embedding_table(), x, 8)
}

/// Coordinate `j` of `sum over 1 <= x < k of x * r_x`, where `r_x` is the
/// expansion of leaf `x`.
pub open spec fn v_acc(seeds: Seq<Seq<u8>>, n: nat, k: nat, j: int) -> nat
    decreases k,
{
    if k <= 1 {
        0
    } else {
        let prev = v_acc(seeds, n, (k - 1) as nat, j);
        if leaf_bits(seeds[k - 1], n)[j] {
            gf_add(prev, embed((k - 1) as nat))
        } else {
            prev
        }
    }
}

/// Seed of repetition `i` drawn from the sender's seed.
pub open spec fn rep_seed(seed: Seq<u8>, tau: nat, i: int) -> Seq<u8> {
    blake3_xof(seed, (SEED_LEN * tau) as nat).subrange(i * SEED_LEN, i * SEED_LEN + SEED_LEN)
}

/// Leaf seeds of repetition `i`.
pub open spec fn rep_leaves(seed: Seq<u8>, tau: nat, i: int) -> Seq<Seq<u8>> {
    Seq::new(Q as nat, |x: int| leaf_seed(rep_seed(seed, tau, i), x))
}

/// Exclusive or of all `Q` leaf expansions of repetition `i`.
pub open spec fn rep_xor(seed: Seq<u8>, tau: nat, n: nat, i: int) -> Seq<bool> {
    xor_leaves(rep_leaves(seed, tau, i), n, Q as nat)
}

/// The commitments of the first `k` repetitions, one after the other.
pub open spec fn rep_digests(seed: Seq<u8>, tau: nat, k: nat) -> Seq<u8>
    decreases k,
{
    if k == 0 {
        seq![]
    } else {
        rep_digests(seed, tau, (k - 1) as nat) + vc_digest(rep_seed(seed, tau, k - 1))
    }
}

/// The shared bit vector after commit: the leaf exclusive or of repetition 0,
/// with the message, if any, in place of its first bits.
pub open spec fn committed_u(seed: Seq<u8>, tau: nat, ell: nat, msg: Option<Seq<bool>>) -> Seq<bool> {
    let x = rep_xor(seed, tau, ell + tau, 0);
    match msg {
        Some(m) => m + x.subrange(ell as int, (ell + tau) as int),
        None => x,
    }
}

/// `sum over i < k of pts[i] * u[j + i]`.
pub open spec fn u_tilde(u: Seq<bool>, pts: Seq<nat>, j: int, k: nat) -> nat
    decreases k,
{
    if k == 0 {
        0
    } else {
        let prev = u_tilde(u, pts, j, (k - 1) as nat);
        if u[j + k - 1] {
            gf_add(prev, pts[k - 1])
        } else {
            prev
        }
    }
}

/// `sum over i < k of pts[i] * row[i]`.
pub open spec fn v_tilde(row: Seq<nat>, pts: Seq<nat>, k: nat) -> nat
    decreases k,
{
    if k == 0 {
        0
    } else {
        gf_add(v_tilde(row, pts, (k - 1) as nat), gf_mul(pts[k - 1], row[k - 1]))
    }
}

/// The 16 bytes of a field element, least significant first.
pub open spec fn le_bytes(x: u128) -> Seq<u8> {
    Seq::new(16, |t: int| ((x >> ((8 * t) as u128)) & 0xff) as u8)
}

/// The first `k` elements of `xs`, 16 bytes each.
pub open spec fn serialize(xs: Seq<GF2p128>, k: nat) -> Seq<u8>
    decreases k,
{
    if k == 0 {
        seq![]
    } else {
        serialize(xs, (k - 1) as nat) + le_bytes(xs[k - 1].0)
    }
}

/// The bits of an optional message.
pub open spec fn opt_view(m: Option<Vec<bool>>) -> Option<Seq<bool>> {
    match m {
        Some(v) => Some(v@),
        None => None,
    }
}

/// Values of a vector of field elements.
pub open spec fn values(v: Seq<GF2p128>) -> Seq<nat> {
    Seq::new(v.len(), |i: int| v[i]@)
}

/// The leaf seeds that a key holds.
pub open spec fn key_seeds(key: DecommitmentKey) -> Seq<Seq<u8>> {
    Seq::new(key.seeds@.len(), |x: int| key.seeds@[x]@)
}

/// `op` is the opening of `key` at leaf `index`.
pub open spec fn is_opening(key: DecommitmentKey, index: u8, op: Opening) -> bool {
    &&& op.index == index
    &&& op.seeds@.len() == Q - 1
    &&& forall|k: int|
        0 <= k < Q - 1 ==> (#[trigger] op.seeds@[k])@ == key.seeds@[if k < index {
            k
        } else {
            k + 1
        }]@
    &&& op.hidden_digest@ == key.digests@[index as int]@
}

pub proof fn lemma_xor_leaves_len(seeds: Seq<Seq<u8>>, n: nat, k: nat)
    ensures
        xor_leaves(seeds, n, k).len() == n,
    decreases k,
{
    if k > 0 {
        lemma_xor_leaves_len(seeds, n, (k - 1) as nat);
    }
}

// ---------------------------------------------------------------------------
// Bit vectors and field vectors.

/// The expansion of a leaf seed to `n` bits.
pub fn leaf_expansion(seed: &Vec<u8>, n: usize) -> (r: Vec<bool>)
    requires
        n + 7 <= usize::MAX,
    ensures
        r@ == leaf_bits(seed@, n as nat),
{
    let input = tagged_bytes(EXPAND_TAG, seed);
    let bytes = expand(input.as_slice(), (n + 7) / 8);
    let mut r: Vec<bool> = Vec::new();
    let mut k: usize = 0;
    while k < n
        invariant
            k <= n,
            n + 7 <= usize::MAX,
            bytes@ == blake3_xof(tagged(EXPAND_TAG, seed@), ((n + 7) / 8) as nat),
            bytes@.len() == (n + 7) / 8,
            r@ == leaf_bits(seed@, n as nat).subrange(0, k as int),
        decreases n - k,
    {
        r.push((bytes[k / 8] >> ((k % 8) as u8)) & 1 == 1);
        k = k + 1;
        proof {
            assert(r@ =~= leaf_bits(seed@, n as nat).subrange(0, k as int));
        }
    }
    proof {
        assert(r@ =~= leaf_bits(seed@, n as nat));
    }
    r
}

/// `a ^= b`, bit by bit.
pub fn bit_xor_assign(a: &mut Vec<bool>, b: &Vec<bool>)
    requires
        old(a)@.len() <= b@.len(),
    ensures
        final(a)@ == bits_xor(old(a)@, b@),
{
    let mut k: usize = 0;
    while k < a.len()
        invariant
            a@.len() == old(a)@.len(),
            a@.len() <= b@.len(),
            k <= a@.len(),
            forall|t: int| 0 <= t < k ==> a@[t] == (old(a)@[t] != b@[t]),
            forall|t: int| k <= t < a@.len() ==> a@[t] == old(a)@[t],
        decreases a@.len() - k,
    {
        let x = a[k] != b[k];
        a.set(k, x);
        k = k + 1;
    }
    proof {
        assert(a@ =~= bits_xor(old(a)@, b@));
    }
}

/// Adds `x` to each entry of `v` whose bit in `bits` is set.
pub fn bitmul_accumulate(v: &mut Vec<GF2p128>, x: GF2p128, bits: &Vec<bool>)
    requires
        old(v)@.len() == bits@.len(),
    ensures
        final(v)@.len() == old(v)@.len(),
        forall|j: int|
            0 <= j < bits@.len() ==> (#[trigger] final(v)@[j])@ == if bits@[j] {
                gf_add(old(v)@[j]@, x@)
            } else {
                old(v)@[j]@
            },
{
    let mut j: usize = 0;
    while j < v.len()
        invariant
            v@.len() == old(v)@.len() == bits@.len(),
            j <= v@.len(),
            forall|t: int|
                0 <= t < j ==> (#[trigger] v@[t])@ == if bits@[t] {
                    gf_add(old(v)@[t]@, x@)
                } else {
                    old(v)@[t]@
                },
            forall|t: int| j <= t < v@.len() ==> #[trigger] v@[t] == old(v)@[t],
        decreases v@.len() - j,
    {
        if bits[j] {
            let y = v[j].add(x);
            v.set(j, y);
        }
        j = j + 1;
    }
}

/// `n` zero field elements.
pub fn zero_vector(n: usize) -> (r: Vec<GF2p128>)
    ensures
        r@.len() == n,
        forall|j: int| 0 <= j < n ==> (#[trigger] r@[j])@ == 0,
{
    let mut r: Vec<GF2p128> = Vec::new();
    let mut j: usize = 0;
    while j < n
        invariant
            j <= n,
            r@.len() == j,
            forall|t: int| 0 <= t < j ==> (#[trigger] r@[t])@ == 0,
        decreases n - j,
    {
        r.push(GF2p128::zero());
        j = j + 1;
    }
    r
}

/// `n` zero bits.
pub fn zero_bit_vector(n: usize) -> (r: Vec<bool>)
    ensures
        r@ == zero_bits(n as nat),
{
    let mut r: Vec<bool> = Vec::new();
    let mut j: usize = 0;
    while j < n
        invariant
            j <= n,
            r@ == zero_bits(j as nat),
        decreases n - j,
    {
        r.push(false);
        j = j + 1;
        proof {
            assert(r@ =~= zero_bits(j as nat));
        }
    }
    r
}

/// The transpose of a `rows x cols` matrix.
pub fn transpose(m: &Vec<Vec<GF2p128>>, rows: usize, cols: usize) -> (r: Vec<Vec<GF2p128>>)
    requires
        m@.len() == rows,
        forall|i: int| 0 <= i < rows ==> (#[trigger] m@[i])@.len() == cols,
    ensures
        r@.len() == cols,
        forall|j: int| 0 <= j < cols ==> (#[trigger] r@[j])@.len() == rows,
        forall|j: int, i: int| 0 <= j < cols && 0 <= i < rows ==> r@[j]@[i] == m@[i]@[j],
{
    let mut r: Vec<Vec<GF2p128>> = Vec::new();
    let mut j: usize = 0;
    while j < cols
        invariant
            j <= cols,
            m@.len() == rows,
            forall|i: int| 0 <= i < rows ==> (#[trigger] m@[i])@.len() == cols,
            r@.len() == j,
            forall|c: int| 0 <= c < j ==> (#[trigger] r@[c])@.len() == rows,
            forall|c: int, i: int| 0 <= c < j && 0 <= i < rows ==> r@[c]@[i] == m@[i]@[c],
        decreases cols - j,
    {
        let mut col: Vec<GF2p128> = Vec::new();
        let mut i: usize = 0;
        while i < rows
            invariant
                i <= rows,
                j < cols,
                m@.len() == rows,
                forall|t: int| 0 <= t < rows ==> (#[trigger] m@[t])@.len() == cols,
                col@.len() == i,
                forall|t: int| 0 <= t < i ==> col@[t] == m@[t]@[j as int],
            decreases rows - i,
        {
            col.push(m[i][j]);
            i = i + 1;
        }
        r.push(col);
        j = j + 1;
    }
    r
}

/// The 16 bytes of a field element, least significant first.
pub fn to_le_bytes(x: GF2p128) -> (r: Vec<u8>)
    ensures
        r@ == le_bytes(x.0),
{
    let mut r: Vec<u8> = Vec::new();
    let mut t: usize = 0;
    while t < 16
        invariant
            t <= 16,
            r@ == le_bytes(x.0).subrange(0, t as int),
        decreases 16 - t,
    {
        r.push(((x.0 >> ((8 * t) as u128)) & 0xff) as u8);
        t = t + 1;
        proof {
            assert(r@ =~= le_bytes(x.0).subrange(0, t as int));
        }
    }
    proof {
        assert(r@ =~= le_bytes(x.0));
    }
    r
}

// ---------------------------------------------------------------------------
// One repetition.

/// The seeds of the `tau` repetitions, drawn from the sender's seed.
pub fn repetition_seeds(seed: &Vec<u8>, tau: usize) -> (r: Vec<Vec<u8>>)
    requires
        SEED_LEN * tau <= usize::MAX,
    ensures
        r@.len() == tau,
        forall|i: int| 0 <= i < tau ==> (#[trigger] r@[i])@ == rep_seed(seed@, tau as nat, i),
{
    let all = expand(seed.as_slice(), SEED_LEN * tau);
    let mut r: Vec<Vec<u8>> = Vec::new();
    let mut i: usize = 0;
    while i < tau
        invariant
            i <= tau,
            SEED_LEN * tau <= usize::MAX,
            all@ == blake3_xof(seed@, (SEED_LEN * tau) as nat),
            all@.len() == SEED_LEN * tau,
            r@.len() == i,
            forall|t: int| 0 <= t < i ==> (#[trigger] r@[t])@ == rep_seed(seed@, tau as nat, t),
        decreases tau - i,
    {
        r.push(subvec(&all, i * SEED_LEN, i * SEED_LEN + SEED_LEN));
        i = i + 1;
    }
    r
}

/// Expands every leaf of one repetition: returns the exclusive or of all leaf
/// expansions, and for each coordinate the sum of the embeddings of the
/// leaves `x >= 1` whose expansion has that bit set.
#[verifier::rlimit(20)]
pub fn expand_repetition(key: &DecommitmentKey, n: usize) -> (r: (Vec<bool>, Vec<GF2p128>))
    requires
        key.seeds@.len() == Q,
        n + 7 <= usize::MAX,
    ensures
        r.0@ == xor_leaves(key_seeds(*key), n as nat, Q as nat),
        r.1@.len() == n,
        forall|j: int| 0 <= j < n ==> (#[trigger] r.1@[j])@ == v_acc(key_seeds(*key), n as nat, Q as nat, j),
{
    let ghost seeds = key_seeds(*key);
    let mut u = leaf_expansion(&key.seeds[0], n);
    proof {
        assert(xor_leaves(seeds, n as nat, 0) == zero_bits(n as nat));
        assert(u@ =~= xor_leaves(seeds, n as nat, 1));
    }
    let mut v = zero_vector(n);
    let mut x: usize = 1;
    while x < Q
        invariant
            1 <= x <= Q,
            key.seeds@.len() == Q,
            n + 7 <= usize::MAX,
            seeds == key_seeds(*key),
            u@ == xor_leaves(seeds, n as nat, x as nat),
            u@.len() == n,
            v@.len() == n,
            forall|j: int| 0 <= j < n ==> (#[trigger] v@[j])@ == v_acc(seeds, n as nat, x as nat, j),
        decreases Q - x,
    {
        let r_x = leaf_expansion(&key.seeds[x], n);
        bit_xor_assign(&mut u, &r_x);
        let e = GF2p128::embed_gf2p8(x as u8);
        bitmul_accumulate(&mut v, e, &r_x);
        x = x + 1;
        proof {
            assert(u@ =~= xor_leaves(seeds, n as nat, x as nat));
        }
    }
    (u, v)
}

// ---------------------------------------------------------------------------
// The sender.

/// Stage of the protocol that a sender has reached.
#[derive(Clone, Copy, Debug, PartialEq, Eq, Structural)]
pub enum SenderState {
    New,
    Committed,
    RespondedToConsistencyChallenge,
    Ready,
}

/// The first message: the aggregate commitment and the correction values.
#[derive(Clone, Debug, PartialEq, Eq)]
pub struct Commitment {
    pub vc_commitment_hash: Vec<u8>,
    pub correction_values: Vec<Vec<bool>>,
}

/// The answer to the consistency challenge.
#[derive(Clone, Debug, PartialEq, Eq)]
pub struct Response {
    pub vector: Vec<GF2p128>,
    pub hsh: Vec<u8>,
}

/// The sender. `u` and `V` are built by `commit`; `V` then has one row per
/// output coordinate and one column per repetition.
pub struct VoleInTheHeadSenderFromVC {
    pub vole_length: usize,
    pub num_repetitions: usize,
    pub seed: Vec<u8>,
    pub state: SenderState,
    pub u: Vec<bool>,
    pub v: Vec<Vec<GF2p128>>,
    pub decommitment_keys: Vec<DecommitmentKey>,
}

impl VoleInTheHeadSenderFromVC {
    /// `vole_length + num_repetitions`.
    pub open spec fn ell_hat(&self) -> nat {
        (self.vole_length + self.num_repetitions) as nat
    }

    /// Row `j` of `V`, as values.
    pub open spec fn row(&self, j: int) -> Seq<nat> {
        values(self.v@[j]@)
    }

    /// What `commit` leaves behind: `V` transposed, holding the leaf sums,
    /// and one key per repetition.
    pub open spec fn committed(&self) -> bool {
        let (seed, tau, n) = (self.seed@, self.num_repetitions as nat, self.ell_hat());
        &&& self.v@.len() == n
        &&& forall|j: int| 0 <= j < n ==> (#[trigger] self.v@[j])@.len() == tau
        &&& forall|j: int, i: int|
            0 <= j < n && 0 <= i < tau ==> (#[trigger] self.v@[j]@[i])@ == v_acc(
                rep_leaves(seed, tau, i),
                n,
                Q as nat,
                j,
            )
        &&& self.decommitment_keys@.len() == tau
        &&& forall|i: int|
            0 <= i < tau ==> (#[trigger] self.decommitment_keys@[i]).is_for(
                rep_seed(seed, tau, i),
            )
    }

    /// `V` is `num_repetitions` rows of `vole_length + num_repetitions` zeros.
    pub open spec fn v_is_zero(&self) -> bool {
        &&& self.v@.len() == self.num_repetitions
        &&& forall|i: int|
            0 <= i < self.num_repetitions ==> (#[trigger] self.v@[i])@.len() == self.ell_hat()
        &&& forall|i: int, j: int|
            0 <= i < self.num_repetitions && 0 <= j < self.ell_hat() ==> (#[trigger] self.v@[i]@[j])@
                == 0
    }

    /// The invariant of the sender in each stage.
    pub open spec fn inv(&self) -> bool {
        &&& self.seed@.len() == SEED_LEN
        &&& 1 <= self.num_repetitions
        &&& self.vole_length + self.num_repetitions + 7 <= usize::MAX
        &&& SEED_LEN * self.num_repetitions <= usize::MAX
        &&& match self.state {
            SenderState::New => {
                &&& self.u@ == zero_bits(self.ell_hat())
                &&& self.v_is_zero()
                &&& self.decommitment_keys@.len() == 0
            },
            SenderState::Committed => {
                &&& self.u@.len() == self.ell_hat()
                &&& self.committed()
            },
            _ => {
                &&& self.u@.len() == self.vole_length
                &&& self.committed()
            },
        }
    }

    /// The stage reached.
    pub fn state(&self) -> (r: SenderState)
        ensures
            r == self.state,
    {
        self.state
    }

    /// What `commit` does: the new stage, `u`, the aggregate commitment and
    /// the correction values.
    pub open spec fn commit_post(
        pre: Self,
        post: Self,
        msg: Option<Seq<bool>>,
        r: Commitment,
    ) -> bool {
        let (seed, tau, ell) = (pre.seed@, pre.num_repetitions as nat, pre.vole_length as nat);
        let n = ell + tau;
        let off: int = if msg is Some {
            1
        } else {
            0
        };
        &&& post.state == SenderState::Committed
        &&& post.vole_length == pre.vole_length
        &&& post.num_repetitions == pre.num_repetitions
        &&& post.seed@ == seed
        &&& post.u@ == committed_u(seed, tau, ell, msg)
        &&& r.vc_commitment_hash@ == blake3_digest(rep_digests(seed, tau, tau))
        &&& r.correction_values@.len() == tau - 1 + off
        &&& (msg matches Some(m) ==> r.correction_values@[0]@ == bits_xor(
            m,
            rep_xor(seed, tau, n, 0).subrange(0, ell as int),
        ))
        &&& forall|k: int|
            off <= k < tau - 1 + off ==> (#[trigger] r.correction_values@[k])@ == bits_xor(
                rep_xor(seed, tau, n, k + 1 - off),
                post.u@,
            )
    }

    #[verifier::rlimit(20)]
    fn commit_impl(&mut self, message: Option<Vec<bool>>) -> (r: Commitment)
        requires
            old(self).inv(),
            old(self).state == SenderState::New,
            message matches Some(m) ==> m@.len() == old(self).vole_length,
        ensures
            final(self).inv(),
            Self::commit_post(
                *old(self),
                *final(self),
                opt_view(message),
                r,
            ),
    {
        let tau = self.num_repetitions;
        let ell = self.vole_length;
        let ell_hat = ell + tau;
        let ghost seed = self.seed@;
        let ghost msg: Option<Seq<bool>> = opt_view(message);
        let ghost off: int = if message is Some {
            1
        } else {
            0
        };
        let rep_seeds = repetition_seeds(&self.seed, tau);
        let mut digests: Vec<u8> = Vec::new();
        let mut correction_values: Vec<Vec<bool>> = Vec::new();
        let mut rows: Vec<Vec<GF2p128>> = Vec::new();
        let mut keys: Vec<DecommitmentKey> = Vec::new();
        let mut u: Vec<bool> = Vec::new();
        let mut i: usize = 0;
        while i < tau
            invariant
                i <= tau,
                tau == self.num_repetitions,
                ell == self.vole_length,
                ell_hat == ell + tau,
                ell_hat + 7 <= usize::MAX,
                SEED_LEN * tau <= usize::MAX,
                seed == self.seed@,
                msg == opt_view(message),
                message matches Some(m) ==> m@.len() == ell,
                off == if message is Some {
                    1int
                } else {
                    0
                },
                rep_seeds@.len() == tau,
                forall|t: int| 0 <= t < tau ==> (#[trigger] rep_seeds@[t])@ == rep_seed(seed, tau as nat, t),
                digests@ == rep_digests(seed, tau as nat, i as nat),
                rows@.len() == i,
                forall|t: int| 0 <= t < i ==> (#[trigger] rows@[t])@.len() == ell_hat,
                forall|t: int, j: int|
                    0 <= t < i && 0 <= j < ell_hat ==> (#[trigger] rows@[t]@[j])@ == v_acc(
                        rep_leaves(seed, tau as nat, t),
                        ell_hat as nat,
                        Q as nat,
                        j,
                    ),
                keys@.len() == i,
                forall|t: int|
                    0 <= t < i ==> (#[trigger] keys@[t]).is_for(rep_seed(seed, tau as nat, t)),
                i > 0 ==> u@ == committed_u(seed, tau as nat, ell as nat, msg),
                i > 0 ==> u@.len() == ell_hat,
                correction_values@.len() == if i == 0 {
                    0
                } else {
                    i - 1 + off
                },
                i > 0 ==> (msg matches Some(m) ==> correction_values@[0]@ == bits_xor(
                    m,
                    rep_xor(seed, tau as nat, ell_hat as nat, 0).subrange(0, ell as int),
                )),
                forall|t: int|
                    1 <= t < i ==> (#[trigger] correction_values@[t - 1 + off])@ == bits_xor(
                        rep_xor(seed, tau as nat, ell_hat as nat, t),
                        u@,
                    ),
            decreases tau - i,
        {
            let (commitment, key) = vc_commit(&rep_seeds[i]);
            append_bytes(&mut digests, &commitment);
            let (u_i, v_i) = expand_repetition(&key, ell_hat);
            proof {
                lemma_xor_leaves_len(key_seeds(key), ell_hat as nat, Q as nat);
                assert(key_seeds(key) =~= rep_leaves(seed, tau as nat, i as int));
                assert(digests@ =~= rep_digests(seed, tau as nat, (i + 1) as nat));
            }
            keys.push(key);
            rows.push(v_i);
            if i == 0 {
                let mut u_0 = u_i;
                match &message {
                    Some(msg_bits) => {
                        let mut msg_correction = copy_bits(msg_bits);
                        bit_xor_assign(&mut msg_correction, &u_0);
                        let mut k: usize = 0;
                        while k < ell
                            invariant
                                k <= ell,
                                msg_bits@.len() == ell,
                                u_0@.len() == ell_hat,
                                ell <= ell_hat,
                                forall|t: int| 0 <= t < k ==> u_0@[t] == msg_bits@[t],
                                forall|t: int| k <= t < ell_hat ==> u_0@[t] == u_i@[t],
                            decreases ell - k,
                        {
                            u_0.set(k, msg_bits[k]);
                            k = k + 1;
                        }
                        proof {
                            assert(u_0@ =~= committed_u(seed, tau as nat, ell as nat, msg));
                            assert(msg_correction@ =~= bits_xor(
                                msg_bits@,
                                rep_xor(seed, tau as nat, ell_hat as nat, 0).subrange(0, ell as int),
                            ));
                        }
                        correction_values.push(msg_correction);
                    },
                    None => {},
                }
                u = u_0;
            } else {
                let mut u_i = u_i;
                bit_xor_assign(&mut u_i, &u);
                correction_values.push(u_i);
                proof {
                    assert(correction_values@[i - 1 + off]@ == bits_xor(
                        rep_xor(seed, tau as nat, ell_hat as nat, i as int),
                        u@,
                    ));
                }
            }
            i = i + 1;
        }
        let vc_commitment_hash = digest(digests.as_slice());
        let v = transpose(&rows, tau, ell_hat);
        proof {
            assert forall|j: int, t: int| 0 <= j < ell_hat && 0 <= t < tau implies (#[trigger] v@[j]@[t])@
                == v_acc(rep_leaves(seed, tau as nat, t), ell_hat as nat, Q as nat, j) by {
                assert(v@[j]@[t] == rows@[t]@[j]);
            }
        }
        self.v = v;
        self.u = u;
        self.decommitment_keys = keys;
        self.state = SenderState::Committed;
        proof {
            assert forall|k: int| off <= k < tau - 1 + off implies (
            #[trigger] correction_values@[k])@ == bits_xor(
                rep_xor(seed, tau as nat, ell_hat as nat, k + 1 - off),
                self.u@,
            ) by {
                let t = k + 1 - off;
                assert(correction_values@[t - 1 + off] == correction_values@[k]);
            }
        }
        Commitment { vc_commitment_hash, correction_values }
    }

}

/// The sender side of VOLE-in-the-head, as a protocol of four stages:
/// commit, answer the consistency challenge, open, and read the output.
pub trait VoleInTheHeadSender: Sized {
    type Commitment;
    type Response;
    type Decommitment;
    type Field;

    /// What holds of a sender between calls.
    spec fn sender_inv(&self) -> bool;

    /// The stage reached.
    spec fn stage(&self) -> SenderState;

    /// The number of usable correlations.
    spec fn output_length(&self) -> nat;

    /// The number of repetitions.
    spec fn repetitions(&self) -> nat;

    /// A sender in stage `New` that will draw all its randomness from `seed`.
    fn new(vole_length: usize, num_repetitions: usize, seed: Vec<u8>) -> (r: Self)
        requires
            seed@.len() == SEED_LEN,
            1 <= num_repetitions,
            vole_length + num_repetitions + 7 <= usize::MAX,
            SEED_LEN * num_repetitions <= usize::MAX,
        ensures
            r.sender_inv(),
            r.stage() == SenderState::New,
            r.output_length() == vole_length,
            r.repetitions() == num_repetitions,
    ;

    /// Commits to `message`, of `output_length` bits.
    fn commit_message(&mut self, message: Vec<bool>) -> (r: Self::Commitment)
        requires
            old(self).sender_inv(),
            old(self).stage() == SenderState::New,
            message@.len() == old(self).output_length(),
        ensures
            final(self).sender_inv(),
            final(self).stage() == SenderState::Committed,
            final(self).output_length() == old(self).output_length(),
            final(self).repetitions() == old(self).repetitions(),
    ;

    /// Commits to random bits.
    fn commit_random(&mut self) -> (r: Self::Commitment)
        requires
            old(self).sender_inv(),
            old(self).stage() == SenderState::New,
        ensures
            final(self).sender_inv(),
            final(self).stage() == SenderState::Committed,
            final(self).output_length() == old(self).output_length(),
            final(self).repetitions() == old(self).repetitions(),
    ;

    /// Answers the consistency challenge, one random point per repetition.
    fn consistency_check_respond(&mut self, random_points: Vec<Self::Field>) -> (r: Self::Response)
        requires
            old(self).sender_inv(),
            old(self).stage() == SenderState::Committed,
            random_points@.len() == old(self).repetitions(),
        ensures
            final(self).sender_inv(),
            final(self).stage() == SenderState::RespondedToConsistencyChallenge,
            final(self).output_length() == old(self).output_length(),
            final(self).repetitions() == old(self).repetitions(),
    ;

    /// Opens the commitments at all leaves but the challenged one, one
    /// challenge per repetition.
    #[allow(non_snake_case)]
    fn decommit(&mut self, Deltas: Vec<u8>) -> (r: Self::Decommitment)
        requires
            old(self).sender_inv(),
            old(self).stage() == SenderState::RespondedToConsistencyChallenge,
            Deltas@.len() == old(self).repetitions(),
        ensures
            final(self).sender_inv(),
            final(self).stage() == SenderState::Ready,
            final(self).output_length() == old(self).output_length(),
            final(self).repetitions() == old(self).repetitions(),
    ;

    /// The correlation: `output_length` bits and as many rows of field
    /// elements, one per repetition.
    fn get_output(&self) -> (r: (Vec<bool>, Vec<Vec<Self::Field>>))
        requires
            self.sender_inv(),
            self.stage() != SenderState::New,
        ensures
            r.0@.len() == self.output_length(),
            r.1@.len() == self.output_length(),
            forall|j: int|
                0 <= j < self.output_length() ==> (#[trigger] r.1@[j])@.len() == self.repetitions(),
    ;
}

impl VoleInTheHeadSender for VoleInTheHeadSenderFromVC {
    type Commitment = Commitment;
    type Response = Response;
    type Decommitment = Vec<Opening>;
    type Field = GF2p128;

    open spec fn sender_inv(&self) -> bool {
        self.inv()
    }

    open spec fn stage(&self) -> SenderState {
        self.state
    }

    open spec fn output_length(&self) -> nat {
        self.vole_length as nat
    }

    open spec fn repetitions(&self) -> nat {
        self.num_repetitions as nat
    }

    /// A sender that will draw all its leaves from `seed`.
    fn new(vole_length: usize, num_repetitions: usize, seed: Vec<u8>) -> (r: Self)
        ensures
            r.inv(),
            r.state == SenderState::New,
            r.vole_length == vole_length,
            r.num_repetitions == num_repetitions,
            r.seed@ == seed@,
            r.u@ == zero_bits((vole_length + num_repetitions) as nat),
            r.v_is_zero(),
            r.decommitment_keys@.len() == 0,
    {
        let ell_hat = vole_length + num_repetitions;
        let mut v: Vec<Vec<GF2p128>> = Vec::new();
        let mut i: usize = 0;
        while i < num_repetitions
            invariant
                i <= num_repetitions,
                v@.len() == i,
                forall|t: int| 0 <= t < i ==> (#[trigger] v@[t])@.len() == ell_hat,
                forall|t: int, j: int| 0 <= t < i && 0 <= j < ell_hat ==> (#[trigger] v@[t]@[j])@ == 0,
            decreases num_repetitions - i,
        {
            v.push(zero_vector(ell_hat));
            i = i + 1;
        }
        VoleInTheHeadSenderFromVC {
            vole_length,
            num_repetitions,
            seed,
            state: SenderState::New,
            u: zero_bit_vector(ell_hat),
            v,
            decommitment_keys: Vec::new(),
        }
    }

    /// Commits to `message`, of `vole_length` bits.
    fn commit_message(&mut self, message: Vec<bool>) -> (r: Commitment)
        ensures
            final(self).inv(),
            Self::commit_post(*old(self), *final(self), Some(message@), r),
    {
        self.commit_impl(Some(message))
    }

    /// Commits to random bits.
    fn commit_random(&mut self) -> (r: Commitment)
        ensures
            final(self).inv(),
            Self::commit_post(*old(self), *final(self), None, r),
    {
        self.commit_impl(None)
    }

    /// Folds the repetitions into one view with the verifier's random points:
    /// returns `sum_i points[i] * u[j + i]` for each `j < vole_length` and the
    /// digest of `sum_i points[i] * V[j][i]` for each row `j`. Keeps only the
    /// first `vole_length` bits of `u`.
    #[verifier::rlimit(20)]
    fn consistency_check_respond(&mut self, random_points: Vec<GF2p128>) -> (r: Response)
        ensures
            final(self).inv(),
            final(self).state == SenderState::RespondedToConsistencyChallenge,
            final(self).vole_length == old(self).vole_length,
            final(self).num_repetitions == old(self).num_repetitions,
            final(self).seed@ == old(self).seed@,
            final(self).u@ == old(self).u@.subrange(0, old(self).vole_length as int),
            final(self).v@ == old(self).v@,
            final(self).decommitment_keys@ == old(self).decommitment_keys@,
            r.vector@.len() == old(self).vole_length,
            forall|j: int|
                0 <= j < old(self).vole_length ==> (#[trigger] r.vector@[j])@ == u_tilde(
                    old(self).u@,
                    values(random_points@),
                    j,
                    old(self).num_repetitions as nat,
                ),
            r.hsh@ == blake3_digest(
                serialize(
                    Seq::new(
                        old(self).ell_hat(),
                        |j: int|
                            GF2p128(
                                v_tilde(
                                    old(self).row(j),
                                    values(random_points@),
                                    old(self).num_repetitions as nat,
                                ) as u128,
                            ),
                    ),
                    old(self).ell_hat(),
                ),
            ),
    {
        let tau = self.num_repetitions;
        let ell = self.vole_length;
        let ell_hat = ell + tau;
        let ghost pts = values(random_points@);
        let mut vector: Vec<GF2p128> = Vec::new();
        let mut j: usize = 0;
        while j < ell
            invariant
                j <= ell,
                ell == self.vole_length,
                tau == self.num_repetitions,
                self.u@.len() == ell + tau,
                random_points@.len() == tau,
                pts == values(random_points@),
                vector@.len() == j,
                forall|t: int|
                    0 <= t < j ==> (#[trigger] vector@[t])@ == u_tilde(self.u@, pts, t, tau as nat),
            decreases ell - j,
        {
            let c = combine_bits(&self.u, &random_points, j);
            vector.push(c);
            j = j + 1;
        }
        let ghost vt = Seq::new(
            ell_hat as nat,
            |t: int| GF2p128(v_tilde(self.row(t), pts, tau as nat) as u128),
        );
        let mut bytes: Vec<u8> = Vec::new();
        let mut j: usize = 0;
        while j < ell_hat
            invariant
                j <= ell_hat,
                ell_hat == self.ell_hat(),
                tau == self.num_repetitions,
                self.inv(),
                self.state == SenderState::Committed,
                random_points@.len() == tau,
                pts == values(random_points@),
                vt == Seq::new(
                    ell_hat as nat,
                    |t: int| GF2p128(v_tilde(self.row(t), pts, tau as nat) as u128),
                ),
                bytes@ == serialize(vt, j as nat),
            decreases ell_hat - j,
        {
            let c = combine_row(&self.v[j], &random_points);
            proof {
                assert(self.row(j as int) == values(self.v@[j as int]@));
                assert(vt[j as int] == c);
            }
            let b = to_le_bytes(c);
            append_bytes(&mut bytes, &b);
            j = j + 1;
        }
        let hsh = digest(bytes.as_slice());
        self.u.truncate(ell);
        self.state = SenderState::RespondedToConsistencyChallenge;
        Response { vector, hsh }
    }

    /// Opens the commitment of each repetition at all leaves but the one
    /// named by its challenge.
    #[allow(non_snake_case)]
    fn decommit(&mut self, Deltas: Vec<u8>) -> (r: Vec<Opening>)
        ensures
            final(self).inv(),
            final(self).state == SenderState::Ready,
            final(self).vole_length == old(self).vole_length,
            final(self).num_repetitions == old(self).num_repetitions,
            final(self).seed@ == old(self).seed@,
            final(self).u@ == old(self).u@,
            final(self).v@ == old(self).v@,
            final(self).decommitment_keys@ == old(self).decommitment_keys@,
            r@.len() == old(self).num_repetitions,
            forall|i: int|
                0 <= i < r@.len() ==> is_opening(
                    old(self).decommitment_keys@[i],
                    Deltas@[i],
                    #[trigger] r@[i],
                ),
    {
        let mut openings: Vec<Opening> = Vec::new();
        let mut i: usize = 0;
        while i < self.num_repetitions
            invariant
                i <= self.num_repetitions,
                self.inv(),
                self.state == SenderState::RespondedToConsistencyChallenge,
                Deltas@.len() == self.num_repetitions,
                openings@.len() == i,
                forall|t: int|
                    0 <= t < i ==> is_opening(
                        self.decommitment_keys@[t],
                        Deltas@[t],
                        #[trigger] openings@[t],
                    ),
            decreases self.num_repetitions - i,
        {
            let op = vc_decommit(&self.decommitment_keys[i], Deltas[i]);
            openings.push(op);
            i = i + 1;
        }
        self.state = SenderState::Ready;
        openings
    }

    /// The correlation: the first `vole_length` bits of `u` and the first
    /// `vole_length` rows of `V`.
    fn get_output(&self) -> (r: (Vec<bool>, Vec<Vec<GF2p128>>))
        ensures
            r.0@ == self.u@.subrange(0, self.vole_length as int),
            r.1@.len() == self.vole_length,
            forall|j: int| 0 <= j < self.vole_length ==> (#[trigger] r.1@[j])@ == self.v@[j]@,
    {
        let ell = self.vole_length;
        let mut u: Vec<bool> = Vec::new();
        let mut k: usize = 0;
        while k < ell
            invariant
                k <= ell,
                ell == self.vole_length,
                ell <= self.u@.len(),
                u@ == self.u@.subrange(0, k as int),
            decreases ell - k,
        {
            u.push(self.u[k]);
            k = k + 1;
            proof {
                assert(u@ =~= self.u@.subrange(0, k as int));
            }
        }
        let mut rows: Vec<Vec<GF2p128>> = Vec::new();
        let mut j: usize = 0;
        while j < ell
            invariant
                j <= ell,
                ell == self.vole_length,
                ell <= self.v@.len(),
                rows@.len() == j,
                forall|t: int| 0 <= t < j ==> (#[trigger] rows@[t])@ == self.v@[t]@,
            decreases ell - j,
        {
            rows.push(copy_row(&self.v[j]));
            j = j + 1;
        }
        (u, rows)
    }
}

/// `sum over i < tau of points[i] * u[j + i]`.
fn combine_bits(u: &Vec<bool>, points: &Vec<GF2p128>, j: usize) -> (r: GF2p128)
    requires
        j + points@.len() <= u@.len(),
    ensures
        r@ == u_tilde(u@, values(points@), j as int, points@.len() as nat),
{
    let mut acc = GF2p128::zero();
    let ulen = u.len();
    let mut i: usize = 0;
    while i < points.len()
        invariant
            i <= points@.len(),
            ulen == u@.len(),
            j + points@.len() <= u@.len(),
            acc@ == u_tilde(u@, values(points@), j as int, i as nat),
        decreases points@.len() - i,
    {
        if u[j + i] {
            acc = acc.add(points[i]);
        }
        i = i + 1;
    }
    acc
}

/// `sum over i of points[i] * row[i]`.
fn combine_row(row: &Vec<GF2p128>, points: &Vec<GF2p128>) -> (r: GF2p128)
    requires
        row@.len() == points@.len(),
    ensures
        r@ == v_tilde(values(row@), values(points@), points@.len() as nat),
{
    let mut acc = GF2p128::zero();
    let mut i: usize = 0;
    while i < points.len()
        invariant
            i <= points@.len(),
            row@.len() == points@.len(),
            acc@ == v_tilde(values(row@), values(points@), i as nat),
        decreases points@.len() - i,
    {
        let p = points[i].mul(row[i]);
        acc = acc.add(p);
        i = i + 1;
    }
    acc
}

/// A copy of a bit vector.
fn copy_bits(v: &Vec<bool>) -> (r: Vec<bool>)
    ensures
        r@ == v@,
{
    let mut r: Vec<bool> = Vec::new();
    let mut k: usize = 0;
    while k < v.len()
        invariant
            k <= v@.len(),
            r@ == v@.subrange(0, k as int),
        decreases v@.len() - k,
    {
        r.push(v[k]);
        k = k + 1;
        proof {
            assert(r@ =~= v@.subrange(0, k as int));
        }
    }
    proof {
        assert(r@ =~= v@);
    }
    r
}

/// A copy of a row of field elements.
fn copy_row(v: &Vec<GF2p128>) -> (r: Vec<GF2p128>)
    ensures
        r@ == v@,
{
    let mut r: Vec<GF2p128> = Vec::new();
    let mut k: usize = 0;
    while k < v.len()
        invariant
            k <= v@.len(),
            r@ == v@.subrange(0, k as int),
        decreases v@.len() - k,
    {
        r.push(v[k]);
        k = k + 1;
        proof {
            assert(r@ =~= v@.subrange(0, k as int));
        }
    }
    proof {
        assert(r@ =~= v@);
    }
    r
}

// ---------------------------------------------------------------------------
// Laws.

/// Committing to a message: the correction value of repetition 0, added back
/// to the exclusive or of all leaf expansions of that repetition, gives the
/// message.
pub proof fn lemma_message_round_trip(
    pre: VoleInTheHeadSenderFromVC,
    post: VoleInTheHeadSenderFromVC,
    m: Seq<bool>,
    r: Commitment,
)
    requires
        pre.inv(),
        m.len() == pre.vole_length,
        VoleInTheHeadSenderFromVC::commit_post(pre, post, Some(m), r),
    ensures
        bits_xor(
            r.correction_values@[0]@,
            rep_xor(pre.seed@, pre.num_repetitions as nat, pre.ell_hat(), 0).subrange(
                0,
                pre.vole_length as int,
            ),
        ) == m,
{
    let x = rep_xor(pre.seed@, pre.num_repetitions as nat, pre.ell_hat(), 0);
    lemma_xor_leaves_len(rep_leaves(pre.seed@, pre.num_repetitions as nat, 0), pre.ell_hat(), Q as nat);
    assert(bits_xor(r.correction_values@[0]@, x.subrange(0, pre.vole_length as int)) =~= m);
}

/// Two senders with the same parameters and seed commit to the same message
/// with the same commitment, correction values and `u`.
pub proof fn lemma_commit_deterministic(
    pre1: VoleInTheHeadSenderFromVC,
    post1: VoleInTheHeadSenderFromVC,
    r1: Commitment,
    pre2: VoleInTheHeadSenderFromVC,
    post2: VoleInTheHeadSenderFromVC,
    r2: Commitment,
    msg: Option<Seq<bool>>,
)
    requires
        pre1.vole_length == pre2.vole_length,
        pre1.num_repetitions == pre2.num_repetitions,
        pre1.seed@ == pre2.seed@,
        VoleInTheHeadSenderFromVC::commit_post(pre1, post1, msg, r1),
        VoleInTheHeadSenderFromVC::commit_post(pre2, post2, msg, r2),
    ensures
        r1.vc_commitment_hash@ == r2.vc_commitment_hash@,
        r1.correction_values@.len() == r2.correction_values@.len(),
        forall|k: int|
            0 <= k < r1.correction_values@.len() ==> (#[trigger] r1.correction_values@[k])@
                == r2.correction_values@[k]@,
        post1.u@ == post2.u@,
{
    let off: int = if msg is Some {
        1
    } else {
        0
    };
    let tau = pre1.num_repetitions as nat;
    let n = (pre1.vole_length + pre1.num_repetitions) as nat;
    assert(post1.u@ == post2.u@);
    assert forall|k: int| 0 <= k < r1.correction_values@.len() implies (
    #[trigger] r1.correction_values@[k])@ == r2.correction_values@[k]@ by {
        if k >= off {
            assert(r1.correction_values@[k]@ == bits_xor(rep_xor(pre1.seed@, tau, n, k + 1 - off), post1.u@));
            assert(r2.correction_values@[k]@ == bits_xor(rep_xor(pre2.seed@, tau, n, k + 1 - off), post2.u@));
        }
    }
}

/// Two senders with the same state answer the same consistency challenge
/// with the same response.
pub proof fn lemma_respond_deterministic(
    s1: VoleInTheHeadSenderFromVC,
    s2: VoleInTheHeadSenderFromVC,
    points: Seq<nat>,
)
    requires
        s1.vole_length == s2.vole_length,
        s1.num_repetitions == s2.num_repetitions,
        s1.u@ == s2.u@,
        s1.v@.len() == s1.ell_hat(),
        s2.v@.len() == s2.ell_hat(),
        forall|j: int| 0 <= j < s1.v@.len() ==> (#[trigger] s1.v@[j])@ == s2.v@[j]@,
    ensures
        forall|j: int|
            0 <= j < s1.vole_length ==> #[trigger] u_tilde(s1.u@, points, j, s1.num_repetitions as nat)
                == u_tilde(s2.u@, points, j, s2.num_repetitions as nat),
        Seq::new(s1.ell_hat(), |j: int| GF2p128(v_tilde(s1.row(j), points, s1.num_repetitions as nat) as u128))
            == Seq::new(s2.ell_hat(), |j: int| GF2p128(v_tilde(s2.row(j), points, s2.num_repetitions as nat) as u128)),
{
    assert forall|j: int| 0 <= j < s1.ell_hat() implies #[trigger] s1.row(j) == s2.row(j) by {
        assert(s1.v@[j]@ == s2.v@[j]@);
    }
    assert(Seq::new(s1.ell_hat(), |j: int| GF2p128(v_tilde(s1.row(j), points, s1.num_repetitions as nat) as u128))
        =~= Seq::new(s2.ell_hat(), |j: int| GF2p128(v_tilde(s2.row(j), points, s2.num_repetitions as nat) as u128)));
}

/// Two committed senders with the same parameters and seed open their
/// commitments at the same leaves with the same openings.
pub proof fn lemma_decommit_deterministic(
    s1: VoleInTheHeadSenderFromVC,
    s2: VoleInTheHeadSenderFromVC,
    deltas: Seq<u8>,
    r1: Seq<Opening>,
    r2: Seq<Opening>,
)
    requires
        s1.committed(),
        s2.committed(),
        s1.vole_length == s2.vole_length,
        s1.num_repetitions == s2.num_repetitions,
        s1.seed@ == s2.seed@,
        r1.len() == s1.num_repetitions,
        r2.len() == s2.num_repetitions,
        forall|i: int| 0 <= i < r1.len() ==> is_opening(s1.decommitment_keys@[i], deltas[i], #[trigger] r1[i]),
        forall|i: int| 0 <= i < r2.len() ==> is_opening(s2.decommitment_keys@[i], deltas[i], #[trigger] r2[i]),
    ensures
        forall|i: int|
            0 <= i < r1.len() ==> (#[trigger] r1[i]).index == r2[i].index && r1[i].seeds@.len()
                == r2[i].seeds@.len() && r1[i].hidden_digest@ == r2[i].hidden_digest@ && forall|k: int|
                0 <= k < r1[i].seeds@.len() ==> (#[trigger] r1[i].seeds@[k])@ == r2[i].seeds@[k]@,
{
    assert forall|i: int| 0 <= i < r1.len() implies (#[trigger] r1[i]).index == r2[i].index
        && r1[i].seeds@.len() == r2[i].seeds@.len() && r1[i].hidden_digest@ == r2[i].hidden_digest@
        && forall|k: int|
        0 <= k < r1[i].seeds@.len() ==> (#[trigger] r1[i].seeds@[k])@ == r2[i].seeds@[k]@ by {
        let k1 = s1.decommitment_keys@[i];
        let k2 = s2.decommitment_keys@[i];
        assert(k1.is_for(rep_seed(s1.seed@, s1.num_repetitions as nat, i)));
        assert(k2.is_for(rep_seed(s2.seed@, s2.num_repetitions as nat, i)));
        assert(is_opening(k1, deltas[i], r1[i]));
        assert(is_opening(k2, deltas[i], r2[i]));
        assert forall|k: int| 0 <= k < r1[i].seeds@.len() implies (#[trigger] r1[i].seeds@[k])@
            == r2[i].seeds@[k]@ by {
            let x = if k < deltas[i] {
                k
            } else {
                k + 1
            };
            assert(r1[i].seeds@[k]@ == k1.seeds@[x]@);
            assert(r2[i].seeds@[k]@ == k2.seeds@[x]@);
        }
    }
}

/// The first `k` values are field elements, below `2^128`.
pub open spec fn reduced(s: Seq<nat>, k: nat) -> bool {
    forall|i: int| 0 <= i < k ==> #[trigger] s[i] < pow2(128)
}

proof fn lemma_fold_lt(u: Seq<bool>, row: Seq<nat>, p: Seq<nat>, j: int, k: nat)
    requires
        reduced(p, k),
        reduced(row, k),
    ensures
        u_tilde(u, p, j, k) < pow2(128),
        v_tilde(row, p, k) < pow2(128),
    decreases k,
{
    vstd::arithmetic::power2::lemma_pow2_pos(128);
    if k > 0 {
        lemma_fold_lt(u, row, p, j, (k - 1) as nat);
        assert(p[k - 1] < pow2(128) && row[k - 1] < pow2(128));
        lemma_pxor_lt(u_tilde(u, p, j, (k - 1) as nat), p[k - 1], 128);
        lemma_gf_mul_lt(p[k - 1], row[k - 1]);
        lemma_pxor_lt(v_tilde(row, p, (k - 1) as nat), gf_mul(p[k - 1], row[k - 1]), 128);
    }
}

/// The consistency fold is additive in the random points: folding with the
/// sums of two lists of points gives the sum of the two folds, for the
/// combined bits and for each row of `V`.
pub proof fn lemma_fold_additive(
    u: Seq<bool>,
    row: Seq<nat>,
    p1: Seq<nat>,
    p2: Seq<nat>,
    p3: Seq<nat>,
    j: int,
    k: nat,
)
    requires
        reduced(p1, k),
        reduced(p2, k),
        reduced(row, k),
        forall|i: int| 0 <= i < k ==> #[trigger] p3[i] == gf_add(p1[i], p2[i]),
    ensures
        u_tilde(u, p3, j, k) == gf_add(u_tilde(u, p1, j, k), u_tilde(u, p2, j, k)),
        v_tilde(row, p3, k) == gf_add(v_tilde(row, p1, k), v_tilde(row, p2, k)),
    decreases k,
{
    if k == 0 {
        lemma_pxor_zero(0);
    } else {
        let k1 = (k - 1) as nat;
        lemma_fold_additive(u, row, p1, p2, p3, j, k1);
        let (a, b, r) = (p1[k - 1], p2[k - 1], row[k - 1]);
        assert(a < pow2(128) && b < pow2(128) && r < pow2(128));
        assert(p3[k - 1] == gf_add(a, b));
        if u[j + k - 1] {
            lemma_pxor_swap(u_tilde(u, p1, j, k1), u_tilde(u, p2, j, k1), a, b);
        }
        lemma_gf_mul_distrib(r, a, b);
        lemma_pxor_swap(v_tilde(row, p1, k1), v_tilde(row, p2, k1), gf_mul(a, r), gf_mul(b, r));
    }
}

/// The consistency fold scales with the random points: folding with every
/// point multiplied by `c` multiplies both folds by `c`.
pub proof fn lemma_fold_scales(
    u: Seq<bool>,
    row: Seq<nat>,
    p1: Seq<nat>,
    p2: Seq<nat>,
    c: nat,
    j: int,
    k: nat,
)
    requires
        c < pow2(128),
        reduced(p1, k),
        reduced(row, k),
        forall|i: int| 0 <= i < k ==> #[trigger] p2[i] == gf_mul(c, p1[i]),
    ensures
        u_tilde(u, p2, j, k) == gf_mul(c, u_tilde(u, p1, j, k)),
        v_tilde(row, p2, k) == gf_mul(c, v_tilde(row, p1, k)),
    decreases k,
{
    if k == 0 {
        lemma_gf_mul_zero(c);
    } else {
        let k1 = (k - 1) as nat;
        lemma_fold_scales(u, row, p1, p2, c, j, k1);
        lemma_fold_lt(u, row, p1, j, k1);
        let (a, r) = (p1[k - 1], row[k - 1]);
        assert(a < pow2(128) && r < pow2(128));
        assert(p2[k - 1] == gf_mul(c, a));
        if u[j + k - 1] {
            lemma_gf_mul_distrib(c, u_tilde(u, p1, j, k1), a);
        }
        lemma_gf_mul_assoc_comm(c, a, r);
        lemma_gf_mul_lt(a, r);
        lemma_gf_mul_distrib(c, v_tilde(row, p1, k1), gf_mul(a, r));
    }
}

} // verus!
