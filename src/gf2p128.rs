//! The field GF(2^128) = GF(2)[X] / (X^128 + X^7 + X^2 + X + 1).
use crate::poly::{
    lemma_pmul_assoc, lemma_pmul_comm, lemma_pmul_distrib_left, lemma_pmul_distrib_right,
    lemma_pmul_double_right, lemma_pmul_ge, lemma_pmul_lt, lemma_pmul_one_right,
    lemma_pmul_pow2_left, lemma_pmul_pow2_right, lemma_pmul_step, lemma_pmul_zero, lemma_pow2_zero,
    lemma_pxor_assoc, lemma_pxor_cancel, lemma_pxor_comm, lemma_pxor_disjoint, lemma_pxor_eq_zero,
    lemma_pxor_lt, lemma_pxor_self, lemma_pxor_split, lemma_pxor_step, lemma_pxor_swap,
    lemma_pxor_zero, pmul, pxor, sel,
};
use vstd::arithmetic::power2::{
    lemma2_to64, lemma_pow2_adds, lemma_pow2_pos, lemma_pow2_strictly_increases, lemma_pow2_unfold,
    pow2,
};
use vstd::bits::lemma_u128_shr_is_div;
use vstd::prelude::*;

verus! {

/// X^7 + X^2 + X + 1: what X^128 is congruent to.
pub open spec fn low_terms() -> nat {
    0x87
}

/// The reduction polynomial X^128 + X^7 + X^2 + X + 1.
pub open spec fn modulus() -> nat {
    pow2(128) + low_terms()
}

/// One folding step: the part at or above X^128 is replaced by its product
/// with X^7 + X^2 + X + 1.
pub open spec fn fold(x: nat) -> nat {
    pxor(x % pow2(128), pmul(x / pow2(128), low_terms()))
}

/// The remainder of a product (of degree below 256) modulo the field polynomial.
pub open spec fn reduce(x: nat) -> nat {
    fold(fold(x))
}

/// The quotient that goes with `reduce(x)`.
pub open spec fn reduce_quot(x: nat) -> nat {
    pxor(fold(x) / pow2(128), x / pow2(128))
}

/// Field addition.
pub open spec fn gf_add(a: nat, b: nat) -> nat {
    pxor(a, b)
}

/// Field multiplication.
pub open spec fn gf_mul(a: nat, b: nat) -> nat {
    reduce(pmul(a, b))
}

/// Sum of the entries of `table` at the positions of the set bits of `x`
/// below `n`.
pub open spec fn embed_sum(table: Seq<nat>, x: nat, n: nat) -> nat
    decreases n,
{
    if n == 0 {
        0
    } else {
        let rest = embed_sum(table, x, (n - 1) as nat);
        if (x / pow2((n - 1) as nat)) % 2 == 1 {
            pxor(rest, table[n - 1])
        } else {
            rest
        }
    }
}

pub proof fn lemma_pow2_values()
    ensures
        pow2(7) == 0x80,
        pow2(8) == 0x100,
        pow2(16) == 0x10000,
        pow2(64) == 0x1_0000_0000_0000_0000,
        pow2(128) == 0x1_0000_0000_0000_0000_0000_0000_0000_0000,
        pow2(136) == 0x100_0000_0000_0000_0000_0000_0000_0000_0000,
        pow2(256) == pow2(128) * pow2(128),
{
    lemma2_to64();
    lemma_pow2_adds(64, 64);
    lemma_pow2_adds(128, 8);
    lemma_pow2_adds(128, 128);
}

/// `fold(x)` differs from `x` by a multiple of the field polynomial.
#[verifier::rlimit(20)]
pub proof fn lemma_fold_cong(x: nat)
    ensures
        pxor(fold(x), x) == pmul(x / pow2(128), modulus()),
{
    lemma_pow2_values();
    let hi = x / pow2(128);
    let lo = x % pow2(128);
    let m = pmul(hi, low_terms());
    assert(x == hi * pow2(128) + lo);
    lemma_pxor_disjoint(lo, hi, 128);
    lemma_pxor_swap(lo, m, lo, hi * pow2(128));
    lemma_pxor_self(lo);
    lemma_pxor_zero(pxor(m, hi * pow2(128)));
    lemma_pxor_disjoint(low_terms(), 1, 128);
    lemma_pmul_distrib_right(hi, low_terms(), 1 * pow2(128));
    lemma_pmul_pow2_right(hi, 1, 128);
    lemma_pmul_one_right(hi);
}

/// `reduce(x)` differs from `x` by a multiple of the field polynomial.
pub proof fn lemma_reduce_cong(x: nat)
    ensures
        pxor(reduce(x), x) == pmul(reduce_quot(x), modulus()),
{
    let f1 = fold(x);
    lemma_fold_cong(x);
    lemma_fold_cong(f1);
    lemma_pxor_swap(fold(f1), f1, f1, x);
    lemma_pxor_self(f1);
    lemma_pxor_zero(pxor(fold(f1), x));
    lemma_pxor_assoc(fold(f1), 0, x);
    lemma_pxor_zero(fold(f1));
    lemma_pmul_distrib_left(f1 / pow2(128), x / pow2(128), modulus());
    assert(pxor(pxor(fold(f1), f1), pxor(f1, x)) == pxor(pxor(fold(f1), 0), x)) by {
        lemma_pxor_assoc(fold(f1), f1, pxor(f1, x));
        lemma_pxor_assoc(f1, f1, x);
        lemma_pxor_zero(x);
        lemma_pxor_zero(fold(f1));
    }
}

/// The remainder of anything of degree below 256 has degree below 128.
#[verifier::rlimit(20)]
pub proof fn lemma_reduce_lt(x: nat)
    requires
        x < pow2(256),
    ensures
        reduce(x) < pow2(128),
{
    lemma_pow2_values();
    let hi = x / pow2(128);
    assert(hi < pow2(128)) by (nonlinear_arith)
        requires
            x < pow2(256),
            pow2(256) == pow2(128) * pow2(128),
            hi == x / pow2(128),
            pow2(128) > 0,
    ;
    lemma_pmul_lt(hi, low_terms(), 128, 8);
    lemma_pow2_strictly_increases(128, 136);
    lemma_pxor_lt(x % pow2(128), pmul(hi, low_terms()), 136);
    let f1 = fold(x);
    let h1 = f1 / pow2(128);
    assert(h1 < pow2(8));
    lemma_pmul_lt(h1, low_terms(), 8, 8);
    lemma_pow2_strictly_increases(16, 128);
    lemma_pxor_lt(f1 % pow2(128), pmul(h1, low_terms()), 128);
}

/// Below degree 128 nothing is left to reduce.
pub proof fn lemma_reduce_small(x: nat)
    requires
        x < pow2(128),
    ensures
        reduce(x) == x,
{
    lemma_pow2_values();
    lemma_pmul_zero(low_terms());
    lemma_pxor_zero(x);
}

/// Two values of degree below 128 that differ from one polynomial by
/// multiples of the field polynomial are equal.
pub proof fn lemma_cong_unique(r1: nat, r2: nat, x: nat, k1: nat, k2: nat)
    requires
        r1 < pow2(128),
        r2 < pow2(128),
        pxor(r1, x) == pmul(k1, modulus()),
        pxor(r2, x) == pmul(k2, modulus()),
    ensures
        r1 == r2,
{
    lemma_pow2_values();
    lemma_pxor_comm(r2, x);
    lemma_pxor_swap(r1, x, x, r2);
    lemma_pxor_self(x);
    lemma_pxor_zero(pxor(r1, r2));
    lemma_pxor_assoc(r1, 0, r2);
    lemma_pxor_zero(r1);
    assert(pxor(pxor(r1, x), pxor(x, r2)) == pxor(r1, r2)) by {
        lemma_pxor_assoc(r1, x, pxor(x, r2));
        lemma_pxor_assoc(x, x, r2);
        lemma_pxor_zero(r2);
    }
    lemma_pmul_distrib_left(k1, k2, modulus());
    let k = pxor(k1, k2);
    lemma_pxor_lt(r1, r2, 128);
    if k >= 1 {
        lemma_pmul_ge(k, modulus(), 128);
    } else {
        lemma_pmul_zero(modulus());
    }
    lemma_pxor_eq_zero(r1, r2);
}

/// A reduced value congruent to `x` is the remainder of `x`.
pub proof fn lemma_reduce_unique(r: nat, x: nat, k: nat)
    requires
        r < pow2(128),
        x < pow2(256),
        pxor(r, x) == pmul(k, modulus()),
    ensures
        r == reduce(x),
{
    lemma_reduce_cong(x);
    lemma_reduce_lt(x);
    lemma_cong_unique(r, reduce(x), x, k, reduce_quot(x));
}

/// The remainder is additive.
pub proof fn lemma_reduce_pxor(x: nat, y: nat)
    requires
        x < pow2(256),
        y < pow2(256),
    ensures
        reduce(pxor(x, y)) == pxor(reduce(x), reduce(y)),
{
    lemma_reduce_cong(x);
    lemma_reduce_cong(y);
    lemma_reduce_lt(x);
    lemma_reduce_lt(y);
    lemma_pxor_lt(x, y, 256);
    lemma_pxor_lt(reduce(x), reduce(y), 128);
    lemma_pxor_swap(reduce(x), reduce(y), x, y);
    lemma_pmul_distrib_left(reduce_quot(x), reduce_quot(y), modulus());
    lemma_reduce_unique(pxor(reduce(x), reduce(y)), pxor(x, y), pxor(reduce_quot(x), reduce_quot(y)));
}

/// A product of two reduced values has degree below 256.
pub proof fn lemma_pmul_bound(a: nat, b: nat)
    requires
        a < pow2(128),
        b < pow2(128),
    ensures
        pmul(a, b) < pow2(256),
{
    lemma_pmul_lt(a, b, 128, 128);
}

// ---------------------------------------------------------------------------
// Laws of the field.

/// Addition is commutative.
pub proof fn lemma_add_commutative(a: GF2p128, b: GF2p128)
    ensures
        gf_add(a@, b@) == gf_add(b@, a@),
{
    lemma_pxor_comm(a@, b@);
}

/// Addition is associative.
pub proof fn lemma_add_associative(a: GF2p128, b: GF2p128, c: GF2p128)
    ensures
        gf_add(gf_add(a@, b@), c@) == gf_add(a@, gf_add(b@, c@)),
{
    lemma_pxor_assoc(a@, b@, c@);
}

/// Zero is the additive identity.
pub proof fn lemma_add_zero(a: GF2p128)
    ensures
        gf_add(a@, 0) == a@,
{
    lemma_pxor_zero(a@);
}

/// Every element is its own additive inverse.
pub proof fn lemma_add_self(a: GF2p128)
    ensures
        gf_add(a@, a@) == 0,
{
    lemma_pxor_self(a@);
}

/// One is the multiplicative identity.
pub proof fn lemma_mul_one(a: GF2p128)
    ensures
        gf_mul(a@, 1) == a@,
{
    lemma_pow2_values();
    lemma_pmul_one_right(a@);
    lemma_reduce_small(a@);
}

/// Multiplication is commutative.
pub proof fn lemma_mul_commutative(a: GF2p128, b: GF2p128)
    ensures
        gf_mul(a@, b@) == gf_mul(b@, a@),
{
    lemma_pmul_comm(a@, b@);
}

/// Multiplication distributes over addition.
pub proof fn lemma_mul_distributive(a: GF2p128, b: GF2p128, c: GF2p128)
    ensures
        gf_mul(a@, gf_add(b@, c@)) == gf_add(gf_mul(a@, b@), gf_mul(a@, c@)),
{
    lemma_pow2_values();
    lemma_pmul_distrib_right(a@, b@, c@);
    lemma_pmul_bound(a@, b@);
    lemma_pmul_bound(a@, c@);
    lemma_reduce_pxor(pmul(a@, b@), pmul(a@, c@));
}

/// Multiplying a reduced value by `c` keeps it congruent to the product of
/// the unreduced one.
proof fn lemma_mul_cong(m: nat, c: nat)
    ensures
        pxor(pmul(reduce(m), c), pmul(m, c)) == pmul(pmul(reduce_quot(m), c), modulus()),
{
    lemma_reduce_cong(m);
    lemma_pmul_distrib_left(reduce(m), m, c);
    lemma_pmul_assoc(reduce_quot(m), modulus(), c);
    lemma_pmul_comm(modulus(), c);
    lemma_pmul_assoc(reduce_quot(m), c, modulus());
}

/// Multiplication is associative.
#[verifier::rlimit(20)]
pub proof fn lemma_mul_associative(a: GF2p128, b: GF2p128, c: GF2p128)
    ensures
        gf_mul(gf_mul(a@, b@), c@) == gf_mul(a@, gf_mul(b@, c@)),
{
    lemma_pow2_values();
    let (a, b, c) = (a@, b@, c@);
    lemma_pmul_bound(a, b);
    lemma_pmul_bound(b, c);
    let ab = reduce(pmul(a, b));
    let bc = reduce(pmul(b, c));
    lemma_reduce_lt(pmul(a, b));
    lemma_reduce_lt(pmul(b, c));
    lemma_pmul_bound(ab, c);
    lemma_pmul_bound(a, bc);
    lemma_reduce_lt(pmul(ab, c));
    lemma_reduce_lt(pmul(a, bc));
    let x = pmul(pmul(a, b), c);
    lemma_pmul_assoc(a, b, c);
    // left side
    let l = reduce(pmul(ab, c));
    lemma_reduce_cong(pmul(ab, c));
    lemma_mul_cong(pmul(a, b), c);
    let kl1 = reduce_quot(pmul(ab, c));
    let kl2 = pmul(reduce_quot(pmul(a, b)), c);
    lemma_pxor_swap(l, pmul(ab, c), pmul(ab, c), x);
    lemma_pxor_self(pmul(ab, c));
    assert(pxor(pxor(l, pmul(ab, c)), pxor(pmul(ab, c), x)) == pxor(l, x)) by {
        lemma_pxor_zero(pxor(l, x));
        lemma_pxor_assoc(l, pmul(ab, c), pxor(pmul(ab, c), x));
        lemma_pxor_assoc(pmul(ab, c), pmul(ab, c), x);
        lemma_pxor_zero(x);
    }
    lemma_pmul_distrib_left(kl1, kl2, modulus());
    // right side
    let r = reduce(pmul(a, bc));
    lemma_reduce_cong(pmul(a, bc));
    lemma_pmul_comm(a, bc);
    lemma_pmul_comm(a, pmul(b, c));
    lemma_mul_cong(pmul(b, c), a);
    let kr1 = reduce_quot(pmul(a, bc));
    let kr2 = pmul(reduce_quot(pmul(b, c)), a);
    assert(pxor(pxor(r, pmul(a, bc)), pxor(pmul(a, bc), x)) == pxor(r, x)) by {
        lemma_pxor_assoc(r, pmul(a, bc), pxor(pmul(a, bc), x));
        lemma_pxor_assoc(pmul(a, bc), pmul(a, bc), x);
        lemma_pxor_self(pmul(a, bc));
        lemma_pxor_zero(x);
    }
    lemma_pmul_distrib_left(kr1, kr2, modulus());
    lemma_cong_unique(l, r, x, pxor(kl1, kl2), pxor(kr1, kr2));
}

// ---------------------------------------------------------------------------
// Executable field.

/// An element of GF(2^128): bit `i` is the coefficient of X^i.
#[derive(Clone, Copy, Debug, PartialEq, Eq, Structural)]
pub struct GF2p128(pub u128);

/// A product before reduction: `hi * X^128 + lo`.
#[derive(Clone, Copy, Debug, PartialEq, Eq, Structural)]
pub struct UnreducedGF2p128 {
    pub lo: u128,
    pub hi: u128,
}

impl View for GF2p128 {
    type V = nat;

    open spec fn view(&self) -> nat {
        self.0 as nat
    }
}

impl View for UnreducedGF2p128 {
    type V = nat;

    open spec fn view(&self) -> nat {
        self.hi as nat * pow2(128) + self.lo as nat
    }
}

/// The exclusive or of machine words is the sum of polynomials.
pub proof fn lemma_xor_u128(x: u128, y: u128)
    ensures
        (x ^ y) as nat == pxor(x as nat, y as nat),
    decreases x as int + y as int,
{
    lemma_pxor_step(x as nat, y as nat);
    if x == 0 && y == 0 {
        assert(x ^ y == 0) by (bit_vector)
            requires
                x == 0 && y == 0,
        ;
    } else {
        assert((x ^ y) / 2 == (x / 2) ^ (y / 2)) by (bit_vector);
        assert((x ^ y) % 2 == (x % 2 + y % 2) % 2) by (bit_vector);
        lemma_xor_u128(x / 2, y / 2);
    }
}

/// Carry-less product of two 64-bit words.
#[verifier::rlimit(20)]
pub fn clmul64(a: u64, b: u64) -> (r: u128)
    ensures
        r as nat == pmul(a as nat, b as nat),
{
    proof {
        lemma_pow2_values();
        lemma_pxor_zero(pmul(a as nat, b as nat));
        lemma_pow2_zero();
    }
    let mut r: u128 = 0;
    let mut x: u64 = a;
    let mut y: u128 = b as u128;
    let mut i: usize = 0;
    while i < 64
        invariant
            i <= 64,
            x < pow2((64 - i) as nat),
            y < pow2((64 + i) as nat),
            pow2(128) == 0x1_0000_0000_0000_0000_0000_0000_0000_0000,
            pxor(r as nat, pmul(x as nat, y as nat)) == pmul(a as nat, b as nat),
        decreases 64 - i,
    {
        proof {
            lemma_pmul_step(x as nat, y as nat);
            lemma_pmul_double_right((x / 2) as nat, y as nat);
            lemma_pxor_assoc(r as nat, sel(x as nat, y as nat), 2 * pmul((x / 2) as nat, y as nat));
            lemma_pxor_zero(r as nat);
            lemma_pow2_unfold((64 - i) as nat);
            lemma_pow2_unfold((65 + i) as nat);
            if 65 + i < 128 {
                lemma_pow2_strictly_increases((65 + i) as nat, 128);
            }
        }
        if x % 2 == 1 {
            proof {
                lemma_xor_u128(r, y);
            }
            r = r ^ y;
        }
        x = x / 2;
        y = y * 2;
        i = i + 1;
    }
    proof {
        lemma_pmul_zero(y as nat);
        lemma_pxor_zero(r as nat);
    }
    r
}

/// The low half of `m * X^64` and the part that spills over.
proof fn lemma_shift64(m: u128)
    ensures
        (m << 64) as nat == (m as nat % pow2(64)) * pow2(64),
        (m >> 64) as nat == m as nat / pow2(64),
        m as nat == (m >> 64) as nat * pow2(64) + (m as nat % pow2(64)),
{
    lemma_pow2_values();
    assert(m << 64 == (m % 0x1_0000_0000_0000_0000) * 0x1_0000_0000_0000_0000) by (bit_vector);
    lemma_u128_shr_is_div(m, 64);
}

impl GF2p128 {
    pub fn zero() -> (r: GF2p128)
        ensures
            r@ == 0,
    {
        GF2p128(0)
    }

    pub fn one() -> (r: GF2p128)
        ensures
            r@ == 1,
    {
        GF2p128(1)
    }

    pub fn from_u128(x: u128) -> (r: GF2p128)
        ensures
            r@ == x,
    {
        GF2p128(x)
    }

    pub fn to_u128(&self) -> (r: u128)
        ensures
            r == self@,
    {
        self.0
    }

    /// Field addition: the exclusive or of the coefficients.
    pub fn add(self, other: GF2p128) -> (r: GF2p128)
        ensures
            r@ == gf_add(self@, other@),
    {
        proof {
            lemma_xor_u128(self.0, other.0);
        }
        GF2p128(self.0 ^ other.0)
    }

    /// The product of polynomials before reduction, from three carry-less
    /// products of 64-bit halves.
    #[verifier::rlimit(20)]
    pub fn mul_unreduced(self, other: GF2p128) -> (r: UnreducedGF2p128)
        ensures
            r@ == pmul(self@, other@),
    {
        let a0 = self.0 as u64;
        let a1 = (self.0 >> 64) as u64;
        let b0 = other.0 as u64;
        let b1 = (other.0 >> 64) as u64;
        let lo = clmul64(a0, b0);
        let hi = clmul64(a1, b1);
        let cross = clmul64(a0 ^ a1, b0 ^ b1);
        let mid = cross ^ lo ^ hi;
        let res_lo = lo ^ (mid << 64);
        let res_hi = hi ^ (mid >> 64);
        proof {
            lemma_pow2_values();
            self.lemma_halves();
            other.lemma_halves();
            lemma_karatsuba(self@, other@, a0 as nat, a1 as nat, b0 as nat, b1 as nat);
            assert((a0 ^ a1) as u128 == (a0 as u128) ^ (a1 as u128)) by (bit_vector);
            assert((b0 ^ b1) as u128 == (b0 as u128) ^ (b1 as u128)) by (bit_vector);
            lemma_xor_u128(a0 as u128, a1 as u128);
            lemma_xor_u128(b0 as u128, b1 as u128);
            lemma_xor_u128(cross, lo);
            lemma_xor_u128(cross ^ lo, hi);
            let pm = pmul(pxor(a0 as nat, a1 as nat), pxor(b0 as nat, b1 as nat));
            let m = pxor(pmul(a0 as nat, b1 as nat), pmul(a1 as nat, b0 as nat));
            // mid == m
            lemma_pxor_cancel(pxor(pmul(a0 as nat, b0 as nat), m), pmul(a1 as nat, b1 as nat));
            lemma_pxor_swap(pmul(a0 as nat, b0 as nat), m, pmul(a0 as nat, b0 as nat), 0);
            assert(mid as nat == m) by {
                let l = pmul(a0 as nat, b0 as nat);
                let h = pmul(a1 as nat, b1 as nat);
                lemma_pxor_assoc(pxor(l, m), h, l);
                lemma_pxor_comm(h, l);
                lemma_pxor_assoc(pxor(l, m), l, h);
                lemma_pxor_comm(l, m);
                lemma_pxor_cancel(m, l);
                lemma_pxor_cancel(m, h);
            }
            lemma_shift64(mid);
            lemma_xor_u128(lo, mid << 64);
            lemma_xor_u128(hi, mid >> 64);
            lemma_combine(lo as nat, hi as nat, mid as nat);
        }
        UnreducedGF2p128 { lo: res_lo, hi: res_hi }
    }

    proof fn lemma_halves(self)
        ensures
            self.0 as u64 as nat == self@ % pow2(64),
            (self.0 >> 64) as u64 as nat == self@ / pow2(64),
            self@ == (self.0 >> 64) as u64 as nat * pow2(64) + self.0 as u64 as nat,
    {
        let x = self.0;
        lemma_pow2_values();
        lemma_u128_shr_is_div(x, 64);
        assert(x as u64 as u128 == x % 0x1_0000_0000_0000_0000) by (bit_vector);
        assert((x >> 64) as u64 as u128 == x >> 64) by (bit_vector);
    }

    /// Field multiplication.
    pub fn mul(self, other: GF2p128) -> (r: GF2p128)
        ensures
            r@ == gf_mul(self@, other@),
    {
        self.mul_unreduced(other).reduce()
    }

    /// Image of an element of GF(2^8) under the fixed linear embedding.
    pub fn embed_gf2p8(x: u8) -> (r: GF2p128)
        ensures
            r@ == embed_sum(embedding_table(), x as nat, 8),
    {
        let table = gf2p8_embedding();
        let mut y = GF2p128::zero();
        let mut i: usize = 0;
        while i < 8
            invariant
                i <= 8,
                table@.len() == 8,
                forall|j: int| 0 <= j < 8 ==> (#[trigger] table@[j])@ == embedding_table()[j],
                y@ == embed_sum(embedding_table(), x as nat, i as nat),
            decreases 8 - i,
        {
            proof {
                vstd::bits::lemma_u8_shr_is_div(x, i as u8);
                lemma_pow2_values();
                vstd::arithmetic::power2::lemma2_to64();
            }
            if (x >> (i as u8)) % 2 == 1 {
                y = y.add(table[i]);
            }
            i = i + 1;
        }
        y
    }
}

/// Images of 1, X, ..., X^7 of GF(2^8) in GF(2^128).
pub open spec fn embedding_table() -> Seq<nat> {
    seq![
        1,
        0x053d8555a9979a1ca13fe8ac5560ce0d,
        0x4cf4b7439cbfbb84ec7759ca3488aee1,
        0x35ad604f7d51d2c6bfcf02ae363946a8,
        0x0dcb364640a222fe6b8330483c2e9849,
        0x549810e11a88dea5252b49277b1b82b4,
        0xd681a5686c0c1f75c72bf2ef2521ff22,
        0x0950311a4fb78fe07a7a8e94e136f9bc,
    ]
}

/// The embedding basis as field elements.
pub fn gf2p8_embedding() -> (r: Vec<GF2p128>)
    ensures
        r@.len() == 8,
        forall|j: int| 0 <= j < 8 ==> (#[trigger] r@[j])@ == embedding_table()[j],
{
    let r = vec![
        GF2p128(1),
        GF2p128(0x053d8555a9979a1ca13fe8ac5560ce0d),
        GF2p128(0x4cf4b7439cbfbb84ec7759ca3488aee1),
        GF2p128(0x35ad604f7d51d2c6bfcf02ae363946a8),
        GF2p128(0x0dcb364640a222fe6b8330483c2e9849),
        GF2p128(0x549810e11a88dea5252b49277b1b82b4),
        GF2p128(0xd681a5686c0c1f75c72bf2ef2521ff22),
        GF2p128(0x0950311a4fb78fe07a7a8e94e136f9bc),
    ];
    r
}

/// The three-multiplication identity for a product of two-word polynomials.
#[verifier::rlimit(20)]
proof fn lemma_karatsuba(a: nat, b: nat, a0: nat, a1: nat, b0: nat, b1: nat)
    requires
        a == a1 * pow2(64) + a0,
        b == b1 * pow2(64) + b0,
        a0 < pow2(64),
        b0 < pow2(64),
    ensures
        pmul(a, b) == pxor(
            pxor(pmul(a0, b0), pxor(pmul(a0, b1), pmul(a1, b0)) * pow2(64)),
            pmul(a1, b1) * pow2(128),
        ),
        pmul(pxor(a0, a1), pxor(b0, b1)) == pxor(
            pxor(pmul(a0, b0), pxor(pmul(a0, b1), pmul(a1, b0))),
            pmul(a1, b1),
        ),
{
    lemma_pow2_values();
    lemma_pxor_disjoint(a0, a1, 64);
    lemma_pxor_disjoint(b0, b1, 64);
    let ll = pmul(a0, b0);
    let lh = pmul(a0, b1);
    let hl = pmul(a1, b0);
    let hh = pmul(a1, b1);
    // pmul(a, b) = pmul(a0, b) + pmul(a1 X^64, b)
    lemma_pmul_distrib_left(a0, a1 * pow2(64), b);
    lemma_pmul_distrib_right(a0, b0, b1 * pow2(64));
    lemma_pmul_pow2_right(a0, b1, 64);
    lemma_pmul_pow2_left(a1, b, 64);
    lemma_pmul_distrib_right(a1, b0, b1 * pow2(64));
    lemma_pmul_pow2_right(a1, b1, 64);
    // (hl + hh X^64) X^64 = hl X^64 + hh X^128
    lemma_pxor_split(hl, 0, hh * pow2(64), 0, 64);
    lemma_pxor_zero(0);
    assert(pxor(hl, hh * pow2(64)) * pow2(64) == pxor(hl * pow2(64), hh * pow2(128))) by {
        assert(hh * pow2(64) * pow2(64) == hh * pow2(128)) by (nonlinear_arith)
            requires
                pow2(128) == pow2(64) * pow2(64),
        ;
    }
    lemma_pxor_split(lh, 0, hl, 0, 64);
    lemma_pxor_assoc(ll, lh * pow2(64), pxor(hl * pow2(64), hh * pow2(128)));
    lemma_pxor_assoc(lh * pow2(64), hl * pow2(64), hh * pow2(128));
    lemma_pxor_assoc(ll, pxor(lh * pow2(64), hl * pow2(64)), hh * pow2(128));
    // the cross product
    lemma_pmul_distrib_left(a0, a1, pxor(b0, b1));
    lemma_pmul_distrib_right(a0, b0, b1);
    lemma_pmul_distrib_right(a1, b0, b1);
    lemma_pxor_assoc(pxor(ll, lh), hl, hh);
    lemma_pxor_assoc(ll, lh, hl);
    lemma_pxor_assoc(ll, pxor(lh, hl), hh);
    lemma_pxor_assoc(pxor(ll, lh), pxor(hl, hh), 0);
    lemma_pxor_assoc(ll, lh, pxor(hl, hh));
    lemma_pxor_assoc(lh, hl, hh);
}

/// Combining the three partial products into the two halves of the result.
#[verifier::rlimit(20)]
proof fn lemma_combine(lo: nat, hi: nat, mid: nat)
    requires
        lo < pow2(128),
        mid < pow2(128),
    ensures
        pxor(pxor(lo, mid * pow2(64)), hi * pow2(128)) == pxor(hi, mid / pow2(64)) * pow2(128)
            + pxor(lo, (mid % pow2(64)) * pow2(64)),
{
    lemma_pow2_values();
    let mh = mid / pow2(64);
    let ml = mid % pow2(64);
    let sh = ml * pow2(64);
    assert(mid * pow2(64) == mh * pow2(128) + sh) by (nonlinear_arith)
        requires
            mid == mh * pow2(64) + ml,
            sh == ml * pow2(64),
            pow2(128) == pow2(64) * pow2(64),
    ;
    assert(sh < pow2(128)) by (nonlinear_arith)
        requires
            ml < pow2(64),
            sh == ml * pow2(64),
            pow2(128) == pow2(64) * pow2(64),
    ;
    lemma_pxor_split(0, lo, mh, sh, 128);
    lemma_pxor_zero(mh);
    lemma_pxor_lt(lo, sh, 128);
    lemma_pxor_split(mh, pxor(lo, sh), hi, 0, 128);
    lemma_pxor_zero(pxor(lo, sh));
    lemma_pxor_comm(mh, hi);
    lemma_pow2_pos(128);
}

impl UnreducedGF2p128 {
    /// Reduction modulo X^128 + X^7 + X^2 + X + 1 by shifts and exclusive ors.
    pub fn reduce(self) -> (r: GF2p128)
        ensures
            r@ == reduce(self@),
    {
        let hi = self.hi;
        let lo = self.lo;
        // the bits of hi * (X^7 + X^2 + X + 1) at X^128 and above
        let over = (hi >> 127) ^ (hi >> 126) ^ (hi >> 121);
        // the bits below X^128
        let under = hi ^ (hi << 1) ^ (hi << 2) ^ (hi << 7);
        // over * (X^7 + X^2 + X + 1), which has no part at X^128 or above
        let back = over ^ (over << 1) ^ (over << 2) ^ (over << 7);
        let res = lo ^ under ^ back;
        proof {
            lemma_reduce_steps(lo, hi, over, under, back);
        }
        GF2p128(res)
    }
}

/// `hi` times X^7 + X^2 + X + 1, as the sum of four shifted copies.
proof fn lemma_times_low_terms(h: nat)
    ensures
        pmul(h, low_terms()) == pxor(pxor(pxor(h, h * pow2(1)), h * pow2(2)), h * pow2(7)),
{
    lemma_pow2_values();
    lemma2_to64();
    // 0x87 = 1 + 2 + 4 + 128, without overlap
    lemma_pxor_disjoint(1, 1, 1);
    lemma_pxor_disjoint(3, 1, 2);
    lemma_pxor_disjoint(7, 1, 7);
    assert(pxor(pxor(pxor(1, 1 * pow2(1)), 1 * pow2(2)), 1 * pow2(7)) == low_terms());
    lemma_pmul_distrib_right(h, pxor(pxor(1, 1 * pow2(1)), 1 * pow2(2)), 1 * pow2(7));
    lemma_pmul_distrib_right(h, pxor(1, 1 * pow2(1)), 1 * pow2(2));
    lemma_pmul_distrib_right(h, 1, 1 * pow2(1));
    lemma_pmul_pow2_right(h, 1, 1);
    lemma_pmul_pow2_right(h, 1, 2);
    lemma_pmul_pow2_right(h, 1, 7);
    lemma_pmul_one_right(h);
}

/// Left shifts of a 128-bit word by one, two and seven: the part kept and the
/// part shifted out.
#[verifier::rlimit(20)]
proof fn lemma_shl_split(h: u128)
    ensures
        h as nat * pow2(1) == (h >> 127) as nat * pow2(128) + (h << 1) as nat,
        h as nat * pow2(2) == (h >> 126) as nat * pow2(128) + (h << 2) as nat,
        h as nat * pow2(7) == (h >> 121) as nat * pow2(128) + (h << 7) as nat,
{
    lemma_pow2_values();
    lemma2_to64();
    assert(h * 2 == (h >> 127) * 0x1_0000_0000_0000_0000_0000_0000_0000_0000 + (h << 1)) by (bit_vector);
    assert(h * 4 == (h >> 126) * 0x1_0000_0000_0000_0000_0000_0000_0000_0000 + (h << 2)) by (bit_vector);
    assert(h * 128 == (h >> 121) * 0x1_0000_0000_0000_0000_0000_0000_0000_0000 + (h << 7)) by (bit_vector);
}

#[verifier::rlimit(20)]
proof fn lemma_reduce_steps(lo: u128, hi: u128, over: u128, under: u128, back: u128)
    requires
        over == (hi >> 127) ^ (hi >> 126) ^ (hi >> 121),
        under == hi ^ (hi << 1) ^ (hi << 2) ^ (hi << 7),
        back == over ^ (over << 1) ^ (over << 2) ^ (over << 7),
    ensures
        (lo ^ under ^ back) as nat == reduce(hi as nat * pow2(128) + lo as nat),
{
    lemma_pow2_values();
    let x = hi as nat * pow2(128) + lo as nat;
    assert(x / pow2(128) == hi as nat && x % pow2(128) == lo as nat) by (nonlinear_arith)
        requires
            x == hi as nat * pow2(128) + lo as nat,
            lo < pow2(128),
    ;
    // hi * (X^7 + X^2 + X + 1) = over * X^128 + under
    lemma_times_low_terms(hi as nat);
    lemma_shl_split(hi);
    let (o1, o2, o7) = ((hi >> 127) as nat, (hi >> 126) as nat, (hi >> 121) as nat);
    let (s1, s2, s7) = ((hi << 1) as nat, (hi << 2) as nat, (hi << 7) as nat);
    lemma_pxor_disjoint(hi as nat, 0, 128);
    assert(hi as nat == 0 * pow2(128) + hi as nat);
    lemma_pxor_split(0, hi as nat, o1, s1, 128);
    lemma_pxor_zero(o1);
    lemma_xor_u128(hi, hi << 1);
    lemma_xor_u128(hi >> 127, hi >> 126);
    lemma_xor_u128(hi ^ (hi << 1), hi << 2);
    lemma_xor_u128((hi >> 127) ^ (hi >> 126), hi >> 121);
    lemma_xor_u128(hi ^ (hi << 1) ^ (hi << 2), hi << 7);
    lemma_pxor_split(o1, pxor(hi as nat, s1), o2, s2, 128);
    lemma_pxor_split(pxor(o1, o2), pxor(pxor(hi as nat, s1), s2), o7, s7, 128);
    assert(pmul(hi as nat, low_terms()) == over as nat * pow2(128) + under as nat);
    // fold(x) = over * X^128 + (lo + under)
    lemma_xor_u128(lo, under);
    lemma_pxor_split(0, lo as nat, over as nat, under as nat, 128);
    lemma_pxor_zero(over as nat);
    let f1 = fold(x);
    assert(f1 == over as nat * pow2(128) + (lo ^ under) as nat);
    assert(f1 / pow2(128) == over as nat && f1 % pow2(128) == (lo ^ under) as nat) by (nonlinear_arith)
        requires
            f1 == over as nat * pow2(128) + (lo ^ under) as nat,
            (lo ^ under) < pow2(128),
    ;
    // over < X^7, so over * (X^7 + X^2 + X + 1) has no part at X^128
    assert(over < 128) by (bit_vector)
        requires
            over == (hi >> 127) ^ (hi >> 126) ^ (hi >> 121),
    ;
    lemma_times_low_terms(over as nat);
    lemma2_to64();
    assert(over << 1 == over * 2 && over << 2 == over * 4 && over << 7 == over * 128) by (bit_vector)
        requires
            over < 128,
    ;
    lemma_xor_u128(over, over << 1);
    lemma_xor_u128(over ^ (over << 1), over << 2);
    lemma_xor_u128(over ^ (over << 1) ^ (over << 2), over << 7);
    assert(pmul(over as nat, low_terms()) == back as nat);
    lemma_xor_u128(lo ^ under, back);
}

/// The element with value `a`, for `a` below `2^128`.
pub open spec fn elem(a: nat) -> GF2p128 {
    GF2p128(a as u128)
}

proof fn lemma_elem(a: nat)
    requires
        a < pow2(128),
    ensures
        elem(a)@ == a,
{
    lemma_pow2_values();
}

/// Products of reduced values are reduced.
pub proof fn lemma_gf_mul_lt(a: nat, b: nat)
    requires
        a < pow2(128),
        b < pow2(128),
    ensures
        gf_mul(a, b) < pow2(128),
{
    lemma_pmul_bound(a, b);
    lemma_reduce_lt(pmul(a, b));
}

/// Multiplication distributes over addition, on both sides.
pub proof fn lemma_gf_mul_distrib(a: nat, b: nat, c: nat)
    requires
        a < pow2(128),
        b < pow2(128),
        c < pow2(128),
    ensures
        gf_mul(a, gf_add(b, c)) == gf_add(gf_mul(a, b), gf_mul(a, c)),
        gf_mul(gf_add(b, c), a) == gf_add(gf_mul(b, a), gf_mul(c, a)),
{
    lemma_elem(a);
    lemma_elem(b);
    lemma_elem(c);
    lemma_mul_distributive(elem(a), elem(b), elem(c));
    lemma_pxor_lt(b, c, 128);
    lemma_pmul_comm(b, a);
    lemma_pmul_comm(c, a);
    lemma_pmul_comm(gf_add(b, c), a);
}

/// Multiplication is associative and commutative on values.
pub proof fn lemma_gf_mul_assoc_comm(a: nat, b: nat, c: nat)
    requires
        a < pow2(128),
        b < pow2(128),
        c < pow2(128),
    ensures
        gf_mul(gf_mul(a, b), c) == gf_mul(a, gf_mul(b, c)),
        gf_mul(a, b) == gf_mul(b, a),
{
    lemma_elem(a);
    lemma_elem(b);
    lemma_elem(c);
    lemma_mul_associative(elem(a), elem(b), elem(c));
    lemma_pmul_comm(a, b);
}

/// Zero absorbs products.
pub proof fn lemma_gf_mul_zero(a: nat)
    ensures
        gf_mul(a, 0) == 0,
{
    lemma_pmul_zero(a);
    lemma_pow2_values();
    lemma_reduce_small(0);
}

} // verus!
