//! Polynomials over GF(2), each written as the natural number whose binary
//! digits are its coefficients, with the carry-less operations on them.
use vstd::arithmetic::power2::{lemma_pow2_pos, lemma_pow2_unfold, pow2};
use vstd::prelude::*;

verus! {

/// Sum of two polynomials over GF(2): the bitwise exclusive or.
pub open spec fn pxor(a: nat, b: nat) -> nat
    decreases a + b,
{
    if a == 0 && b == 0 {
        0
    } else {
        ((a + b) % 2) + 2 * pxor(a / 2, b / 2)
    }
}

/// `b` if the constant coefficient of `a` is one, else zero.
pub open spec fn sel(a: nat, b: nat) -> nat {
    if a % 2 == 1 {
        b
    } else {
        0
    }
}

/// Product of two polynomials over GF(2): the carry-less product.
pub open spec fn pmul(a: nat, b: nat) -> nat
    decreases a,
{
    if a == 0 {
        0
    } else {
        pxor(sel(a, b), 2 * pmul(a / 2, b))
    }
}

#[verifier::rlimit(20)]
pub proof fn lemma_pow2_zero()
    ensures
        pow2(0) == 1,
{
    vstd::arithmetic::power::lemma_pow0(2);
}

#[verifier::rlimit(20)]
pub proof fn lemma_pxor_step(a: nat, b: nat)
    ensures
        pxor(a, b) == ((a + b) % 2) + 2 * pxor(a / 2, b / 2),
        pxor(a, b) % 2 == (a + b) % 2,
        pxor(a, b) / 2 == pxor(a / 2, b / 2),
{
    reveal_with_fuel(pxor, 2);
}

#[verifier::rlimit(20)]
pub proof fn lemma_pxor_zero(a: nat)
    ensures
        pxor(a, 0) == a,
        pxor(0, a) == a,
    decreases a,
{
    lemma_pxor_step(a, 0);
    lemma_pxor_step(0, a);
    if a > 0 {
        lemma_pxor_zero(a / 2);
    }
}

#[verifier::rlimit(20)]
pub proof fn lemma_pxor_comm(a: nat, b: nat)
    ensures
        pxor(a, b) == pxor(b, a),
    decreases a + b,
{
    lemma_pxor_step(a, b);
    lemma_pxor_step(b, a);
    if a + b > 0 {
        lemma_pxor_comm(a / 2, b / 2);
    }
}

#[verifier::rlimit(20)]
pub proof fn lemma_pxor_assoc(a: nat, b: nat, c: nat)
    ensures
        pxor(pxor(a, b), c) == pxor(a, pxor(b, c)),
    decreases a + b + c,
{
    let ab = pxor(a, b);
    let bc = pxor(b, c);
    lemma_pxor_step(a, b);
    lemma_pxor_step(b, c);
    lemma_pxor_step(ab, c);
    lemma_pxor_step(a, bc);
    if a + b + c > 0 {
        lemma_pxor_assoc(a / 2, b / 2, c / 2);
        assert(ab / 2 == pxor(a / 2, b / 2));
        assert(bc / 2 == pxor(b / 2, c / 2));
        assert((ab + c) % 2 == (a + bc) % 2) by {
            assert(ab % 2 == (a + b) % 2);
            assert(bc % 2 == (b + c) % 2);
        }
    } else {
        lemma_pxor_zero(0);
    }
}

#[verifier::rlimit(20)]
pub proof fn lemma_pxor_self(a: nat)
    ensures
        pxor(a, a) == 0,
    decreases a,
{
    lemma_pxor_step(a, a);
    if a > 0 {
        lemma_pxor_self(a / 2);
    }
}

#[verifier::rlimit(20)]
pub proof fn lemma_pxor_eq_zero(a: nat, b: nat)
    requires
        pxor(a, b) == 0,
    ensures
        a == b,
    decreases a + b,
{
    lemma_pxor_step(a, b);
    if a + b > 0 {
        assert(pxor(a / 2, b / 2) == 0);
        assert((a + b) % 2 == 0);
        lemma_pxor_eq_zero(a / 2, b / 2);
        assert(a % 2 == b % 2);
    }
}

/// Exchanging the middle terms of a sum of four.
#[verifier::rlimit(20)]
pub proof fn lemma_pxor_swap(w: nat, x: nat, y: nat, z: nat)
    ensures
        pxor(pxor(w, x), pxor(y, z)) == pxor(pxor(w, y), pxor(x, z)),
{
    lemma_pxor_assoc(w, x, pxor(y, z));
    lemma_pxor_assoc(x, y, z);
    lemma_pxor_comm(x, y);
    lemma_pxor_assoc(y, x, z);
    lemma_pxor_assoc(w, y, pxor(x, z));
}

/// Adding `b` twice gives back `a`.
#[verifier::rlimit(20)]
pub proof fn lemma_pxor_cancel(a: nat, b: nat)
    ensures
        pxor(pxor(a, b), b) == a,
{
    lemma_pxor_assoc(a, b, b);
    lemma_pxor_self(b);
    lemma_pxor_zero(a);
}

#[verifier::rlimit(20)]
pub proof fn lemma_pxor_double(a: nat, b: nat)
    ensures
        pxor(2 * a, 2 * b) == 2 * pxor(a, b),
{
    lemma_pxor_step(2 * a, 2 * b);
}

#[verifier::rlimit(20)]
pub proof fn lemma_pxor_lt(a: nat, b: nat, n: nat)
    requires
        a < pow2(n),
        b < pow2(n),
    ensures
        pxor(a, b) < pow2(n),
    decreases n,
{
    lemma_pxor_step(a, b);
    lemma_pow2_pos(n);
    if n == 0 {
        lemma_pow2_zero();
        assert(a == 0 && b == 0);
        lemma_pxor_zero(0);
    } else {
        lemma_pow2_unfold(n);
        lemma_pxor_lt(a / 2, b / 2, (n - 1) as nat);
    }
}

#[verifier::rlimit(20)]
pub proof fn lemma_pxor_ge(a: nat, b: nat, n: nat)
    requires
        a < pow2(n),
        pow2(n) <= b,
    ensures
        pxor(a, b) >= pow2(n),
    decreases n,
{
    lemma_pxor_step(a, b);
    lemma_pow2_pos(n);
    if n == 0 {
        lemma_pow2_zero();
        lemma_pxor_zero(b);
    } else {
        lemma_pow2_unfold(n);
        lemma_pxor_ge(a / 2, b / 2, (n - 1) as nat);
    }
}

/// The sum of two polynomials split at degree `n` is split there too.
#[verifier::rlimit(20)]
pub proof fn lemma_pxor_split(a1: nat, a0: nat, b1: nat, b0: nat, n: nat)
    requires
        a0 < pow2(n),
        b0 < pow2(n),
    ensures
        pxor(a1 * pow2(n) + a0, b1 * pow2(n) + b0) == pxor(a1, b1) * pow2(n) + pxor(a0, b0),
    decreases n,
{
    if n == 0 {
        lemma_pow2_zero();
        lemma_pxor_zero(0);
        assert(a1 * pow2(n) == a1 && b1 * pow2(n) == b1 && pxor(a1, b1) * pow2(n) == pxor(a1, b1));
    } else {
        lemma_pow2_unfold(n);
        let p = pow2((n - 1) as nat);
        lemma_pow2_pos((n - 1) as nat);
        let ta = a1 * p;
        let tb = b1 * p;
        assert(a1 * pow2(n) == 2 * ta) by (nonlinear_arith)
            requires
                pow2(n) == 2 * p,
                ta == a1 * p,
        ;
        assert(b1 * pow2(n) == 2 * tb) by (nonlinear_arith)
            requires
                pow2(n) == 2 * p,
                tb == b1 * p,
        ;
        let x = pxor(a1, b1);
        assert(x * pow2(n) == 2 * (x * p)) by (nonlinear_arith)
            requires
                pow2(n) == 2 * p,
        ;
        let aa = 2 * ta + a0;
        let bb = 2 * tb + b0;
        assert(aa / 2 == ta + a0 / 2 && bb / 2 == tb + b0 / 2);
        assert((aa + bb) % 2 == (a0 + b0) % 2);
        lemma_pxor_step(aa, bb);
        lemma_pxor_step(a0, b0);
        lemma_pxor_split(a1, a0 / 2, b1, b0 / 2, (n - 1) as nat);
        assert(pxor(aa / 2, bb / 2) == x * p + pxor(a0 / 2, b0 / 2));
        assert(pxor(aa, bb) == (a0 + b0) % 2 + 2 * (x * p + pxor(a0 / 2, b0 / 2)));
    }
}

/// A polynomial below degree `n` and one divisible by `x^n` add without overlap.
#[verifier::rlimit(20)]
pub proof fn lemma_pxor_disjoint(a0: nat, a1: nat, n: nat)
    requires
        a0 < pow2(n),
    ensures
        pxor(a0, a1 * pow2(n)) == a1 * pow2(n) + a0,
        pxor(a1 * pow2(n), a0) == a1 * pow2(n) + a0,
{
    lemma_pow2_pos(n);
    lemma_pxor_split(0, a0, a1, 0, n);
    lemma_pxor_zero(a1);
    lemma_pxor_zero(a0);
    lemma_pxor_comm(a0, a1 * pow2(n));
}

#[verifier::rlimit(20)]
pub proof fn lemma_pmul_step(a: nat, b: nat)
    ensures
        pmul(a, b) == pxor(sel(a, b), 2 * pmul(a / 2, b)),
{
    if a == 0 {
        lemma_pxor_zero(0);
    }
}

#[verifier::rlimit(20)]
pub proof fn lemma_pmul_zero(a: nat)
    ensures
        pmul(a, 0) == 0,
        pmul(0, a) == 0,
    decreases a,
{
    if a > 0 {
        lemma_pmul_zero(a / 2);
        lemma_pxor_zero(0);
    }
}

#[verifier::rlimit(20)]
pub proof fn lemma_pmul_one_left(b: nat)
    ensures
        pmul(1, b) == b,
{
    lemma_pmul_step(1, b);
    lemma_pmul_zero(b);
    lemma_pxor_zero(b);
}

#[verifier::rlimit(20)]
pub proof fn lemma_pmul_one_right(a: nat)
    ensures
        pmul(a, 1) == a,
    decreases a,
{
    if a > 0 {
        lemma_pmul_one_right(a / 2);
        lemma_pxor_step(a % 2, 2 * (a / 2));
        lemma_pxor_zero(a / 2);
    }
}

#[verifier::rlimit(20)]
pub proof fn lemma_pmul_double_left(a: nat, b: nat)
    ensures
        pmul(2 * a, b) == 2 * pmul(a, b),
{
    lemma_pmul_step(2 * a, b);
    lemma_pxor_zero(2 * pmul(a, b));
}

#[verifier::rlimit(20)]
pub proof fn lemma_pmul_double_right(a: nat, b: nat)
    ensures
        pmul(a, 2 * b) == 2 * pmul(a, b),
    decreases a,
{
    lemma_pmul_step(a, 2 * b);
    lemma_pmul_step(a, b);
    if a > 0 {
        lemma_pmul_double_right(a / 2, b);
        lemma_pxor_double(sel(a, b), 2 * pmul(a / 2, b));
    } else {
        lemma_pmul_zero(b);
        lemma_pmul_zero(2 * b);
    }
}

#[verifier::rlimit(20)]
pub proof fn lemma_pmul_distrib_right(a: nat, b: nat, c: nat)
    ensures
        pmul(a, pxor(b, c)) == pxor(pmul(a, b), pmul(a, c)),
    decreases a,
{
    if a == 0 {
        lemma_pxor_zero(0);
    } else {
        lemma_pmul_distrib_right(a / 2, b, c);
        lemma_pxor_double(pmul(a / 2, b), pmul(a / 2, c));
        if a % 2 == 1 {
            lemma_pxor_swap(b, c, 2 * pmul(a / 2, b), 2 * pmul(a / 2, c));
        } else {
            lemma_pxor_zero(0);
            lemma_pxor_zero(2 * pmul(a / 2, b));
            lemma_pxor_zero(2 * pmul(a / 2, c));
            lemma_pxor_zero(2 * pmul(a / 2, pxor(b, c)));
        }
    }
}

#[verifier::rlimit(20)]
pub proof fn lemma_pmul_distrib_left(a: nat, b: nat, c: nat)
    ensures
        pmul(pxor(a, b), c) == pxor(pmul(a, c), pmul(b, c)),
    decreases a + b,
{
    if a == 0 && b == 0 {
        lemma_pxor_zero(0);
    } else {
        let s = pxor(a, b);
        lemma_pxor_step(a, b);
        lemma_pmul_step(s, c);
        lemma_pmul_step(a, c);
        lemma_pmul_step(b, c);
        lemma_pmul_distrib_left(a / 2, b / 2, c);
        lemma_pxor_double(pmul(a / 2, c), pmul(b / 2, c));
        lemma_pxor_swap(sel(a, c), sel(b, c), 2 * pmul(a / 2, c), 2 * pmul(b / 2, c));
        lemma_pxor_zero(c);
        lemma_pxor_zero(0);
        lemma_pxor_self(c);
    }
}

#[verifier::rlimit(20)]
pub proof fn lemma_pmul_comm(a: nat, b: nat)
    ensures
        pmul(a, b) == pmul(b, a),
    decreases a,
{
    // a written as its constant coefficient plus twice the rest
    lemma_pxor_step(a % 2, 2 * (a / 2));
    lemma_pxor_zero(a / 2);
    assert(a == pxor(a % 2, 2 * (a / 2)));
    lemma_pmul_distrib_right(b, a % 2, 2 * (a / 2));
    lemma_pmul_double_right(b, a / 2);
    lemma_pmul_zero(b);
    lemma_pmul_one_right(b);
    lemma_pmul_step(a, b);
    if a > 0 {
        lemma_pmul_comm(a / 2, b);
    } else {
        lemma_pmul_zero(b);
    }
}

#[verifier::rlimit(20)]
pub proof fn lemma_pmul_assoc(a: nat, b: nat, c: nat)
    ensures
        pmul(pmul(a, b), c) == pmul(a, pmul(b, c)),
    decreases a,
{
    if a == 0 {
        lemma_pmul_zero(c);
    } else {
        lemma_pmul_step(a, b);
        lemma_pmul_step(a, pmul(b, c));
        lemma_pmul_distrib_left(sel(a, b), 2 * pmul(a / 2, b), c);
        lemma_pmul_double_left(pmul(a / 2, b), c);
        lemma_pmul_assoc(a / 2, b, c);
        lemma_pmul_zero(c);
    }
}

#[verifier::rlimit(20)]
pub proof fn lemma_pmul_pow2_left(a: nat, b: nat, n: nat)
    ensures
        pmul(a * pow2(n), b) == pmul(a, b) * pow2(n),
    decreases n,
{
    if n == 0 {
        lemma_pow2_zero();
    } else {
        lemma_pow2_unfold(n);
        let p = pow2((n - 1) as nat);
        assert(a * pow2(n) == 2 * (a * p)) by (nonlinear_arith)
            requires
                pow2(n) == 2 * p,
        ;
        assert(pmul(a, b) * pow2(n) == 2 * (pmul(a, b) * p)) by (nonlinear_arith)
            requires
                pow2(n) == 2 * p,
        ;
        lemma_pmul_double_left(a * p, b);
        lemma_pmul_pow2_left(a, b, (n - 1) as nat);
    }
}

#[verifier::rlimit(20)]
pub proof fn lemma_pmul_pow2_right(a: nat, b: nat, n: nat)
    ensures
        pmul(a, b * pow2(n)) == pmul(a, b) * pow2(n),
{
    lemma_pmul_comm(a, b * pow2(n));
    lemma_pmul_pow2_left(b, a, n);
    lemma_pmul_comm(b, a);
}

/// The degree of a product is the sum of the degrees.
#[verifier::rlimit(20)]
pub proof fn lemma_pmul_lt(a: nat, b: nat, i: nat, j: nat)
    requires
        a < pow2(i),
        b < pow2(j),
    ensures
        pmul(a, b) < pow2(i + j),
    decreases i,
{
    lemma_pow2_pos(i + j);
    if a == 0 {
    } else if i == 0 {
        lemma_pow2_zero();
    } else {
        lemma_pow2_unfold(i);
        lemma_pow2_unfold(i + j);
        lemma_pmul_lt(a / 2, b, (i - 1) as nat, j);
        lemma_pmul_step(a, b);
        assert(pow2(j) <= pow2(i + j)) by {
            vstd::arithmetic::power2::lemma_pow2_strictly_increases(j, i + j);
        }
        lemma_pxor_lt(sel(a, b), 2 * pmul(a / 2, b), i + j);
    }
}

/// A nonzero multiple of a polynomial of degree `n` has degree at least `n`.
#[verifier::rlimit(20)]
pub proof fn lemma_pmul_ge(k: nat, b: nat, n: nat)
    requires
        k >= 1,
        pow2(n) <= b < 2 * pow2(n),
    ensures
        pmul(k, b) >= pow2(n),
    decreases k,
{
    lemma_pmul_step(k, b);
    if k == 1 {
        lemma_pmul_one_left(b);
    } else {
        lemma_pmul_ge(k / 2, b, n);
        lemma_pow2_unfold(n + 1);
        lemma_pxor_ge(sel(k, b), 2 * pmul(k / 2, b), n + 1);
    }
}

} // verus!
