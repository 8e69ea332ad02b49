use voleith::gf2p128::{gf2p8_embedding, GF2p128, UnreducedGF2p128};

fn el(x: u128) -> GF2p128 {
    GF2p128::from_u128(x)
}

/// A small deterministic generator of test values.
fn samples(n: usize) -> Vec<GF2p128> {
    let mut state: u128 = 0x9e37_79b9_7f4a_7c15_f39c_c060_5ced_c834;
    let mut out = Vec::new();
    for _ in 0..n {
        state = state
            .wrapping_mul(0x2360_ed05_1fc6_5da4_4385_df64_9fcc_f645)
            .wrapping_add(0x5851_f42d_4c95_7f2d_1405_7b7e_f767_814f);
        out.push(el(state ^ (state >> 67)));
    }
    out
}

#[test]
fn field_axioms_hold_on_samples() {
    let xs = samples(30);
    let zero = GF2p128::zero();
    let one = GF2p128::one();
    for a in &xs {
        assert_eq!(a.add(zero), *a);
        assert_eq!(a.add(*a), zero);
        assert_eq!(a.mul(one), *a);
        for b in &xs {
            assert_eq!(a.add(*b), b.add(*a));
            assert_eq!(a.mul(*b), b.mul(*a));
        }
    }
    for i in 0..xs.len() - 2 {
        let (a, b, c) = (xs[i], xs[i + 1], xs[i + 2]);
        assert_eq!(a.add(b).add(c), a.add(b.add(c)));
        assert_eq!(a.mul(b).mul(c), a.mul(b.mul(c)));
        assert_eq!(a.mul(b.add(c)), a.mul(b).add(a.mul(c)));
    }
}

#[test]
fn reduction_known_answers() {
    // X * X^127 = X^128 = X^7 + X^2 + X + 1
    assert_eq!(el(2).mul(el(1 << 127)).to_u128(), 0x87);
    assert_eq!(el(1 << 64).mul(el(1 << 64)).to_u128(), 0x87);
    // (X + 1)^2 = X^2 + 1
    assert_eq!(el(3).mul(el(3)).to_u128(), 5);
    assert_eq!(
        el(0x0123456789abcdef0123456789abcdef).mul(el(0xfedcba9876543210fedcba9876543210)).to_u128(),
        0x725cfee53719bb81d3fd5f4496b81a20
    );
    assert_eq!(el(u128::MAX).mul(el(u128::MAX)).to_u128(), 0x5555555555555555555555555555402f);
}

#[test]
fn zero_annihilates() {
    for a in samples(5) {
        assert_eq!(a.mul(GF2p128::zero()), GF2p128::zero());
    }
}

#[test]
fn unreduced_product_and_reduce() {
    let p = el(1 << 127).mul_unreduced(el(1 << 127));
    assert_eq!(p, UnreducedGF2p128 { lo: 0, hi: 1 << 126 });
    // X^254 reduced twice over
    let r = p.reduce();
    assert_eq!(r, el(1 << 127).mul(el(1 << 127)));
    let small = UnreducedGF2p128 { lo: 0x1234, hi: 0 };
    assert_eq!(small.reduce().to_u128(), 0x1234);
    let one_up = UnreducedGF2p128 { lo: 0, hi: 1 };
    assert_eq!(one_up.reduce().to_u128(), 0x87);
}

#[test]
fn embedding_is_linear_and_multiplicative() {
    let table = gf2p8_embedding();
    assert_eq!(GF2p128::embed_gf2p8(0), GF2p128::zero());
    assert_eq!(GF2p128::embed_gf2p8(1), GF2p128::one());
    assert_eq!(GF2p128::embed_gf2p8(3).to_u128(), 0x053d8555a9979a1ca13fe8ac5560ce0c);
    assert_eq!(GF2p128::embed_gf2p8(255).to_u128(), 0xfae6e08c31e89f90017eb6dcd4f33a26);
    for i in 0..8u8 {
        assert_eq!(GF2p128::embed_gf2p8(1 << i), table[i as usize]);
    }
    // the images of X and X^2 multiply to the image of X^3
    assert_eq!(table[1].mul(table[2]), table[3]);
    assert_eq!(
        GF2p128::embed_gf2p8(0x5a).add(GF2p128::embed_gf2p8(0x0f)),
        GF2p128::embed_gf2p8(0x5a ^ 0x0f)
    );
}

#[test]
fn powers_of_the_generator_do_not_return_early() {
    // X^k for k < 128 are distinct monomials; X^128 wraps to the low terms.
    let x = el(2);
    let mut p = GF2p128::one();
    for k in 0..128 {
        assert_eq!(p.to_u128(), 1u128 << k);
        p = p.mul(x);
    }
    assert_eq!(p.to_u128(), 0x87);
}
