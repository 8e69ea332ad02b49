use voleith::gf2p128::GF2p128;
use voleith::keccak::parse_usize;
use voleith::sender::{
    bit_xor_assign, bitmul_accumulate, expand_repetition, leaf_expansion, to_le_bytes, transpose,
    zero_bit_vector, zero_vector,
};
use voleith::vc::{vc_commit, vc_decommit, Q};

fn el(x: u128) -> GF2p128 {
    GF2p128::from_u128(x)
}

#[test]
fn xor_of_bit_vectors() {
    let mut a = vec![true, false, true, false];
    bit_xor_assign(&mut a, &vec![true, true, false, false, true]);
    assert_eq!(a, vec![false, true, true, false]);
}

#[test]
fn accumulate_adds_where_bits_are_set() {
    let mut v = vec![el(1), el(2), el(4)];
    bitmul_accumulate(&mut v, el(6), &vec![true, false, true]);
    assert_eq!(v, vec![el(7), el(2), el(2)]);
}

#[test]
fn zero_vectors() {
    assert_eq!(zero_vector(3), vec![GF2p128::zero(); 3]);
    assert_eq!(zero_bit_vector(5), vec![false; 5]);
    assert!(zero_vector(0).is_empty());
}

#[test]
fn transpose_swaps_indices() {
    let m = vec![vec![el(1), el(2), el(3)], vec![el(4), el(5), el(6)]];
    let t = transpose(&m, 2, 3);
    assert_eq!(t, vec![vec![el(1), el(4)], vec![el(2), el(5)], vec![el(3), el(6)]]);
}

#[test]
fn little_endian_bytes() {
    let x = 0x0102030405060708090a0b0c0d0e0f10u128;
    assert_eq!(to_le_bytes(el(x)), x.to_le_bytes().to_vec());
}

#[test]
fn parse_numbers() {
    let b = b"x12345 18446744073709551615 18446744073709551616 1a";
    assert_eq!(parse_usize(b, 1, 6), Some(12345));
    assert_eq!(parse_usize(b, 7, 27), Some(usize::MAX));
    assert_eq!(parse_usize(b, 28, 48), None);
    assert_eq!(parse_usize(b, 49, 51), None);
    assert_eq!(parse_usize(b, 0, 1), None);
}

#[test]
fn one_repetition_expansion() {
    let seed = vec![3u8; 32];
    let (_, key) = vc_commit(&seed);
    let n = 20;
    let (u, v) = expand_repetition(&key, n);
    let mut xu = vec![false; n];
    let mut xv = vec![GF2p128::zero(); n];
    for x in 0..Q {
        let r = leaf_expansion(&key.seeds[x], n);
        for j in 0..n {
            xu[j] ^= r[j];
            if r[j] && x > 0 {
                xv[j] = xv[j].add(GF2p128::embed_gf2p8(x as u8));
            }
        }
    }
    assert_eq!(u, xu);
    assert_eq!(v, xv);
}

#[test]
fn opening_leaves_out_one_seed() {
    let (_, key) = vc_commit(&vec![4u8; 32]);
    let op = vc_decommit(&key, 255);
    assert_eq!(op.index, 255);
    assert_eq!(op.seeds.len(), Q - 1);
    assert_eq!(op.seeds[..], key.seeds[..Q - 1]);
    assert_eq!(op.hidden_digest, key.digests[255]);
    let op0 = vc_decommit(&key, 0);
    assert_eq!(op0.seeds[..], key.seeds[1..]);
}
