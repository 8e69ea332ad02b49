use voleith::gf2p128::GF2p128;
use voleith::hash::{COMMIT_TAG, EXPAND_TAG};
use voleith::sender::{
    leaf_expansion, repetition_seeds, SenderState, VoleInTheHeadSender, VoleInTheHeadSenderFromVC,
};
use voleith::vc::{vc_commit, vc_decommit, Q, SEED_LEN};

fn digest(data: &[u8]) -> Vec<u8> {
    blake3::hash(data).as_bytes().to_vec()
}

fn xof(data: &[u8], n: usize) -> Vec<u8> {
    let mut h = blake3::Hasher::new();
    h.update(data);
    let mut out = vec![0u8; n];
    h.finalize_xof().fill(&mut out);
    out
}

fn tagged(tag: u8, s: &[u8]) -> Vec<u8> {
    let mut t = vec![tag];
    t.extend_from_slice(s);
    t
}

fn seed(tag: u8) -> Vec<u8> {
    (0..SEED_LEN as u8).map(|i| i.wrapping_mul(7) ^ tag).collect()
}

fn points(n: usize, base: u128) -> Vec<GF2p128> {
    (0..n).map(|i| GF2p128::from_u128(base.wrapping_mul(i as u128 + 3) ^ 0x1111)).collect()
}

fn deltas(n: usize) -> Vec<u8> {
    (0..n).map(|i| (i * 37 + 5) as u8).collect()
}

/// The exclusive or of all leaf expansions of repetition `i`, computed
/// directly from the seed.
fn all_leaves_xor(master: &Vec<u8>, tau: usize, i: usize, n: usize) -> Vec<bool> {
    let rs = repetition_seeds(master, tau)[i].clone();
    let (_, key) = vc_commit(&rs);
    let mut acc = vec![false; n];
    for x in 0..Q {
        let r = leaf_expansion(&key.seeds[x], n);
        for k in 0..n {
            acc[k] ^= r[k];
        }
    }
    acc
}

#[test]
fn blake3_known_answers() {
    assert_eq!(digest(b"abc")[..4], [0x64, 0x37, 0xb3, 0xac]);
    assert_eq!(xof(b"", 4), vec![0xaf, 0x13, 0x49, 0xb9]);
}

#[test]
fn repetition_seeds_come_from_the_extendable_output() {
    let master = seed(9);
    let seeds = repetition_seeds(&master, 3);
    let all = xof(&master, 3 * SEED_LEN);
    assert_eq!(seeds.len(), 3);
    for i in 0..3 {
        assert_eq!(seeds[i], all[i * SEED_LEN..(i + 1) * SEED_LEN].to_vec());
    }
}

#[test]
fn vc_commit_digests_the_leaf_digests() {
    let rs = seed(10);
    let (com, key) = vc_commit(&rs);
    let leaves = xof(&rs, SEED_LEN * Q);
    let mut concat = Vec::new();
    for x in 0..Q {
        let s = leaves[x * SEED_LEN..(x + 1) * SEED_LEN].to_vec();
        assert_eq!(key.seeds[x], s);
        assert_eq!(key.digests[x], digest(&tagged(COMMIT_TAG, &s)));
        concat.extend_from_slice(&digest(&tagged(COMMIT_TAG, &s)));
    }
    assert_eq!(com, digest(&concat));
    assert_ne!(com, rs);
}

#[test]
fn leaf_expansion_bit_order() {
    let bytes = xof(&tagged(EXPAND_TAG, b"leaf"), 2);
    let bits = leaf_expansion(&b"leaf".to_vec(), 12);
    assert_eq!(bits.len(), 12);
    for k in 0..12 {
        assert_eq!(bits[k], (bytes[k / 8] >> (k % 8)) & 1 == 1);
    }
}

#[test]
fn full_sequence_moves_through_every_state() {
    let (ell, tau) = (16, 4);
    let mut s = VoleInTheHeadSenderFromVC::new(ell, tau, seed(1));
    assert_eq!(s.state(), SenderState::New);
    let c = s.commit_random();
    assert_eq!(s.state(), SenderState::Committed);
    assert_eq!(c.vc_commitment_hash.len(), 32);
    assert_eq!(c.correction_values.len(), tau - 1);
    for cv in &c.correction_values {
        assert_eq!(cv.len(), ell + tau);
    }
    let r = s.consistency_check_respond(points(tau, 99));
    assert_eq!(s.state(), SenderState::RespondedToConsistencyChallenge);
    assert_eq!(r.vector.len(), ell);
    let d = s.decommit(deltas(tau));
    assert_eq!(s.state(), SenderState::Ready);
    assert_eq!(d.len(), tau);
    let (u, v) = s.get_output();
    assert_eq!(u.len(), ell);
    assert_eq!(v.len(), ell);
    assert!(v.iter().all(|row| row.len() == tau));
}

#[test]
fn end_to_end_128_by_16() {
    let run = || {
        let mut s = VoleInTheHeadSenderFromVC::new(128, 16, seed(7));
        let c = s.commit_random();
        let r = s.consistency_check_respond(points(16, 0xdead_beef));
        let d = s.decommit(deltas(16));
        let (u, v) = s.get_output();
        (c, r, d, u, v)
    };
    let (c1, r1, d1, u1, v1) = run();
    let (c2, r2, d2, u2, v2) = run();
    assert_eq!(u1.len(), 128);
    assert_eq!(v1.len(), 128);
    assert!(v1.iter().all(|row| row.len() == 16));
    assert_eq!(c1.vc_commitment_hash, c2.vc_commitment_hash);
    assert_eq!(c1.correction_values, c2.correction_values);
    assert_eq!(r1.vector, r2.vector);
    assert_eq!(r1.hsh, r2.hsh);
    assert_eq!(d1.len(), 16);
    for (a, b) in d1.iter().zip(d2.iter()) {
        assert_eq!(a.index, b.index);
        assert_eq!(a.seeds, b.seeds);
        assert_eq!(a.hidden_digest, b.hidden_digest);
    }
    assert_eq!(u1, u2);
    assert_eq!(v1, v2);
}

#[test]
fn different_seeds_give_different_commitments() {
    let mut a = VoleInTheHeadSenderFromVC::new(8, 2, seed(1));
    let mut b = VoleInTheHeadSenderFromVC::new(8, 2, seed(2));
    assert_ne!(a.commit_random().vc_commitment_hash, b.commit_random().vc_commitment_hash);
}

#[test]
fn leave_one_out_consistency() {
    let (ell, tau) = (24, 3);
    let master = seed(3);
    let mut s = VoleInTheHeadSenderFromVC::new(ell, tau, master.clone());
    let c = s.commit_random();
    let x0 = all_leaves_xor(&master, tau, 0, ell + tau);
    assert_eq!(s.u, x0);
    for i in 1..tau {
        let xi = all_leaves_xor(&master, tau, i, ell + tau);
        let expected: Vec<bool> = xi.iter().zip(x0.iter()).map(|(a, b)| a ^ b).collect();
        assert_eq!(c.correction_values[i - 1], expected);
    }
}

#[test]
fn message_commitment_round_trip() {
    let (ell, tau) = (128, 4);
    let master = seed(4);
    let m: Vec<bool> = (0..ell).map(|k| (k * 5 + 1) % 3 == 0).collect();
    let mut s = VoleInTheHeadSenderFromVC::new(ell, tau, master.clone());
    let c = s.commit_message(m.clone());
    assert_eq!(c.correction_values.len(), tau);
    assert_eq!(c.correction_values[0].len(), ell);
    let x0 = all_leaves_xor(&master, tau, 0, ell + tau);
    let recovered: Vec<bool> = c.correction_values[0].iter().zip(x0.iter()).map(|(a, b)| a ^ b).collect();
    assert_eq!(recovered, m);
    let (u, _) = s.get_output();
    assert_eq!(u, m);
}

#[test]
fn consistency_response_values() {
    let (ell, tau) = (5, 2);
    let mut s = VoleInTheHeadSenderFromVC::new(ell, tau, seed(5));
    s.commit_random();
    let u = s.u.clone();
    let v = s.v.clone();
    let pts = points(tau, 12345);
    let r = s.consistency_check_respond(pts.clone());
    for j in 0..ell {
        let mut acc = GF2p128::zero();
        for i in 0..tau {
            if u[j + i] {
                acc = acc.add(pts[i]);
            }
        }
        assert_eq!(r.vector[j], acc);
    }
    let mut bytes = Vec::new();
    for row in &v {
        let mut acc = GF2p128::zero();
        for i in 0..tau {
            acc = acc.add(pts[i].mul(row[i]));
        }
        bytes.extend_from_slice(&acc.to_u128().to_le_bytes());
    }
    assert_eq!(r.hsh, digest(&bytes));
    assert_eq!(s.u, u[..ell].to_vec());
}

#[test]
fn v_holds_embedded_leaf_sums() {
    let (ell, tau) = (6, 2);
    let master = seed(6);
    let mut s = VoleInTheHeadSenderFromVC::new(ell, tau, master.clone());
    s.commit_random();
    let rep_seeds = repetition_seeds(&master, tau);
    for i in 0..tau {
        let (_, key) = vc_commit(&rep_seeds[i]);
        let mut col = vec![GF2p128::zero(); ell + tau];
        for x in 1..Q {
            let r = leaf_expansion(&key.seeds[x], ell + tau);
            for j in 0..ell + tau {
                if r[j] {
                    col[j] = col[j].add(GF2p128::embed_gf2p8(x as u8));
                }
            }
        }
        for j in 0..ell + tau {
            assert_eq!(s.v[j][i], col[j]);
        }
    }
}

#[test]
fn decommit_hides_the_challenged_leaf() {
    let (ell, tau) = (4, 2);
    let master = seed(8);
    let mut s = VoleInTheHeadSenderFromVC::new(ell, tau, master.clone());
    let c = s.commit_random();
    s.consistency_check_respond(points(tau, 1));
    let ds = vec![0u8, 200u8];
    let openings = s.decommit(ds.clone());
    let rep_seeds = repetition_seeds(&master, tau);
    let mut all = Vec::new();
    for i in 0..tau {
        let (com, key) = vc_commit(&rep_seeds[i]);
        let op = &openings[i];
        assert_eq!(op.index, ds[i]);
        assert_eq!(op.seeds.len(), Q - 1);
        assert!(!op.seeds.contains(&key.seeds[ds[i] as usize]));
        // the verifier's recomputation of the commitment
        let mut concat = Vec::new();
        let mut k = 0;
        for x in 0..Q {
            if x == ds[i] as usize {
                concat.extend_from_slice(&op.hidden_digest);
            } else {
                concat.extend_from_slice(&digest(&tagged(COMMIT_TAG, &op.seeds[k])));
                k += 1;
            }
        }
        assert_eq!(digest(&concat), com);
        all.extend_from_slice(&com);
        let direct = vc_decommit(&key, ds[i]);
        assert_eq!(direct.seeds, op.seeds);
    }
    assert_eq!(digest(&all), c.vc_commitment_hash);
}

#[test]
fn opening_reveals_nothing_of_the_hidden_expansion() {
    let (_, key) = vc_commit(&seed(11));
    let op = vc_decommit(&key, 17);
    let hidden = &key.seeds[17];
    // the expansion of the hidden seed, as bytes
    let expansion = xof(&tagged(EXPAND_TAG, hidden), 32);
    assert_ne!(op.hidden_digest, expansion);
    assert_ne!(op.hidden_digest, digest(hidden));
    let bits = leaf_expansion(hidden, 256);
    let mut packed = vec![0u8; 32];
    for k in 0..256 {
        if bits[k] {
            packed[k / 8] |= 1 << (k % 8);
        }
    }
    assert_eq!(packed, expansion);
    assert_ne!(packed, op.hidden_digest);
}

#[test]
fn consistency_fold_is_linear_in_the_points() {
    let (ell, tau) = (10, 3);
    let respond = |pts: Vec<GF2p128>| {
        let mut s = VoleInTheHeadSenderFromVC::new(ell, tau, seed(12));
        s.commit_random();
        s.consistency_check_respond(pts).vector
    };
    let p1 = points(tau, 77);
    let p2 = points(tau, 1234567);
    let p3: Vec<GF2p128> = p1.iter().zip(p2.iter()).map(|(a, b)| a.add(*b)).collect();
    let c = GF2p128::from_u128(0xabcdef);
    let p4: Vec<GF2p128> = p1.iter().map(|a| c.mul(*a)).collect();
    let (r1, r2, r3, r4) = (respond(p1), respond(p2), respond(p3), respond(p4));
    for j in 0..ell {
        assert_eq!(r3[j], r1[j].add(r2[j]));
        assert_eq!(r4[j], c.mul(r1[j]));
    }
}
