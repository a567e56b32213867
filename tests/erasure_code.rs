use stripe_update::erasure_code::HitchhikerXor;
use rand::Rng;
use stripe_update::erasure_code::{Block, PartialStripe, ReedSolomon, Stripe};
use stripe_update::gf::{gf_gen_rs_matrix, gf_inv, gf_invert_matrix, gf_mul};
use stripe_update::SUError;

const K: usize = 4;
const P: usize = 2;
const M: usize = K + P;
const BLOCK_SIZE: usize = 4 << 10;
const STRIPE_NUM: usize = 1 << 10;

fn gen_stripes() -> Vec<Stripe> {
    (0..STRIPE_NUM)
        .map(|_| {
            let mut stripe = Stripe::zero(K, P, BLOCK_SIZE);
            for block in stripe.stripe.iter_mut().take(K) {
                block.bytes.iter_mut().for_each(|b| *b = rand::thread_rng().gen());
            }
            stripe
        })
        .collect()
}

fn copy_stripe(s: &Stripe) -> Stripe {
    Stripe { stripe: s.stripe.clone(), k: s.k, p: s.p }
}

fn into_full(ps: PartialStripe) -> Vec<Block> {
    ps.stripe.into_iter().map(|b| b.expect("all blocks present")).collect()
}

#[test]
fn encode_decode() {
    let ec = ReedSolomon::from_k_p(K, P);
    let mut stripes = gen_stripes();
    stripes.iter_mut().for_each(|s| ec.encode_stripe(s).unwrap());
    for stripe in stripes.iter() {
        let corrupt_num = rand::thread_rng().gen_range(1..=P);
        let mut corrupt: Vec<usize> =
            (0..corrupt_num).map(|_| rand::thread_rng().gen_range(0..M)).collect();
        corrupt.sort();
        corrupt.dedup();
        let mut ps = PartialStripe::from_stripe(copy_stripe(stripe));
        for idx in corrupt.iter() {
            ps.replace_block(*idx, None);
        }
        ec.decode(&mut ps).unwrap();
        assert_eq!(into_full(ps), stripe.stripe);
    }
}

#[test]
fn delta_update() {
    let ec = ReedSolomon::from_k_p(K, P);
    let mut stripes = gen_stripes();
    stripes.iter_mut().for_each(|s| ec.encode_stripe(s).unwrap());
    let mut rng = rand::thread_rng();
    for stripe in stripes.iter() {
        let start = rng.gen_range(0..BLOCK_SIZE / 2);
        let end = rng.gen_range(start + 1..BLOCK_SIZE);
        let updates: Vec<Option<Vec<u8>>> = (0..K)
            .map(|_| {
                if rng.gen_bool(0.4) {
                    Some((0..end - start).map(|_| rng.gen()).collect())
                } else {
                    None
                }
            })
            .collect();
        let mut expect = copy_stripe(stripe);
        for (idx, update) in updates.iter().enumerate() {
            if let Some(update) = update {
                expect.write_source(idx, start, update);
            }
        }
        ec.encode_stripe(&mut expect).unwrap();
        let mut ps = PartialStripe::from_stripe(copy_stripe(stripe));
        for (idx, update) in updates.iter().enumerate() {
            if let Some(update) = update {
                ec.delta_update(update, idx, start, &mut ps).unwrap();
            }
        }
        assert_eq!(into_full(ps), expect.stripe);
    }
}

fn scenario_stripe() -> Stripe {
    let blocks = (0..M)
        .map(|i| {
            if i < K {
                Block::from_vec((1..=16u8).map(|b| b + 16 * i as u8).collect())
            } else {
                Block::zero(16)
            }
        })
        .collect();
    Stripe::from_vec(blocks, K, P)
}

#[test]
fn encode_is_deterministic() {
    let ec = ReedSolomon::from_k_p(K, P);
    let mut a = scenario_stripe();
    ec.encode_stripe(&mut a).unwrap();
    let mut b = copy_stripe(&a);
    ec.encode_stripe(&mut b).unwrap();
    assert_eq!(a.stripe, b.stripe);
    // the first parity row of the generator is all ones: plain XOR of the sources
    for j in 0..16 {
        let x = (0..K).fold(0u8, |acc, s| acc ^ a.stripe[s].bytes[j]);
        assert_eq!(a.stripe[K].bytes[j], x);
    }
    // the second parity row is 1, 2, 4, 8
    for j in 0..16 {
        let x = (0..K).fold(0u8, |acc, s| acc ^ gf_mul(a.stripe[s].bytes[j], 1u8 << s));
        assert_eq!(a.stripe[K + 1].bytes[j], x);
    }
    assert_ne!(a.stripe[K].bytes, vec![0u8; 16]);
}

#[test]
fn single_erasure_decode() {
    let ec = ReedSolomon::from_k_p(K, P);
    let mut s = scenario_stripe();
    ec.encode_stripe(&mut s).unwrap();
    let mut ps = PartialStripe::from_stripe(copy_stripe(&s));
    ps.replace_block(2, None);
    ec.decode(&mut ps).unwrap();
    let expect: Vec<u8> = (33..=48).collect();
    assert_eq!(ps.stripe[2].as_ref().unwrap().bytes, expect);
    assert_eq!(into_full(ps), s.stripe);
}

#[test]
fn two_parity_erasures_decode() {
    let ec = ReedSolomon::from_k_p(K, P);
    let mut s = scenario_stripe();
    ec.encode_stripe(&mut s).unwrap();
    let mut ps = PartialStripe::from_stripe(copy_stripe(&s));
    ps.replace_block(0, None);
    ps.replace_block(5, None);
    ec.decode(&mut ps).unwrap();
    assert_eq!(into_full(ps), s.stripe);
}

#[test]
fn delta_update_matches_reencode() {
    let ec = ReedSolomon::from_k_p(K, P);
    let mut s = scenario_stripe();
    ec.encode_stripe(&mut s).unwrap();
    let mut full = copy_stripe(&s);
    full.write_source(1, 5, &[0xAA, 0xBB]);
    ec.encode_stripe(&mut full).unwrap();
    let mut ps = PartialStripe::from_stripe(copy_stripe(&s));
    ec.delta_update(&[0xAA, 0xBB], 1, 5, &mut ps).unwrap();
    assert_eq!(ps.stripe[1].as_ref().unwrap().bytes[5..7], [0xAA, 0xBB]);
    assert_eq!(into_full(ps), full.stripe);
}

#[test]
fn decode_too_many_absent() {
    let ec = ReedSolomon::from_k_p(K, P);
    let mut s = scenario_stripe();
    ec.encode_stripe(&mut s).unwrap();
    let mut ps = PartialStripe::from_stripe(copy_stripe(&s));
    ps.replace_block(0, None);
    ps.replace_block(1, None);
    ps.replace_block(4, None);
    assert!(matches!(ec.decode(&mut ps), Err(SUError::ErasureCode(_))));
    assert!(ps.stripe[0].is_none() && ps.stripe[1].is_none() && ps.stripe[4].is_none());
    assert_eq!(ps.stripe[2].as_ref().unwrap().bytes, s.stripe[2].bytes);
}

#[test]
fn delta_update_errors() {
    let ec = ReedSolomon::from_k_p(K, P);
    let mut s = scenario_stripe();
    ec.encode_stripe(&mut s).unwrap();
    let mut ps = PartialStripe::from_stripe(copy_stripe(&s));
    // out of the block
    assert!(matches!(ec.delta_update(&[1, 2, 3], 0, 14, &mut ps), Err(SUError::Range(_))));
    assert!(matches!(ec.delta_update(&[1], 0, 16, &mut ps), Err(SUError::Range(_))));
    // source index beyond k
    assert!(matches!(ec.delta_update(&[1], K, 0, &mut ps), Err(SUError::Range(_))));
    // an absent parity
    ps.replace_block(K + 1, None);
    assert!(matches!(ec.delta_update(&[1], 0, 0, &mut ps), Err(SUError::ErasureCode(_))));
    // an absent source
    let mut ps = PartialStripe::from_stripe(copy_stripe(&s));
    ps.replace_block(3, None);
    assert!(matches!(ec.delta_update(&[1], 3, 0, &mut ps), Err(SUError::ErasureCode(_))));
    // a code of another shape
    let other = ReedSolomon::from_k_p(3, P);
    let mut ps = PartialStripe::from_stripe(copy_stripe(&s));
    assert!(matches!(other.delta_update(&[1], 0, 0, &mut ps), Err(SUError::ErasureCode(_))));
    let mut t = copy_stripe(&s);
    assert!(matches!(other.encode_stripe(&mut t), Err(SUError::ErasureCode(_))));
    assert_eq!(t.stripe, s.stripe);
}

#[test]
fn standalone_baseline_full_block_update() {
    let block_size = 4096;
    let ec = ReedSolomon::from_k_p(K, P);
    let mut stripe = Stripe::zero(K, P, block_size);
    ec.encode_stripe(&mut stripe).unwrap();
    let data: Vec<u8> = (0..block_size).map(|_| rand::thread_rng().gen()).collect();
    // source block 1 and parity blocks 4, 5 are read; the others stay absent
    let mut ps = PartialStripe::make_absent_from_k_p(K, P, block_size);
    for idx in [1, 4, 5] {
        ps.replace_block(idx, Some(stripe.stripe[idx].clone()));
    }
    ec.delta_update(&data, 1, 0, &mut ps).unwrap();
    assert_eq!(ps.stripe[1].as_ref().unwrap().bytes, data);
    let mut full = copy_stripe(&stripe);
    full.write_source(1, 0, &data);
    ec.encode_stripe(&mut full).unwrap();
    assert_eq!(ps.stripe[4].as_ref().unwrap().bytes, full.stripe[4].bytes);
    assert_eq!(ps.stripe[5].as_ref().unwrap().bytes, full.stripe[5].bytes);
}

#[test]
fn gf_arithmetic() {
    assert_eq!(gf_mul(0x80, 2), 0x1d);
    assert_eq!(gf_mul(3, 7), 9);
    assert_eq!(gf_mul(0x57, 1), 0x57);
    assert_eq!(gf_mul(0, 0x57), 0);
    for a in 1..=255u8 {
        assert_eq!(gf_mul(a, gf_inv(a)), 1);
    }
}

#[test]
fn generator_matrix_and_inverse() {
    let m = gf_gen_rs_matrix(4, 6);
    assert_eq!(m[0], vec![1, 0, 0, 0]);
    assert_eq!(m[3], vec![0, 0, 0, 1]);
    assert_eq!(m[4], vec![1, 1, 1, 1]);
    assert_eq!(m[5], vec![1, 2, 4, 8]);
    let rows = vec![m[1].clone(), m[2].clone(), m[4].clone(), m[5].clone()];
    let inv = gf_invert_matrix(&rows, 4).unwrap();
    for i in 0..4 {
        for j in 0..4 {
            let x = (0..4).fold(0u8, |acc, t| acc ^ gf_mul(rows[t][j], inv[i][t]));
            assert_eq!(x, if i == j { 1 } else { 0 });
        }
    }
    let singular = vec![vec![1, 1], vec![1, 1]];
    assert!(gf_invert_matrix(&singular, 2).is_none());
}

#[test]
fn hitchhiker_encode_xors_groups() {
    let (k, p) = (4, 3);
    let hh = HitchhikerXor::try_from_k_p(k, p).unwrap();
    let rs = ReedSolomon::from_k_p(k, p);
    let make = |seed: u8| {
        let blocks = (0..k + p)
            .map(|i| {
                if i < k {
                    Block::from_vec((0..8u8).map(|b| b.wrapping_mul(31).wrapping_add(seed + i as u8)).collect())
                } else {
                    Block::zero(8)
                }
            })
            .collect();
        Stripe::from_vec(blocks, k, p)
    };
    let mut a = make(3);
    let mut b = make(100);
    hh.encode_stripe(&mut a, &mut b).unwrap();
    let mut a_rs = make(3);
    let mut b_rs = make(100);
    rs.encode_stripe(&mut a_rs).unwrap();
    rs.encode_stripe(&mut b_rs).unwrap();
    assert_eq!(a.stripe, a_rs.stripe);
    assert_eq!(b.stripe[k].bytes, b_rs.stripe[k].bytes);
    // groups of two sources: {0, 1} into parity 1, {2, 3} into parity 2
    for x in 0..8 {
        let g0 = a.stripe[0].bytes[x] ^ a.stripe[1].bytes[x];
        let g1 = a.stripe[2].bytes[x] ^ a.stripe[3].bytes[x];
        assert_eq!(b.stripe[k + 1].bytes[x], b_rs.stripe[k + 1].bytes[x] ^ g0);
        assert_eq!(b.stripe[k + 2].bytes[x], b_rs.stripe[k + 2].bytes[x] ^ g1);
    }
}

#[test]
fn apply_source_updates_matches_reencode() {
    let ec = ReedSolomon::from_k_p(K, P);
    let mut s = scenario_stripe();
    ec.encode_stripe(&mut s).unwrap();
    let new1: Vec<u8> = (100..116).collect();
    let new3: Vec<u8> = (200..216).collect();
    let mut full = copy_stripe(&s);
    full.write_source(1, 0, &new1);
    full.write_source(3, 0, &new3);
    ec.encode_stripe(&mut full).unwrap();
    // only the updated sources and the parities are read
    let mut ps = PartialStripe::make_absent_from_k_p(K, P, 16);
    for idx in [1, 3, 4, 5] {
        ps.replace_block(idx, Some(s.stripe[idx].clone()));
    }
    ec.apply_source_updates(&mut ps, &vec![(1, new1.clone()), (3, new3.clone())]).unwrap();
    assert_eq!(ps.stripe[1].as_ref().unwrap().bytes, new1);
    assert_eq!(ps.stripe[4].as_ref().unwrap().bytes, full.stripe[4].bytes);
    assert_eq!(ps.stripe[5].as_ref().unwrap().bytes, full.stripe[5].bytes);
    // an absent source or a short block is refused and changes nothing
    assert!(matches!(ec.apply_source_updates(&mut ps, &vec![(0, new1.clone())]), Err(SUError::ErasureCode(_))));
    assert!(matches!(ec.apply_source_updates(&mut ps, &vec![(1, vec![0u8; 3])]), Err(SUError::ErasureCode(_))));
    assert_eq!(ps.stripe[4].as_ref().unwrap().bytes, full.stripe[4].bytes);
}

#[test]
fn decode_parity_and_source_erasures() {
    let ec = ReedSolomon::from_k_p(K, P);
    let mut s = scenario_stripe();
    ec.encode_stripe(&mut s).unwrap();
    for erased in [vec![4, 5], vec![0], vec![3, 5], vec![1, 2], vec![2, 4]] {
        let mut ps = PartialStripe::from_stripe(copy_stripe(&s));
        for idx in erased.iter() {
            ps.replace_block(*idx, None);
        }
        ec.decode(&mut ps).unwrap();
        assert_eq!(into_full(ps), s.stripe);
    }
}

#[test]
fn decode_fails_on_singular_survivors() {
    // with k = 5, p = 6 the generator rows of slots 2, 3, 5, 8, 10 are linearly dependent
    let (k, p) = (5, 6);
    let ec = ReedSolomon::from_k_p(k, p);
    let blocks = (0..k + p)
        .map(|i| if i < k { Block::from_vec(vec![i as u8 + 1; 8]) } else { Block::zero(8) })
        .collect();
    let mut s = Stripe::from_vec(blocks, k, p);
    ec.encode_stripe(&mut s).unwrap();
    let mut ps = PartialStripe::from_stripe(copy_stripe(&s));
    for idx in [0, 1, 4, 6, 7, 9] {
        ps.replace_block(idx, None);
    }
    assert!(matches!(ec.decode(&mut ps), Err(SUError::ErasureCode(_))));
    assert!(ps.stripe[0].is_none());
}

#[test]
fn hitchhiker_repair_restores_lost_source() {
    let (k, p) = (4, 3);
    let hh = HitchhikerXor::try_from_k_p(k, p).unwrap();
    let make = |seed: u8| {
        let blocks = (0..k + p)
            .map(|i| {
                if i < k {
                    Block::from_vec((0..8u8).map(|b| b.wrapping_mul(29).wrapping_add(seed + 7 * i as u8)).collect())
                } else {
                    Block::zero(8)
                }
            })
            .collect();
        Stripe::from_vec(blocks, k, p)
    };
    for lost in 0..k {
        let mut a = make(5);
        let mut b = make(77);
        hh.encode_stripe(&mut a, &mut b).unwrap();
        let mut pa = PartialStripe::from_stripe(copy_stripe(&a));
        let mut pb = PartialStripe::from_stripe(copy_stripe(&b));
        pa.replace_block(lost, None);
        pb.replace_block(lost, None);
        hh.repair(&mut pa, &mut pb).unwrap();
        assert_eq!(into_full(pa), a.stripe);
        assert_eq!(into_full(pb), b.stripe);
    }
    // the lost blocks must be the same source
    let mut a = make(5);
    let mut b = make(77);
    hh.encode_stripe(&mut a, &mut b).unwrap();
    let mut pa = PartialStripe::from_stripe(copy_stripe(&a));
    let mut pb = PartialStripe::from_stripe(copy_stripe(&b));
    pa.replace_block(0, None);
    pb.replace_block(1, None);
    assert!(matches!(hh.repair(&mut pa, &mut pb), Err(SUError::ErasureCode(_))));
}
