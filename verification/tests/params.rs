use frodo_pir::db::Database;
use frodo_pir::params::{random_ternary_lanes, vec_mult_lanes, BaseParams, CommonParams};
use rand_chacha::ChaCha12Rng;
use rand_core::{RngCore, SeedableRng};

fn sample_db(m: usize, width: usize) -> Database {
    let entries = (0..(m * width) as u32).map(|k| k.wrapping_mul(2246822519) >> 22).collect();
    Database { entries, m, width, elem_size: 10 * width, plaintext_bits: 10 }
}

/// Entry `r` of column `i` of the public matrix.
fn matrix_entry(cp: &CommonParams, dim: usize, i: usize, r: usize) -> u32 {
    cp.as_matrix_flat()[i * dim + r]
}

#[test]
fn matrix_is_the_key_stream_of_the_seed() {
    let db = sample_db(6, 2);
    let bp = BaseParams::with_seed(&db, 5, [9u8; 32]);
    let cp = CommonParams::from(&bp);
    let mut bytes = vec![0u8; 4 * 5 * 6];
    ChaCha12Rng::from_seed([9u8; 32]).fill_bytes(&mut bytes);
    let words: Vec<u32> = bytes
        .chunks(4)
        .map(|b| u32::from_le_bytes([b[0], b[1], b[2], b[3]]))
        .collect();
    assert_eq!(cp.as_matrix_flat(), &words[..]);
    assert_eq!((cp.m, cp.dim), (6, 5));
}

#[test]
fn matrix_is_derived_alike_by_everyone() {
    let db = sample_db(4, 3);
    let bp = BaseParams::with_seed(&db, 7, [1u8; 32]);
    let one = CommonParams::from(&bp);
    let other = CommonParams::from(&bp);
    assert_eq!(one.as_matrix_flat(), other.as_matrix_flat());
    let third = CommonParams::from(&BaseParams::with_seed(&db, 7, [2u8; 32]));
    assert_ne!(one.as_matrix_flat(), third.as_matrix_flat());
}

#[test]
fn right_hand_side_is_matrix_times_database_for_every_block_size() {
    let db = sample_db(13, 3);
    for dim in [0usize, 1, 7, 8, 9, 15, 16, 17, 31, 32, 48, 63, 64, 65, 112, 121, 130] {
        let bp = BaseParams::with_seed(&db, dim, [3u8; 32]);
        let cp = CommonParams::from(&bp);
        assert_eq!(bp.rhs.len(), 3 * dim);
        for c in 0..3 {
            for r in 0..dim {
                let mut expected = 0u32;
                for i in 0..13 {
                    let product = matrix_entry(&cp, dim, i, r).wrapping_mul(db.entries[i * 3 + c]);
                    expected = expected.wrapping_add(product);
                }
                assert_eq!(bp.rhs[c * dim + r], expected);
            }
        }
        assert_eq!(BaseParams::generate_params_rhs(&db, [3u8; 32], dim, 13), bp.rhs);
    }
}

#[test]
fn parameters_repeat_the_sizes() {
    let db = sample_db(4, 3);
    let bp = BaseParams::new(&db, 6);
    assert_eq!(bp.get_total_records(), 4);
    assert_eq!(bp.get_dim(), 6);
    assert_eq!(bp.get_elem_size(), 30);
    assert_eq!(bp.get_plaintext_bits(), 10);
}

#[test]
fn seeds_are_drawn_afresh() {
    let db = sample_db(2, 1);
    assert_ne!(BaseParams::new(&db, 2).public_seed, BaseParams::new(&db, 2).public_seed);
}

#[test]
fn right_product_of_given_values() {
    let bp = BaseParams {
        dim: 2,
        m: 0,
        elem_size: 0,
        plaintext_bits: 1,
        public_seed: [0u8; 32],
        rhs: vec![1, 2, 3, 4, 5],
    };
    // the fifth value fills no column
    assert_eq!(bp.mult_right(&[10, u32::MAX]).unwrap(), vec![8, 26]);
    assert_eq!(
        bp.mult_right_batched_n::<3>(&[[10, 0, 1], [u32::MAX, 1, 1]]).unwrap(),
        vec![[8, 2, 3], [26, 4, 7]]
    );
}

#[test]
fn left_product_of_given_values() {
    let cp = CommonParams { matrix: vec![1, 2, 3, 4], m: 2, dim: 2 };
    assert_eq!(cp.mult_left_with_errors(&[10, u32::MAX], &[1, u32::MAX]), vec![9, 25]);
    assert_eq!(
        cp.mult_left_batched_with_errors::<2>(
            &[[10, 0], [u32::MAX, 1]],
            &[[1, 0], [u32::MAX, 1]]
        ),
        vec![[9, 2], [25, 5]]
    );
}

#[test]
fn left_product_differs_from_the_exact_one_by_ternary_errors() {
    let db = sample_db(300, 1);
    let bp = BaseParams::with_seed(&db, 4, [5u8; 32]);
    let cp = CommonParams::from(&bp);
    let s = [1u32, 0, u32::MAX, 1];
    let exact = cp.mult_left_with_errors(&s, &vec![0u32; 300]);
    let b = cp.mult_left(&s).unwrap();
    let mut seen = [0usize; 3];
    for i in 0..300 {
        let e = b[i].wrapping_sub(exact[i]).wrapping_add(1);
        assert!(e < 3);
        seen[e as usize] += 1;
    }
    assert!(seen.iter().all(|n| *n > 0));
    let lanes = cp.mult_left_batched_n::<2>(&[[1, 1], [0, 0], [u32::MAX, u32::MAX], [1, 1]]).unwrap();
    for i in 0..300 {
        for j in 0..2 {
            assert!(lanes[i][j].wrapping_sub(exact[i]).wrapping_add(1) < 3);
        }
    }
}

#[test]
fn lanes_multiply_like_vectors() {
    assert_eq!(vec_mult_lanes::<2>(&[[1, 2], [3, 4]], &[5, u32::MAX]), [2, 6]);
    assert_eq!(vec_mult_lanes::<2>(&[], &[]), [0, 0]);
    let lanes = random_ternary_lanes::<4>(50);
    assert_eq!(lanes.len(), 50);
    assert!(lanes.iter().flatten().all(|x| x.wrapping_add(1) < 3));
}
