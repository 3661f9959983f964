use frodo_pir::errors::PirError;
use frodo_pir::utils::format::{
    base64_from_u32_slice, bits_to_bytes_le, bits_to_u32_le, bytes_from_u32_slice,
    bytes_to_bits_le,
};
use frodo_pir::utils::lwe::{
    get_plaintext_size, get_rounding_factor, get_rounding_floor, random_ternary_vector,
    ternary_from_word,
};
use frodo_pir::utils::matrices::{
    flatten_matrix_row_major, generate_lwe_matrix_from_seed, swap_matrix_fmt, vec_mult_u32_u32,
};

#[test]
fn rounding_parameters() {
    assert_eq!(get_rounding_factor(10), 1 << 22);
    assert_eq!(get_rounding_floor(10), 1 << 21);
    assert_eq!(get_plaintext_size(10), 1024);
    assert_eq!(get_rounding_factor(1), 1 << 31);
    assert_eq!(get_rounding_factor(32), 1);
    assert_eq!(get_rounding_floor(32), 0);
    assert_eq!(get_plaintext_size(0), 1);
    assert_eq!(get_plaintext_size(31), 1 << 31);
    for bits in 1..=31 {
        let product = get_rounding_factor(bits) as u64 * get_plaintext_size(bits) as u64;
        assert_eq!(product, 1 << 32);
    }
}

#[test]
fn words_are_mapped_to_ternary_values() {
    assert_eq!(ternary_from_word(0), Some(0));
    assert_eq!(ternary_from_word(0x5555_5554), Some(0));
    assert_eq!(ternary_from_word(0x5555_5555), Some(1));
    assert_eq!(ternary_from_word(0xaaaa_aaa9), Some(1));
    assert_eq!(ternary_from_word(0xaaaa_aaaa), Some(u32::MAX));
    assert_eq!(ternary_from_word(0xffff_fffe), Some(u32::MAX));
    assert_eq!(ternary_from_word(0xffff_ffff), None);
}

#[test]
fn ternary_vectors_hold_all_three_values() {
    let v = random_ternary_vector(1000);
    assert_eq!(v.len(), 1000);
    for value in [0, 1, u32::MAX] {
        assert!(v.contains(&value));
    }
    assert!(v.iter().all(|x| x.wrapping_add(1) < 3));
}

#[test]
fn bits_of_bytes_start_with_the_lowest() {
    let bits = bytes_to_bits_le(&[0x01, 0x80]);
    assert_eq!(bits.len(), 16);
    assert!(bits[0] && bits[15]);
    assert_eq!(bits.iter().filter(|b| **b).count(), 2);
    assert_eq!(bits_to_bytes_le(&bits), vec![0x01, 0x80]);
    assert_eq!(bits_to_bytes_le(&[true; 11]), vec![0xff, 0x07]);
    assert_eq!(bits_to_bytes_le(&[]), Vec::<u8>::new());
}

#[test]
fn words_hold_at_most_32_bits() {
    assert_eq!(bits_to_u32_le(&[]), Ok(0));
    assert_eq!(bits_to_u32_le(&[false, true, true]), Ok(6));
    assert_eq!(bits_to_u32_le(&[true; 32]), Ok(u32::MAX));
    assert_eq!(bits_to_u32_le(&[false; 33]), Err(PirError::UnexpectedInputSize));
}

#[test]
fn rows_are_packed_into_bytes() {
    // 0x201 and 0x0c0, ten bits each
    assert_eq!(bytes_from_u32_slice(&[0x201, 0xc0, 0], 10, 24), vec![1, 2, 3]);
    assert_eq!(base64_from_u32_slice(&[0x201, 0xc0, 0], 10, 24), "AQID");
    // no more bits than the row holds
    assert_eq!(bytes_from_u32_slice(&[0xff], 8, 100), vec![0xff]);
    // bits past the entry size do not count
    assert_eq!(bytes_from_u32_slice(&[0x1ff, 0], 8, 16), vec![0xff, 0]);
    // entries wider than a word are filled up with zeros
    assert_eq!(bytes_from_u32_slice(&[u32::MAX], 40, 40), vec![0xff, 0xff, 0xff, 0xff, 0]);
}

#[test]
fn inner_products_wrap() {
    assert_eq!(vec_mult_u32_u32(&[1, 2, u32::MAX], &[3, 4, 5]), Ok(6));
    assert_eq!(vec_mult_u32_u32(&[1 << 31], &[2]), Ok(0));
    assert_eq!(vec_mult_u32_u32(&[], &[]), Ok(0));
    assert_eq!(vec_mult_u32_u32(&[1], &[1, 2]), Err(PirError::UnexpectedInputSize));
}

#[test]
fn matrices_are_transposed_and_flattened() {
    let matrix = vec![vec![1, 2, 3], vec![4, 5, 6]];
    assert_eq!(swap_matrix_fmt(&matrix), vec![vec![1, 4], vec![2, 5], vec![3, 6]]);
    assert_eq!(flatten_matrix_row_major(&matrix), vec![1, 2, 3, 4, 5, 6]);
    assert_eq!(swap_matrix_fmt(&[]), Vec::<Vec<u32>>::new());
}

#[test]
fn public_matrix_depends_on_the_seed() {
    let one = generate_lwe_matrix_from_seed([1u8; 32], 3, 4);
    assert_eq!(one.len(), 4);
    assert!(one.iter().all(|column| column.len() == 3));
    assert_eq!(one, generate_lwe_matrix_from_seed([1u8; 32], 3, 4));
    assert_ne!(one, generate_lwe_matrix_from_seed([2u8; 32], 3, 4));
}
