use frodo_pir::api::{BaseParams, CommonParams, Query, QueryParams, Response, Shard};
use frodo_pir::db::Database;
use frodo_pir::errors::PirError;
use rand_core::{OsRng, RngCore};

// This will generate random elements for test databases
fn generate_db_elems(num_elems: usize, elem_byte_len: usize) -> Vec<String> {
    let mut elems = Vec::with_capacity(num_elems);
    for _ in 0..num_elems {
        let mut elem = vec![0u8; elem_byte_len];
        OsRng.fill_bytes(&mut elem);
        let elem_str = base64::encode(elem);
        elems.push(elem_str);
    }
    elems
}

fn read_response(bytes: &[u8]) -> Response {
    Response(bincode::deserialize::<Vec<u32>>(bytes).unwrap())
}

#[test]
fn client_query_to_server_10_times() {
    let m = 2u32.pow(12) as usize;
    let elem_size = 2u32.pow(8) as usize;
    let plaintext_bits = 12usize;
    let lwe_dim = 512;
    let db_elems = generate_db_elems(m, (elem_size + 7) / 8);
    let shard =
        Shard::from_base64_strings(&db_elems, lwe_dim, m, elem_size, plaintext_bits).unwrap();

    let bp = shard.get_base_params();
    let cp = CommonParams::from(bp);

    #[allow(clippy::needless_range_loop)]
    for i in 0..10 {
        let mut qp = QueryParams::new(&cp, bp).unwrap();
        let q = qp.generate_query(i).unwrap();

        let d_resp = shard.respond(&q).unwrap();
        let resp = read_response(&d_resp);

        let output = resp.parse_output_as_base64(&qp);
        assert_eq!(output, db_elems[i]);
    }
}

#[test]
fn client_query_to_server_attempt_params_reuse() {
    let m = 2u32.pow(6) as usize;
    let elem_size = 2u32.pow(8) as usize;
    let plaintext_bits = 10usize;
    let lwe_dim = 512;
    let db_elems = generate_db_elems(m, (elem_size + 7) / 8);
    let shard =
        Shard::from_base64_strings(&db_elems, lwe_dim, m, elem_size, plaintext_bits).unwrap();
    let bp = shard.get_base_params();
    let cp = CommonParams::from(bp);

    let mut qp = QueryParams::new(&cp, bp).unwrap();

    // should be successful in generating a query
    let res_unused = qp.generate_query(0);
    assert!(res_unused.is_ok());

    // should be "used"
    assert!(qp.used);

    // should not be successful in generating a query
    let res = qp.generate_query(0);
    assert!(res.is_err());
}

/// Two rows of one entry each.
fn two_rows(first: u32, second: u32, plaintext_bits: usize) -> Shard {
    let db = Database {
        entries: vec![first, second],
        m: 2,
        width: 1,
        elem_size: plaintext_bits,
        plaintext_bits,
    };
    let base_params = BaseParams::with_seed(&db, 3, [7u8; 32]);
    Shard { db, base_params }
}

/// What a client gets for row 0 with the given errors and no secret.
fn fetch_first(shard: &Shard, errors: &[u32]) -> Vec<u32> {
    let bp = shard.get_base_params();
    let cp = CommonParams::from(bp);
    let mut qp = QueryParams::from_secrets(&cp, bp, &[0, 0, 0], errors);
    let q = qp.generate_query(0).unwrap();
    read_response(&shard.respond(&q).unwrap()).parse_output_as_row(&qp)
}

#[test]
fn query_is_the_scaled_unit_vector_behind_the_masks() {
    let shard = two_rows(3, 9, 4);
    let bp = shard.get_base_params();
    let cp = CommonParams::from(bp);
    let mut qp = QueryParams::from_secrets(&cp, bp, &[0, 0, 0], &[1, 0]);
    assert_eq!(qp.lhs, vec![1, 0]);
    assert_eq!(qp.rhs, vec![0]);
    let q = qp.generate_query(1).unwrap();
    assert_eq!(q.as_slice(), &[1, 1 << 28]);
    // 1 * 3 + 2^28 * 9
    let resp = read_response(&shard.respond(&q).unwrap());
    assert_eq!(resp.as_slice(), &[3 + 9 * (1 << 28)]);
    assert_eq!(resp.parse_output_as_row(&qp), vec![9]);
}

#[test]
fn noise_of_half_a_factor_above_is_tolerated() {
    // half of the rounding factor of four bits is 2^27
    assert_eq!(fetch_first(&two_rows(3, 1 << 27, 4), &[0, 1]), vec![3]);
    assert_eq!(fetch_first(&two_rows(15, 1 << 27, 4), &[0, 1]), vec![15]);
}

#[test]
fn noise_of_more_than_half_a_factor_above_is_not_tolerated() {
    assert_eq!(fetch_first(&two_rows(3, (1 << 27) + 1, 4), &[0, 1]), vec![4]);
    assert_eq!(fetch_first(&two_rows(15, (1 << 27) + 1, 4), &[0, 1]), vec![0]);
}

#[test]
fn noise_of_less_than_half_a_factor_below_is_tolerated() {
    assert_eq!(fetch_first(&two_rows(3, (1 << 27) - 1, 4), &[0, u32::MAX]), vec![3]);
    assert_eq!(fetch_first(&two_rows(0, (1 << 27) - 1, 4), &[0, u32::MAX]), vec![0]);
}

#[test]
fn noise_of_half_a_factor_below_is_not_tolerated() {
    assert_eq!(fetch_first(&two_rows(3, 1 << 27, 4), &[0, u32::MAX]), vec![2]);
    assert_eq!(fetch_first(&two_rows(0, 1 << 27, 4), &[0, u32::MAX]), vec![15]);
}

#[test]
fn largest_number_of_plaintext_bits_rounds() {
    assert_eq!(fetch_first(&two_rows(5, 0, 31), &[0, 0]), vec![5]);
    assert_eq!(fetch_first(&two_rows(5, 1, 31), &[0, 1]), vec![5]);
    assert_eq!(fetch_first(&two_rows(5, 2, 31), &[0, 1]), vec![6]);
}

#[test]
fn overflow_is_reported_and_uses_the_parameters_up() {
    let shard = two_rows(3, 9, 4);
    let bp = shard.get_base_params();
    let cp = CommonParams::from(bp);
    let mut qp = QueryParams::from_secrets(&cp, bp, &[0, 0, 0], &[u32::MAX, 0]);
    assert_eq!(qp.generate_query(0).err(), Some(PirError::OverflownAdd));
    assert!(qp.used);
    assert_eq!(qp.generate_query(1).err(), Some(PirError::QueryParamsReused));
    assert_eq!(qp.lhs, vec![u32::MAX, 0]);
}

#[test]
fn largest_sum_does_not_overflow() {
    let mut qp = QueryParams {
        lhs: vec![u32::MAX - (1 << 28)],
        rhs: vec![0],
        elem_size: 4,
        plaintext_bits: 4,
        used: false,
    };
    assert_eq!(qp.generate_query(0).unwrap().as_slice(), &[u32::MAX]);
    let mut qp = QueryParams {
        lhs: vec![u32::MAX - (1 << 28) + 1],
        rhs: vec![0],
        elem_size: 4,
        plaintext_bits: 4,
        used: false,
    };
    assert_eq!(qp.generate_query(0).err(), Some(PirError::OverflownAdd));
}

#[test]
fn used_parameters_stay_as_they_are() {
    let mut qp = QueryParams {
        lhs: vec![1, 2],
        rhs: vec![3],
        elem_size: 8,
        plaintext_bits: 8,
        used: false,
    };
    assert_eq!(qp.generate_query(1).unwrap().as_slice(), &[1, 2 + (1 << 24)]);
    assert_eq!(qp.generate_query(1).err(), Some(PirError::QueryParamsReused));
    assert_eq!(qp.lhs, vec![1, 2]);
    assert_eq!(qp.rhs, vec![3]);
    assert_eq!((qp.elem_size, qp.plaintext_bits, qp.used), (8, 8, true));
}

#[test]
fn small_database_always_gives_the_element() {
    // 20 rows times 255 is far below half of 2^24
    let elements = generate_db_elems(20, 5);
    let shard = Shard::from_base64_strings(&elements, 40, 20, 40, 8).unwrap();
    let bp = shard.get_base_params();
    let cp = CommonParams::from(bp);
    for (i, element) in elements.iter().enumerate() {
        let mut qp = QueryParams::new(&cp, bp).unwrap();
        let mut outcome = qp.generate_query(i);
        while outcome.is_err() {
            assert_eq!(outcome.err(), Some(PirError::OverflownAdd));
            qp = QueryParams::new(&cp, bp).unwrap();
            outcome = qp.generate_query(i);
        }
        let resp = read_response(&shard.respond(&outcome.unwrap()).unwrap());
        assert_eq!(resp.parse_output_as_row(&qp), shard.get_db().get_row(i));
        assert_eq!(&resp.parse_output_as_base64(&qp), element);
        assert_eq!(resp.parse_output_as_bytes(&qp), base64::decode(element).unwrap());
    }
}

#[test]
fn response_is_counted_words_in_little_endian() {
    let db = Database {
        entries: vec![1, 0x0102_0304, 0xffff_ffff],
        m: 1,
        width: 3,
        elem_size: 96,
        plaintext_bits: 32,
    };
    let base_params = BaseParams::with_seed(&db, 1, [0u8; 32]);
    let shard = Shard { db, base_params };
    let bytes = shard.respond(&Query(vec![1])).unwrap();
    assert_eq!(
        bytes,
        vec![3, 0, 0, 0, 0, 0, 0, 0, 1, 0, 0, 0, 4, 3, 2, 1, 0xff, 0xff, 0xff, 0xff]
    );
    assert_eq!(read_response(&bytes).0, vec![1, 0x0102_0304, 0xffff_ffff]);
}

#[test]
fn parsing_takes_the_masks_off_modulo_the_modulus() {
    let qp = QueryParams {
        lhs: vec![],
        rhs: vec![u32::MAX, 10],
        elem_size: 12,
        plaintext_bits: 8,
        used: true,
    };
    // (5 * 2^24 + 3) and (254 * 2^24 - 4), hidden behind the masks
    let resp = Response(vec![
        (5u32 << 24).wrapping_add(3).wrapping_add(u32::MAX),
        (254u32 << 24).wrapping_sub(4).wrapping_add(10),
    ]);
    assert_eq!(resp.parse_output_as_row(&qp), vec![5, 254]);
    // twelve bits: eight of 5, then the lowest four of 254
    assert_eq!(resp.parse_output_as_bytes(&qp), vec![5, 0x0e]);
    assert_eq!(resp.parse_output_as_base64(&qp), "BQ4=");
}
