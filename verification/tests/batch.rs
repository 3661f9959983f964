use frodo_pir::api::{CommonParams, Query, QueryParams, Response, Shard};
use frodo_pir::batch::{
    BatchedQuery, BatchedQuery1024, BatchedQuery128, BatchedQuery16, BatchedQuery2,
    BatchedQuery256, BatchedQuery32, BatchedQuery4, BatchedQuery512, BatchedQuery64, BatchedQuery8,
    BatchedQueryParams, BatchedQueryParams4, BatchedQueryParams8, BatchedResponse,
};
use frodo_pir::errors::PirError;

fn sample_shard() -> (Vec<String>, Shard) {
    let elements: Vec<String> =
        (0u8..12).map(|k| base64::encode([k, k.wrapping_mul(91), 200 - k, 3])).collect();
    let shard = Shard::from_base64_strings(&elements, 20, 12, 32, 8).unwrap();
    (elements, shard)
}

/// Queries of arbitrary values.
fn sample_queries<const N: usize>(m: usize) -> BatchedQuery<N> {
    let mut interleaved = vec![[0u32; N]; m];
    for (i, row) in interleaved.iter_mut().enumerate() {
        for (j, value) in row.iter_mut().enumerate() {
            *value = ((i * N + j) as u32).wrapping_mul(2654435761).wrapping_add(12345);
        }
    }
    BatchedQuery { interleaved }
}

/// The bytes of a batch hold, column by column, what each query gets alone.
fn assert_answers<const N: usize>(shard: &Shard, bq: &BatchedQuery<N>, bytes: &[u8]) {
    let width = shard.get_db().get_matrix_width_self();
    assert_eq!(bytes.len(), 8 + 4 * width * N);
    assert_eq!(&bytes[..8], &(width as u64).to_le_bytes());
    for j in 0..N {
        let single: Vec<u32> = bq.interleaved.iter().map(|row| row[j]).collect();
        let alone = shard.respond(&Query(single)).unwrap();
        let alone: Vec<u32> = bincode::deserialize(&alone).unwrap();
        for c in 0..width {
            let at = 8 + 4 * (c * N + j);
            let word = [bytes[at], bytes[at + 1], bytes[at + 2], bytes[at + 3]];
            assert_eq!(u32::from_le_bytes(word), alone[c]);
        }
    }
}

#[test]
fn batches_of_2_and_4_answer_each_query() {
    let (_, shard) = sample_shard();
    let bq: BatchedQuery2 = sample_queries(12);
    assert_answers(&shard, &bq, &shard.respond_batched_2(&bq).unwrap());
    let bq: BatchedQuery4 = sample_queries(12);
    assert_answers(&shard, &bq, &shard.respond_batched_4(&bq).unwrap());
}

#[test]
fn batches_of_8_and_16_answer_each_query() {
    let (_, shard) = sample_shard();
    let bq: BatchedQuery8 = sample_queries(12);
    assert_answers(&shard, &bq, &shard.respond_batched_8(&bq).unwrap());
    let bq: BatchedQuery16 = sample_queries(12);
    assert_answers(&shard, &bq, &shard.respond_batched_16(&bq).unwrap());
}

#[test]
fn batches_of_32_and_64_answer_each_query() {
    let (_, shard) = sample_shard();
    let bq: BatchedQuery32 = sample_queries(12);
    assert_answers(&shard, &bq, &shard.respond_batched_32(&bq).unwrap());
    let bq: BatchedQuery64 = sample_queries(12);
    assert_answers(&shard, &bq, &shard.respond_batched_64(&bq).unwrap());
}

#[test]
fn batches_of_128_and_256_answer_each_query() {
    let (_, shard) = sample_shard();
    let bq: BatchedQuery128 = sample_queries(12);
    assert_answers(&shard, &bq, &shard.respond_batched_128(&bq).unwrap());
    let bq: BatchedQuery256 = sample_queries(12);
    assert_answers(&shard, &bq, &shard.respond_batched_256(&bq).unwrap());
}

#[test]
fn batches_of_512_and_1024_answer_each_query() {
    let (_, shard) = sample_shard();
    let bq: BatchedQuery512 = sample_queries(12);
    assert_answers(&shard, &bq, &shard.respond_batched_512(&bq).unwrap());
    let bq: BatchedQuery1024 = sample_queries(12);
    assert_answers(&shard, &bq, &shard.respond_batched_1024(&bq).unwrap());
}

#[test]
fn batch_is_counted_rows_in_little_endian() {
    let response = BatchedResponse::<2> { results: vec![[1, 0x0102_0304], [5, 6], [7, 8]] };
    assert_eq!(
        response.to_bytes().unwrap(),
        vec![
            3, 0, 0, 0, 0, 0, 0, 0, 1, 0, 0, 0, 4, 3, 2, 1, 5, 0, 0, 0, 6, 0, 0, 0, 7, 0, 0, 0, 8, 0,
            0, 0
        ]
    );
    let empty = BatchedResponse::<4> { results: vec![] };
    assert_eq!(empty.to_bytes().unwrap(), vec![0u8; 8]);
}

#[test]
fn interleaved_queries_retrieve_their_elements() {
    let (elements, shard) = sample_shard();
    let bp = shard.get_base_params();
    let cp = CommonParams::from(bp);
    // without a secret and errors no query overflows
    let zeros = [0u32; 20];
    let errors = [1u32; 12];
    let mut qps: Vec<QueryParams> =
        (0..4).map(|_| QueryParams::from_secrets(&cp, bp, &zeros, &errors)).collect();
    let targets = [0usize, 5, 11, 5];
    let queries: Vec<Query> =
        (0..4).map(|j| qps[j].generate_query(targets[j]).unwrap()).collect();
    let mut interleaved = vec![[0u32; 4]; 12];
    for (row, values) in interleaved.iter_mut().enumerate() {
        for j in 0..4 {
            values[j] = queries[j].as_slice()[row];
        }
    }
    let bytes = shard.respond_batched_4(&BatchedQuery4 { interleaved }).unwrap();
    let width = shard.get_db().get_matrix_width_self();
    for j in 0..4 {
        let mut single = Vec::with_capacity(width);
        for w in 0..width {
            let at = 8 + 4 * (w * 4 + j);
            let word = [bytes[at], bytes[at + 1], bytes[at + 2], bytes[at + 3]];
            single.push(u32::from_le_bytes(word));
        }
        assert_eq!(Response(single).parse_output_as_base64(&qps[j]), elements[targets[j]]);
    }
}

#[test]
fn extracted_parameters_retrieve_their_elements() {
    let (elements, shard) = sample_shard();
    let bp = shard.get_base_params();
    let cp = CommonParams::from(bp);
    let mut done = 0usize;
    while done < 8 {
        let mut batch = BatchedQueryParams8::new(&cp, bp).unwrap();
        for j in 0..8 {
            let mut qp = batch.extract_query_params(j).unwrap();
            assert!(!qp.used);
            assert_eq!((qp.elem_size, qp.plaintext_bits), (32, 8));
            match qp.generate_query(j) {
                Ok(q) => {
                    let bytes = shard.respond(&q).unwrap();
                    let resp = Response(bincode::deserialize(&bytes).unwrap());
                    assert_eq!(resp.parse_output_as_base64(&qp), elements[j]);
                    done += 1;
                }
                Err(e) => assert_eq!(e, PirError::OverflownAdd),
            }
        }
    }
}

#[test]
fn lane_is_given_out_once() {
    let (_, shard) = sample_shard();
    let bp = shard.get_base_params();
    let cp = CommonParams::from(bp);
    let mut batch = BatchedQueryParams4::new(&cp, bp).unwrap();
    assert_eq!(batch.used, [false; 4]);
    let expected: Vec<u32> = batch.lhs.iter().map(|row| row[2]).collect();
    let qp = batch.extract_query_params(2).unwrap();
    assert_eq!(qp.lhs, expected);
    assert_eq!(batch.used, [false, false, true, false]);
    assert_eq!(batch.extract_query_params(2).err(), Some(PirError::QueryParamsReused));
    assert_eq!(batch.used, [false, false, true, false]);
    assert!(batch.extract_query_params(0).is_ok());
    assert_eq!(batch.used, [true, false, true, false]);
}

#[test]
fn batched_parameters_of_given_secrets_match_single_ones() {
    let (_, shard) = sample_shard();
    let bp = shard.get_base_params();
    let cp = CommonParams::from(bp);
    let s: Vec<[u32; 2]> = (0..20).map(|k| [k, u32::MAX - k]).collect();
    let e: Vec<[u32; 2]> = (0..12).map(|k| [k % 2, 0u32.wrapping_sub(k % 2)]).collect();
    let mut batch = BatchedQueryParams::<2>::from_secrets(&cp, bp, &s, &e);
    for j in 0..2 {
        let single_s: Vec<u32> = s.iter().map(|row| row[j]).collect();
        let single_e: Vec<u32> = e.iter().map(|row| row[j]).collect();
        let single = QueryParams::from_secrets(&cp, bp, &single_s, &single_e);
        let extracted = batch.extract_query_params(j).unwrap();
        assert_eq!(extracted.lhs, single.lhs);
        assert_eq!(extracted.rhs, single.rhs);
    }
}
