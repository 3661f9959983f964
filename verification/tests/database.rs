use frodo_pir::api::Shard;
use frodo_pir::db::Database;
use frodo_pir::elements::{elements_acceptable, parse_elements, row_from_bytes};
use frodo_pir::errors::PirError;

fn strings(texts: &[&str]) -> Vec<String> {
    texts.iter().map(|t| t.to_string()).collect()
}

#[test]
fn width_is_the_size_divided_and_rounded_up() {
    assert_eq!(Database::get_matrix_width(256, 12), 22);
    assert_eq!(Database::get_matrix_width(24, 12), 2);
    assert_eq!(Database::get_matrix_width(25, 12), 3);
    assert_eq!(Database::get_matrix_width(0, 12), 0);
    assert_eq!(Database::get_matrix_width(1, 12), 1);
    assert_eq!(Database::get_matrix_width(usize::MAX, 1), usize::MAX);
}

#[test]
fn rows_hold_the_bits_of_the_elements() {
    // AQID is 01 02 03, /////w== is ff ff ff ff
    let db = Database::new(&strings(&["AQID", "/////w=="]), 2, 24, 10).unwrap();
    assert_eq!(db.get_matrix_height(), 2);
    assert_eq!(db.get_matrix_width_self(), 3);
    assert_eq!(db.get_elem_size(), 24);
    assert_eq!(db.get_plaintext_bits(), 10);
    // 0x030201 in pieces of ten bits, the lowest first
    assert_eq!(db.get_row(0), vec![0x201, 0xc0, 0]);
    assert_eq!(db.get_row(1), vec![0x3ff, 0x3ff, 0x3ff]);
    assert_eq!(db.columns(), vec![vec![0x201, 0x3ff], vec![0xc0, 0x3ff], vec![0, 0x3ff]]);
    assert_eq!(db.get_db_entry(0), "AQID");
}

#[test]
fn entry_is_the_element_for_every_number_of_bits() {
    let elements: Vec<String> =
        (0u8..9).map(|k| base64::encode([k, 255 - k, k.wrapping_mul(77), 128, k, 1])).collect();
    for bits in 1..=32 {
        let db = Database::new(&elements, 9, 48, bits).unwrap();
        for (i, element) in elements.iter().enumerate() {
            assert_eq!(&db.get_db_entry(i), element);
            if bits < 32 {
                assert!(db.get_row(i).iter().all(|x| *x < 1 << bits));
            }
        }
    }
}

#[test]
fn entry_keeps_the_first_bits_of_a_longer_element() {
    // ff ff, of which twelve bits count
    let db = Database::new(&strings(&["//8="]), 1, 12, 5).unwrap();
    assert_eq!(db.get_row(0), vec![31, 31, 31]);
    assert_eq!(db.get_db_entry(0), base64::encode([0xff, 0x0f]));
}

#[test]
fn entry_of_a_shorter_element_is_filled_up() {
    // one byte, of a size of twelve bits
    let db = Database::new(&strings(&["/w=="]), 1, 12, 8).unwrap();
    assert_eq!(db.get_row(0), vec![255, 0]);
    assert_eq!(db.get_db_entry(0), base64::encode([0xff, 0x00]));
}

#[test]
fn first_failing_element_decides() {
    assert_eq!(
        Database::new(&strings(&["AQID", "!"]), 2, 24, 8).err(),
        Some(PirError::InvalidBase64)
    );
    // forty bits in one entry are too many
    assert_eq!(
        Database::new(&strings(&["AQIDBAU="]), 1, 40, 40).err(),
        Some(PirError::UnexpectedInputSize)
    );
    assert_eq!(
        Database::new(&strings(&["AQIDBAU=", "!"]), 2, 40, 40).err(),
        Some(PirError::UnexpectedInputSize)
    );
    assert_eq!(
        Database::new(&strings(&["!", "AQIDBAU="]), 2, 40, 40).err(),
        Some(PirError::InvalidBase64)
    );
    // the first entry is too large, though the element is short for its row
    assert_eq!(
        Database::new(&strings(&["AQIDBAU="]), 1, 200, 40).err(),
        Some(PirError::UnexpectedInputSize)
    );
    // only the first elements count
    assert!(Database::new(&strings(&["AQID", "!"]), 1, 24, 8).is_ok());
}

#[test]
fn unacceptable_elements_are_told_apart() {
    let elements = strings(&["AQID", "AQ=="]);
    assert!(elements_acceptable(&elements, 1, 24, 8));
    // the second element is too short for three entries
    assert!(!elements_acceptable(&elements, 2, 24, 8));
    assert!(elements_acceptable(&elements, 2, 16, 8));
    assert!(!elements_acceptable(&elements, 3, 8, 8));
    assert!(!elements_acceptable(&elements, 1, 24, 0));
    assert!(elements_acceptable(&strings(&["AQIDBAU="]), 1, 200, 40));
    assert!(!elements_acceptable(&strings(&["AQIDBA=="]), 1, 200, 40));
    // what is no base64 text is refused later
    assert!(elements_acceptable(&strings(&["!"]), 1, 24, 8));
    assert!(Database::try_new(&elements, 2, 24, 8).is_none());
    assert!(Database::try_new(&elements, 1, 24, 8).unwrap().is_ok());
    assert_eq!(
        Database::try_new(&strings(&["!"]), 1, 24, 8).unwrap().err(),
        Some(PirError::InvalidBase64)
    );
}

#[test]
fn empty_database_has_no_width() {
    let db = Database::new(&[], 0, 24, 8).unwrap();
    assert_eq!(db.get_matrix_height(), 0);
    assert_eq!(db.get_matrix_width_self(), 0);
    assert_eq!(db.eval_single(&[]), Vec::<u32>::new());
    let shard = Shard::from_base64_strings(&[], 4, 0, 24, 8).unwrap();
    assert_eq!(shard.into_row_iter().count(), 0);
}

#[test]
fn row_of_bytes() {
    assert_eq!(row_from_bytes(&[0x34, 0x12], 16, 4), Ok(vec![4, 3, 2, 1]));
    assert_eq!(row_from_bytes(&[1, 2, 3, 4, 5], 40, 33), Err(PirError::UnexpectedInputSize));
}

#[test]
fn answers_are_products_modulo_the_modulus() {
    let db = Database {
        entries: vec![1, 2, 3, 4, u32::MAX, 6],
        m: 3,
        width: 2,
        elem_size: 64,
        plaintext_bits: 32,
    };
    assert_eq!(db.eval_single(&[5, 7, 2]), vec![5 + 21 - 2, 10 + 28 + 12]);
    assert_eq!(db.vec_mult(&[5, 7, 2], 0), 24);
    assert_eq!(db.vec_mult(&[5, 7, 2, 100], 1), 50);
    // the unit vectors give the rows
    assert_eq!(db.eval_single(&[0, 1, 0]), db.get_row(1));
    assert_eq!(db.eval_single(&[0, 0, 1]), db.get_row(2));
    // answers add up
    let a = db.eval_single(&[u32::MAX, 3, 9]);
    let b = db.eval_single(&[4, 1 << 31, 8]);
    let both = db.eval_single(&[3, (1 << 31) + 3, 17]);
    for c in 0..2 {
        assert_eq!(both[c], a[c].wrapping_add(b[c]));
    }
}

#[test]
fn answers_span_many_chunks_of_rows() {
    let m = 5000usize;
    let entries: Vec<u32> = (0..m as u32 * 3).map(|k| k.wrapping_mul(2654435761)).collect();
    let db = Database { entries: entries.clone(), m, width: 3, elem_size: 96, plaintext_bits: 32 };
    let q: Vec<u32> = (0..m as u32).map(|k| k.wrapping_mul(40503).wrapping_add(17)).collect();
    let mut expected = vec![0u32; 3];
    for i in 0..m {
        for c in 0..3 {
            expected[c] = expected[c].wrapping_add(q[i].wrapping_mul(entries[i * 3 + c]));
        }
    }
    assert_eq!(db.eval_single(&q), expected);
    for c in 0..3 {
        assert_eq!(db.vec_mult(&q, c), expected[c]);
    }
}

#[test]
fn json_lists_are_read() {
    assert_eq!(parse_elements("[\"AQID\", \"x\"]"), Ok(strings(&["AQID", "x"])));
    assert_eq!(parse_elements("[]"), Ok(vec![]));
    assert_eq!(parse_elements("[1]"), Err(PirError::InvalidJson));
    assert_eq!(parse_elements("AQID"), Err(PirError::InvalidJson));
}

#[test]
fn databases_and_shards_are_made_of_json() {
    let text = "[\"AQID\", \"BAUG\"]";
    let db = Database::try_from_json(text, 2, 24, 8).unwrap().unwrap();
    assert_eq!(db.get_row(1), vec![4, 5, 6]);
    assert!(Database::try_from_json(text, 3, 24, 8).is_none());
    assert_eq!(
        Database::try_from_json("{}", 2, 24, 8).unwrap().err(),
        Some(PirError::InvalidJson)
    );
    let shard = Shard::try_from_json(text, 5, 2, 24, 8).unwrap().unwrap();
    assert_eq!(shard.into_row_iter().collect::<Vec<String>>(), strings(&["AQID", "BAUG"]));
    assert_eq!(shard.get_base_params().get_dim(), 5);
    assert_eq!(shard.get_base_params().get_total_records(), 2);
    assert!(Shard::try_from_json(text, 5, 2, 24, 0).is_none());
    assert_eq!(
        Shard::try_from_json("[", 5, 2, 24, 8).unwrap().err(),
        Some(PirError::InvalidJson)
    );
    assert_eq!(
        Shard::try_from_json("[\"?\"]", 5, 1, 24, 8).unwrap().err(),
        Some(PirError::InvalidBase64)
    );
}

#[test]
fn shards_that_cannot_be_counted_are_refused() {
    let elements = strings(&["AQID"]);
    assert!(Shard::try_from_base64_strings(&elements, usize::MAX, 1, 24, 8).is_none());
    assert!(Shard::try_from_base64_strings(&elements, 2, 1, 24, 8).unwrap().is_ok());
    assert!(Shard::try_from_base64_strings(&elements, 2, 2, 24, 8).is_none());
}

#[test]
fn errors_have_messages() {
    assert_eq!(PirError::QueryParamsReused.message(), "query parameters have already been used");
    assert_eq!(PirError::OverflownAdd.message(), "overflow while adding the query indicator");
    assert_eq!(PirError::UnexpectedInputSize.message(), "unexpected input size");
    assert_eq!(PirError::InvalidBase64.message(), "invalid base64 text");
    assert_eq!(PirError::InvalidJson.message(), "invalid JSON list of strings");
    assert_eq!(PirError::Serialization.message(), "serialization failed");
}
