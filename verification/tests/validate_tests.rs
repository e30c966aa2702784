use mmap_btree::{
    check_chunk, chunk_result, combine, encode_keys, generate_keys, validate_bytes, TableError,
    SST,
};
use mmap_rs::MmapOptions;

fn bytes_of(keys: &[u32]) -> Vec<u8> {
    encode_keys(&keys.to_vec())
}

fn table_from_keys(keys: &[u32]) -> SST {
    let bytes = bytes_of(keys);
    if bytes.is_empty() {
        return SST::new(None).unwrap();
    }
    let mut m = MmapOptions::new(bytes.len()).unwrap().map_mut().unwrap();
    m.as_mut_slice().copy_from_slice(&bytes);
    let map = m.make_read_only().map_err(|(_, e)| e).unwrap();
    SST::new(Some(map)).unwrap()
}

#[test]
fn swapped_adjacent_records_are_rejected_at_their_position() {
    let bytes = bytes_of(&[5, 3, 7]);
    for chunk_len in [1, 2, 3, 100] {
        assert_eq!(
            validate_bytes(&bytes, chunk_len),
            Err(TableError::OrderViolation(1))
        );
    }
    let t = table_from_keys(&[5, 3, 7]);
    assert_eq!(t.validate(), Err(TableError::OrderViolation(1)));
}

#[test]
fn violation_on_a_chunk_boundary_is_still_caught() {
    let bytes = bytes_of(&[1, 5, 2, 9]);
    assert_eq!(
        validate_bytes(&bytes, 2),
        Err(TableError::OrderViolation(2))
    );
    assert_eq!(
        validate_bytes(&bytes, 1),
        Err(TableError::OrderViolation(2))
    );
}

#[test]
fn first_violation_in_file_order_is_the_one_reported() {
    let bytes = bytes_of(&[1, 9, 2, 8, 3]);
    for chunk_len in [1, 2, 3, 4, 5] {
        assert_eq!(
            validate_bytes(&bytes, chunk_len),
            Err(TableError::OrderViolation(2))
        );
    }
}

#[test]
fn sorted_tables_validate_cleanly() {
    for chunk_len in [1, 2, 7, 1000] {
        assert_eq!(validate_bytes(&bytes_of(&[]), chunk_len), Ok(()));
        assert_eq!(validate_bytes(&bytes_of(&[9]), chunk_len), Ok(()));
        assert_eq!(validate_bytes(&bytes_of(&[1, 1, 2, 3, 3]), chunk_len), Ok(()));
    }
}

#[test]
fn round_trip_generated_table_validates_and_serves_lookups() {
    let keys = generate_keys(1000, 4);
    assert_eq!(keys.len(), 1000);
    let bytes = encode_keys(&keys);
    assert_eq!(validate_bytes(&bytes, 64), Ok(()));

    let t = table_from_keys(&keys);
    assert_eq!(t.validate(), Ok(()));
    for k in [keys[0], keys[250], keys[999]] {
        let hit = t.find(k).expect("generated key must be found");
        assert_eq!(u32::from(hit), k);
    }
}

#[test]
fn combining_summaries_is_associative() {
    let bytes = bytes_of(&[1, 5, 2, 9, 4, 4]);
    let a = check_chunk(&bytes, 0, 2);
    let b = check_chunk(&bytes, 2, 4);
    let c = check_chunk(&bytes, 4, 6);
    assert_eq!(combine(combine(a, b), c), combine(a, combine(b, c)));
    assert_eq!(chunk_result(&combine(combine(a, b), c)), Err(TableError::OrderViolation(2)));
}

#[test]
fn chunk_summaries_combine_across_the_seam() {
    let bytes = bytes_of(&[1, 5, 2, 9]);
    let l = check_chunk(&bytes, 0, 2);
    assert_eq!((l.start, l.end, l.first, l.last, l.first_bad), (0, 2, 1, 5, None));
    let r = check_chunk(&bytes, 2, 4);
    assert_eq!((r.start, r.end, r.first, r.last, r.first_bad), (2, 4, 2, 9, None));
    let c = combine(l, r);
    assert_eq!((c.start, c.end, c.first, c.last), (0, 4, 1, 9));
    assert_eq!(c.first_bad, Some(2));
    assert_eq!(chunk_result(&c), Err(TableError::OrderViolation(2)));
    assert_eq!(chunk_result(&l), Ok(()));
}
