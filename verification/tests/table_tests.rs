use mmap_btree::{Entry, TableError, SST};
use mmap_rs::MmapOptions;

fn table_from_bytes(bytes: &[u8]) -> Result<SST, TableError> {
    if bytes.is_empty() {
        return SST::new(None);
    }
    let mut m = MmapOptions::new(bytes.len()).unwrap().map_mut().unwrap();
    m.as_mut_slice().copy_from_slice(bytes);
    let map = m.make_read_only().map_err(|(_, e)| e).unwrap();
    SST::new(Some(map))
}

fn table_from_keys(keys: &[u32]) -> SST {
    let bytes = mmap_btree::encode_keys(&keys.to_vec());
    table_from_bytes(&bytes).unwrap()
}

#[test]
fn empty_table_opens_and_every_find_misses() {
    let t = table_from_bytes(&[]).unwrap();
    assert_eq!(t.find(0), None);
    assert_eq!(t.find(17), None);
    assert_eq!(t.find(u32::MAX), None);
    assert_eq!(t.validate(), Ok(()));
}

#[test]
fn size_not_multiple_of_record_width_fails_open() {
    let r = table_from_bytes(&[1, 2, 3, 4, 5, 6]);
    assert_eq!(r.err(), Some(TableError::FormatError));
    let r = table_from_bytes(&[0]);
    assert_eq!(r.err(), Some(TableError::FormatError));
}

#[test]
fn duplicate_keys_resolve_to_a_matching_record() {
    let t = table_from_keys(&[10, 10, 10, 20]);
    let hit = t.find(10).expect("10 occurs in the table");
    assert_eq!(u32::from(hit), 10);
    assert_eq!(t.find(15), None);
    let hit = t.find(20).expect("20 occurs in the table");
    assert_eq!(u32::from(hit), 20);
}

#[test]
fn find_hits_exactly_the_stored_keys() {
    let keys = [2, 4, 6, 1000, u32::MAX];
    let t = table_from_keys(&keys);
    for k in keys {
        let hit = t.find(k).expect("stored key must be found");
        assert_eq!(hit, Entry::from(k));
    }
    assert_eq!(t.find(0), None);
    assert_eq!(t.find(3), None);
    assert_eq!(t.find(7), None);
    assert_eq!(t.find(u32::MAX - 1), None);
}

#[test]
fn find_on_single_record_table() {
    let t = table_from_keys(&[42]);
    assert_eq!(t.find(42), Some(Entry::from(42)));
    assert_eq!(t.find(41), None);
    assert_eq!(t.find(43), None);
}

#[test]
fn entry_conversions_round_trip() {
    let e = Entry::from(5);
    assert_eq!(u32::from(e), 5);
    assert_eq!(u32::from(&e), 5);
    assert_eq!(e.value(), 5);
    assert!(Entry::from(1) < Entry::from(2));
    assert_eq!(Entry::from(7), Entry::from(7));
}

#[test]
fn key_at_reads_little_endian_records() {
    let bytes = [0x04, 0x03, 0x02, 0x01, 0xFF, 0xFF, 0xFF, 0xFF];
    assert_eq!(mmap_btree::key_at(&bytes, 0), 0x0102_0304);
    assert_eq!(mmap_btree::key_at(&bytes, 1), u32::MAX);
}
