use mmap_btree::{encode_keys, generate_keys, generate_partition, partition_bounds, sort_keys};

fn assert_sorted(keys: &[u32]) {
    for w in keys.windows(2) {
        assert!(w[0] <= w[1], "out of order: {} then {}", w[0], w[1]);
    }
}

#[test]
fn partition_bounds_tile_the_domain_for_four_workers() {
    assert_eq!(partition_bounds(4, 0), (0x0000_0000, 0x3FFF_FFFF));
    assert_eq!(partition_bounds(4, 1), (0x4000_0000, 0x7FFF_FFFF));
    assert_eq!(partition_bounds(4, 2), (0x8000_0000, 0xBFFF_FFFF));
    assert_eq!(partition_bounds(4, 3), (0xC000_0000, 0xFFFF_FFFF));
}

#[test]
fn single_worker_owns_the_whole_domain() {
    assert_eq!(partition_bounds(1, 0), (0, u32::MAX));
}

#[test]
fn last_partition_absorbs_the_division_remainder() {
    assert_eq!(partition_bounds(3, 0), (0, 0x5555_5554));
    assert_eq!(partition_bounds(3, 1), (0x5555_5555, 0xAAAA_AAA9));
    assert_eq!(partition_bounds(3, 2), (0xAAAA_AAAA, 0xFFFF_FFFF));
}

#[test]
fn generated_partition_is_sorted_within_its_range() {
    let keys = generate_partition(1000, 2000, 300);
    assert_eq!(keys.len(), 300);
    assert_sorted(&keys);
    for k in &keys {
        assert!((1000..=2000).contains(k));
    }
}

#[test]
fn degenerate_range_pins_every_draw() {
    let keys = generate_partition(77, 77, 5);
    assert_eq!(keys, vec![77, 77, 77, 77, 77]);
}

#[test]
fn generated_file_has_quota_times_workers_records_in_order() {
    let keys = generate_keys(1000, 4);
    assert_eq!(keys.len(), 1000);
    assert_sorted(&keys);

    let keys = generate_keys(10, 3);
    assert_eq!(keys.len(), 9);
    assert_sorted(&keys);
}

#[test]
fn encode_writes_little_endian_records() {
    assert_eq!(encode_keys(&vec![0x0102_0304]), vec![0x04, 0x03, 0x02, 0x01]);
    assert_eq!(
        encode_keys(&vec![1, 2]),
        vec![1, 0, 0, 0, 2, 0, 0, 0]
    );
    assert_eq!(encode_keys(&vec![]), Vec::<u8>::new());
}

#[test]
fn sort_keys_orders_and_keeps_duplicates() {
    let sorted = sort_keys(&vec![3, 1, 2, 1]);
    assert_eq!(sorted, vec![1, 1, 2, 3]);
    let sorted = sort_keys(&vec![]);
    assert_eq!(sorted, Vec::<u32>::new());
}
