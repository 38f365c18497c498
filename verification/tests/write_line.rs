use permanent_cig::models::{range_overlap, OrderedWriteLine, Store};

fn store(address: usize, data: Vec<u8>) -> Store {
    Store { address, data }
}

#[test]
fn store_addresses_and_range() {
    let s = store(10, vec![1, 2, 3]);
    assert_eq!(s.address_start(), 10);
    assert_eq!(s.address_end(), 13);
    let r = s.address_range();
    assert_eq!(r.start, 10);
    assert_eq!(r.end, 13);
}

#[test]
fn range_overlap_of_disjoint_ranges_is_empty() {
    let r = range_overlap(&(0..4), &(8..12));
    assert!(r.start >= r.end);
    let r2 = range_overlap(&(0..10), &(5..7));
    assert_eq!(r2.start, 5);
    assert_eq!(r2.end, 7);
}

#[test]
fn line_tracks_flushed_prefix() {
    let mut line = OrderedWriteLine::new();
    line.push_write(store(0, vec![1]));
    line.push_write(store(1, vec![2]));
    line.push_write(store(2, vec![3]));
    assert_eq!(line.len(), 3);
    assert_eq!(line.flushed_index(), 0);
    line.set_flushed_index(2);
    assert_eq!(line.flushed_writes().len(), 2);
    assert_eq!(line.unflushed_writes().len(), 1);
    assert_eq!(line.unflushed_writes()[0].address, 2);
    line.flush_all();
    assert_eq!(line.flushed_index(), 3);
}

#[test]
fn drain_takes_flushed_prefix_and_resets() {
    let mut line = OrderedWriteLine::new();
    line.push_write(store(0, vec![0xaa]));
    line.push_write(store(4, vec![0xbb]));
    line.set_flushed_index(1);
    let drained = line.drain_flushed_writes();
    assert_eq!(drained.len(), 1);
    assert_eq!(drained[0].address, 0);
    assert_eq!(line.len(), 1);
    assert_eq!(line.flushed_index(), 0);
    assert_eq!(line.all_writes()[0].address, 4);
}

#[test]
fn overlaps_access_detects_intersections() {
    let mut line = OrderedWriteLine::new();
    line.push_write(store(8, vec![1, 2, 3, 4]));
    assert!(line.overlaps_access(10, 1));
    assert!(line.overlaps_access(0, 9));
    assert!(!line.overlaps_access(0, 8));
    assert!(!line.overlaps_access(12, 4));
}

#[test]
fn duplicate_copies_a_store() {
    let s = store(3, vec![9, 8]);
    let d = s.duplicate();
    assert_eq!(d.address, 3);
    assert_eq!(d.data, vec![9, 8]);
}
