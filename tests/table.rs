use memblock::memblock::Memblock;
use memblock::model::MemError;
use memblock::region::RegionDesc;

fn spans(m: &Memblock) -> Vec<(usize, usize)> {
    m.regions().iter().map(|d| (d.base, d.base + d.size)).collect()
}

fn is_canonical(m: &Memblock) -> bool {
    let r = m.regions();
    r.iter().all(|d| d.size > 0) && r.windows(2).all(|p| p[0].base + p[0].size < p[1].base)
}

#[test]
fn descriptor_basics() {
    let e = RegionDesc::missing();
    assert!(e.is_empty());
    assert_eq!(e.end(), 0);
    let d = RegionDesc { base: 0x100, size: 0x100 };
    assert!(!d.is_empty());
    assert_eq!(d.end(), 0x1FF);
    assert_eq!(d.range(), 0x100..0x200);
}

#[test]
fn new_table_is_empty() {
    let m = Memblock::new(5);
    assert_eq!(m.size(), 0);
    assert_eq!(m.capacity(), 5);
    assert!(m.regions().is_empty());
    assert!(!m.is_intersecting(0, 0x1000));
    assert!(!m.is_subarea(0, 1));
}

#[test]
fn touching_ranges_coalesce() {
    let mut m = Memblock::new(5);
    assert_eq!(m.add(0x100, 0xF0), Ok(()));
    assert_eq!(m.add(0x1F0, 0x10), Ok(()));
    assert_eq!(spans(&m), vec![(0x100, 0x200)]);
    assert_eq!(m.regions()[0].size, 0x100);
    assert_eq!(m.size(), 1);
}

#[test]
fn gap_is_preserved() {
    let mut m = Memblock::new(5);
    m.add(0x100, 0xF0).unwrap();
    m.add(0x300, 0xF0).unwrap();
    assert_eq!(spans(&m), vec![(0x100, 0x1F0), (0x300, 0x3F0)]);
}

#[test]
fn one_address_gap_is_kept() {
    let mut m = Memblock::new(5);
    m.add(0x100, 0x10).unwrap();
    m.add(0x111, 0x10).unwrap();
    assert_eq!(spans(&m), vec![(0x100, 0x110), (0x111, 0x121)]);
}

#[test]
fn interior_remove_splits() {
    let mut m = Memblock::new(5);
    m.add(0x100, 0x200).unwrap();
    assert_eq!(m.remove(0x150, 0x10), Ok(()));
    assert_eq!(spans(&m), vec![(0x100, 0x150), (0x160, 0x300)]);
}

#[test]
fn prefix_remove_shrinks_front() {
    let mut m = Memblock::new(5);
    m.add(0x100, 0x100).unwrap();
    assert_eq!(m.remove(0x100, 0x10), Ok(()));
    assert_eq!(spans(&m), vec![(0x110, 0x200)]);
}

#[test]
fn suffix_remove_shrinks_back() {
    let mut m = Memblock::new(5);
    m.add(0x100, 0x100).unwrap();
    assert_eq!(m.remove(0x1F0, 0x10), Ok(()));
    assert_eq!(spans(&m), vec![(0x100, 0x1F0)]);
}

#[test]
fn exact_remove_deletes_and_compacts() {
    let mut m = Memblock::new(5);
    m.add(0x100, 0x100).unwrap();
    m.add(0x300, 0x100).unwrap();
    m.add(0x500, 0x100).unwrap();
    assert_eq!(m.remove(0x100, 0x100), Ok(()));
    assert_eq!(spans(&m), vec![(0x300, 0x400), (0x500, 0x600)]);
    assert_eq!(m.size(), 2);
}

#[test]
fn add_then_remove_round_trips() {
    let mut m = Memblock::new(5);
    m.add(0x100, 0x100).unwrap();
    m.add(0x400, 0x100).unwrap();
    let before = spans(&m);
    for (b, s) in [(0x200, 0x100), (0x200, 0x10), (0x3F0, 0x10), (0x800, 0x20), (0x10, 0x20)] {
        assert_eq!(m.add(b, s), Ok(()));
        assert_eq!(m.remove(b, s), Ok(()));
        assert_eq!(spans(&m), before);
    }
}

#[test]
fn add_is_idempotent() {
    let mut m = Memblock::new(5);
    m.add(0x100, 0x100).unwrap();
    m.add(0x300, 0x100).unwrap();
    m.add(0x1F0, 0x120).unwrap();
    let once = spans(&m);
    assert_eq!(m.add(0x1F0, 0x120), Ok(()));
    assert_eq!(spans(&m), once);
    assert_eq!(once, vec![(0x100, 0x400)]);
}

#[test]
fn full_table_refuses_another_region() {
    let mut m = Memblock::new(3);
    m.add(0x100, 0x10).unwrap();
    m.add(0x200, 0x10).unwrap();
    m.add(0x300, 0x10).unwrap();
    let before = spans(&m);
    assert_eq!(m.add(0x400, 0x10), Err(MemError::CapacityExceeded));
    assert_eq!(m.add(0x50, 0x10), Err(MemError::CapacityExceeded));
    assert_eq!(m.add(0x100, 0x10), Err(MemError::CapacityExceeded));
    assert_eq!(spans(&m), before);
}

#[test]
fn split_in_full_table_fails_unchanged() {
    let mut m = Memblock::new(2);
    m.add(0x100, 0x100).unwrap();
    m.add(0x300, 0x100).unwrap();
    let before = spans(&m);
    assert_eq!(m.remove(0x150, 0x10), Err(MemError::CapacityExceeded));
    assert_eq!(spans(&m), before);
    assert_eq!(m.remove(0x100, 0x10), Ok(()));
    assert_eq!(spans(&m), vec![(0x110, 0x200), (0x300, 0x400)]);
}

#[test]
fn remove_of_untracked_range_fails() {
    let mut m = Memblock::new(5);
    assert_eq!(m.remove(0x100, 0x10), Err(MemError::RangeNotTracked));
    m.add(0x100, 0x100).unwrap();
    m.add(0x300, 0x100).unwrap();
    assert_eq!(m.remove(0x200, 0x10), Err(MemError::RangeNotTracked));
    assert_eq!(m.remove(0x1F0, 0x120), Err(MemError::RangeNotTracked));
    assert_eq!(m.remove(0xF0, 0x20), Err(MemError::RangeNotTracked));
    assert_eq!(m.remove(0x100, 0), Err(MemError::RangeNotTracked));
    assert_eq!(spans(&m), vec![(0x100, 0x200), (0x300, 0x400)]);
}

#[test]
fn zero_size_add_changes_nothing() {
    let mut m = Memblock::new(1);
    m.add(0x100, 0x10).unwrap();
    assert_eq!(m.add(0x500, 0), Ok(()));
    assert_eq!(spans(&m), vec![(0x100, 0x110)]);
}

#[test]
fn left_neighbour_absorbs_and_right_follows() {
    let mut m = Memblock::new(5);
    m.add(0x100, 0x10).unwrap();
    m.add(0x300, 0x10).unwrap();
    m.add(0x400, 0x10).unwrap();
    m.add(0x200, 0x100).unwrap();
    assert_eq!(spans(&m), vec![(0x100, 0x110), (0x200, 0x310), (0x400, 0x410)]);
    m.add(0x105, 0x100).unwrap();
    assert_eq!(spans(&m), vec![(0x100, 0x310), (0x400, 0x410)]);
}

#[test]
fn bridging_range_merges_both_neighbours() {
    let mut m = Memblock::new(4);
    m.add(0x100, 0x100).unwrap();
    m.add(0x300, 0x100).unwrap();
    m.add(0x500, 0x100).unwrap();
    assert_eq!(m.add(0x200, 0x100), Ok(()));
    assert_eq!(spans(&m), vec![(0x100, 0x400), (0x500, 0x600)]);
    assert_eq!(m.add(0x0, 0x1000), Ok(()));
    assert_eq!(spans(&m), vec![(0x0, 0x1000)]);
}

#[test]
fn equal_base_and_contained_adds_merge() {
    let mut m = Memblock::new(5);
    m.add(0x100, 0x100).unwrap();
    m.add(0x100, 0x50).unwrap();
    assert_eq!(spans(&m), vec![(0x100, 0x200)]);
    m.add(0x120, 0x10).unwrap();
    assert_eq!(spans(&m), vec![(0x100, 0x200)]);
    m.add(0x100, 0x180).unwrap();
    assert_eq!(spans(&m), vec![(0x100, 0x280)]);
}

#[test]
fn mixed_sequence_stays_sorted_and_apart() {
    let mut m = Memblock::new(5);
    m.add(0x200, 0xF0).unwrap();
    m.add(0x300, 0xF0).unwrap();
    m.add(0x110, 0xF0).unwrap();
    m.add(0x100, 0xF0).unwrap();
    m.add(0x500, 0xF0).unwrap();
    m.add(0x600, 0xF0).unwrap();
    assert!(is_canonical(&m));
    assert_eq!(
        spans(&m),
        vec![(0x100, 0x2F0), (0x300, 0x3F0), (0x500, 0x5F0), (0x600, 0x6F0)]
    );
    m.remove(0x650, 0x10).unwrap();
    assert!(is_canonical(&m));
    assert_eq!(
        spans(&m),
        vec![(0x100, 0x2F0), (0x300, 0x3F0), (0x500, 0x5F0), (0x600, 0x650), (0x660, 0x6F0)]
    );
    assert_eq!(m.size(), 5);
    m.remove(0x300, 0xF0).unwrap();
    m.add(0x2F0, 0x10).unwrap();
    assert!(is_canonical(&m));
    assert_eq!(spans(&m), vec![(0x100, 0x300), (0x500, 0x5F0), (0x600, 0x650), (0x660, 0x6F0)]);
}

#[test]
fn intersection_queries() {
    let mut m = Memblock::new(5);
    m.add(0x100, 0x100).unwrap();
    m.add(0x300, 0x100).unwrap();
    assert!(!m.is_intersecting(0x0, 0x100));
    assert!(m.is_intersecting(0x0, 0x101));
    assert!(m.is_intersecting(0x1FF, 0x1));
    assert!(!m.is_intersecting(0x200, 0x100));
    assert!(m.is_intersecting(0x200, 0x101));
    assert!(m.is_intersecting(0x0, 0x1000));
    assert!(!m.is_intersecting(0x400, 0x100));
    assert!(!m.is_intersecting(0x150, 0));
    assert!(m.is_intersecting(0x350, usize::MAX));
}

#[test]
fn subarea_queries() {
    let mut m = Memblock::new(5);
    m.add(0x100, 0x100).unwrap();
    m.add(0x300, 0x100).unwrap();
    assert!(m.is_subarea(0x100, 0x100));
    assert!(m.is_subarea(0x150, 0x10));
    assert!(m.is_subarea(0x3FF, 0x1));
    assert!(!m.is_subarea(0x1F0, 0x20));
    assert!(!m.is_subarea(0x100, 0x300));
    assert!(!m.is_subarea(0x200, 0x10));
    assert!(!m.is_subarea(0x150, 0));
    assert!(!m.is_subarea(0x350, usize::MAX));
}

#[test]
fn tracked_addresses_follow_add_and_remove() {
    let mut m = Memblock::new(5);
    m.add(0x100, 0x100).unwrap();
    m.add(0x180, 0x100).unwrap();
    for a in [0x100usize, 0x17F, 0x1FF, 0x27F] {
        assert!(m.is_subarea(a, 1));
    }
    assert!(!m.is_subarea(0xFF, 1));
    assert!(!m.is_subarea(0x280, 1));
    m.remove(0x1C0, 0x40).unwrap();
    assert!(m.is_subarea(0x1BF, 1));
    assert!(!m.is_subarea(0x1C0, 1));
    assert!(!m.is_subarea(0x1FF, 1));
    assert!(m.is_subarea(0x200, 1));
    assert_eq!(spans(&m), vec![(0x100, 0x1C0), (0x200, 0x280)]);
}
