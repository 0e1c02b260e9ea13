//! Unit tests for the on-device pool table, the free-range index, and the
//! little-endian field codec.

use pmem_core::bytes::{read_u16, read_u64, write_u16, write_u64};
use pmem_core::pmem::table::Table;
use pmem_core::ranges::{checked_align_up, RangeIndex, Span};

const PAGE: u64 = 0x1000;
const DEVICE_SIZE: u64 = 0x1000000;

fn empty_page() -> Vec<u8> {
    vec![0u8; PAGE as usize]
}

fn put_u64(page: &mut [u8], pos: usize, v: u64) {
    page[pos..pos + 8].copy_from_slice(&v.to_le_bytes());
}

fn put_entry(page: &mut [u8], slot: usize, offset: u64, length: u64, name: &[u8]) {
    let pos = 2 + 46 * slot;
    put_u64(page, pos, offset);
    put_u64(page, pos + 8, length);
    for (i, &b) in name.iter().enumerate() {
        page[pos + 16 + i] = b;
    }
}

#[test]
fn init_on_absent_magic() {
    // Recovery property: without the magic number the page is freshly
    // initialized, every entry zeroed, and the whole body is free.
    let t = Table::new(DEVICE_SIZE, empty_page()).expect("init failed");
    assert_eq!(t.device_size(), DEVICE_SIZE);
    let page = t.page();
    assert_eq!(page[0], 0x98);
    assert_eq!(page[1], 0x98);
    for b in &page[2..] {
        assert_eq!(*b, 0);
    }
    assert_eq!(
        t.free_regions().clone(),
        vec![Span { start: PAGE, size: DEVICE_SIZE - PAGE }]
    );
    assert!(t.entries().is_empty());
}

#[test]
fn recovery_builds_complement() {
    let mut page = empty_page();
    page[0] = 0x98;
    page[1] = 0x98;
    put_entry(&mut page, 0, 0x1000, 0x1000, b"a");
    put_entry(&mut page, 1, 0x2000, 0x3000, b"b");
    let t = Table::new(DEVICE_SIZE, page).expect("recovery failed");
    assert_eq!(
        t.free_regions().clone(),
        vec![Span { start: 0x5000, size: 0xFFB000 }]
    );
    let entries = t.entries();
    assert_eq!(entries.len(), 2);
    assert_eq!(entries[0].index(), 0);
    assert_eq!(entries[0].entry().offset(), 0x1000);
    assert_eq!(entries[0].entry().len(), 0x1000);
    assert_eq!(entries[0].entry().name(), b"a".to_vec());
    assert_eq!(entries[1].index(), 1);
    assert_eq!(entries[1].entry().offset(), 0x2000);
    assert_eq!(entries[1].entry().real_len(), 0x3000);
    assert_eq!(entries[1].entry().frames(), 3);
    assert!(!entries[1].entry().is_empty());
}

#[test]
fn recovery_rejects_misaligned_entry() {
    let mut page = empty_page();
    page[0] = 0x98;
    page[1] = 0x98;
    put_entry(&mut page, 0, 0x1800, 0x1000, b"bad");
    assert!(Table::new(DEVICE_SIZE, page).is_none());
}

#[test]
fn recovery_rejects_overlapping_entries() {
    let mut page = empty_page();
    page[0] = 0x98;
    page[1] = 0x98;
    put_entry(&mut page, 0, 0x1000, 0x2000, b"a");
    put_entry(&mut page, 1, 0x2000, 0x1000, b"b");
    assert!(Table::new(DEVICE_SIZE, page).is_none());
}

#[test]
fn recovery_rejects_entry_past_device_end() {
    let mut page = empty_page();
    page[0] = 0x98;
    page[1] = 0x98;
    put_entry(&mut page, 0, DEVICE_SIZE - 0x1000, 0x2000, b"a");
    assert!(Table::new(DEVICE_SIZE, page).is_none());
}

#[test]
fn allocate_and_deallocate() {
    let mut t = Table::new(DEVICE_SIZE, empty_page()).expect("init failed");
    let off = t.allocate("alpha", 0x1800).expect("allocate failed");
    assert_eq!(off, 0x1000);
    // 0x1800 bytes reserve two whole pages.
    assert_eq!(
        t.free_regions().clone(),
        vec![Span { start: 0x3000, size: 0xFFD000 }]
    );
    let entries = t.entries();
    assert_eq!(entries.len(), 1);
    let slot = entries[0].index();
    assert!(t.get(slot).is_some());
    assert!(t.deallocate(slot));
    assert!(!t.deallocate(slot));
    assert_eq!(
        t.free_regions().clone(),
        vec![Span { start: PAGE, size: DEVICE_SIZE - PAGE }]
    );
}

#[test]
fn find_by_name_matches_exactly() {
    let mut t = Table::new(DEVICE_SIZE, empty_page()).expect("init failed");
    t.allocate("pool", 0x1000).expect("allocate failed");
    assert_eq!(t.find_by_name(b"pool"), Some(0));
    assert_eq!(t.find_by_name(b"poo"), None);
    assert_eq!(t.find_by_name(b"pools"), None);
}

#[test]
fn reallocate_moves_to_larger_region() {
    let mut t = Table::new(DEVICE_SIZE, empty_page()).expect("init failed");
    t.allocate("a", 0x1000).expect("allocate a");
    t.allocate("b", 0x1000).expect("allocate b");
    // Same reserved size: nothing to do.
    assert!(!t.reallocate(0, 0x800));
    // A real grow moves the entry past b.
    assert!(t.reallocate(0, 0x3000));
    let e = t.get(0).unwrap();
    assert_eq!(e.offset(), 0x3000);
    assert_eq!(e.len(), 0x3000);
    assert!(t.free_regions().clone().contains(&Span { start: 0x1000, size: 0x1000 }));
}

#[test]
fn release_coalesces_neighbours() {
    // Free-range coalescing: releasing the middle block merges all three
    // ranges into one.
    let mut ri = RangeIndex::from_sorted(vec![
        Span { start: 0x1000, size: 0x1000 },
        Span { start: 0x3000, size: 0x1000 },
    ])
    .expect("canonical input rejected");
    assert!(ri.release_range(Span { start: 0x2000, size: 0x1000 }));
    assert_eq!(ri.regions().clone(), vec![Span { start: 0x1000, size: 0x3000 }]);
    // Releasing bytes that are already free is refused.
    assert!(!ri.release_range(Span { start: 0x1800, size: 0x100 }));
}

#[test]
fn reserve_then_release_restores_index() {
    // Invertibility: releasing exactly the reserved block restores the
    // index, range for range.
    let initial = vec![
        Span { start: 0x1000, size: 0x3000 },
        Span { start: 0x8000, size: 0x1000 },
    ];
    let mut ri = RangeIndex::from_sorted(initial.clone()).expect("canonical input rejected");
    let got = ri.reserve_range(0x1000, 0x2000).expect("reserve failed");
    assert_eq!(got, Span { start: 0x2000, size: 0x1000 });
    assert_eq!(
        ri.regions().clone(),
        vec![
            Span { start: 0x1000, size: 0x1000 },
            Span { start: 0x3000, size: 0x1000 },
            Span { start: 0x8000, size: 0x1000 },
        ]
    );
    assert!(ri.release_range(got));
    assert_eq!(ri.regions().clone(), initial);
}

#[test]
fn reserve_honours_alignment() {
    let mut ri = RangeIndex::from_sorted(vec![Span { start: 0x1800, size: 0x10000 }])
        .expect("canonical input rejected");
    let got = ri.reserve_range(0x1000, 0x1000).expect("reserve failed");
    assert_eq!(got.start % 0x1000, 0);
    assert_eq!(got, Span { start: 0x2000, size: 0x1000 });
    // Head padding stays free.
    assert!(ri.regions().clone().contains(&Span { start: 0x1800, size: 0x800 }));
}

#[test]
fn reserve_fails_when_nothing_fits() {
    let mut ri = RangeIndex::from_sorted(vec![Span { start: 0x1000, size: 0x800 }])
        .expect("canonical input rejected");
    assert!(ri.reserve_range(0x1000, 0x1000).is_none());
    assert_eq!(ri.regions().clone(), vec![Span { start: 0x1000, size: 0x800 }]);
}

#[test]
fn from_sorted_rejects_overlap_and_disorder() {
    assert!(RangeIndex::from_sorted(vec![
        Span { start: 0x2000, size: 0x1000 },
        Span { start: 0x1000, size: 0x1000 },
    ])
    .is_none());
    assert!(RangeIndex::from_sorted(vec![
        Span { start: 0x1000, size: 0x1000 },
        Span { start: 0x2000, size: 0x1000 },
    ])
    .is_none());
    assert!(RangeIndex::from_sorted(vec![Span { start: 0x1000, size: 0 }]).is_none());
}

#[test]
fn align_up_rounds_to_next_multiple() {
    assert_eq!(checked_align_up(0, 0x1000), Some(0));
    assert_eq!(checked_align_up(1, 0x1000), Some(0x1000));
    assert_eq!(checked_align_up(0x1000, 0x1000), Some(0x1000));
    assert_eq!(checked_align_up(0x1001, 0x1000), Some(0x2000));
    assert_eq!(checked_align_up(u64::MAX, 0x1000), None);
}

#[test]
fn little_endian_codec_round_trip() {
    let mut buf = vec![0u8; 32];
    write_u64(&mut buf, 3, 0x0123_4567_89AB_CDEF);
    assert_eq!(read_u64(&buf, 3), 0x0123_4567_89AB_CDEF);
    assert_eq!(buf[3], 0xEF);
    assert_eq!(buf[10], 0x01);
    write_u16(&mut buf, 0, 0x9898);
    assert_eq!(read_u16(&buf, 0), 0x9898);
    assert_eq!(buf[0], 0x98);
    // Other bytes stay untouched.
    assert_eq!(buf[11], 0);
}

#[test]
fn table_rejects_tiny_device() {
    assert!(Table::new(PAGE - 1, empty_page()).is_none());
    assert!(Table::new(DEVICE_SIZE, vec![0u8; 100]).is_none());
}
