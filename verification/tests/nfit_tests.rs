//! Tests for the NFIT parser and the device derivation: tables built byte
//! by byte, parsed into typed entries, and composed into device summaries.

use pmem_core::acpi::OffsetMapped;
use pmem_core::nfit::{Nfit, NfitEntry};
use pmem_core::pmem::device::get_devices;
use pmem_core::vmem::{MappedRegion, MappedRegions, Pages, PhysFrames, UsableRegions, VirtMapping};
use pmem_core::ranges::Span;

fn sdt_header(total_len: u32) -> Vec<u8> {
    let mut v = vec![0u8; 40];
    v[0..4].copy_from_slice(b"NFIT");
    v[4..8].copy_from_slice(&total_len.to_le_bytes());
    v
}

fn spa_entry(index: u16, base: u64, length: u64) -> Vec<u8> {
    let mut v = vec![0u8; 56];
    v[0..2].copy_from_slice(&0u16.to_le_bytes());
    v[2..4].copy_from_slice(&56u16.to_le_bytes());
    v[4..6].copy_from_slice(&index.to_le_bytes());
    v[32..40].copy_from_slice(&base.to_le_bytes());
    v[40..48].copy_from_slice(&length.to_le_bytes());
    v
}

fn mapping_entry(handle: u32, physical_id: u16, spa_index: u16) -> Vec<u8> {
    let mut v = vec![0u8; 48];
    v[0..2].copy_from_slice(&1u16.to_le_bytes());
    v[2..4].copy_from_slice(&48u16.to_le_bytes());
    v[4..8].copy_from_slice(&handle.to_le_bytes());
    v[8..10].copy_from_slice(&physical_id.to_le_bytes());
    v[12..14].copy_from_slice(&spa_index.to_le_bytes());
    v
}

fn flush_entry(handle: u32, addrs: &[u64]) -> Vec<u8> {
    let len = 16 + 8 * addrs.len();
    let mut v = vec![0u8; len];
    v[0..2].copy_from_slice(&6u16.to_le_bytes());
    v[2..4].copy_from_slice(&(len as u16).to_le_bytes());
    v[4..8].copy_from_slice(&handle.to_le_bytes());
    v[8..10].copy_from_slice(&(addrs.len() as u16).to_le_bytes());
    let mut pos = 16;
    for a in addrs {
        v[pos..pos + 8].copy_from_slice(&a.to_le_bytes());
        pos += 8;
    }
    v
}

fn unknown_entry() -> Vec<u8> {
    let mut v = vec![0u8; 12];
    v[0..2].copy_from_slice(&9u16.to_le_bytes());
    v[2..4].copy_from_slice(&12u16.to_le_bytes());
    v
}

fn build_table(entries: &[Vec<u8>]) -> Nfit {
    let body: Vec<u8> = entries.iter().flatten().copied().collect();
    let total = 40 + body.len();
    let mut bytes = sdt_header(total as u32);
    bytes.extend_from_slice(&body);
    Nfit::new(bytes).expect("table rejected")
}

#[test]
fn parses_typed_entries_and_skips_unknown() {
    let nfit = build_table(&[
        spa_entry(1, 0x1000_0000, 0x100_0000),
        unknown_entry(),
        mapping_entry(0x11, 7, 1),
        flush_entry(0x11, &[0xFEE0_0000, 0xFEE0_1000]),
    ]);
    let entries = nfit.all_entries();
    assert_eq!(entries.len(), 3);
    match &entries[0] {
        NfitEntry::SpaRange(x) => {
            assert_eq!(x.index, 1);
            assert_eq!(x.system_physical_address_range_base, 0x1000_0000);
            assert_eq!(x.system_physical_address_range_length, 0x100_0000);
            assert_eq!(x.header.entry_type, 0);
            assert_eq!(x.header.length, 56);
            assert_eq!(x.spa_location_cookie, 0);
        },
        _ => panic!("expected a SPA range entry"),
    }
    match &entries[1] {
        NfitEntry::NvdimmRegionMapping(m) => {
            assert_eq!(m.nfit_device_handle, 0x11);
            assert_eq!(m.nvdimm_physical_id, 7);
            assert_eq!(m.spa_range_index, 1);
        },
        _ => panic!("expected a region mapping entry"),
    }
    match &entries[2] {
        NfitEntry::FlushHintAddress(f) => {
            assert_eq!(f.nfit_device_handle, 0x11);
            assert_eq!(f.num_of_flush_hint_addresses, 2);
            assert_eq!(f.flush_hint_addresses, vec![0xFEE0_0000, 0xFEE0_1000]);
        },
        _ => panic!("expected a flush hint entry"),
    }
}

#[test]
fn iterator_walks_the_stream() {
    let nfit = build_table(&[spa_entry(1, 0x1000, 0x2000), unknown_entry()]);
    let mut it = nfit.entries();
    assert!(matches!(it.next(&nfit), Some(NfitEntry::SpaRange(_))));
    assert!(it.next(&nfit).is_none());
}

#[test]
fn stops_at_malformed_length() {
    // An entry declaring a length shorter than its own header ends the walk.
    let mut bad = vec![0u8; 8];
    bad[0..2].copy_from_slice(&0u16.to_le_bytes());
    bad[2..4].copy_from_slice(&2u16.to_le_bytes());
    let nfit = build_table(&[bad, spa_entry(1, 0x1000, 0x2000)]);
    assert_eq!(nfit.all_entries().len(), 0);
}

#[test]
fn rejects_wrong_declared_length() {
    let mut bytes = sdt_header(41);
    bytes.push(0);
    bytes.push(0);
    assert!(Nfit::new(bytes).is_none());
    assert!(Nfit::new(vec![0u8; 10]).is_none());
}

#[test]
fn devices_follow_mappings_with_resolved_spa() {
    let nfit = build_table(&[
        spa_entry(1, 0x2000_0000, 0x100_0000),
        spa_entry(2, 0x1000_0000, 0x200_0000),
        mapping_entry(0xA, 1, 1),
        mapping_entry(0xB, 2, 2),
        // A mapping whose SPA reference is missing is omitted.
        mapping_entry(0xC, 3, 9),
        flush_entry(0xA, &[0xFEE0_0000]),
    ]);
    let devices = get_devices(&nfit);
    assert_eq!(devices.len(), 2);
    // Sorted by ascending physical address.
    assert_eq!(devices[0].handle, 0xB);
    assert_eq!(devices[0].phys_addr, 0x1000_0000);
    assert_eq!(devices[0].size, 0x200_0000);
    assert_eq!(devices[0].physical_id, 2);
    assert_eq!(devices[1].handle, 0xA);
    assert_eq!(devices[1].phys_addr, 0x2000_0000);
    match &devices[1].flush_addresses {
        Some(a) => assert_eq!(a, &vec![0xFEE0_0000]),
        None => panic!("flush addresses missing"),
    }
}

#[test]
fn boot_mappings_merge_and_invert() {
    // Two adjacent 4 KiB pages merge into one region; the usable space is
    // the complement within the 48-bit address space.
    let ms = vec![
        VirtMapping { virt: Pages::Regular(0x10000), phys: PhysFrames::Regular(0x5000) },
        VirtMapping { virt: Pages::Regular(0x11000), phys: PhysFrames::Regular(0x6000) },
        VirtMapping { virt: Pages::Large(0x20_0000), phys: PhysFrames::Large(0x40_0000) },
    ];
    let regions = ms.into_regions();
    assert_eq!(regions.len(), 2);
    assert_eq!(regions[0].virt, Span { start: 0x10000, size: 0x2000 });
    assert_eq!(regions[0].phys, Span { start: 0x5000, size: 0x1000 });
    assert_eq!(regions[1].virt, Span { start: 0x20_0000, size: 0x20_0000 });

    let usable = regions.into_usable();
    assert_eq!(
        usable,
        vec![
            Span { start: 0xA000, size: 0x10000 - 0xA000 },
            Span { start: 0x12000, size: 0x20_0000 - 0x12000 },
            Span { start: 0x40_0000, size: 0x1_0000_0000_0000 - 0x40_0000 },
        ]
    );
}

#[test]
fn vmm_allocate_and_deallocate_restore_free_space() {
    let mut vmm = pmem_core::vmem::Manager::new(vec![Span { start: 0x10000, size: 0x100000 }])
        .expect("canonical input rejected");
    let before = vmm.usable_regions().clone();
    let ps = vmm
        .allocate(0x20_0000, 4, pmem_core::vmem::PageKind::Regular)
        .expect("allocate failed");
    assert_eq!(ps.count, 4);
    assert_eq!(ps.start % 0x1000, 0);
    assert_eq!(vmm.mapped_regions().len(), 1);
    let m = vmm.mapped_regions()[0];
    assert_eq!(m.virt, Span { start: ps.start, size: 0x4000 });
    assert_eq!(m.phys, Span { start: 0x20_0000, size: 0x4000 });
    assert!(vmm.deallocate(ps));
    assert_eq!(vmm.usable_regions().clone(), before);
    assert_eq!(vmm.mapped_regions().len(), 0);
}

#[test]
fn vmm_rejects_misaligned_physical_start() {
    let mut vmm = pmem_core::vmem::Manager::new(vec![Span { start: 0x10000, size: 0x100000 }])
        .expect("canonical input rejected");
    assert!(vmm.allocate(0x123, 1, pmem_core::vmem::PageKind::Regular).is_none());
    let r = vmm.allocate(0x4000_0000, 1, pmem_core::vmem::PageKind::Huge);
    // No gigabyte-aligned virtual space in this small pool.
    assert!(r.is_none());
}

#[test]
fn offset_mapping_translates_physical_addresses() {
    let m = OffsetMapped(0xFFFF_8000_0000_0000);
    assert_eq!(m.translate(0x1000), Some(0xFFFF_8000_0000_1000));
    assert_eq!(m.translate(u64::MAX), None);
    let _ = MappedRegion { virt: Span { start: 0, size: 0 }, phys: Span { start: 0, size: 0 } };
}
