//! End-to-end scenarios over the persistent-memory manager: a 16 MiB
//! device, pools created, destroyed, resized, and recovered after a
//! simulated power loss.

use pmem_core::pmem::device::NfitDevice;
use pmem_core::pmem::Manager as PmemManager;
use pmem_core::ranges::Span;
use pmem_core::vmem::Manager as VmemManager;

const DEVICE_SIZE: u64 = 0x1000000;
const PAGE: u64 = 0x1000;

fn fresh_vmm() -> VmemManager {
    VmemManager::new(vec![Span { start: 0x100000, size: 0x1000_0000 }]).unwrap()
}

fn device_info() -> NfitDevice {
    NfitDevice {
        handle: 1,
        physical_id: 0,
        phys_addr: 0x1000_0000,
        size: DEVICE_SIZE,
        flush_addresses: None,
    }
}

fn fresh_manager() -> (VmemManager, PmemManager) {
    let mut vmm = fresh_vmm();
    let mut pm = PmemManager::new();
    let ok = pm.register_device(&mut vmm, device_info(), vec![0u8; DEVICE_SIZE as usize]);
    assert!(ok);
    (vmm, pm)
}

fn entry_field_u64(page: &[u8], slot: usize, field: usize) -> u64 {
    let pos = 2 + 46 * slot + field;
    let mut b = [0u8; 8];
    b.copy_from_slice(&page[pos..pos + 8]);
    u64::from_le_bytes(b)
}

fn entry_name(page: &[u8], slot: usize) -> Vec<u8> {
    let pos = 2 + 46 * slot + 16;
    let mut out = Vec::new();
    for &b in &page[pos..pos + 30] {
        if b == 0 {
            break;
        }
        out.push(b);
    }
    out
}

#[test]
fn fresh_create() {
    let (mut vmm, mut pm) = fresh_manager();
    let (addr, len) = pm.create_pool(&mut vmm, "a", 0x1000).expect("create failed");
    assert_eq!(len, 0x1000);

    // Round trip: get_pool returns the same mapping.
    let (addr2, len2) = pm.get_pool(&mut vmm, "a").expect("get failed");
    assert_eq!(addr2, addr);
    assert_eq!(len2, 0x1000);

    // Table entry: offset 0x1000, length 0x1000, name "a".
    let page = pm.device_page(0).unwrap().clone();
    assert_eq!(entry_field_u64(&page, 0, 0), 0x1000);
    assert_eq!(entry_field_u64(&page, 0, 8), 0x1000);
    assert_eq!(entry_name(&page, 0), b"a".to_vec());

    // Free index: one range of 0xFFE000 bytes at 0x2000.
    let free = pm.device_free_regions(0).unwrap().clone();
    assert_eq!(free, vec![Span { start: 0x2000, size: 0xFFE000 }]);
}

#[test]
fn two_pools() {
    let (mut vmm, mut pm) = fresh_manager();
    pm.create_pool(&mut vmm, "a", 0x1000).expect("create a");
    let (_addr_b, len_b) = pm.create_pool(&mut vmm, "b", 0x3000).expect("create b");
    assert_eq!(len_b, 0x3000);

    let page = pm.device_page(0).unwrap().clone();
    assert_eq!(entry_field_u64(&page, 1, 0), 0x2000);
    assert_eq!(entry_field_u64(&page, 1, 8), 0x3000);
    assert_eq!(entry_name(&page, 1), b"b".to_vec());

    let free = pm.device_free_regions(0).unwrap().clone();
    assert_eq!(free, vec![Span { start: 0x5000, size: 0xFFB000 }]);
}

#[test]
fn destroy_middle_recreate_smaller() {
    let (mut vmm, mut pm) = fresh_manager();
    pm.create_pool(&mut vmm, "a", 0x1000).expect("create a");
    pm.create_pool(&mut vmm, "b", 0x3000).expect("create b");

    assert!(pm.destroy_pool(&mut vmm, "a"));
    let free = pm.device_free_regions(0).unwrap().clone();
    assert_eq!(
        free,
        vec![
            Span { start: 0x1000, size: 0x1000 },
            Span { start: 0x5000, size: 0xFFB000 },
        ]
    );

    // A smaller pool fills the gap: 0x800 bytes occupy one whole page.
    pm.create_pool(&mut vmm, "c", 0x800).expect("create c");
    let page = pm.device_page(0).unwrap().clone();
    let mut found = false;
    for slot in 0..89 {
        if entry_name(&page, slot) == b"c".to_vec() {
            assert_eq!(entry_field_u64(&page, slot, 0), 0x1000);
            assert_eq!(entry_field_u64(&page, slot, 8), 0x800);
            found = true;
        }
    }
    assert!(found);
    let free = pm.device_free_regions(0).unwrap().clone();
    assert_eq!(free, vec![Span { start: 0x5000, size: 0xFFB000 }]);
}

#[test]
fn grow_moves_entry_and_copies_body() {
    let (mut vmm, mut pm) = fresh_manager();
    pm.create_pool(&mut vmm, "a", 0x1000).expect("create a");
    pm.create_pool(&mut vmm, "b", 0x3000).expect("create b");

    // Something recognizable in a's body.
    let written = pm.pool_write("a", 0, b"persistent pool body");
    assert_eq!(written, 20);

    let r = pm.resize_pool(&mut vmm, "a", 0x5000).expect("resize failed");
    let (_addr, new_len, old_len) = r;
    assert_eq!(new_len, 0x5000);
    assert_eq!(old_len, 0x1000);

    // The entry moved to offset 0x5000 with length 0x5000.
    let page = pm.device_page(0).unwrap().clone();
    assert_eq!(entry_field_u64(&page, 0, 0), 0x5000);
    assert_eq!(entry_field_u64(&page, 0, 8), 0x5000);
    assert_eq!(entry_name(&page, 0), b"a".to_vec());

    // The old interval [0x1000, 0x2000) is free again.
    let free = pm.device_free_regions(0).unwrap().clone();
    assert!(free.contains(&Span { start: 0x1000, size: 0x1000 }));

    // The body bytes went along, and the grown tail reads as zero.
    let body = pm.pool_read("a", 0, 20).unwrap();
    assert_eq!(body, b"persistent pool body".to_vec());
    let tail = pm.pool_read("a", 0x1000, 8).unwrap();
    assert_eq!(tail, vec![0u8; 8]);
}

#[test]
fn resize_within_reserved_space() {
    let (mut vmm, mut pm) = fresh_manager();
    pm.create_pool(&mut vmm, "a", 0x1000).expect("create a");
    let (addr_b, _len) = pm.create_pool(&mut vmm, "b", 0x3000).expect("create b");

    // 0x2500 still fits the 0x3000 bytes reserved for b: the existing
    // mapping comes back with the larger of the two lengths.
    let (addr, len, old_len) = pm.resize_pool(&mut vmm, "b", 0x2500).expect("resize failed");
    assert_eq!(addr, addr_b);
    assert_eq!(len, 0x3000);
    assert_eq!(old_len, 0x3000);

    // The table did not change.
    let page = pm.device_page(0).unwrap().clone();
    assert_eq!(entry_field_u64(&page, 1, 0), 0x2000);
    assert_eq!(entry_field_u64(&page, 1, 8), 0x3000);
}

#[test]
fn name_too_long_is_rejected() {
    let (mut vmm, mut pm) = fresh_manager();
    let name = "x".repeat(31);
    assert!(pm.create_pool(&mut vmm, &name, 0x1000).is_none());
    // The table is unchanged: no live entry at all.
    let page = pm.device_page(0).unwrap().clone();
    for slot in 0..89 {
        assert_eq!(entry_name(&page, slot), Vec::<u8>::new());
    }
    // A 30-byte name still works.
    let name30 = "y".repeat(30);
    assert!(pm.create_pool(&mut vmm, &name30, 0x1000).is_some());
}

#[test]
fn recovery_after_power_loss() {
    let (mut vmm, mut pm) = fresh_manager();
    pm.create_pool(&mut vmm, "a", 0x1000).expect("create a");
    pm.create_pool(&mut vmm, "b", 0x3000).expect("create b");
    let w = pm.pool_write("b", 0, b"survives");
    assert_eq!(w, 8);

    // Simulated power loss: only the device bytes survive.
    let mut image = pm.device_page(0).unwrap().clone();
    image.extend_from_slice(pm.device_body(0).unwrap());
    drop(pm);
    drop(vmm);

    let mut vmm2 = fresh_vmm();
    let mut pm2 = PmemManager::new();
    assert!(pm2.register_device(&mut vmm2, device_info(), image));

    // Both pools are present with their offsets and lengths.
    let page = pm2.device_page(0).unwrap().clone();
    assert_eq!(entry_name(&page, 0), b"a".to_vec());
    assert_eq!(entry_field_u64(&page, 0, 0), 0x1000);
    assert_eq!(entry_field_u64(&page, 0, 8), 0x1000);
    assert_eq!(entry_name(&page, 1), b"b".to_vec());
    assert_eq!(entry_field_u64(&page, 1, 0), 0x2000);
    assert_eq!(entry_field_u64(&page, 1, 8), 0x3000);

    // The free index is rebuilt as the complement of the live entries.
    let free = pm2.device_free_regions(0).unwrap().clone();
    assert_eq!(free, vec![Span { start: 0x5000, size: 0xFFB000 }]);

    // Pool contents are readable unchanged.
    let (_, len) = pm2.get_pool(&mut vmm2, "b").expect("get after recovery");
    assert_eq!(len, 0x3000);
    let body = pm2.pool_read("b", 0, 8).unwrap();
    assert_eq!(body, b"survives".to_vec());
}

#[test]
fn destroy_twice_returns_true_then_false() {
    let (mut vmm, mut pm) = fresh_manager();
    pm.create_pool(&mut vmm, "a", 0x1000).expect("create a");
    assert!(pm.destroy_pool(&mut vmm, "a"));
    assert!(!pm.destroy_pool(&mut vmm, "a"));
    assert!(pm.get_pool(&mut vmm, "a").is_none());
}

#[test]
fn duplicate_create_is_rejected() {
    let (mut vmm, mut pm) = fresh_manager();
    pm.create_pool(&mut vmm, "a", 0x1000).expect("create a");
    assert!(pm.create_pool(&mut vmm, "a", 0x2000).is_none());
    // The original pool is untouched.
    let (_, len) = pm.get_pool(&mut vmm, "a").unwrap();
    assert_eq!(len, 0x1000);
}

#[test]
fn zero_length_pool_reserves_one_page() {
    let (mut vmm, mut pm) = fresh_manager();
    let (_, len) = pm.create_pool(&mut vmm, "a", 0).expect("create failed");
    assert_eq!(len, 0);
    let free = pm.device_free_regions(0).unwrap().clone();
    assert_eq!(free, vec![Span { start: 0x2000, size: 0xFFE000 }]);
    assert!(pm.destroy_pool(&mut vmm, "a"));
    let free = pm.device_free_regions(0).unwrap().clone();
    assert_eq!(free, vec![Span { start: PAGE, size: DEVICE_SIZE - PAGE }]);
}

#[test]
fn out_of_space_create_fails() {
    let (mut vmm, mut pm) = fresh_manager();
    // The body holds 0xFFF000 bytes; asking for more must fail cleanly.
    assert!(pm.create_pool(&mut vmm, "big", 0x1000000).is_none());
    assert!(pm.create_pool(&mut vmm, "fits", 0xFFF000).is_some());
    assert!(pm.create_pool(&mut vmm, "more", 0x1000).is_none());
}

#[test]
fn pool_write_clamps_to_length() {
    let (mut vmm, mut pm) = fresh_manager();
    pm.create_pool(&mut vmm, "a", 4).expect("create a");
    let w = pm.pool_write("a", 0, b"abcdef");
    assert_eq!(w, 4);
    assert_eq!(pm.pool_read("a", 0, 16).unwrap(), b"abcd".to_vec());
    assert_eq!(pm.pool_write("a", 4, b"x"), 0);
    assert_eq!(pm.pool_write("missing", 0, b"x"), 0);
}
