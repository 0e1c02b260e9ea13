//! NVDIMM devices as derived from the firmware NFIT table.
//!
//! Each region-mapping entry whose SPA-range reference resolves contributes
//! one device, keyed by its NFIT device handle; flush-hint entries attach
//! their address lists to the device with their handle.  A mapping whose
//! SPA reference is missing is omitted.  The devices are returned sorted by
//! ascending physical address.

use crate::nfit::{Nfit, NfitEntry};
use vstd::prelude::*;

verus! {

/// One byte-addressable non-volatile memory device: its NFIT handle, the
/// SMBIOS physical id, the physical address and size of its system physical
/// address range, and the flush-hint addresses, if the firmware reports any.
pub struct NfitDevice {
    pub handle: u32,
    pub physical_id: u16,
    pub phys_addr: u64,
    pub size: u64,
    pub flush_addresses: Option<Vec<u64>>,
}

/// The base and length of the first SPA-range entry (from `i` on) with this
/// index.
pub open spec fn spec_spa_lookup(es: Seq<NfitEntry>, idx: u16, i: int) -> Option<(u64, u64)>
    decreases es.len() - i,
{
    if i < 0 || i >= es.len() {
        None
    } else {
        match es[i] {
            NfitEntry::SpaRange(x) => {
                if x.index == idx {
                    Some(
                        (
                            x.system_physical_address_range_base,
                            x.system_physical_address_range_length,
                        ),
                    )
                } else {
                    spec_spa_lookup(es, idx, i + 1)
                }
            },
            _ => spec_spa_lookup(es, idx, i + 1),
        }
    }
}

/// Entry `i` is a region-mapping entry with this handle and physical id
/// whose SPA reference resolves to this base and size.
pub open spec fn spec_resolved_mapping(
    es: Seq<NfitEntry>,
    i: int,
    handle: u32,
    pid: u16,
    base: u64,
    size: u64,
) -> bool {
    &&& 0 <= i < es.len()
    &&& es[i] matches NfitEntry::NvdimmRegionMapping(m) && m.nfit_device_handle == handle
        && m.nvdimm_physical_id == pid && spec_spa_lookup(es, m.spa_range_index, 0) == Some(
        (base, size),
    )
}

/// The first SPA-range entry with this index.
fn find_spa(entries: &Vec<NfitEntry>, idx: u16) -> (r: Option<(u64, u64)>)
    ensures
        r == spec_spa_lookup(entries@, idx, 0),
{
    let n = entries.len();
    let mut i: usize = 0;
    while i < n
        invariant
            n == entries@.len(),
            0 <= i <= n,
            spec_spa_lookup(entries@, idx, 0) == spec_spa_lookup(entries@, idx, i as int),
        decreases n - i,
    {
        match &entries[i] {
            NfitEntry::SpaRange(x) => {
                if x.index == idx {
                    return Some(
                        (
                            x.system_physical_address_range_base,
                            x.system_physical_address_range_length,
                        ),
                    );
                }
            },
            _ => {},
        }
        i += 1;
    }
    None
}

/// The last flush-hint entry with this handle among the first `i` entries.
pub open spec fn spec_last_flush(es: Seq<NfitEntry>, h: u32, i: int) -> Option<int>
    decreases i,
{
    if i <= 0 || i > es.len() {
        None
    } else if es[i - 1] matches NfitEntry::FlushHintAddress(f) && f.nfit_device_handle == h {
        Some(i - 1)
    } else {
        spec_last_flush(es, h, i - 1)
    }
}

/// Each device's flush-hint list comes from the last flush-hint entry with
/// its handle, or is absent when there is none.
pub open spec fn spec_flush_attached(r: Seq<NfitDevice>, es: Seq<NfitEntry>) -> bool {
    forall|t: int|
        0 <= t < r.len() ==> match spec_last_flush(es, (#[trigger] r[t]).handle, es.len() as int) {
            Some(j) => r[t].flush_addresses matches Some(v) && (es[j]
                matches NfitEntry::FlushHintAddress(f) && v@ == f.flush_hint_addresses@),
            None => r[t].flush_addresses is None,
        }
}

/// `r` is the device list derived from the entry stream `es`: every device
/// justified by a region mapping whose SPA reference resolves, every such
/// mapping's handle present, and flush-hint lists attached by handle.
pub open spec fn spec_devices_derived(r: Seq<NfitDevice>, es: Seq<NfitEntry>) -> bool {
    &&& (forall|t: int|
        0 <= t < r.len() ==> exists|i2: int|
            spec_resolved_mapping(
                es,
                i2,
                (#[trigger] r[t]).handle,
                r[t].physical_id,
                r[t].phys_addr,
                r[t].size,
            ))
    &&& (forall|i2: int, h: u32, pid: u16, base: u64, sz: u64|
        #[trigger] spec_resolved_mapping(es, i2, h, pid, base, sz) ==> exists|t: int|
            0 <= t < r.len() && (#[trigger] r[t]).handle == h)
    &&& spec_flush_attached(r, es)
}

/// Derives the device list from the NFIT table: one device per region
/// mapping whose SPA reference resolves (first mapping per handle wins),
/// with flush-hint address lists attached by handle, sorted by ascending
/// physical address.
pub fn get_devices(nfit: &Nfit) -> (r: Vec<NfitDevice>)
    requires
        nfit.wf(),
    ensures
        forall|a: int, b: int|
            0 <= a < b < r@.len() ==> (#[trigger] r@[a]).phys_addr <= (#[trigger] r@[b]).phys_addr,
        forall|a: int, b: int|
            0 <= a < b < r@.len() ==> (#[trigger] r@[a]).handle != (#[trigger] r@[b]).handle,
        exists|es: Seq<NfitEntry>|
            #[trigger] crate::nfit::spec_entries_of(es, nfit.spec_bytes())
                && spec_devices_derived(r@, es),
{
    let entries = nfit.all_entries();
    let r = devices_from_entries(&entries);
    proof {
        assert(crate::nfit::spec_entries_of(entries@, nfit.spec_bytes()));
        assert(spec_devices_derived(r@, entries@));
    }
    r
}

/// Composes the device list from parsed entries.  Every returned device is
/// justified by a region mapping whose SPA reference resolves, every such
/// mapping's handle appears among the devices, and each device carries the
/// flush-hint list of the last flush-hint entry with its handle, wherever
/// that entry stands in the stream.
pub fn devices_from_entries(entries: &Vec<NfitEntry>) -> (r: Vec<NfitDevice>)
    ensures
        forall|a: int, b: int|
            0 <= a < b < r@.len() ==> (#[trigger] r@[a]).phys_addr <= (#[trigger] r@[b]).phys_addr,
        forall|a: int, b: int|
            0 <= a < b < r@.len() ==> (#[trigger] r@[a]).handle != (#[trigger] r@[b]).handle,
        spec_devices_derived(r@, entries@),
{
    let n = entries.len();
    let mut devices: Vec<NfitDevice> = Vec::new();

    // First pass: one device per region mapping with a resolved SPA
    // reference, first mapping per handle winning, inserted in physical
    // address order.
    let mut i: usize = 0;
    while i < n
        invariant
            n == entries@.len(),
            0 <= i <= n,
            forall|a: int, b: int|
                0 <= a < b < devices@.len() ==> (#[trigger] devices@[a]).phys_addr <= (
                #[trigger] devices@[b]).phys_addr,
            forall|a: int, b: int|
                0 <= a < b < devices@.len() ==> (#[trigger] devices@[a]).handle != (
                #[trigger] devices@[b]).handle,
            forall|t: int|
                0 <= t < devices@.len() ==> exists|i2: int|
                    spec_resolved_mapping(
                        entries@,
                        i2,
                        (#[trigger] devices@[t]).handle,
                        devices@[t].physical_id,
                        devices@[t].phys_addr,
                        devices@[t].size,
                    ),
            forall|i2: int, h: u32, pid: u16, base: u64, sz: u64|
                0 <= i2 < i && #[trigger] spec_resolved_mapping(entries@, i2, h, pid, base, sz)
                    ==> exists|t: int|
                    0 <= t < devices@.len() && (#[trigger] devices@[t]).handle == h,
            forall|t: int| 0 <= t < devices@.len() ==> (#[trigger] devices@[t]).flush_addresses
                is None,
        decreases n - i,
    {
        let e = &entries[i];
        match e {
            NfitEntry::NvdimmRegionMapping(m) => {
                let handle = m.nfit_device_handle;
                let physical_id = m.nvdimm_physical_id;
                let spa_index = m.spa_range_index;
                let known = handle_position(&devices, handle);
                match known {
                    Some(t0) => {
                        proof {
                            assert forall|i2: int, h: u32, pid: u16, base: u64, sz: u64|
                                0 <= i2 < i + 1 && #[trigger] spec_resolved_mapping(
                                    entries@,
                                    i2,
                                    h,
                                    pid,
                                    base,
                                    sz,
                                ) implies exists|t: int|
                                0 <= t < devices@.len() && (#[trigger] devices@[t]).handle
                                    == h by {
                                if i2 == i {
                                    assert(h == handle);
                                    assert(devices@[t0 as int].handle == h);
                                }
                            }
                        }
                    },
                    None => {
                        match find_spa(&entries, spa_index) {
                            Some((base, size)) => {
                                let ghost dv0 = devices@;
                                let dev = NfitDevice {
                                    handle,
                                    physical_id,
                                    phys_addr: base,
                                    size,
                                    flush_addresses: None,
                                };
                                insert_sorted(&mut devices, dev);
                                proof {
                                    assert(spec_resolved_mapping(
                                        entries@,
                                        i as int,
                                        handle,
                                        physical_id,
                                        base,
                                        size,
                                    ));
                                    lemma_derivation_step(
                                        entries@,
                                        dv0,
                                        devices@,
                                        dev,
                                        i as int,
                                    );
                                    assert forall|t: int|
                                        0 <= t < devices@.len() implies (
                                    #[trigger] devices@[t]).flush_addresses is None by {
                                        if devices@[t] != dev {
                                            let s2 = choose|s2: int|
                                                0 <= s2 < dv0.len() && #[trigger] devices@[t]
                                                    == dv0[s2];
                                        }
                                    }
                                }
                            },
                            None => {
                                proof {
                                    assert forall|i2: int, h: u32, pid: u16, base: u64, sz: u64|
                                        0 <= i2 < i + 1 && #[trigger] spec_resolved_mapping(
                                            entries@,
                                            i2,
                                            h,
                                            pid,
                                            base,
                                            sz,
                                        ) implies exists|t: int|
                                        0 <= t < devices@.len() && (#[trigger] devices@[t]).handle
                                            == h by {
                                        if i2 == i {
                                            assert(spec_spa_lookup(entries@, spa_index, 0)
                                                is None);
                                            assert(false);
                                        }
                                    }
                                }
                            },
                        }
                    },
                }
            },
            _ => {},
        }
        i += 1;
    }

    // Second pass: attach flush-hint address lists by handle, wherever the
    // flush entry stands relative to the mapping; a later entry for the
    // same handle wins.
    let mut i: usize = 0;
    while i < n
        invariant
            n == entries@.len(),
            0 <= i <= n,
            forall|a: int, b: int|
                0 <= a < b < devices@.len() ==> (#[trigger] devices@[a]).phys_addr <= (
                #[trigger] devices@[b]).phys_addr,
            forall|a: int, b: int|
                0 <= a < b < devices@.len() ==> (#[trigger] devices@[a]).handle != (
                #[trigger] devices@[b]).handle,
            forall|t: int|
                0 <= t < devices@.len() ==> exists|i2: int|
                    spec_resolved_mapping(
                        entries@,
                        i2,
                        (#[trigger] devices@[t]).handle,
                        devices@[t].physical_id,
                        devices@[t].phys_addr,
                        devices@[t].size,
                    ),
            forall|i2: int, h: u32, pid: u16, base: u64, sz: u64|
                #[trigger] spec_resolved_mapping(entries@, i2, h, pid, base, sz) ==> exists|
                    t: int,
                | 0 <= t < devices@.len() && (#[trigger] devices@[t]).handle == h,
            forall|t: int|
                0 <= t < devices@.len() ==> match spec_last_flush(
                    entries@,
                    (#[trigger] devices@[t]).handle,
                    i as int,
                ) {
                    Some(j) => devices@[t].flush_addresses matches Some(v) && (entries@[j]
                        matches NfitEntry::FlushHintAddress(f) && v@ == f.flush_hint_addresses@),
                    None => devices@[t].flush_addresses is None,
                },
        decreases n - i,
    {
        let e = &entries[i];
        match e {
            NfitEntry::FlushHintAddress(f) => {
                let handle = f.nfit_device_handle;
                match handle_position(&devices, handle) {
                    Some(t) => {
                        let mut addrs: Vec<u64> = Vec::new();
                        let cnt = f.flush_hint_addresses.len();
                        let mut y: usize = 0;
                        while y < cnt
                            invariant
                                cnt == f.flush_hint_addresses@.len(),
                                0 <= y <= cnt,
                                addrs@.len() == y,
                                forall|x: int|
                                    0 <= x < y ==> #[trigger] addrs@[x]
                                        == f.flush_hint_addresses@[x],
                            decreases cnt - y,
                        {
                            addrs.push(f.flush_hint_addresses[y]);
                            y += 1;
                        }
                        proof {
                            assert(addrs@ =~= f.flush_hint_addresses@);
                        }
                        let ghost dv0 = devices@;
                        set_flush_addresses(&mut devices, t, addrs);
                        proof {
                            lemma_flush_step(entries@, dv0, devices@, t as int, i as int, handle);
                        }
                    },
                    None => {
                        proof {
                            assert forall|t2: int|
                                0 <= t2 < devices@.len() implies spec_last_flush(
                                entries@,
                                (#[trigger] devices@[t2]).handle,
                                i as int + 1,
                            ) == spec_last_flush(entries@, devices@[t2].handle, i as int) by {
                                assert(devices@[t2].handle != handle);
                            }
                        }
                    },
                }
            },
            _ => {
                proof {
                    assert forall|t2: int|
                        0 <= t2 < devices@.len() implies spec_last_flush(
                        entries@,
                        (#[trigger] devices@[t2]).handle,
                        i as int + 1,
                    ) == spec_last_flush(entries@, devices@[t2].handle, i as int) by {}
                }
            },
        }
        i += 1;
    }
    devices
}

/// One step of the flush pass: device `t` takes entry `i`'s address list;
/// every other device's last-flush record is unchanged.
proof fn lemma_flush_step(
    es: Seq<NfitEntry>,
    dv0: Seq<NfitDevice>,
    dv1: Seq<NfitDevice>,
    t: int,
    i: int,
    handle: u32,
)
    requires
        0 <= i < es.len(),
        es[i] matches NfitEntry::FlushHintAddress(f) && f.nfit_device_handle == handle,
        0 <= t < dv0.len(),
        dv1.len() == dv0.len(),
        dv0[t].handle == handle,
        forall|x: int| 0 <= x < dv0.len() && x != t ==> #[trigger] dv1[x] == dv0[x],
        dv1[t].handle == dv0[t].handle,
        dv1[t].flush_addresses matches Some(v) && (es[i]
            matches NfitEntry::FlushHintAddress(f) && v@ == f.flush_hint_addresses@),
        forall|a: int, b: int|
            0 <= a < b < dv0.len() ==> (#[trigger] dv0[a]).handle != (#[trigger] dv0[b]).handle,
        forall|t2: int|
            0 <= t2 < dv0.len() ==> match spec_last_flush(es, (#[trigger] dv0[t2]).handle, i) {
                Some(j) => dv0[t2].flush_addresses matches Some(v) && (es[j]
                    matches NfitEntry::FlushHintAddress(f) && v@ == f.flush_hint_addresses@),
                None => dv0[t2].flush_addresses is None,
            },
        dv1[t].physical_id == dv0[t].physical_id,
        dv1[t].phys_addr == dv0[t].phys_addr,
        dv1[t].size == dv0[t].size,
        forall|t2: int|
            0 <= t2 < dv0.len() ==> exists|i2: int|
                spec_resolved_mapping(
                    es,
                    i2,
                    (#[trigger] dv0[t2]).handle,
                    dv0[t2].physical_id,
                    dv0[t2].phys_addr,
                    dv0[t2].size,
                ),
        forall|i2: int, h: u32, pid: u16, base: u64, sz: u64|
            #[trigger] spec_resolved_mapping(es, i2, h, pid, base, sz) ==> exists|t2: int|
                0 <= t2 < dv0.len() && (#[trigger] dv0[t2]).handle == h,
    ensures
        forall|t2: int|
            0 <= t2 < dv1.len() ==> match spec_last_flush(es, (#[trigger] dv1[t2]).handle, i + 1) {
                Some(j) => dv1[t2].flush_addresses matches Some(v) && (es[j]
                    matches NfitEntry::FlushHintAddress(f) && v@ == f.flush_hint_addresses@),
                None => dv1[t2].flush_addresses is None,
            },
        forall|t2: int|
            0 <= t2 < dv1.len() ==> exists|i2: int|
                spec_resolved_mapping(
                    es,
                    i2,
                    (#[trigger] dv1[t2]).handle,
                    dv1[t2].physical_id,
                    dv1[t2].phys_addr,
                    dv1[t2].size,
                ),
        forall|i2: int, h: u32, pid: u16, base: u64, sz: u64|
            #[trigger] spec_resolved_mapping(es, i2, h, pid, base, sz) ==> exists|t2: int|
                0 <= t2 < dv1.len() && (#[trigger] dv1[t2]).handle == h,
{
    assert forall|t2: int| 0 <= t2 < dv1.len() implies exists|i2: int|
        spec_resolved_mapping(
            es,
            i2,
            (#[trigger] dv1[t2]).handle,
            dv1[t2].physical_id,
            dv1[t2].phys_addr,
            dv1[t2].size,
        ) by {
        let i2 = choose|i2: int|
            spec_resolved_mapping(
                es,
                i2,
                dv0[t2].handle,
                dv0[t2].physical_id,
                dv0[t2].phys_addr,
                dv0[t2].size,
            );
        assert(spec_resolved_mapping(
            es,
            i2,
            dv1[t2].handle,
            dv1[t2].physical_id,
            dv1[t2].phys_addr,
            dv1[t2].size,
        ));
    }
    assert forall|i2: int, h: u32, pid: u16, base: u64, sz: u64|
        #[trigger] spec_resolved_mapping(es, i2, h, pid, base, sz) implies exists|t2: int|
        0 <= t2 < dv1.len() && (#[trigger] dv1[t2]).handle == h by {
        let t2 = choose|t2: int| 0 <= t2 < dv0.len() && (#[trigger] dv0[t2]).handle == h;
        assert(dv1[t2].handle == h);
    }
    assert forall|t2: int| 0 <= t2 < dv1.len() implies match spec_last_flush(
        es,
        (#[trigger] dv1[t2]).handle,
        i + 1,
    ) {
        Some(j) => dv1[t2].flush_addresses matches Some(v) && (es[j]
            matches NfitEntry::FlushHintAddress(f) && v@ == f.flush_hint_addresses@),
        None => dv1[t2].flush_addresses is None,
    } by {
        if t2 == t {
            assert(spec_last_flush(es, dv1[t].handle, i + 1) == Some(i));
        } else {
            assert(dv1[t2] == dv0[t2]);
            assert(dv0[t2].handle != handle) by {
                if t2 < t {
                    assert(dv0[t2].handle != dv0[t].handle);
                } else {
                    assert(dv0[t].handle != dv0[t2].handle);
                }
            }
            assert(spec_last_flush(es, dv0[t2].handle, i + 1) == spec_last_flush(
                es,
                dv0[t2].handle,
                i,
            ));
        }
    }
}

/// The position of the device with this handle, if it is known./// The position of the device with this handle, if it is known.
fn handle_position(devices: &Vec<NfitDevice>, handle: u32) -> (r: Option<usize>)
    ensures
        match r {
            Some(t) => t < devices@.len() && devices@[t as int].handle == handle,
            None => forall|t: int|
                0 <= t < devices@.len() ==> (#[trigger] devices@[t]).handle != handle,
        },
{
    let n = devices.len();
    let mut t: usize = 0;
    while t < n
        invariant
            n == devices@.len(),
            0 <= t <= n,
            forall|t2: int| 0 <= t2 < t ==> (#[trigger] devices@[t2]).handle != handle,
        decreases n - t,
    {
        if devices[t].handle == handle {
            return Some(t);
        }
        t += 1;
    }
    None
}

/// Attaches a flush-hint address list to the device at position `t`.
fn set_flush_addresses(devices: &mut Vec<NfitDevice>, t: usize, addrs: Vec<u64>)
    requires
        t < old(devices)@.len(),
    ensures
        final(devices)@.len() == old(devices)@.len(),
        forall|x: int|
            0 <= x < old(devices)@.len() && x != t ==> #[trigger] final(devices)@[x] == old(
                devices,
            )@[x],
        final(devices)@[t as int].handle == old(devices)@[t as int].handle,
        final(devices)@[t as int].physical_id == old(devices)@[t as int].physical_id,
        final(devices)@[t as int].phys_addr == old(devices)@[t as int].phys_addr,
        final(devices)@[t as int].size == old(devices)@[t as int].size,
        final(devices)@[t as int].flush_addresses matches Some(v) && v@ == addrs@,
    {
        let handle = devices[t].handle;
        let physical_id = devices[t].physical_id;
        let phys_addr = devices[t].phys_addr;
        let size = devices[t].size;
        let dev = NfitDevice { handle, physical_id, phys_addr, size, flush_addresses: Some(addrs) };
        devices.set(t, dev);
    }

/// Inserts a device at its position in ascending physical-address order,
/// keeping handles distinct.
#[verifier::rlimit(100)]
fn insert_sorted(devices: &mut Vec<NfitDevice>, dev: NfitDevice)
    requires
        forall|a: int, b: int|
            0 <= a < b < old(devices)@.len() ==> (#[trigger] old(devices)@[a]).phys_addr <= (
            #[trigger] old(devices)@[b]).phys_addr,
        forall|a: int, b: int|
            0 <= a < b < old(devices)@.len() ==> (#[trigger] old(devices)@[a]).handle != (
            #[trigger] old(devices)@[b]).handle,
        forall|t: int|
            0 <= t < old(devices)@.len() ==> (#[trigger] old(devices)@[t]).handle != dev.handle,
    ensures
        final(devices)@.len() == old(devices)@.len() + 1,
        forall|a: int, b: int|
            0 <= a < b < final(devices)@.len() ==> (#[trigger] final(devices)@[a]).phys_addr <= (
            #[trigger] final(devices)@[b]).phys_addr,
        forall|a: int, b: int|
            0 <= a < b < final(devices)@.len() ==> (#[trigger] final(devices)@[a]).handle != (
            #[trigger] final(devices)@[b]).handle,
        forall|t: int|
            0 <= t < final(devices)@.len() ==> #[trigger] final(devices)@[t] == dev || exists|
                s: int,
            | 0 <= s < old(devices)@.len() && final(devices)@[t] == old(devices)@[s],
        exists|t: int| 0 <= t < final(devices)@.len() && #[trigger] final(devices)@[t] == dev,
        forall|s: int|
            0 <= s < old(devices)@.len() ==> exists|t: int|
                0 <= t < final(devices)@.len() && #[trigger] final(devices)@[t] == #[trigger] old(
                    devices,
                )@[s],
{
    let n = devices.len();
    let mut k: usize = 0;
    while k < n && devices[k].phys_addr <= dev.phys_addr
        invariant
            *devices == *old(devices),
            n == devices@.len(),
            0 <= k <= n,
            forall|a: int| 0 <= a < k ==> (#[trigger] devices@[a]).phys_addr <= dev.phys_addr,
        decreases n - k,
    {
        k += 1;
    }
    let ghost dv1 = devices@;
    devices.insert(k, dev);
    proof {
        dv1.insert_ensures(k as int, dev);
        assert forall|a: int, b: int|
            0 <= a < b < devices@.len() implies (#[trigger] devices@[a]).phys_addr <= (
        #[trigger] devices@[b]).phys_addr by {
            let av = if a < k {
                dv1[a]
            } else if a == k {
                dev
            } else {
                dv1[a - 1]
            };
            assert(devices@[a] == av);
            let bv = if b < k {
                dv1[b]
            } else if b == k {
                dev
            } else {
                dv1[b - 1]
            };
            assert(devices@[b] == bv);
        }
        assert forall|a: int, b: int|
            0 <= a < b < devices@.len() implies (#[trigger] devices@[a]).handle != (
        #[trigger] devices@[b]).handle by {
            let av = if a < k {
                dv1[a]
            } else if a == k {
                dev
            } else {
                dv1[a - 1]
            };
            assert(devices@[a] == av);
            let bv = if b < k {
                dv1[b]
            } else if b == k {
                dev
            } else {
                dv1[b - 1]
            };
            assert(devices@[b] == bv);
        }
        assert forall|t: int|
            0 <= t < devices@.len() implies #[trigger] devices@[t] == dev || exists|s: int|
            0 <= s < dv1.len() && devices@[t] == dv1[s] by {
            if t < k {
                assert(devices@[t] == dv1[t]);
            } else if t > k {
                assert(devices@[t] == dv1[t - 1]);
            }
        }
        assert(devices@[k as int] == dev);
        assert forall|s: int| 0 <= s < dv1.len() implies exists|t: int|
            0 <= t < devices@.len() && #[trigger] devices@[t] == #[trigger] dv1[s] by {
            if s < k {
                assert(devices@[s] == dv1[s]);
            } else {
                assert(devices@[s + 1] == dv1[s]);
            }
        }
    }
}

/// One step of the derivation: after a freshly justified device is
/// inserted, every device is still justified and every handle seen so far
/// is still present.
proof fn lemma_derivation_step(
    es: Seq<NfitEntry>,
    dv0: Seq<NfitDevice>,
    dv1: Seq<NfitDevice>,
    dev: NfitDevice,
    i: int,
)
    requires
        spec_resolved_mapping(es, i, dev.handle, dev.physical_id, dev.phys_addr, dev.size),
        forall|t: int|
            0 <= t < dv1.len() ==> #[trigger] dv1[t] == dev || exists|s: int|
                0 <= s < dv0.len() && dv1[t] == dv0[s],
        exists|t: int| 0 <= t < dv1.len() && #[trigger] dv1[t] == dev,
        forall|s: int|
            0 <= s < dv0.len() ==> exists|t: int|
                0 <= t < dv1.len() && #[trigger] dv1[t] == #[trigger] dv0[s],
        forall|t: int|
            0 <= t < dv0.len() ==> exists|i2: int|
                spec_resolved_mapping(
                    es,
                    i2,
                    (#[trigger] dv0[t]).handle,
                    dv0[t].physical_id,
                    dv0[t].phys_addr,
                    dv0[t].size,
                ),
        forall|i2: int, h: u32, pid: u16, base: u64, sz: u64|
            0 <= i2 < i && #[trigger] spec_resolved_mapping(es, i2, h, pid, base, sz) ==> exists|
                t: int,
            | 0 <= t < dv0.len() && (#[trigger] dv0[t]).handle == h,
    ensures
        forall|t: int|
            0 <= t < dv1.len() ==> exists|i2: int|
                spec_resolved_mapping(
                    es,
                    i2,
                    (#[trigger] dv1[t]).handle,
                    dv1[t].physical_id,
                    dv1[t].phys_addr,
                    dv1[t].size,
                ),
        forall|i2: int, h: u32, pid: u16, base: u64, sz: u64|
            0 <= i2 < i + 1 && #[trigger] spec_resolved_mapping(es, i2, h, pid, base, sz)
                ==> exists|t: int| 0 <= t < dv1.len() && (#[trigger] dv1[t]).handle == h,
{
    assert forall|t: int| 0 <= t < dv1.len() implies exists|i2: int|
        spec_resolved_mapping(
            es,
            i2,
            (#[trigger] dv1[t]).handle,
            dv1[t].physical_id,
            dv1[t].phys_addr,
            dv1[t].size,
        ) by {
        if dv1[t] == dev {
            assert(spec_resolved_mapping(
                es,
                i,
                dv1[t].handle,
                dv1[t].physical_id,
                dv1[t].phys_addr,
                dv1[t].size,
            ));
        } else {
            let s = choose|s: int| 0 <= s < dv0.len() && dv1[t] == dv0[s];
            let i2 = choose|i2: int|
                spec_resolved_mapping(
                    es,
                    i2,
                    dv0[s].handle,
                    dv0[s].physical_id,
                    dv0[s].phys_addr,
                    dv0[s].size,
                );
            assert(spec_resolved_mapping(
                es,
                i2,
                dv1[t].handle,
                dv1[t].physical_id,
                dv1[t].phys_addr,
                dv1[t].size,
            ));
        }
    }
    assert forall|i2: int, h: u32, pid: u16, base: u64, sz: u64|
        0 <= i2 < i + 1 && #[trigger] spec_resolved_mapping(es, i2, h, pid, base, sz) implies
        exists|t: int| 0 <= t < dv1.len() && (#[trigger] dv1[t]).handle == h by {
        if i2 < i {
            let s = choose|s: int| 0 <= s < dv0.len() && (#[trigger] dv0[s]).handle == h;
            let t = choose|t: int| 0 <= t < dv1.len() && #[trigger] dv1[t] == dv0[s];
            assert(dv1[t].handle == h);
        } else {
            assert(h == dev.handle);
            let t = choose|t: int| 0 <= t < dv1.len() && #[trigger] dv1[t] == dev;
            assert(dv1[t].handle == h);
        }
    }
}

} // verus!
