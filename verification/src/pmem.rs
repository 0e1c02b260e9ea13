//! Persistent-memory management: NVDIMM devices, the on-device pool table,
//! and the manager that exposes named pools.
//!
//! The manager owns one pool table per registered device together with an
//! image of the device's body bytes, and memoizes which pool bodies have
//! been given a virtual mapping.  The virtual-memory manager is handed into
//! every operation; the surrounding kernel installs the mappings it
//! records.

pub mod device;
pub mod table;

use crate::pmem::device::NfitDevice;
use crate::pmem::table::{
    entry_names_equal, lemma_entry_frame, lemma_find_slot_long_name, page_entry_live,
    spec_entries_consistent, spec_entry_covers,
    spec_entry_length, spec_entry_live, spec_entry_name, spec_entry_offset, spec_find_slot,
    spec_find_slot_from, spec_magic_ok, spec_reserved_len, spec_stored_name, Table, ENTRY_COUNT,
    NAME_LEN,
};
use crate::bytes::{copy_within, zero_range};
use crate::ranges::{spec_first_fit, lemma_first_fit_free, lemma_canonical_unique, covers};
use crate::ranges::Span;
use crate::vmem;
use crate::vmem::{MappedRegion, PageKind, PageSpan};
use crate::PAGE_SIZE;
use vstd::prelude::*;
use vstd::string::StringSliceAdditionalSpecFns;

verus! {

/// One registered NVDIMM: its firmware description, its pool table, and the
/// bytes of its body (everything past the header page).
pub struct ManagedPmem {
    pub info: NfitDevice,
    pub pools: Table,
    pub body: Vec<u8>,
}

/// A memoized virtual mapping of one pool body, keyed by device handle and
/// pool offset.
pub struct Translation {
    pub handle: u32,
    pub offset: u64,
    pub pages: PageSpan,
}

/// The persistent-memory manager.
pub struct Manager {
    pmems: Vec<ManagedPmem>,
    translated: Vec<Translation>,
}

/// The body bytes after a pool moved from offset `o1` to `o2`: the first
/// `l1` bytes (the prior logical contents) copied, and the tail up to the
/// new reserved length `r2` zero-filled.
#[verifier::opaque]
pub open spec fn spec_body_moved(
    b1: Seq<u8>,
    b2: Seq<u8>,
    o1: int,
    o2: int,
    l1: int,
    r2: int,
) -> bool {
    &&& (forall|x: int|
        0 <= x < l1 ==> #[trigger] b2[o2 - PAGE_SIZE + x] == b1[o1 - PAGE_SIZE + x])
    &&& (forall|x: int| l1 <= x < r2 ==> #[trigger] b2[o2 - PAGE_SIZE + x] == 0)
}

/// Outcome of trying to create a pool on one device.
enum CreateStep {
    /// The device cannot hold the pool; the next one may.
    Refused,
    /// The pool was placed but its body could not be mapped; the placement
    /// was rolled back.
    Failed,
    /// The pool exists and its body is mapped at this address.
    Done(u64),
}

/// The device has no empty slot or no free range that can hold a pool of
/// this logical size.
pub open spec fn spec_device_cannot_hold(dev: ManagedPmem, size: u64) -> bool {
    ||| (forall|j: int| 0 <= j < ENTRY_COUNT ==> spec_entry_live(dev.pools.page_bytes(), j))
    ||| spec_first_fit(
        dev.pools.free_ranges(),
        spec_reserved_len(size as int) as u64,
        PAGE_SIZE,
    ) is None
}

/// Between `m0` and `m2`, a pool of logical length `size` named `nb` was
/// created on device `d`: it sits in slot `k`, the first empty slot, at the
/// lowest page-aligned address of the first fitting free range; exactly its
/// bytes left the device's free space; and nothing else changed anywhere.
#[verifier::opaque]
pub open spec fn spec_created_at(
    m0: Manager,
    m2: Manager,
    d: int,
    k: int,
    nb: Seq<u8>,
    size: u64,
) -> bool {
    let p1 = m0.devices()[d].pools.page_bytes();
    let p2 = m2.devices()[d].pools.page_bytes();
    let off = spec_entry_offset(p2, k);
    &&& 0 <= d < m0.devices().len()
    &&& m2.devices().len() == m0.devices().len()
    &&& 0 <= k < ENTRY_COUNT
    &&& !spec_entry_live(p1, k)
    &&& (forall|j: int| 0 <= j < k ==> spec_entry_live(p1, j))
    &&& spec_entry_live(p2, k)
    &&& Some(off) == spec_first_fit(
        m0.devices()[d].pools.free_ranges(),
        spec_reserved_len(size as int) as u64,
        PAGE_SIZE,
    )
    &&& spec_entry_length(p2, k) == size as int
    &&& spec_entry_name(p2, k) == spec_stored_name(nb)
    &&& (forall|q: int|
        0 <= q < PAGE_SIZE as int && !(crate::pmem::table::entry_pos(k) <= q
            < crate::pmem::table::entry_pos(k) + 46) ==> p2[q] == p1[q])
    &&& (forall|d2: int|
        0 <= d2 < m0.devices().len() && d2 != d ==> #[trigger] m2.devices()[d2]
            == m0.devices()[d2])
    &&& m2.devices()[d].info == m0.devices()[d].info
    &&& m2.devices()[d].body == m0.devices()[d].body
    &&& m2.devices()[d].pools.spec_device_size() == m0.devices()[d].pools.spec_device_size()
    &&& (forall|b: int|
        #[trigger] m2.devices()[d].pools.free_at(b) <==> (m0.devices()[d].pools.free_at(b) && !(
        off <= b < off + spec_reserved_len(size as int))))
}

/// Between `m0` and `m2`, the live entry in slot `i` of device `d` was
/// destroyed: its slot is zeroed, its bytes are free again, its mapping
/// memo is gone or the mapping list is untouched, and nothing else on any
/// device changed.
#[verifier::opaque]
pub open spec fn spec_destroyed_at(m0: Manager, m2: Manager, d: int, i: int) -> bool {
    let p1 = m0.devices()[d].pools.page_bytes();
    let p2 = m2.devices()[d].pools.page_bytes();
    let off = spec_entry_offset(p1, i);
    let res = spec_reserved_len(spec_entry_length(p1, i));
    &&& 0 <= d < m0.devices().len()
    &&& m2.devices().len() == m0.devices().len()
    &&& 0 <= i < ENTRY_COUNT
    &&& spec_entry_live(p1, i)
    &&& !spec_entry_live(p2, i)
    &&& spec_entry_offset(p2, i) == 0
    &&& spec_entry_length(p2, i) == 0
    &&& (forall|q: int|
        0 <= q < PAGE_SIZE as int && !(crate::pmem::table::entry_pos(i) <= q
            < crate::pmem::table::entry_pos(i) + 46) ==> p2[q] == p1[q])
    &&& (forall|d2: int|
        0 <= d2 < m0.devices().len() && d2 != d ==> #[trigger] m2.devices()[d2]
            == m0.devices()[d2])
    &&& m2.devices()[d].info == m0.devices()[d].info
    &&& m2.devices()[d].body == m0.devices()[d].body
    &&& m2.devices()[d].pools.spec_device_size() == m0.devices()[d].pools.spec_device_size()
    &&& (forall|b: int|
        #[trigger] m2.devices()[d].pools.free_at(b) <==> (m0.devices()[d].pools.free_at(b) || (off
            <= b < off + res)))
    &&& m2.spec_translation(m0.devices()[d].info.handle, off as u64) is None
}

/// The two managers hold the same persisted pool state: the same devices,
/// with the same live entries, the same free ranges, and the same body
/// bytes wherever a pool stands.  (Bytes of empty slots and of free body
/// space may differ; no pool holds them.)
#[verifier::opaque]
pub open spec fn spec_same_pools(m1: Manager, m2: Manager) -> bool {
    &&& m2.devices().len() == m1.devices().len()
    &&& forall|d: int|
        0 <= d < m1.devices().len() ==> {
            let v1 = m1.devices()[d];
            let v2 = #[trigger] m2.devices()[d];
            &&& v2.info == v1.info
            &&& v2.body@.len() == v1.body@.len()
            &&& (forall|i: int, x: int|
                0 <= i < ENTRY_COUNT && #[trigger] spec_entry_live(v1.pools.page_bytes(), i)
                    && spec_entry_offset(v1.pools.page_bytes(), i) - PAGE_SIZE <= x
                    < spec_entry_offset(v1.pools.page_bytes(), i) - PAGE_SIZE
                    + spec_reserved_len(spec_entry_length(v1.pools.page_bytes(), i))
                    ==> #[trigger] v2.body@[x] == v1.body@[x])
            &&& v2.pools.spec_device_size() == v1.pools.spec_device_size()
            &&& v2.pools.free_ranges() == v1.pools.free_ranges()
            &&& (forall|i: int|
                0 <= i < ENTRY_COUNT ==> #[trigger] spec_entry_live(v2.pools.page_bytes(), i)
                    == spec_entry_live(v1.pools.page_bytes(), i) && (spec_entry_live(
                    v1.pools.page_bytes(),
                    i,
                ) ==> spec_entry_offset(v2.pools.page_bytes(), i) == spec_entry_offset(
                    v1.pools.page_bytes(),
                    i,
                ) && spec_entry_length(v2.pools.page_bytes(), i) == spec_entry_length(
                    v1.pools.page_bytes(),
                    i,
                ) && spec_entry_name(v2.pools.page_bytes(), i) == spec_entry_name(
                    v1.pools.page_bytes(),
                    i,
                )))
        }
}

/// Equal device lists hold the same pools.
proof fn lemma_same_pools_refl(m1: Manager, m2: Manager)
    requires
        m2.devices() == m1.devices(),
    ensures
        spec_same_pools(m1, m2),
{
    reveal(spec_same_pools);
}

/// Holding the same pools only depends on the device lists.
proof fn lemma_same_pools_left(a: Manager, b: Manager, c: Manager)
    requires
        b.devices() == a.devices(),
        spec_same_pools(b, c),
    ensures
        spec_same_pools(a, c),
{
    reveal(spec_same_pools);
}

/// A placement record only depends on the device lists.
proof fn lemma_created_at_left(a: Manager, b: Manager, c: Manager, d: int, k: int, nb: Seq<u8>, size: u64)
    requires
        b.devices() == a.devices(),
        spec_created_at(b, c, d, k, nb, size),
    ensures
        spec_created_at(a, c, d, k, nb, size),
{
    reveal(spec_created_at);
}

/// A placement record only depends on the device lists, on the right too.
proof fn lemma_created_at_right(a: Manager, b: Manager, c: Manager, d: int, k: int, nb: Seq<u8>, size: u64)
    requires
        c.devices() == b.devices(),
        spec_created_at(a, b, d, k, nb, size),
    ensures
        spec_created_at(a, c, d, k, nb, size),
{
    reveal(spec_created_at);
}

/// The first device (from `d` on) in a device list holding a live entry
/// with this name, together with the entry's slot.
pub open spec fn spec_find_in(dv: Seq<ManagedPmem>, nb: Seq<u8>, d: int) -> Option<(int, int)>
    decreases dv.len() - d,
{
    if d < 0 || d >= dv.len() {
        None
    } else {
        match spec_find_slot(dv[d].pools.page_bytes(), nb) {
            Some(i) => Some((d, i)),
            None => spec_find_in(dv, nb, d + 1),
        }
    }
}

/// The first memoized mapping (from `t` on) in a translation list for this
/// device handle and pool offset.
pub open spec fn spec_translation_in(
    ts: Seq<Translation>,
    handle: u32,
    offset: u64,
    t: int,
) -> Option<PageSpan>
    decreases ts.len() - t,
{
    if t < 0 || t >= ts.len() {
        None
    } else if ts[t].handle == handle && ts[t].offset == offset {
        Some(ts[t].pages)
    } else {
        spec_translation_in(ts, handle, offset, t + 1)
    }
}

/// Appending a mapping to a list that does not know the key makes that
/// mapping the one the key finds.
pub proof fn lemma_translation_push(
    ts: Seq<Translation>,
    tr: Translation,
    handle: u32,
    offset: u64,
    t: int,
)
    requires
        0 <= t <= ts.len(),
        spec_translation_in(ts, handle, offset, t) is None,
    ensures
        spec_translation_in(ts.push(tr), handle, offset, t) == (if tr.handle == handle
            && tr.offset == offset {
            Some(tr.pages)
        } else {
            None
        }),
    decreases ts.len() - t,
{
    if t < ts.len() {
        lemma_translation_push(ts, tr, handle, offset, t + 1);
    } else {
        assert(ts.push(tr)[t] == tr);
        if !(tr.handle == handle && tr.offset == offset) {
            assert(spec_translation_in(ts.push(tr), handle, offset, t + 1) is None);
        }
    }
}

/// Appending a memo with one key leaves every other key's lookup
/// unchanged.
pub proof fn lemma_translation_push_other(
    ts: Seq<Translation>,
    tr: Translation,
    h2: u32,
    of2: u64,
    t: int,
)
    requires
        0 <= t <= ts.len(),
        !(tr.handle == h2 && tr.offset == of2),
    ensures
        spec_translation_in(ts.push(tr), h2, of2, t) == spec_translation_in(ts, h2, of2, t),
    decreases ts.len() - t,
{
    if t < ts.len() {
        lemma_translation_push_other(ts, tr, h2, of2, t + 1);
    } else {
        assert(ts.push(tr)[t] == tr);
        assert(spec_translation_in(ts.push(tr), h2, of2, t + 1) is None);
    }
}

/// Removing the first memo with one key leaves every other key's lookup
/// unchanged.
pub proof fn lemma_translation_remove_other(ts: Seq<Translation>, t: int, h2: u32, of2: u64)
    requires
        0 <= t < ts.len(),
        !(ts[t].handle == h2 && ts[t].offset == of2),
    ensures
        spec_translation_in(ts.remove(t), h2, of2, 0) == spec_translation_in(ts, h2, of2, 0),
{
    lemma_translation_remove_other_from(ts, t, h2, of2, 0);
}

proof fn lemma_translation_remove_other_from(
    ts: Seq<Translation>,
    t: int,
    h2: u32,
    of2: u64,
    j: int,
)
    requires
        0 <= t < ts.len(),
        !(ts[t].handle == h2 && ts[t].offset == of2),
        0 <= j <= t,
    ensures
        spec_translation_in(ts.remove(t), h2, of2, j) == spec_translation_in(ts, h2, of2, j),
    decreases ts.len() - j,
{
    let rs = ts.remove(t);
    if j < t {
        assert(rs[j] == ts[j]);
        if !(ts[j].handle == h2 && ts[j].offset == of2) {
            lemma_translation_remove_other_from(ts, t, h2, of2, j + 1);
        }
    } else {
        // At the removed position the lists differ by one skipped,
        // non-matching element.
        lemma_translation_remove_tail(ts, t, h2, of2, j);
    }
}

proof fn lemma_translation_remove_tail(ts: Seq<Translation>, t: int, h2: u32, of2: u64, j: int)
    requires
        0 <= t < ts.len(),
        !(ts[t].handle == h2 && ts[t].offset == of2),
        t <= j,
    ensures
        spec_translation_in(ts.remove(t), h2, of2, j) == spec_translation_in(ts, h2, of2, j + 1),
    decreases ts.len() - j,
{
    let rs = ts.remove(t);
    if j < rs.len() {
        assert(rs[j] == ts[j + 1]);
        if !(ts[j + 1].handle == h2 && ts[j + 1].offset == of2) {
            lemma_translation_remove_tail(ts, t, h2, of2, j + 1);
        }
    }
}

/// When no entry of the list matches the key, none is found.
pub proof fn lemma_translation_none_intro(ts: Seq<Translation>, handle: u32, offset: u64, t: int)
    requires
        0 <= t,
        forall|t2: int|
            t <= t2 < ts.len() ==> !((#[trigger] ts[t2]).handle == handle && ts[t2].offset
                == offset),
    ensures
        spec_translation_in(ts, handle, offset, t) is None,
    decreases ts.len() - t,
{
    if t < ts.len() {
        lemma_translation_none_intro(ts, handle, offset, t + 1);
    }
}

/// A key that finds no mapping matches no entry of the list.
pub proof fn lemma_translation_none(ts: Seq<Translation>, handle: u32, offset: u64, t: int)
    requires
        0 <= t,
        spec_translation_in(ts, handle, offset, t) is None,
    ensures
        forall|t2: int|
            t <= t2 < ts.len() ==> !((#[trigger] ts[t2]).handle == handle && ts[t2].offset
                == offset),
    decreases ts.len() - t,
{
    if t < ts.len() {
        lemma_translation_none(ts, handle, offset, t + 1);
    }
}

impl Manager {
    /// The registered devices, in registration order.
    pub closed spec fn devices(self) -> Seq<ManagedPmem> {
        self.pmems@
    }

    /// The memoized pool-body mappings.
    pub closed spec fn translations(self) -> Seq<Translation> {
        self.translated@
    }

    /// The first device (from `d` on) holding a live entry with this name,
    /// together with the entry's slot.
    pub open spec fn spec_find_from(self, nb: Seq<u8>, d: int) -> Option<(int, int)> {
        spec_find_in(self.devices(), nb, d)
    }

    /// The device and slot of the pool with this name, if any.
    pub open spec fn spec_find(self, nb: Seq<u8>) -> Option<(int, int)> {
        spec_find_in(self.devices(), nb, 0)
    }

    /// The first memoized mapping (from `t` on) for this device handle and
    /// pool offset.
    pub open spec fn spec_translation_from(self, handle: u32, offset: u64, t: int) -> Option<
        PageSpan,
    > {
        spec_translation_in(self.translations(), handle, offset, t)
    }

    /// The memoized mapping for this device handle and pool offset, if any.
    pub open spec fn spec_translation(self, handle: u32, offset: u64) -> Option<PageSpan> {
        spec_translation_in(self.translations(), handle, offset, 0)
    }

    /// What `get_pool` returns once the pool's body is mapped: the mapped
    /// virtual base address and the logical length.
    pub open spec fn spec_get(self, nb: Seq<u8>) -> Option<(u64, u64)> {
        match self.spec_find(nb) {
            Some((d, i)) => {
                let dev = self.devices()[d];
                let off = spec_entry_offset(dev.pools.page_bytes(), i);
                match self.spec_translation(dev.info.handle, off as u64) {
                    Some(ps) => Some(
                        (ps.start, spec_entry_length(dev.pools.page_bytes(), i) as u64),
                    ),
                    None => None,
                }
            },
            None => None,
        }
    }

    /// Well-formedness: every device's table is well formed over the
    /// device's size and its body image has the body's length; device
    /// handles are distinct; pool names are unique across all devices; and
    /// no two memoized mappings share a key.
    pub open spec fn wf(self) -> bool {
        &&& forall|d: int|
            0 <= d < self.devices().len() ==> {
                let dev = #[trigger] self.devices()[d];
                &&& dev.pools.wf()
                &&& dev.pools.spec_device_size() == dev.info.size
                &&& dev.body@.len() == dev.info.size - PAGE_SIZE
            }
        &&& forall|d1: int, d2: int|
            0 <= d1 < d2 < self.devices().len() ==> (#[trigger] self.devices()[d1]).info.handle
                != (#[trigger] self.devices()[d2]).info.handle
        &&& forall|d1: int, i1: int, d2: int, i2: int|
            {
                (0 <= d1 < self.devices().len() && 0 <= d2 < self.devices().len() && 0 <= i1
                    < ENTRY_COUNT && 0 <= i2 < ENTRY_COUNT && (d1 != d2 || i1 != i2)
                    && #[trigger] spec_entry_live(self.devices()[d1].pools.page_bytes(), i1)
                    && #[trigger] spec_entry_live(self.devices()[d2].pools.page_bytes(), i2))
                    ==> spec_entry_name(self.devices()[d1].pools.page_bytes(), i1)
                    != spec_entry_name(self.devices()[d2].pools.page_bytes(), i2)
            }
        &&& forall|t1: int, t2: int|
            0 <= t1 < t2 < self.translations().len() ==> !((#[trigger] self.translations()[
            t1]).handle == (#[trigger] self.translations()[t2]).handle && self.translations()[
            t1].offset == self.translations()[t2].offset)
    }

    /// A manager with no devices registered.
    pub fn new() -> (r: Manager)
        ensures
            r.wf(),
            r.devices() == Seq::<ManagedPmem>::empty(),
            r.translations() == Seq::<Translation>::empty(),
    {
        Manager { pmems: Vec::new(), translated: Vec::new() }
    }

    /// The device index and slot of the pool with this name, if any.
    fn find(&self, nb: &[u8]) -> (r: Option<(usize, usize)>)
        requires
            self.wf(),
            nb@.len() <= NAME_LEN as int,
        ensures
            match r {
                Some((d, i)) => d < self.devices().len() && i < ENTRY_COUNT && self.spec_find(nb@)
                    == Some((d as int, i as int)),
                None => self.spec_find(nb@) is None,
            },
    {
        let n = self.pmems.len();
        let mut d: usize = 0;
        while d < n
            invariant
                self.wf(),
                nb@.len() <= NAME_LEN as int,
                n == self.devices().len(),
                0 <= d <= n,
                self.spec_find(nb@) == self.spec_find_from(nb@, d as int),
            decreases n - d,
        {
            match self.pmems[d].pools.find_by_name(nb) {
                Some(i) => {
                    return Some((d, i));
                },
                None => {},
            }
            d += 1;
        }
        None
    }

    /// The position in the memo list of the mapping for this key, if any.
    fn translation_index(&self, handle: u32, offset: u64) -> (r: Option<usize>)
        ensures
            match r {
                Some(t) => {
                    &&& t < self.translations().len()
                    &&& self.translations()[t as int].handle == handle
                    &&& self.translations()[t as int].offset == offset
                    &&& self.spec_translation(handle, offset) == Some(
                        self.translations()[t as int].pages,
                    )
                },
                None => self.spec_translation(handle, offset) is None,
            },
    {
        let n = self.translated.len();
        let mut t: usize = 0;
        while t < n
            invariant
                n == self.translations().len(),
                0 <= t <= n,
                self.spec_translation(handle, offset) == self.spec_translation_from(
                    handle,
                    offset,
                    t as int,
                ),
            decreases n - t,
        {
            let tr = &self.translated[t];
            if tr.handle == handle && tr.offset == offset {
                return Some(t);
            }
            t += 1;
        }
        None
    }

    /// Whether some registered device already uses this handle.
    fn handle_known(&self, handle: u32) -> (r: bool)
        ensures
            r == exists|d: int|
                0 <= d < self.devices().len() && (#[trigger] self.devices()[d]).info.handle
                    == handle,
    {
        let n = self.pmems.len();
        let mut d: usize = 0;
        while d < n
            invariant
                n == self.devices().len(),
                0 <= d <= n,
                forall|d2: int| 0 <= d2 < d ==> (#[trigger] self.devices()[d2]).info.handle
                    != handle,
            decreases n - d,
        {
            if self.pmems[d].info.handle == handle {
                return true;
            }
            d += 1;
        }
        false
    }

    /// Whether every live name of the given table is fresh: distinct from
    /// the other live names of that table and from every live name of the
    /// registered devices.
    fn names_fresh(&self, pools: &Table) -> (r: bool)
        requires
            self.wf(),
            pools.wf(),
        ensures
            r == ({
                &&& forall|i1: int, i2: int|
                    0 <= i1 < ENTRY_COUNT && 0 <= i2 < ENTRY_COUNT && i1 != i2
                        && #[trigger] spec_entry_live(pools.page_bytes(), i1)
                        && #[trigger] spec_entry_live(pools.page_bytes(), i2) ==> spec_entry_name(
                        pools.page_bytes(),
                        i1,
                    ) != spec_entry_name(pools.page_bytes(), i2)
                &&& forall|i1: int, d2: int, i2: int|
                    0 <= i1 < ENTRY_COUNT && 0 <= d2 < self.devices().len() && 0 <= i2
                        < ENTRY_COUNT && #[trigger] spec_entry_live(pools.page_bytes(), i1)
                        && #[trigger] spec_entry_live(
                        self.devices()[d2].pools.page_bytes(),
                        i2,
                    ) ==> spec_entry_name(pools.page_bytes(), i1) != spec_entry_name(
                        self.devices()[d2].pools.page_bytes(),
                        i2,
                    )
            }),
    {
        let n = self.pmems.len();
        let mut i: usize = 0;
        while i < ENTRY_COUNT
            invariant
                self.wf(),
                pools.wf(),
                n == self.devices().len(),
                0 <= i <= ENTRY_COUNT,
                forall|i1: int, i2: int|
                    0 <= i1 < i && 0 <= i2 < ENTRY_COUNT && i1 != i2 && #[trigger] spec_entry_live(
                        pools.page_bytes(),
                        i1,
                    ) && #[trigger] spec_entry_live(pools.page_bytes(), i2) ==> spec_entry_name(
                        pools.page_bytes(),
                        i1,
                    ) != spec_entry_name(pools.page_bytes(), i2),
                forall|i1: int, d2: int, i2: int|
                    0 <= i1 < i && 0 <= d2 < n && 0 <= i2 < ENTRY_COUNT && #[trigger]
                    spec_entry_live(pools.page_bytes(), i1) && #[trigger] spec_entry_live(
                        self.devices()[d2].pools.page_bytes(),
                        i2,
                    ) ==> spec_entry_name(pools.page_bytes(), i1) != spec_entry_name(
                        self.devices()[d2].pools.page_bytes(),
                        i2,
                    ),
            decreases ENTRY_COUNT as int - i,
        {
            if page_entry_live(pools.page(), i) {
                if !self.name_fresh_at(pools, i) {
                    return false;
                }
            }
            i += 1;
        }
        true
    }

    /// Whether the name of live entry `i` of the given table collides with
    /// another live entry of that table or of a registered device.
    fn name_fresh_at(&self, pools: &Table, i: usize) -> (r: bool)
        requires
            self.wf(),
            pools.wf(),
            i < ENTRY_COUNT,
            spec_entry_live(pools.page_bytes(), i as int),
        ensures
            r == ({
                &&& forall|i2: int|
                    0 <= i2 < ENTRY_COUNT && i2 != i && #[trigger] spec_entry_live(
                        pools.page_bytes(),
                        i2,
                    ) ==> spec_entry_name(pools.page_bytes(), i as int) != spec_entry_name(
                        pools.page_bytes(),
                        i2,
                    )
                &&& forall|d2: int, i2: int|
                    0 <= d2 < self.devices().len() && 0 <= i2 < ENTRY_COUNT
                        && #[trigger] spec_entry_live(self.devices()[d2].pools.page_bytes(), i2)
                        ==> spec_entry_name(pools.page_bytes(), i as int) != spec_entry_name(
                        self.devices()[d2].pools.page_bytes(),
                        i2,
                    )
            }),
    {
        let mut j: usize = 0;
        while j < ENTRY_COUNT
            invariant
                pools.wf(),
                i < ENTRY_COUNT,
                0 <= j <= ENTRY_COUNT,
                forall|j2: int|
                    0 <= j2 < j && j2 != i && #[trigger] spec_entry_live(pools.page_bytes(), j2)
                        ==> spec_entry_name(pools.page_bytes(), i as int) != spec_entry_name(
                        pools.page_bytes(),
                        j2,
                    ),
            decreases ENTRY_COUNT as int - j,
        {
            if j != i && page_entry_live(pools.page(), j) && entry_names_equal(
                pools.page(),
                i,
                pools.page(),
                j,
            ) {
                return false;
            }
            j += 1;
        }
        let n = self.pmems.len();
        let mut d2: usize = 0;
        while d2 < n
            invariant
                self.wf(),
                pools.wf(),
                n == self.devices().len(),
                i < ENTRY_COUNT,
                0 <= d2 <= n,
                forall|d3: int, i2: int|
                    0 <= d3 < d2 && 0 <= i2 < ENTRY_COUNT && #[trigger] spec_entry_live(
                        self.devices()[d3].pools.page_bytes(),
                        i2,
                    ) ==> spec_entry_name(pools.page_bytes(), i as int) != spec_entry_name(
                        self.devices()[d3].pools.page_bytes(),
                        i2,
                    ),
            decreases n - d2,
        {
            let mut i2: usize = 0;
            while i2 < ENTRY_COUNT
                invariant
                    self.wf(),
                    pools.wf(),
                    n == self.devices().len(),
                    i < ENTRY_COUNT,
                    d2 < n,
                    0 <= i2 <= ENTRY_COUNT,
                    forall|i3: int|
                        0 <= i3 < i2 && #[trigger] spec_entry_live(
                            self.devices()[d2 as int].pools.page_bytes(),
                            i3,
                        ) ==> spec_entry_name(pools.page_bytes(), i as int) != spec_entry_name(
                            self.devices()[d2 as int].pools.page_bytes(),
                            i3,
                        ),
                decreases ENTRY_COUNT as int - i2,
            {
                if page_entry_live(self.pmems[d2].pools.page(), i2) && entry_names_equal(
                    pools.page(),
                    i,
                    self.pmems[d2].pools.page(),
                    i2,
                ) {
                    return false;
                }
                i2 += 1;
            }
            d2 += 1;
        }
        true
    }

    /// Registers one NVDIMM: validates or initializes its pool table from
    /// the first page of the device image, reserves one virtual page for
    /// the header, and records the device.  Fails, changing nothing, when
    /// the image does not match the device size, the table page is
    /// inconsistent, the handle or a pool name is already registered, or no
    /// virtual page can be reserved.
    pub fn register_device(
        &mut self,
        vmm: &mut vmem::Manager,
        info: NfitDevice,
        image: Vec<u8>,
    ) -> (r: bool)
        requires
            old(self).wf(),
            old(vmm).wf(),
        ensures
            final(self).wf(),
            final(vmm).wf(),
            r ==> {
                let dv = final(self).devices();
                let last = dv[dv.len() - 1];
                &&& dv.len() == old(self).devices().len() + 1
                &&& dv.subrange(0, dv.len() - 1) == old(self).devices()
                &&& last.info == info
                &&& last.pools.wf()
                &&& last.pools.spec_device_size() == info.size
                &&& (spec_magic_ok(image@.subrange(0, PAGE_SIZE as int))
                    ==> last.pools.page_bytes() == image@.subrange(0, PAGE_SIZE as int))
                &&& (!spec_magic_ok(image@.subrange(0, PAGE_SIZE as int)) ==> ((forall|i: int|
                    0 <= i < ENTRY_COUNT ==> !spec_entry_live(last.pools.page_bytes(), i))
                    && last.pools.free_ranges() == (if info.size > PAGE_SIZE {
                    seq![Span { start: PAGE_SIZE, size: (info.size - PAGE_SIZE) as u64 }]
                } else {
                    Seq::<Span>::empty()
                })))
                &&& last.body@ == image@.subrange(PAGE_SIZE as int, image@.len() as int)
                &&& final(self).translations() == old(self).translations()
                &&& (exists|reg: MappedRegion|
                    final(vmm).mappings() == old(vmm).mappings().push(reg) && (
                    #[trigger] reg.phys) == (Span { start: info.phys_addr, size: PAGE_SIZE })
                        && reg.virt.size == PAGE_SIZE)
            },
            !r ==> *final(self) == *old(self) && *final(vmm) == *old(vmm),
            !r ==> {
                let imgpage = image@.subrange(0, PAGE_SIZE as int);
                ||| image@.len() != info.size
                ||| info.size < PAGE_SIZE
                ||| (spec_magic_ok(imgpage) && !spec_entries_consistent(imgpage, info.size as int))
                ||| (exists|d: int|
                    0 <= d < old(self).devices().len() && (#[trigger] old(
                        self,
                    ).devices()[d]).info.handle == info.handle)
                ||| (spec_magic_ok(imgpage) && !({
                    &&& forall|i1: int, i2: int|
                        0 <= i1 < ENTRY_COUNT && 0 <= i2 < ENTRY_COUNT && i1 != i2
                            && #[trigger] spec_entry_live(imgpage, i1) && #[trigger]
                        spec_entry_live(imgpage, i2) ==> spec_entry_name(imgpage, i1)
                            != spec_entry_name(imgpage, i2)
                    &&& forall|i1: int, d2: int, i2: int|
                        0 <= i1 < ENTRY_COUNT && 0 <= d2 < old(self).devices().len() && 0 <= i2
                            < ENTRY_COUNT && #[trigger] spec_entry_live(imgpage, i1)
                            && #[trigger] spec_entry_live(
                            old(self).devices()[d2].pools.page_bytes(),
                            i2,
                        ) ==> spec_entry_name(imgpage, i1) != spec_entry_name(
                            old(self).devices()[d2].pools.page_bytes(),
                            i2,
                        )
                }))
                ||| info.phys_addr as int % (PAGE_SIZE as int) != 0
                ||| (forall|i: int|
                    0 <= i < old(vmm).free_ranges().len() ==> crate::ranges::spec_align_up(
                        (#[trigger] old(vmm).free_ranges()[i]).start as int,
                        PAGE_SIZE as int,
                    ) + PAGE_SIZE > old(vmm).free_ranges()[i].end())
            },
    {
        if image.len() as u64 != info.size || info.size < PAGE_SIZE {
            return false;
        }
        let ghost imgpage = image@.subrange(0, PAGE_SIZE as int);
        let mut page = image;
        let body = page.split_off(PAGE_SIZE as usize);
        proof {
            assert(page@ =~= imgpage);
        }

        let pools = match Table::new(info.size, page) {
            Some(t) => t,
            None => {
                return false;
            },
        };
        if self.handle_known(info.handle) {
            return false;
        }
        if !self.names_fresh(&pools) {
            proof {
                // A fresh page has no live entries, so a name collision can
                // only come from an existing, magic-carrying page.
                if !spec_magic_ok(imgpage) {
                    assert forall|i1: int, i2: int|
                        0 <= i1 < ENTRY_COUNT && 0 <= i2 < ENTRY_COUNT && i1 != i2
                            && #[trigger] spec_entry_live(pools.page_bytes(), i1) && #[trigger]
                        spec_entry_live(pools.page_bytes(), i2) implies spec_entry_name(
                        pools.page_bytes(),
                        i1,
                    ) != spec_entry_name(pools.page_bytes(), i2) by {
                        assert(!spec_entry_live(pools.page_bytes(), i1));
                    }
                    assert forall|i1: int, d2: int, i2: int|
                        0 <= i1 < ENTRY_COUNT && 0 <= d2 < self.devices().len() && 0 <= i2
                            < ENTRY_COUNT && #[trigger] spec_entry_live(pools.page_bytes(), i1)
                            && #[trigger] spec_entry_live(
                            self.devices()[d2].pools.page_bytes(),
                            i2,
                        ) implies spec_entry_name(pools.page_bytes(), i1) != spec_entry_name(
                        self.devices()[d2].pools.page_bytes(),
                        i2,
                    ) by {
                        assert(!spec_entry_live(pools.page_bytes(), i1));
                    }
                    assert(false);
                }
                assert(pools.page_bytes() == imgpage);
            }
            return false;
        }

        // One virtual page for the header.
        proof {
            assert((if 1int > 0 {
                1int
            } else {
                1int
            }) * PageKind::Regular.spec_size() == PAGE_SIZE as int);
        }
        let got = vmm.allocate(info.phys_addr, 1, PageKind::Regular);
        let header_pages = match got {
            Some(ps) => ps,
            None => {
                return false;
            },
        };
        proof {
            let reg = MappedRegion {
                virt: Span { start: header_pages.start, size: PAGE_SIZE },
                phys: Span { start: info.phys_addr, size: PAGE_SIZE },
            };
            assert(vmm.mappings() == old(vmm).mappings().push(reg));
            assert(reg.phys == Span { start: info.phys_addr, size: PAGE_SIZE }
                && reg.virt.size == PAGE_SIZE);
        }

        let ghost dv1 = self.pmems@;
        self.pmems.push(ManagedPmem { info, pools, body });
        proof {
            assert(self.devices().subrange(0, self.devices().len() - 1) =~= dv1);
            let dv = self.devices();
            let nd = dv.len() - 1;
            assert forall|d1: int, i1: int, d2: int, i2: int|
                (0 <= d1 < dv.len() && 0 <= d2 < dv.len() && 0 <= i1 < ENTRY_COUNT && 0 <= i2
                    < ENTRY_COUNT && (d1 != d2 || i1 != i2) && #[trigger] spec_entry_live(
                    dv[d1].pools.page_bytes(),
                    i1,
                ) && #[trigger] spec_entry_live(dv[d2].pools.page_bytes(), i2)) implies
                spec_entry_name(dv[d1].pools.page_bytes(), i1) != spec_entry_name(
                dv[d2].pools.page_bytes(),
                i2,
            ) by {
                if d1 < nd && d2 < nd {
                    assert(old(self).devices()[d1] == dv[d1]);
                    assert(old(self).devices()[d2] == dv[d2]);
                } else if d1 == nd && d2 == nd {
                    assert(dv[d1].pools == pools);
                } else if d1 == nd {
                    assert(dv[d2] == old(self).devices()[d2]);
                } else {
                    assert(dv[d1] == old(self).devices()[d1]);
                    assert(dv[d2].pools == pools);
                }
            }
        }
        true
    }

    /// Creates a pool: rejects a name that is already taken, asks each
    /// device's table in order to allocate space, maps the new body, and
    /// returns the mapped address and the logical length.
    ///
    /// On success the pool sits in the first empty slot of the first device
    /// that could hold it, at the lowest page-aligned address of the first
    /// fitting free range, and nothing else changes on any device.  On
    /// failure the reason is one of those listed, and no pool, free range
    /// or body byte changes.
    #[verifier::rlimit(100)]
    pub fn create_pool(&mut self, vmm: &mut vmem::Manager, name: &str, size: u64) -> (r: Option<
        (u64, u64),
    >)
        requires
            old(self).wf(),
            old(vmm).wf(),
        ensures
            final(self).wf(),
            final(vmm).wf(),
            match r {
                Some((addr, len)) => {
                    &&& old(self).spec_find(name.spec_bytes()) is None
                    &&& len == size
                    &&& final(self).spec_get(name.spec_bytes()) == Some((addr, size))
                    &&& final(self).devices().len() == old(self).devices().len()
                    &&& (exists|d: int, k: int|
                        spec_created_at(*old(self), *final(self), d, k, name.spec_bytes(), size)
                            && (forall|d2: int|
                            0 <= d2 < d ==> spec_device_cannot_hold(
                                #[trigger] old(self).devices()[d2],
                                size,
                            )) && (final(vmm).mappings() == old(vmm).mappings()
                            || final(vmm).mappings() == old(vmm).mappings().push(
                            MappedRegion {
                                virt: Span {
                                    start: addr,
                                    size: spec_reserved_len(size as int) as u64,
                                },
                                phys: Span {
                                    start: (old(self).devices()[d].info.phys_addr
                                        + spec_entry_offset(
                                        final(self).devices()[d].pools.page_bytes(),
                                        k,
                                    )) as u64,
                                    size: spec_reserved_len(size as int) as u64,
                                },
                            },
                        )))
                },
                None => {
                    &&& ((name.spec_bytes().len() == 0 || name.spec_bytes().len() > NAME_LEN as int
                        || (exists|j: int|
                        0 <= j < name.spec_bytes().len() && name.spec_bytes()[j] == 0) || size as int
                        + PAGE_SIZE - 1 > u64::MAX || old(self).spec_find(name.spec_bytes())
                        is Some) ==> *final(self) == *old(self) && *final(vmm) == *old(vmm))
                    &&& spec_same_pools(*old(self), *final(self))
                    &&& final(self).translations() == old(self).translations()
                    &&& *final(vmm) == *old(vmm)
                    &&& {
                        ||| name.spec_bytes().len() == 0
                        ||| name.spec_bytes().len() > NAME_LEN as int
                        ||| (exists|j: int|
                            0 <= j < name.spec_bytes().len() && name.spec_bytes()[j] == 0)
                        ||| size as int + PAGE_SIZE - 1 > u64::MAX
                        ||| old(self).spec_find(name.spec_bytes()) is Some
                        ||| (forall|d: int|
                            0 <= d < old(self).devices().len() ==> spec_device_cannot_hold(
                                #[trigger] old(self).devices()[d],
                                size,
                            ))
                        ||| (forall|i: int|
                            0 <= i < old(vmm).free_ranges().len() ==> crate::ranges::spec_align_up(
                                (#[trigger] old(vmm).free_ranges()[i]).start as int,
                                PAGE_SIZE as int,
                            ) + spec_reserved_len(size as int) > old(vmm).free_ranges()[i].end())
                        ||| (exists|d: int|
                            0 <= d < old(self).devices().len() && (#[trigger] old(
                                self,
                            ).devices()[d]).info.phys_addr + old(self).devices()[d].info.size
                                > u64::MAX)
                        ||| (exists|d: int|
                            0 <= d < old(self).devices().len() && (#[trigger] old(
                                self,
                            ).devices()[d]).info.phys_addr as int % (PAGE_SIZE as int) != 0)
                    }
                },
            },
    {
        let nb = name.as_bytes();
        if nb.len() == 0 || nb.len() > NAME_LEN {
            proof {
                lemma_same_pools_refl(*old(self), *self);
            }
            return None;
        }
        let mut jn: usize = 0;
        while jn < nb.len()
            invariant
                *self == *old(self),
                *vmm == *old(vmm),
                old(self).wf(),
                old(vmm).wf(),
                nb@ == name.spec_bytes(),
                0 <= jn <= nb@.len(),
                forall|x: int| 0 <= x < jn ==> nb@[x] != 0,
            decreases nb@.len() - jn,
        {
            if nb[jn] == 0 {
                proof {
                    lemma_same_pools_refl(*old(self), *self);
                }
                return None;
            }
            jn += 1;
        }
        if size > u64::MAX - (PAGE_SIZE - 1) {
            proof {
                lemma_same_pools_refl(*old(self), *self);
            }
            return None;
        }
        if self.find(nb).is_some() {
            proof {
                lemma_same_pools_refl(*old(self), *self);
            }
            return None;
        }
        let nd = self.pmems.len();
        let mut d: usize = 0;
        while d < nd
            invariant
                self.devices() == old(self).devices(),
                self.translations() == old(self).translations(),
                *vmm == *old(vmm),
                old(self).wf(),
                old(vmm).wf(),
                nd == self.devices().len(),
                0 <= d <= nd,
                nb@ == name.spec_bytes(),
                1 <= nb@.len() <= NAME_LEN as int,
                forall|x: int| 0 <= x < nb@.len() ==> nb@[x] != 0,
                size as int + PAGE_SIZE - 1 <= u64::MAX,
                self.spec_find(nb@) is None,
                forall|d2: int|
                    0 <= d2 < d ==> spec_device_cannot_hold(
                        #[trigger] old(self).devices()[d2],
                        size,
                    ),
            decreases nd - d,
        {
            proof {
                assert(self.wf());
            }
            let ghost mpre = *self;
            let ghost mpre_vmm = *vmm;
            let got = self.create_on_device(vmm, name, size, d);
            match got {
                CreateStep::Refused => {},
                CreateStep::Failed => {
                    proof {
                        lemma_same_pools_left(*old(self), mpre, *self);
                    }
                    return None;
                },
                CreateStep::Done(addr) => {
                    proof {
                        let k = choose|k: int|
                            spec_created_at(mpre, *self, d as int, k, nb@, size) && (
                            vmm.mappings() == mpre_vmm.mappings() || vmm.mappings()
                                == mpre_vmm.mappings().push(
                                MappedRegion {
                                    virt: Span {
                                        start: addr,
                                        size: spec_reserved_len(size as int) as u64,
                                    },
                                    phys: Span {
                                        start: (mpre.devices()[d as int].info.phys_addr
                                            + spec_entry_offset(
                                            self.devices()[d as int].pools.page_bytes(),
                                            k,
                                        )) as u64,
                                        size: spec_reserved_len(size as int) as u64,
                                    },
                                },
                            ));
                        lemma_created_at_left(*old(self), mpre, *self, d as int, k, nb@, size);
                        assert(spec_created_at(*old(self), *self, d as int, k, nb@, size));
                        assert(mpre.devices()[d as int].info == old(self).devices()[d as int].info);
                        assert(mpre_vmm.mappings() == old(vmm).mappings());
                    }
                    return Some((addr, size));
                },
            }
            d += 1;
        }
        proof {
            lemma_same_pools_refl(*old(self), *self);
        }
        None
    }

    /// One step of pool creation: tries to place the pool on device `d` and
    /// map its body.
    #[verifier::rlimit(100)]
    fn create_on_device(&mut self, vmm: &mut vmem::Manager, name: &str, size: u64, d: usize) -> (r:
        CreateStep)
        requires
            old(self).wf(),
            old(vmm).wf(),
            d < old(self).devices().len(),
            1 <= name.spec_bytes().len() <= NAME_LEN as int,
            forall|x: int| 0 <= x < name.spec_bytes().len() ==> name.spec_bytes()[x] != 0,
            size as int + PAGE_SIZE - 1 <= u64::MAX,
            old(self).spec_find(name.spec_bytes()) is None,
        ensures
            final(self).wf(),
            final(vmm).wf(),
            match r {
                CreateStep::Refused => {
                    &&& final(self).devices() == old(self).devices()
                    &&& final(self).translations() == old(self).translations()
                    &&& *final(vmm) == *old(vmm)
                    &&& spec_device_cannot_hold(old(self).devices()[d as int], size)
                },
                CreateStep::Failed => {
                    &&& spec_same_pools(*old(self), *final(self))
                    &&& final(self).translations() == old(self).translations()
                    &&& *final(vmm) == *old(vmm)
                    &&& {
                        ||| (forall|i: int|
                            0 <= i < old(vmm).free_ranges().len() ==> crate::ranges::spec_align_up(
                                (#[trigger] old(vmm).free_ranges()[i]).start as int,
                                PAGE_SIZE as int,
                            ) + spec_reserved_len(size as int) > old(vmm).free_ranges()[i].end())
                        ||| old(self).devices()[d as int].info.phys_addr + old(
                            self,
                        ).devices()[d as int].info.size > u64::MAX
                        ||| old(self).devices()[d as int].info.phys_addr as int % (
                        PAGE_SIZE as int) != 0
                    }
                },
                CreateStep::Done(addr) => {
                    &&& final(self).devices().len() == old(self).devices().len()
                    &&& final(self).spec_get(name.spec_bytes()) == Some((addr, size))
                    &&& (exists|k: int|
                        spec_created_at(
                            *old(self),
                            *final(self),
                            d as int,
                            k,
                            name.spec_bytes(),
                            size,
                        ) && (final(vmm).mappings() == old(vmm).mappings() || final(vmm).mappings()
                            == old(vmm).mappings().push(
                            MappedRegion {
                                virt: Span {
                                    start: addr,
                                    size: spec_reserved_len(size as int) as u64,
                                },
                                phys: Span {
                                    start: (old(self).devices()[d as int].info.phys_addr
                                        + spec_entry_offset(
                                        final(self).devices()[d as int].pools.page_bytes(),
                                        k,
                                    )) as u64,
                                    size: spec_reserved_len(size as int) as u64,
                                },
                            },
                        )))
                },
            },
    {
        let ghost nb = name.spec_bytes();
        let got = self.place_pool(name, size, d);
        let off = match got {
            None => {
                return CreateStep::Refused;
            },
            Some(off) => off,
        };
        let ghost k: int = choose|k: int|
            spec_created_at(*old(self), *self, d as int, k, nb, size) && spec_entry_offset(
                self.devices()[d as int].pools.page_bytes(),
                k,
            ) == off as int && self.spec_find(nb) == Some((d as int, k));
        proof {
            reveal(spec_created_at);
            assert(spec_entry_live(self.devices()[d as int].pools.page_bytes(), k));
            assert(spec_entry_length(self.devices()[d as int].pools.page_bytes(), k)
                == size as int);
        }
        let ghost m1 = *self;
        let r = self.map_pool_body(vmm, d, off, size);
        match r {
            Some(addr) => {
                proof {
                    assert(self.devices() == m1.devices());
                    assert(self.spec_find(nb) == Some((d as int, k)));
                    assert(spec_entry_offset(self.devices()[d as int].pools.page_bytes(), k)
                        == off as int);
                    assert(self.spec_get(nb) == Some((addr, size)));
                    lemma_created_at_right(*old(self), m1, *self, d as int, k, nb, size);
                }
                CreateStep::Done(addr)
            },
            None => {
                proof {
                    lemma_create_rollback(*old(self), m1, *self, d as int, k, off, size, nb);
                }
                CreateStep::Failed
            },
        }
    }

    /// Places a pool on device `d`: the first empty slot, the first fitting
    /// free range.  Returns the chosen device offset.
    #[verifier::rlimit(100)]
    fn place_pool(&mut self, name: &str, size: u64, d: usize) -> (r: Option<u64>)
        requires
            old(self).wf(),
            d < old(self).devices().len(),
            1 <= name.spec_bytes().len() <= NAME_LEN as int,
            forall|x: int| 0 <= x < name.spec_bytes().len() ==> name.spec_bytes()[x] != 0,
            size as int + PAGE_SIZE - 1 <= u64::MAX,
            old(self).spec_find(name.spec_bytes()) is None,
        ensures
            final(self).wf(),
            final(self).translations() == old(self).translations(),
            match r {
                Some(off) => {
                    &&& (exists|k: int|
                        spec_created_at(
                            *old(self),
                            *final(self),
                            d as int,
                            k,
                            name.spec_bytes(),
                            size,
                        ) && spec_entry_offset(
                            final(self).devices()[d as int].pools.page_bytes(),
                            k,
                        ) == off as int && final(self).spec_find(name.spec_bytes()) == Some(
                            (d as int, k),
                        ))
                },
                None => {
                    &&& final(self).devices() == old(self).devices()
                    &&& spec_device_cannot_hold(old(self).devices()[d as int], size)
                },
            },
    {
        let ghost nb = name.spec_bytes();
        let ghost dv1 = self.devices();
        let got = self.pmems[d].pools.allocate(name, size);
        let off = match got {
            None => {
                proof {
                    assert(self.devices() =~= dv1);
                }
                return None;
            },
            Some(off) => off,
        };
        proof {
            lemma_find_in_none(dv1, nb, 0);
            lemma_find_slot_none(dv1[d as int].pools.page_bytes(), nb, 0);
            assert forall|d2: int, i2: int|
                0 <= d2 < dv1.len() && 0 <= i2 < ENTRY_COUNT && #[trigger] spec_entry_live(
                    dv1[d2].pools.page_bytes(),
                    i2,
                ) implies spec_entry_name(dv1[d2].pools.page_bytes(), i2) != spec_stored_name(
                nb,
            ) by {
                lemma_find_slot_none(dv1[d2].pools.page_bytes(), nb, 0);
            }
            let p1 = dv1[d as int].pools.page_bytes();
            let p2 = self.devices()[d as int].pools.page_bytes();
            let k = choose|k: int|
                {
                    &&& 0 <= k < ENTRY_COUNT
                    &&& !spec_entry_live(p1, k)
                    &&& (forall|j: int| 0 <= j < k ==> spec_entry_live(p1, j))
                    &&& spec_entry_offset(p2, k) == off as int
                    &&& spec_entry_length(p2, k) == size as int
                    &&& #[trigger] spec_entry_name(p2, k) == spec_stored_name(nb)
                    &&& forall|q: int|
                        0 <= q < PAGE_SIZE as int && !(crate::pmem::table::entry_pos(k) <= q
                            < crate::pmem::table::entry_pos(k) + 46) ==> p2[q] == p1[q]
                };
            lemma_entry_frame(p1, p2, k);
            lemma_create_wf(*old(self), *self, d as int, k, nb);
            lemma_find_slot_first(p2, nb, 0, k);
            lemma_find_in_first(self.devices(), nb, 0, d as int, k);
            assert(spec_created_at(*old(self), *self, d as int, k, nb, size)) by {
                reveal(spec_created_at);
            }
        }
        Some(off)
    }

    /// Ensures the body of live entry `k` on device `d` is mapped    /// Ensures the body of live entry `k` on device `d` is mapped    /// Ensures the body of live entry `k` on device `d` is mapped: reuses
    /// the memoized mapping if one exists, otherwise reserves virtual pages
    /// for the body and memoizes them.  On failure the entry is released
    /// again, so that a failed creation leaves no half-created pool.
    #[verifier::rlimit(100)]
    fn map_pool_body(&mut self, vmm: &mut vmem::Manager, d: usize, off: u64, size: u64) -> (r:
        Option<u64>)
        requires
            old(self).wf(),
            old(vmm).wf(),
            d < old(self).devices().len(),
            exists|k: int|
                0 <= k < ENTRY_COUNT && #[trigger] spec_entry_live(
                    old(self).devices()[d as int].pools.page_bytes(),
                    k,
                ) && spec_entry_offset(old(self).devices()[d as int].pools.page_bytes(), k)
                    == off as int && spec_entry_length(
                    old(self).devices()[d as int].pools.page_bytes(),
                    k,
                ) == size as int,
        ensures
            final(self).wf(),
            final(vmm).wf(),
            match r {
                Some(addr) => {
                    &&& final(self).devices() == old(self).devices()
                    &&& final(self).spec_translation(
                        old(self).devices()[d as int].info.handle,
                        off,
                    ) matches Some(ps) && ps.start == addr
                    &&& (final(vmm).mappings() == old(vmm).mappings() || final(vmm).mappings()
                        == old(vmm).mappings().push(
                        MappedRegion {
                            virt: Span {
                                start: addr,
                                size: spec_reserved_len(size as int) as u64,
                            },
                            phys: Span {
                                start: (old(self).devices()[d as int].info.phys_addr
                                    + off) as u64,
                                size: spec_reserved_len(size as int) as u64,
                            },
                        },
                    ))
                },
                None => {
                    &&& {
                        ||| (forall|i: int|
                            0 <= i < old(vmm).free_ranges().len() ==> crate::ranges::spec_align_up(
                                (#[trigger] old(vmm).free_ranges()[i]).start as int,
                                PAGE_SIZE as int,
                            ) + spec_reserved_len(size as int) > old(vmm).free_ranges()[i].end())
                        ||| old(self).devices()[d as int].info.phys_addr + old(
                            self,
                        ).devices()[d as int].info.size > u64::MAX
                        ||| old(self).devices()[d as int].info.phys_addr as int % (
                        PAGE_SIZE as int) != 0
                    }
                    &&& *final(vmm) == *old(vmm)
                    &&& final(self).translations() == old(self).translations()
                    &&& final(self).devices().len() == old(self).devices().len()
                    &&& (forall|d2: int|
                        0 <= d2 < old(self).devices().len() && d2 != d
                            ==> #[trigger] final(self).devices()[d2] == old(self).devices()[d2])
                    &&& final(self).devices()[d as int].info == old(
                        self,
                    ).devices()[d as int].info
                    &&& final(self).devices()[d as int].body == old(
                        self,
                    ).devices()[d as int].body
                    &&& final(self).devices()[d as int].pools.spec_device_size()
                        == old(self).devices()[d as int].pools.spec_device_size()
                    &&& (exists|k: int|
                        #![trigger spec_entry_live(old(self).devices()[d as int].pools.page_bytes(), k)]
                        {
                            let p1 = old(self).devices()[d as int].pools.page_bytes();
                            let p2 = final(self).devices()[d as int].pools.page_bytes();
                            &&& 0 <= k < ENTRY_COUNT
                            &&& spec_entry_live(p1, k)
                            &&& spec_entry_offset(p1, k) == off as int
                            &&& spec_entry_length(p1, k) == size as int
                            &&& !spec_entry_live(p2, k)
                            &&& (forall|q: int|
                                0 <= q < PAGE_SIZE as int && !(crate::pmem::table::entry_pos(k)
                                    <= q < crate::pmem::table::entry_pos(k) + 46) ==> p2[q]
                                    == p1[q])
                        })
                    &&& (forall|b: int|
                        #[trigger] final(self).devices()[d as int].pools.free_at(b)
                            <==> (old(self).devices()[d as int].pools.free_at(b) || (off as int
                            <= b < off + spec_reserved_len(size as int))))
                },
            },
    {
        let ghost k = choose|k: int|
            0 <= k < ENTRY_COUNT && #[trigger] spec_entry_live(
                old(self).devices()[d as int].pools.page_bytes(),
                k,
            ) && spec_entry_offset(old(self).devices()[d as int].pools.page_bytes(), k)
                == off as int && spec_entry_length(
                old(self).devices()[d as int].pools.page_bytes(),
                k,
            ) == size as int;
        let handle = self.pmems[d].info.handle;
        match self.translation_index(handle, off) {
            Some(t) => {
                return Some(self.translated[t].pages.start);
            },
            None => {},
        }
        let phys_base = self.pmems[d].info.phys_addr;
        let rem = size % PAGE_SIZE;
        let rounded = if rem == 0 {
            size
        } else {
            size + (PAGE_SIZE - rem)
        };
        let reserved = if rounded < PAGE_SIZE {
            PAGE_SIZE
        } else {
            rounded
        };
        proof {
            assert(spec_entry_live(self.devices()[d as int].pools.page_bytes(), k));
            assert(crate::pmem::table::spec_entry_ok(
                self.devices()[d as int].pools.page_bytes(),
                k,
                self.devices()[d as int].info.size as int,
            ));
            crate::pmem::table::lemma_reserved_len_props(size as int);
            assert(reserved as int == spec_reserved_len(size as int));
            assert(off + reserved <= self.devices()[d as int].info.size);
        }
        if phys_base > u64::MAX - off {
            self.unmake_entry(d, off, Ghost(k));
            proof {
                assert(spec_entry_live(old(self).devices()[d as int].pools.page_bytes(), k));
            }
            return None;
        }
        let frames = reserved / PAGE_SIZE;
        proof {
            assert(frames >= 1) by (nonlinear_arith)
                requires
                    reserved >= PAGE_SIZE,
                    PAGE_SIZE == 0x1000u64,
                    frames == reserved as int / PAGE_SIZE as int,
            ;
            assert(frames * PAGE_SIZE == reserved as int) by (nonlinear_arith)
                requires
                    reserved as int % (PAGE_SIZE as int) == 0,
                    PAGE_SIZE == 0x1000u64,
                    frames == reserved as int / PAGE_SIZE as int,
            ;
        }
        proof {
            assert(off as int % (PAGE_SIZE as int) == 0);
            assert((phys_base + off) as int % (PAGE_SIZE as int) == phys_base as int % (
            PAGE_SIZE as int)) by (nonlinear_arith)
                requires
                    off as int % (PAGE_SIZE as int) == 0,
                    PAGE_SIZE == 0x1000u64,
                    phys_base + off <= u64::MAX,
            ;
        }
        let got = vmm.allocate(phys_base + off, frames, PageKind::Regular);
        let ps = match got {
            Some(ps) => ps,
            None => {
                proof {
                    assert(frames > 0);
                    assert(frames * PageKind::Regular.spec_size() == reserved as int);
                }
                self.unmake_entry(d, off, Ghost(k));
                proof {
                    assert(spec_entry_live(old(self).devices()[d as int].pools.page_bytes(), k));
                }
                return None;
            },
        };
        let ghost ts1 = self.translated@;
        self.translated.push(Translation { handle, offset: off, pages: ps });
        proof {
            lemma_translation_none(ts1, handle, off, 0);
            lemma_translation_push(
                ts1,
                Translation { handle, offset: off, pages: ps },
                handle,
                off,
                0,
            );
            assert forall|t1: int, t2: int|
                0 <= t1 < t2 < self.translations().len() implies !((#[trigger] self.translations()[
            t1]).handle == (#[trigger] self.translations()[t2]).handle && self.translations()[
            t1].offset == self.translations()[t2].offset) by {
                if t2 == self.translations().len() - 1 {
                    assert(self.translations()[t1] == ts1[t1]);
                }
            }
        }
        Some(ps.start)
    }

    /// Releases the entry with this offset on device `d` again: the rollback
    /// of a pool creation whose body could not be mapped.
    fn unmake_entry(&mut self, d: usize, off: u64, k_ghost: Ghost<int>)
        requires
            old(self).wf(),
            d < old(self).devices().len(),
            0 <= k_ghost@ < ENTRY_COUNT,
            spec_entry_live(old(self).devices()[d as int].pools.page_bytes(), k_ghost@),
            spec_entry_offset(old(self).devices()[d as int].pools.page_bytes(), k_ghost@)
                == off as int,
        ensures
            final(self).wf(),
            final(self).devices().len() == old(self).devices().len(),
            final(self).translations() == old(self).translations(),
            forall|d2: int|
                0 <= d2 < old(self).devices().len() && d2 != d
                    ==> #[trigger] final(self).devices()[d2] == old(self).devices()[d2],
            final(self).devices()[d as int].info == old(self).devices()[d as int].info,
            final(self).devices()[d as int].body == old(self).devices()[d as int].body,
            final(self).devices()[d as int].pools.spec_device_size()
                == old(self).devices()[d as int].pools.spec_device_size(),
            !spec_entry_live(final(self).devices()[d as int].pools.page_bytes(), k_ghost@),
            forall|q: int|
                0 <= q < PAGE_SIZE as int && !(crate::pmem::table::entry_pos(k_ghost@) <= q
                    < crate::pmem::table::entry_pos(k_ghost@) + 46)
                    ==> final(self).devices()[d as int].pools.page_bytes()[q]
                    == old(self).devices()[d as int].pools.page_bytes()[q],
            forall|b: int|
                #[trigger] final(self).devices()[d as int].pools.free_at(b)
                    <==> (old(self).devices()[d as int].pools.free_at(b) || (off as int <= b < off
                    + spec_reserved_len(
                    spec_entry_length(old(self).devices()[d as int].pools.page_bytes(), k_ghost@),
                ))),
    {
        let got = self.pmems[d].pools.find_by_offset(off);
        match got {
            Some(i) => {
                let ghost dv1 = self.devices();
                proof {
                    // Two live entries cannot share an offset: their
                    // regions would overlap at it.
                    if i as int != k_ghost@ {
                        let p1 = old(self).devices()[d as int].pools.page_bytes();
                        assert(crate::pmem::table::spec_entries_disjoint(p1, i as int, k_ghost@));
                        crate::pmem::table::lemma_reserved_len_props(
                            spec_entry_length(p1, i as int),
                        );
                        crate::pmem::table::lemma_reserved_len_props(
                            spec_entry_length(p1, k_ghost@),
                        );
                        assert(false);
                    }
                }
                let ok = self.pmems[d].pools.deallocate(i);
                proof {
                    lemma_kill_wf(*old(self), *self, d as int, i as int);
                }
            },
            None => {
                proof {
                    assert(false);
                }
            },
        }
    }

    /// Destroys the pool with this name: releases its region in the pool
    /// table, unmaps its body if it was mapped, and forgets the memoized
    /// mapping.  Returns `false`, changing nothing, when no pool has the
    /// name; destroying the same name twice therefore yields `true` and
    /// then `false`.
    #[verifier::rlimit(100)]
    pub fn destroy_pool(&mut self, vmm: &mut vmem::Manager, name: &str) -> (r: bool)
        requires
            old(self).wf(),
            old(vmm).wf(),
        ensures
            final(self).wf(),
            final(vmm).wf(),
            r <==> old(self).spec_find(name.spec_bytes()) is Some,
            r ==> final(self).spec_find(name.spec_bytes()) is None,
            !r ==> *final(self) == *old(self) && *final(vmm) == *old(vmm),
            r ==> (exists|d: int, i: int|
                old(self).spec_find(name.spec_bytes()) == Some((d, i)) && spec_destroyed_at(
                    *old(self),
                    *final(self),
                    d,
                    i,
                )),
            r ==> forall|b: int| old(vmm).free_at(b) ==> #[trigger] final(vmm).free_at(b),
    {
        let nb = name.as_bytes();
        if nb.len() > NAME_LEN {
            proof {
                old(self).lemma_long_name_absent(nb@, 0);
            }
            return false;
        }
        let found = self.find(nb);
        let (d, i) = match found {
            Some(x) => x,
            None => {
                return false;
            },
        };
        proof {
            lemma_find_in_live(old(self).devices(), nb@, 0, d as int, i as int);
        }
        let e = match self.pmems[d].pools.get(i) {
            Some(e) => e,
            None => {
                proof {
                    assert(false);
                }
                return false;
            },
        };
        let off = e.offset();
        let handle = self.pmems[d].info.handle;
        let ghost dv1 = self.devices();
        let ok = self.pmems[d].pools.deallocate(i);
        proof {
            assert(ok);
            lemma_kill_wf(*old(self), *self, d as int, i as int);
        }

        // Unmap the body, if it was mapped, and forget the mapping.
        self.drop_translation(vmm, handle, off);

        proof {
            lemma_destroy_finish(*old(self), *self, d as int, i as int, nb@, handle, off, Seq::empty());
            assert(spec_destroyed_at(*old(self), *self, d as int, i as int)) by {
                reveal(spec_destroyed_at);
                assert(self.devices()[d as int].info == old(self).devices()[d as int].info);
                assert(self.spec_translation(handle, off) is None);
            }
            assert forall|b: int| old(vmm).free_at(b) implies #[trigger] final(vmm).free_at(
                b,
            ) by {}
        }
        true
    }

    /// Resizes the pool with this name.  Growth only: when the requested
    /// size still fits the space reserved for the pool, the existing
    /// mapping is returned with the larger of the old and the requested
    /// length.  Otherwise the entry is moved to a freshly reserved region,
    /// the body bytes are copied over, the grown tail is zero-filled, the
    /// old region and its mapping are released, and the new mapping is
    /// returned.  The result carries the mapped address, the new logical
    /// length, and the prior logical length.
    #[verifier::rlimit(100)]
    pub fn resize_pool(&mut self, vmm: &mut vmem::Manager, name: &str, new_size: u64) -> (r:
        Option<(u64, u64, u64)>)
        requires
            old(self).wf(),
            old(vmm).wf(),
        ensures
            final(self).wf(),
            final(vmm).wf(),
            match r {
                Some((addr, len, old_len)) => {
                    &&& old(self).spec_find(name.spec_bytes()) is Some
                    &&& ({
                        let (d, i) = old(self).spec_find(name.spec_bytes()).unwrap();
                        let p1 = old(self).devices()[d].pools.page_bytes();
                        &&& old_len as int == spec_entry_length(p1, i)
                        &&& len as int == (if new_size >= old_len {
                            new_size as int
                        } else {
                            old_len as int
                        })
                        &&& (final(self).spec_get(name.spec_bytes()) matches Some((a2, l2))
                            && a2 == addr)
                        &&& (spec_reserved_len(new_size as int) <= spec_reserved_len(
                            spec_entry_length(p1, i),
                        ) ==> final(self).devices() == old(self).devices())
                        // Already covered and mapped: the existing mapping
                        // comes back and nothing changes at all.
                        &&& (spec_reserved_len(new_size as int) <= spec_reserved_len(
                            spec_entry_length(p1, i),
                        ) && old(self).spec_get(name.spec_bytes()) is Some ==> (*final(self)
                            == *old(self) && *final(vmm) == *old(vmm) && (old(self).spec_get(
                            name.spec_bytes(),
                        ) matches Some((a0, l0)) && a0 == addr)))
                        &&& (spec_reserved_len(new_size as int) > spec_reserved_len(
                            spec_entry_length(p1, i),
                        ) ==> {
                            let p2 = final(self).devices()[d].pools.page_bytes();
                            let o1 = spec_entry_offset(p1, i);
                            let o2 = spec_entry_offset(p2, i);
                            &&& spec_entry_length(p2, i) == new_size as int
                            &&& Some(o2) == crate::ranges::spec_first_fit(
                                old(self).devices()[d].pools.free_ranges(),
                                spec_reserved_len(new_size as int) as u64,
                                PAGE_SIZE,
                            )
                            &&& spec_body_moved(
                                old(self).devices()[d].body@,
                                final(self).devices()[d].body@,
                                o1,
                                o2,
                                old_len as int,
                                spec_reserved_len(new_size as int),
                            )
                            // The old region's mapping is evicted, and its
                            // pages are free again unless the virtual-memory
                            // manager refused the release.
                            &&& final(self).spec_translation(
                                old(self).devices()[d].info.handle,
                                o1 as u64,
                            ) is None
                            &&& (old(self).spec_translation(
                                old(self).devices()[d].info.handle,
                                o1 as u64,
                            ) matches Some(ps) ==> ((forall|b: int|
                                ps.start as int <= b < ps.start + ps.count
                                    * ps.kind.spec_size() ==> #[trigger] final(vmm).free_at(b))
                                || ps.count == 0 || ps.count * ps.kind.spec_size() > u64::MAX
                                || ps.start + ps.count * ps.kind.spec_size() > u64::MAX
                                || final(vmm).free_at(ps.start as int)))
                        })
                    })
                },
                None => {
                    &&& (old(self).spec_find(name.spec_bytes()) is None ==> *final(self) == *old(
                        self,
                    ) && *final(vmm) == *old(vmm))
                    &&& spec_same_pools(*old(self), *final(self))
                    &&& final(self).translations() == old(self).translations()
                    &&& *final(vmm) == *old(vmm)
                },
            },
            // When the reserved space already covers the request and the
            // body is mapped, the call must succeed.
            (old(self).spec_find(name.spec_bytes()) matches Some((d, i)) && spec_reserved_len(
                new_size as int,
            ) <= spec_reserved_len(
                spec_entry_length(old(self).devices()[d].pools.page_bytes(), i),
            ) && old(self).spec_get(name.spec_bytes()) is Some) ==> r is Some,
    {
        let nb = name.as_bytes();
        if nb.len() > NAME_LEN {
            proof {
                old(self).lemma_long_name_absent(nb@, 0);
                lemma_same_pools_refl(*old(self), *self);
            }
            return None;
        }
        let found = self.find(nb);
        let (d, i) = match found {
            Some(x) => x,
            None => {
                proof {
                    lemma_same_pools_refl(*old(self), *self);
                }
                return None;
            },
        };
        proof {
            lemma_find_in_live(old(self).devices(), nb@, 0, d as int, i as int);
        }
        let e = match self.pmems[d].pools.get(i) {
            Some(e) => e,
            None => {
                proof {
                    assert(false);
                }
                return None;
            },
        };
        let o1 = e.offset();
        let l1 = e.len();
        if new_size > u64::MAX - (PAGE_SIZE - 1) {
            // A size this large cannot be reserved on any device.
            proof {
                lemma_same_pools_refl(*old(self), *self);
            }
            return None;
        }
        let rem1 = l1 % PAGE_SIZE;
        let rounded1 = if rem1 == 0 {
            l1
        } else {
            l1 + (PAGE_SIZE - rem1)
        };
        let r1 = if rounded1 < PAGE_SIZE {
            PAGE_SIZE
        } else {
            rounded1
        };
        let rem2 = new_size % PAGE_SIZE;
        let rounded2 = if rem2 == 0 {
            new_size
        } else {
            new_size + (PAGE_SIZE - rem2)
        };
        let r2 = if rounded2 < PAGE_SIZE {
            PAGE_SIZE
        } else {
            rounded2
        };
        proof {
            assert(r1 as int == spec_reserved_len(l1 as int));
            assert(r2 as int == spec_reserved_len(new_size as int));
        }

        if r2 <= r1 {
            // The reserved space already covers the request: return the
            // existing mapping with the larger logical length.
            let got = self.get_pool(vmm, name);
            match got {
                Some((addr, len0)) => {
                    let len = if new_size >= l1 {
                        new_size
                    } else {
                        l1
                    };
                    return Some((addr, len, l1));
                },
                None => {
                    proof {
                        lemma_same_pools_refl(*old(self), *self);
                    }
                    return None;
                },
            }
        }

        self.grow_pool(vmm, name, d, i, o1, l1, new_size)
    }

    /// The growing half of `resize_pool`: moves the entry to a larger
    /// region, copies the body, zero-fills the grown tail, maps the new
    /// region, and only then evicts and releases the old region's mapping.
    /// When the new region cannot be mapped, the move is rolled back, so a
    /// failure leaves the pools as they were.
    #[verifier::rlimit(100)]
    fn grow_pool(
        &mut self,
        vmm: &mut vmem::Manager,
        name: &str,
        d: usize,
        i: usize,
        o1: u64,
        l1: u64,
        new_size: u64,
    ) -> (r: Option<(u64, u64, u64)>)
        requires
            old(self).wf(),
            old(vmm).wf(),
            d < old(self).devices().len(),
            i < ENTRY_COUNT,
            old(self).spec_find(name.spec_bytes()) == Some((d as int, i as int)),
            spec_entry_live(old(self).devices()[d as int].pools.page_bytes(), i as int),
            o1 as int == spec_entry_offset(old(self).devices()[d as int].pools.page_bytes(), i as int),
            l1 as int == spec_entry_length(old(self).devices()[d as int].pools.page_bytes(), i as int),
            spec_reserved_len(new_size as int) > spec_reserved_len(l1 as int),
            new_size as int + PAGE_SIZE - 1 <= u64::MAX,
        ensures
            final(self).wf(),
            final(vmm).wf(),
            match r {
                Some((addr, len, old_len)) => {
                    &&& old_len == l1
                    &&& len == new_size
                    &&& new_size >= l1
                    &&& (final(self).spec_get(name.spec_bytes()) matches Some((a2, l2)) && a2
                        == addr)
                    &&& final(self).spec_translation(
                        old(self).devices()[d as int].info.handle,
                        o1,
                    ) is None
                    &&& (old(self).spec_translation(old(self).devices()[d as int].info.handle, o1)
                        matches Some(ps) ==> ((forall|b: int|
                        ps.start as int <= b < ps.start + ps.count * ps.kind.spec_size()
                            ==> #[trigger] final(vmm).free_at(b)) || ps.count == 0 || ps.count
                        * ps.kind.spec_size() > u64::MAX || ps.start + ps.count
                        * ps.kind.spec_size() > u64::MAX || final(vmm).free_at(ps.start as int)))
                    &&& ({
                        let p2 = final(self).devices()[d as int].pools.page_bytes();
                        let o2 = spec_entry_offset(p2, i as int);
                        &&& spec_entry_length(p2, i as int) == new_size as int
                        &&& Some(o2) == crate::ranges::spec_first_fit(
                            old(self).devices()[d as int].pools.free_ranges(),
                            spec_reserved_len(new_size as int) as u64,
                            PAGE_SIZE,
                        )
                        &&& spec_body_moved(
                            old(self).devices()[d as int].body@,
                            final(self).devices()[d as int].body@,
                            o1 as int,
                            o2,
                            l1 as int,
                            spec_reserved_len(new_size as int),
                        )
                    })
                },
                None => {
                    &&& spec_same_pools(*old(self), *final(self))
                    &&& final(self).translations() == old(self).translations()
                    &&& *final(vmm) == *old(vmm)
                },
            },
    {
        let ghost nb = name.spec_bytes();
        let moved = self.move_pool_entry(d, i, o1, l1, new_size, Ghost(nb));
        let o2 = match moved {
            Some(o2) => o2,
            None => {
                proof {
                    lemma_same_pools_refl(*old(self), *self);
                }
                return None;
            },
        };
        let ghost m1 = *self;
        // Map the new region first; the old mapping stays valid until the
        // new one is secured.
        let got = self.map_body_plain(vmm, d, o2, new_size);
        let addr = match got {
            Some(addr) => addr,
            None => {
                // Move the entry back; its old region is still free and its
                // old bytes are untouched.
                proof {
                    assert(crate::pmem::table::spec_entry_ok(
                        old(self).devices()[d as int].pools.page_bytes(),
                        i as int,
                        old(self).devices()[d as int].info.size as int,
                    ));
                    crate::pmem::table::lemma_reserved_len_props(l1 as int);
                    assert(l1 as int + PAGE_SIZE - 1 <= u64::MAX);
                    assert forall|b: int|
                        o1 as int <= b < o1 + spec_reserved_len(
                            l1 as int,
                        ) implies #[trigger] self.devices()[d as int].pools.free_at(b) by {
                        assert(m1.devices()[d as int].pools.free_at(b));
                    }
                }
                let ghost m2 = *self;
                self.pmems[d].pools.restore_moved_entry(i, o1, l1);
                proof {
                    lemma_move_wf(m2, *self, d as int, i as int);
                    lemma_resize_rollback(
                        *old(self),
                        m1,
                        *self,
                        d as int,
                        i as int,
                        o1,
                        l1,
                        o2,
                        new_size,
                    );
                }
                return None;
            },
        };
        let handle = self.pmems[d].info.handle;
        let ghost m2 = *self;
        self.drop_translation(vmm, handle, o1);
        proof {
            assert(self.devices() == m2.devices());
            assert(self.spec_find(nb) == Some((d as int, i as int)));
            assert(spec_entry_offset(self.devices()[d as int].pools.page_bytes(), i as int)
                == o2 as int);
            // The freshly mapped region survives the eviction: its key is
            // the new offset, not the old one.
            assert(o2 != o1);
            assert(self.spec_translation(handle, o2) == m2.spec_translation(handle, o2));
            assert(self.spec_get(nb) matches Some((a2, l2)) && a2 == addr);
            // The old memo, if any, was unchanged until the eviction.
            assert(m2.spec_translation(handle, o1) == old(self).spec_translation(handle, o1)) by {
                if m2.translations() != m1.translations() {
                    let tr = m2.translations().last();
                    assert(m2.translations() == m1.translations().push(tr));
                    lemma_translation_push_other(m1.translations(), tr, handle, o1, 0);
                }
            }
            crate::pmem::table::lemma_reserved_len_monotone(
                if new_size as int <= l1 as int {
                    new_size as int
                } else {
                    l1 as int
                },
                if new_size as int <= l1 as int {
                    l1 as int
                } else {
                    new_size as int
                },
            );
            assert(new_size as int > l1 as int);
        }
        Some((addr, new_size, l1))
    }

    /// Maps the body of live entry at offset `off` with length `size` on    /// Maps the body of live entry at offset `off` with length `size` on
    /// device `d` into virtual memory, reusing the memoized mapping if one
    /// exists.  Unlike the creation path, a failure leaves the pool table
    /// untouched.
    #[verifier::rlimit(100)]
    fn map_body_plain(&mut self, vmm: &mut vmem::Manager, d: usize, off: u64, size: u64) -> (r:
        Option<u64>)
        requires
            old(self).wf(),
            old(vmm).wf(),
            d < old(self).devices().len(),
            exists|k: int|
                0 <= k < ENTRY_COUNT && #[trigger] spec_entry_live(
                    old(self).devices()[d as int].pools.page_bytes(),
                    k,
                ) && spec_entry_offset(old(self).devices()[d as int].pools.page_bytes(), k)
                    == off as int && spec_entry_length(
                    old(self).devices()[d as int].pools.page_bytes(),
                    k,
                ) == size as int,
        ensures
            final(self).wf(),
            final(vmm).wf(),
            final(self).devices() == old(self).devices(),
            match r {
                Some(addr) => {
                    &&& final(self).spec_translation(
                        old(self).devices()[d as int].info.handle,
                        off,
                    ) matches Some(ps) && ps.start == addr
                    &&& (final(self).translations() == old(self).translations() || (exists|
                        tr: Translation,
                    |
                        final(self).translations() == old(self).translations().push(tr)
                            && (#[trigger] tr.handle) == old(self).devices()[d as int].info.handle
                            && tr.offset == off))
                    &&& (final(vmm).mappings() == old(vmm).mappings() || final(vmm).mappings()
                        == old(vmm).mappings().push(
                        MappedRegion {
                            virt: Span {
                                start: addr,
                                size: spec_reserved_len(size as int) as u64,
                            },
                            phys: Span {
                                start: (old(self).devices()[d as int].info.phys_addr
                                    + off) as u64,
                                size: spec_reserved_len(size as int) as u64,
                            },
                        },
                    ))
                    &&& (old(self).spec_translation(
                        old(self).devices()[d as int].info.handle,
                        off,
                    ) is Some ==> *final(self) == *old(self) && *final(vmm) == *old(vmm))
                },
                None => {
                    &&& *final(self) == *old(self) && *final(vmm) == *old(vmm)
                    &&& ({
                        let phys = old(self).devices()[d as int].info.phys_addr as int;
                        ||| phys + off > u64::MAX
                        ||| (phys + off) % (PAGE_SIZE as int) != 0
                        ||| (forall|j: int|
                            0 <= j < old(vmm).free_ranges().len() ==> crate::ranges::spec_align_up(
                                (#[trigger] old(vmm).free_ranges()[j]).start as int,
                                PAGE_SIZE as int,
                            ) + spec_reserved_len(size as int) > old(vmm).free_ranges()[j].end())
                    })
                },
            },
            old(self).spec_translation(old(self).devices()[d as int].info.handle, off) is None
                && r is Some ==> final(vmm).mappings() == old(vmm).mappings().push(
                MappedRegion {
                    virt: Span {
                        start: r.unwrap(),
                        size: spec_reserved_len(size as int) as u64,
                    },
                    phys: Span {
                        start: (old(self).devices()[d as int].info.phys_addr + off) as u64,
                        size: spec_reserved_len(size as int) as u64,
                    },
                },
            ),
    {
        let ghost k = choose|k: int|
            0 <= k < ENTRY_COUNT && #[trigger] spec_entry_live(
                old(self).devices()[d as int].pools.page_bytes(),
                k,
            ) && spec_entry_offset(old(self).devices()[d as int].pools.page_bytes(), k)
                == off as int && spec_entry_length(
                old(self).devices()[d as int].pools.page_bytes(),
                k,
            ) == size as int;
        let handle = self.pmems[d].info.handle;
        match self.translation_index(handle, off) {
            Some(t) => {
                return Some(self.translated[t].pages.start);
            },
            None => {},
        }
        let phys_base = self.pmems[d].info.phys_addr;
        if phys_base > u64::MAX - off {
            return None;
        }
        let rem = size % PAGE_SIZE;
        let rounded = if rem == 0 {
            size
        } else {
            size + (PAGE_SIZE - rem)
        };
        let reserved = if rounded < PAGE_SIZE {
            PAGE_SIZE
        } else {
            rounded
        };
        proof {
            assert(spec_entry_live(self.devices()[d as int].pools.page_bytes(), k));
            assert(crate::pmem::table::spec_entry_ok(
                self.devices()[d as int].pools.page_bytes(),
                k,
                self.devices()[d as int].info.size as int,
            ));
            crate::pmem::table::lemma_reserved_len_props(size as int);
            assert(reserved as int == spec_reserved_len(size as int));
        }
        let frames = reserved / PAGE_SIZE;
        proof {
            assert(frames >= 1) by (nonlinear_arith)
                requires
                    reserved >= PAGE_SIZE,
                    PAGE_SIZE == 0x1000u64,
                    frames == reserved as int / PAGE_SIZE as int,
            ;
            assert(frames * PageKind::Regular.spec_size() == reserved as int) by (nonlinear_arith)
                requires
                    reserved as int % (PAGE_SIZE as int) == 0,
                    PAGE_SIZE == 0x1000u64,
                    frames == reserved as int / PAGE_SIZE as int,
            ;
        }
        let got = vmm.allocate(phys_base + off, frames, PageKind::Regular);
        let ps = match got {
            Some(ps) => ps,
            None => {
                return None;
            },
        };
        let ghost ts1 = self.translated@;
        self.translated.push(Translation { handle, offset: off, pages: ps });
        proof {
            lemma_translation_none(ts1, handle, off, 0);
            lemma_translation_push(
                ts1,
                Translation { handle, offset: off, pages: ps },
                handle,
                off,
                0,
            );
            assert forall|t1: int, t2: int|
                0 <= t1 < t2 < self.translations().len() implies !((#[trigger] self.translations()[
            t1]).handle == (#[trigger] self.translations()[t2]).handle && self.translations()[
            t1].offset == self.translations()[t2].offset) by {
                if t2 == self.translations().len() - 1 {
                    assert(self.translations()[t1] == ts1[t1]);
                }
            }
        }
        Some(ps.start)
    }

    /// Moves the entry in slot `i` of device `d` to a freshly reserved
    /// larger region, copies the logical body bytes over, and zero-fills
    /// the grown tail up to the new reserved length.
    #[verifier::rlimit(100)]
    fn move_pool_entry(
        &mut self,
        d: usize,
        i: usize,
        o1: u64,
        l1: u64,
        new_size: u64,
        nb_ghost: Ghost<Seq<u8>>,
    ) -> (r: Option<u64>)
        requires
            old(self).wf(),
            d < old(self).devices().len(),
            i < ENTRY_COUNT,
            old(self).spec_find(nb_ghost@) == Some((d as int, i as int)),
            spec_entry_live(old(self).devices()[d as int].pools.page_bytes(), i as int),
            o1 as int == spec_entry_offset(old(self).devices()[d as int].pools.page_bytes(), i as int),
            l1 as int == spec_entry_length(old(self).devices()[d as int].pools.page_bytes(), i as int),
            spec_reserved_len(new_size as int) > spec_reserved_len(l1 as int),
            new_size as int + PAGE_SIZE - 1 <= u64::MAX,
        ensures
            final(self).wf(),
            match r {
                Some(o2) => {
                    let p2 = final(self).devices()[d as int].pools.page_bytes();
                    let b1 = old(self).devices()[d as int].body@;
                    let b2 = final(self).devices()[d as int].body@;
                    &&& final(self).spec_find(nb_ghost@) == Some((d as int, i as int))
                    &&& final(self).translations() == old(self).translations()
                    &&& final(self).devices().len() == old(self).devices().len()
                    &&& (forall|d2: int|
                        0 <= d2 < old(self).devices().len() && d2 != d
                            ==> #[trigger] final(self).devices()[d2] == old(self).devices()[d2])
                    &&& final(self).devices()[d as int].info == old(
                        self,
                    ).devices()[d as int].info
                    &&& o2 as int == spec_entry_offset(p2, i as int)
                    &&& Some(o2 as int) == crate::ranges::spec_first_fit(
                        old(self).devices()[d as int].pools.free_ranges(),
                        spec_reserved_len(new_size as int) as u64,
                        PAGE_SIZE,
                    )
                    &&& (o2 + spec_reserved_len(new_size as int) <= o1 || o1 + spec_reserved_len(
                        l1 as int,
                    ) <= o2)
                    &&& spec_entry_length(p2, i as int) == new_size as int
                    &&& spec_entry_live(p2, i as int)
                    &&& spec_entry_name(p2, i as int) == spec_entry_name(
                        old(self).devices()[d as int].pools.page_bytes(),
                        i as int,
                    )
                    &&& (forall|q: int|
                        0 <= q < PAGE_SIZE as int && !(crate::pmem::table::entry_pos(i as int)
                            <= q < crate::pmem::table::entry_pos(i as int) + 16) ==> p2[q]
                            == old(self).devices()[d as int].pools.page_bytes()[q])
                    &&& (forall|b: int|
                        #[trigger] final(self).devices()[d as int].pools.free_at(b)
                            <==> ((old(self).devices()[d as int].pools.free_at(b) || (o1 as int
                            <= b < o1 + spec_reserved_len(l1 as int))) && !(o2 as int <= b < o2
                            + spec_reserved_len(new_size as int))))
                    &&& b2.len() == b1.len()
                    &&& (forall|x: int|
                        0 <= x < b1.len() && !(o2 - PAGE_SIZE <= x < o2 - PAGE_SIZE
                            + spec_reserved_len(new_size as int)) ==> #[trigger] b2[x] == b1[x])
                    &&& spec_body_moved(
                        b1,
                        b2,
                        o1 as int,
                        o2 as int,
                        l1 as int,
                        spec_reserved_len(new_size as int),
                    )
                },
                None => final(self).devices() == old(self).devices()
                    && final(self).translations() == old(self).translations(),
            },
    {
        let ghost nb = nb_ghost@;
        let rem2 = new_size % PAGE_SIZE;
        let rounded2 = if rem2 == 0 {
            new_size
        } else {
            new_size + (PAGE_SIZE - rem2)
        };
        let r2 = if rounded2 < PAGE_SIZE {
            PAGE_SIZE
        } else {
            rounded2
        };
        proof {
            assert(r2 as int == spec_reserved_len(new_size as int));
            crate::pmem::table::lemma_reserved_len_props(l1 as int);
            crate::pmem::table::lemma_reserved_len_props(new_size as int);
        }
        let ghost dv1 = self.devices();
        let ok = self.pmems[d].pools.reallocate(i, new_size);
        if !ok {
            proof {
                assert(self.devices() =~= dv1);
            }
            return None;
        }
        proof {
            lemma_move_wf(*old(self), *self, d as int, i as int);
            lemma_find_stable(*old(self), *self, nb, d as int, i as int);
        }
        let e2 = match self.pmems[d].pools.get(i) {
            Some(e2) => e2,
            None => {
                proof {
                    assert(false);
                }
                return None;
            },
        };
        let o2 = e2.offset();

        // Copy the body and zero the grown tail.
        let blen = self.pmems[d].body.len();
        proof {
            assert(self.devices()[d as int].body@.len() == blen as int);
            assert(o1 >= PAGE_SIZE && o2 >= PAGE_SIZE);
            assert(o1 - PAGE_SIZE + spec_reserved_len(l1 as int) <= blen as int);
            assert(o2 - PAGE_SIZE + r2 <= blen as int);
        }
        let src: usize = (o1 - PAGE_SIZE) as usize;
        let dst: usize = (o2 - PAGE_SIZE) as usize;
        let cnt: usize = l1 as usize;
        let tail: usize = (r2 - l1) as usize;
        proof {
            assert(o2 + spec_reserved_len(new_size as int) <= o1 || o1 + spec_reserved_len(
                l1 as int,
            ) <= o2);
            assert(src + cnt <= dst || dst + cnt <= src);
        }
        let ghost m2 = *self;
        copy_within(&mut self.pmems[d].body, src, dst, cnt);
        let ghost m2b = *self;
        zero_range(&mut self.pmems[d].body, dst + cnt, tail);
        proof {
            lemma_body_swap_wf(m2, *self, d as int);
            lemma_find_same_pages(m2.devices(), self.devices(), nb, 0);
            let b1 = old(self).devices()[d as int].body@;
            let bm = m2b.devices()[d as int].body@;
            let b2 = self.devices()[d as int].body@;
            assert(m2.devices()[d as int].body@ == b1);
            assert forall|x: int| 0 <= x < l1 implies #[trigger] b2[o2 - PAGE_SIZE + x] == b1[o1
                - PAGE_SIZE + x] by {
                assert(bm[dst + x] == b1[src + x]);
                assert(b2[dst + x] == bm[dst + x]);
            }
            assert forall|x: int|
                l1 as int <= x < spec_reserved_len(new_size as int) implies #[trigger] b2[o2
                - PAGE_SIZE + x] == 0 by {
                assert(b2[dst + cnt + (x - l1)] == 0u8);
            }
            assert(spec_body_moved(
                b1,
                b2,
                o1 as int,
                o2 as int,
                l1 as int,
                spec_reserved_len(new_size as int),
            )) by {
                reveal(spec_body_moved);
            }
        }
        Some(o2)
    }

    /// Forgets the memoized mapping for this key, if there is one and the
    /// virtual-memory manager releases its pages.
    /// Evicts the memoized mapping for this key, releasing its virtual
    /// pages where the virtual-memory manager accepts the release.  The
    /// memo is removed whether or not the release went through.
    #[verifier::rlimit(100)]
    fn drop_translation(&mut self, vmm: &mut vmem::Manager, handle: u32, off: u64)
        requires
            old(self).wf(),
            old(vmm).wf(),
        ensures
            final(self).wf(),
            final(vmm).wf(),
            final(self).devices() == old(self).devices(),
            final(self).spec_translation(handle, off) is None,
            forall|h2: u32, of2: u64|
                !(h2 == handle && of2 == off) ==> #[trigger] final(self).spec_translation(h2, of2)
                    == old(self).spec_translation(h2, of2),
            forall|b: int| old(vmm).free_at(b) ==> #[trigger] final(vmm).free_at(b),
            old(self).spec_translation(handle, off) is None ==> *final(self) == *old(self)
                && *final(vmm) == *old(vmm),
            old(self).spec_translation(handle, off) matches Some(ps) ==> ((forall|b: int|
                ps.start as int <= b < ps.start + ps.count * ps.kind.spec_size()
                    ==> #[trigger] final(vmm).free_at(b)) || ps.count == 0 || ps.count
                * ps.kind.spec_size() > u64::MAX || ps.start + ps.count * ps.kind.spec_size()
                > u64::MAX || final(vmm).free_at(ps.start as int)),
    {
        match self.translation_index(handle, off) {
            Some(t) => {
                let ps = self.translated[t].pages;
                let released = vmm.deallocate(ps);
                let ghost ts1 = self.translated@;
                self.translated.remove(t);
                proof {
                    assert forall|t1: int, t2: int|
                        0 <= t1 < t2 < self.translations().len() implies !((
                    #[trigger] self.translations()[t1]).handle == (
                    #[trigger] self.translations()[t2]).handle && self.translations()[t1].offset
                        == self.translations()[t2].offset) by {
                        let u1 = if t1 < t {
                            t1
                        } else {
                            t1 + 1
                        };
                        let u2 = if t2 < t {
                            t2
                        } else {
                            t2 + 1
                        };
                        assert(self.translations()[t1] == ts1[u1]);
                        assert(self.translations()[t2] == ts1[u2]);
                    }
                    // The removed memo was the only one with this key.
                    assert forall|u: int|
                        0 <= u < self.translations().len() implies !((
                    #[trigger] self.translations()[u]).handle == handle && self.translations()[
                    u].offset == off) by {
                        let v = if u < t {
                            u
                        } else {
                            u + 1
                        };
                        assert(self.translations()[u] == ts1[v]);
                    }
                    lemma_translation_none_intro(self.translated@, handle, off, 0);
                    // Lookups of every other key are unchanged by the removal.
                    assert forall|h2: u32, of2: u64|
                        !(h2 == handle && of2 == off) implies #[trigger] self.spec_translation(
                        h2,
                        of2,
                    ) == old(self).spec_translation(h2, of2) by {
                        lemma_translation_remove_other(ts1, t as int, h2, of2);
                    }
                }
            },
            None => {},
        }
    }

    /// Writes bytes into the body of the pool with this name, starting at
    /// byte `pos` of the pool, clamped to the pool's logical length.
    /// Returns how many bytes were written; zero when no pool has the name
    /// or `pos` lies at or past the end.
    #[verifier::rlimit(100)]
    pub fn pool_write(&mut self, name: &str, pos: u64, data: &[u8]) -> (r: u64)
        requires
            old(self).wf(),
        ensures
            final(self).wf(),
            old(self).spec_find(name.spec_bytes()) is None ==> r == 0 && *final(self) == *old(
                self,
            ),
            old(self).spec_find(name.spec_bytes()) matches Some((d, i)) ==> {
                let len = spec_entry_length(old(self).devices()[d].pools.page_bytes(), i);
                let off = spec_entry_offset(old(self).devices()[d].pools.page_bytes(), i);
                let b1 = old(self).devices()[d].body@;
                let b2 = final(self).devices()[d].body@;
                &&& r as int == (if pos as int >= len || data@.len() <= len - pos {
                    if pos as int >= len {
                        0
                    } else {
                        data@.len() as int
                    }
                } else {
                    len - pos
                })
                &&& (forall|x: int|
                    0 <= x < r as int ==> #[trigger] b2[off - PAGE_SIZE + pos + x] == data@[x])
                &&& (forall|q: int|
                    0 <= q < b1.len() && !(off - PAGE_SIZE + pos <= q < off - PAGE_SIZE + pos
                        + r as int) ==> b2[q] == b1[q])
                &&& final(self).devices()[d].pools == old(self).devices()[d].pools
                &&& final(self).spec_find(name.spec_bytes()) == old(self).spec_find(
                    name.spec_bytes(),
                )
            },
    {
        let nb = name.as_bytes();
        if nb.len() > NAME_LEN {
            proof {
                old(self).lemma_long_name_absent(nb@, 0);
            }
            return 0;
        }
        let found = self.find(nb);
        let (d, i) = match found {
            Some(x) => x,
            None => {
                return 0;
            },
        };
        proof {
            lemma_find_in_live(old(self).devices(), nb@, 0, d as int, i as int);
        }
        let e = match self.pmems[d].pools.get(i) {
            Some(e) => e,
            None => {
                proof {
                    assert(false);
                }
                return 0;
            },
        };
        let off = e.offset();
        let len = e.len();
        if pos >= len {
            return 0;
        }
        let avail = len - pos;
        let dlen = data.len() as u64;
        let cnt64 = if dlen <= avail {
            dlen
        } else {
            avail
        };
        proof {
            assert(spec_entry_live(self.devices()[d as int].pools.page_bytes(), i as int));
            assert(crate::pmem::table::spec_entry_ok(
                self.devices()[d as int].pools.page_bytes(),
                i as int,
                self.devices()[d as int].info.size as int,
            ));
            crate::pmem::table::lemma_reserved_len_props(len as int);
        }
        let blen = self.pmems[d].body.len();
        proof {
            assert(self.devices()[d as int].body@.len() == blen as int);
            assert(off - PAGE_SIZE + pos + cnt64 <= blen);
        }
        let start: usize = (off - PAGE_SIZE + pos) as usize;
        let cnt: usize = cnt64 as usize;
        let ghost m1 = *self;
        let mut x: usize = 0;
        while x < cnt
            invariant
                0 <= x <= cnt,
                d < self.pmems@.len(),
                self.pmems@.len() == m1.devices().len(),
                cnt <= data@.len(),
                start + cnt <= blen,
                blen as int == self.pmems@[d as int].body@.len(),
                self.pmems@[d as int].body@.len() == m1.devices()[d as int].body@.len(),
                forall|y: int|
                    0 <= y < x ==> #[trigger] self.pmems@[d as int].body@[start + y] == data@[y],
                forall|q: int|
                    0 <= q < m1.devices()[d as int].body@.len() && !(start <= q < start + x)
                        ==> self.pmems@[d as int].body@[q] == m1.devices()[d as int].body@[q],
                forall|x2: int|
                    0 <= x2 < self.pmems@.len() && x2 != d ==> #[trigger] self.pmems@[x2]
                        == m1.devices()[x2],
                self.pmems@[d as int].info == m1.devices()[d as int].info,
                self.pmems@[d as int].pools == m1.devices()[d as int].pools,
                self.translated@ == m1.translations(),
            decreases cnt - x,
        {
            let b = data[x];
            self.pmems[d].body.set(start + x, b);
            x += 1;
        }
        proof {
            lemma_body_swap_wf(m1, *self, d as int);
            lemma_find_same_pages(m1.devices(), self.devices(), nb@, 0);
        }
        cnt64
    }

    /// Reads bytes from the body of the pool with this name, starting at
    /// byte `pos` of the pool, clamped to the pool's logical length.
    pub fn pool_read(&self, name: &str, pos: u64, count: u64) -> (r: Option<Vec<u8>>)
        requires
            self.wf(),
        ensures
            self.spec_find(name.spec_bytes()) is None ==> r is None,
            self.spec_find(name.spec_bytes()) matches Some((d, i)) ==> {
                let len = spec_entry_length(self.devices()[d].pools.page_bytes(), i);
                let off = spec_entry_offset(self.devices()[d].pools.page_bytes(), i);
                let body = self.devices()[d].body@;
                r matches Some(v) && v@.len() == (if pos as int >= len {
                    0
                } else if count as int <= len - pos {
                    count as int
                } else {
                    len - pos
                }) && (forall|x: int|
                    0 <= x < v@.len() ==> #[trigger] v@[x] == body[off - PAGE_SIZE + pos + x])
            },
    {
        let nb = name.as_bytes();
        if nb.len() > NAME_LEN {
            proof {
                self.lemma_long_name_absent(nb@, 0);
            }
            return None;
        }
        let found = self.find(nb);
        let (d, i) = match found {
            Some(x) => x,
            None => {
                return None;
            },
        };
        proof {
            lemma_find_in_live(self.devices(), nb@, 0, d as int, i as int);
        }
        let e = match self.pmems[d].pools.get(i) {
            Some(e) => e,
            None => {
                proof {
                    assert(false);
                }
                return None;
            },
        };
        let off = e.offset();
        let len = e.len();
        let cnt64: u64 = if pos >= len {
            0
        } else if count <= len - pos {
            count
        } else {
            len - pos
        };
        proof {
            assert(crate::pmem::table::spec_entry_ok(
                self.devices()[d as int].pools.page_bytes(),
                i as int,
                self.devices()[d as int].info.size as int,
            ));
            crate::pmem::table::lemma_reserved_len_props(len as int);
        }
        let blen = self.pmems[d].body.len();
        proof {
            assert(self.devices()[d as int].body@.len() == blen as int);
            assert(pos >= len || off - PAGE_SIZE + pos + cnt64 <= blen);
        }
        let mut v: Vec<u8> = Vec::new();
        if cnt64 == 0 {
            return Some(v);
        }
        let start: usize = (off - PAGE_SIZE + pos) as usize;
        let cnt: usize = cnt64 as usize;
        let mut x: usize = 0;
        while x < cnt
            invariant
                0 <= x <= cnt,
                d < self.pmems@.len(),
                start + cnt <= blen,
                blen as int == self.pmems@[d as int].body@.len(),
                v@.len() == x,
                forall|y: int|
                    0 <= y < x ==> #[trigger] v@[y] == self.pmems@[d as int].body@[start + y],
            decreases cnt - x,
        {
            let b = self.pmems[d].body[start + x];
            v.push(b);
            x += 1;
        }
        Some(v)
    }

    /// Registers every NVDIMM the firmware table describes, pairing each
    /// device (in the derived order) with its image of the device bytes.
    /// Returns `true` when every device was registered.  Meant to run once,
    /// on an empty manager.
    pub fn init(
        &mut self,
        vmm: &mut vmem::Manager,
        nfit: &crate::nfit::Nfit,
        images: Vec<Vec<u8>>,
    ) -> (r: bool)
        requires
            old(self).wf(),
            old(vmm).wf(),
            nfit.wf(),
            old(self).devices().len() == 0,
        ensures
            final(self).wf(),
            final(vmm).wf(),
            r ==> final(self).devices().len() == images@.len(),
            // Success is owed on a table that describes no NVDIMM region
            // mappings and an empty image list: there is nothing to do.
            (images@.len() == 0 && (forall|t: int|
                0 <= t < crate::nfit::spec_entry_positions(
                    nfit.spec_bytes(),
                    crate::nfit::NFIT_BODY_START as int,
                    nfit.spec_bytes().len() - crate::nfit::NFIT_BODY_START as int,
                ).len() ==> (#[trigger] crate::nfit::spec_entry_positions(
                    nfit.spec_bytes(),
                    crate::nfit::NFIT_BODY_START as int,
                    nfit.spec_bytes().len() - crate::nfit::NFIT_BODY_START as int,
                )[t]).2 != 1)) ==> r,
    {
        let mut devices = crate::pmem::device::get_devices(nfit);
        proof {
            // Without a region-mapping entry no device can be derived.
            let ps = crate::nfit::spec_entry_positions(
                nfit.spec_bytes(),
                crate::nfit::NFIT_BODY_START as int,
                nfit.spec_bytes().len() - crate::nfit::NFIT_BODY_START as int,
            );
            if (forall|t: int| 0 <= t < ps.len() ==> (#[trigger] ps[t]).2 != 1) {
                if devices@.len() > 0 {
                    let es = choose|es: Seq<crate::nfit::NfitEntry>|
                        #[trigger] crate::nfit::spec_entries_of(es, nfit.spec_bytes())
                            && crate::pmem::device::spec_devices_derived(devices@, es);
                    let i2 = choose|i2: int|
                        crate::pmem::device::spec_resolved_mapping(
                            es,
                            i2,
                            devices@[0].handle,
                            devices@[0].physical_id,
                            devices@[0].phys_addr,
                            devices@[0].size,
                        );
                    assert(crate::nfit::spec_entry_tag(es[i2]) == ps[i2].2);
                    assert(false);
                }
            }
        }
        let mut images = images;
        if devices.len() != images.len() {
            return false;
        }
        let ghost total = images@.len();
        let mut ok = true;
        while devices.len() > 0
            invariant
                self.wf(),
                vmm.wf(),
                devices@.len() == images@.len(),
                devices@.len() <= total,
                ok ==> self.devices().len() + devices@.len() == total,
                total == 0 ==> ok,
            decreases devices@.len(),
        {
            let d = devices.remove(0);
            let img = images.remove(0);
            if !self.register_device(vmm, d, img) {
                ok = false;
            }
        }
        ok
    }

    /// How many devices are registered.
    pub fn device_count(&self) -> (r: usize)
        ensures
            r == self.devices().len(),
    {
        self.pmems.len()
    }

    /// The firmware description of device `d`.
    pub fn device_info(&self, d: usize) -> (r: Option<&NfitDevice>)
        ensures
            match r {
                Some(info) => d < self.devices().len() && *info == self.devices()[d as int].info,
                None => d >= self.devices().len(),
            },
    {
        if d < self.pmems.len() {
            Some(&self.pmems[d].info)
        } else {
            None
        }
    }

    /// The header-page bytes of device `d`, as they stand on the device.
    pub fn device_page(&self, d: usize) -> (r: Option<&Vec<u8>>)
        ensures
            match r {
                Some(p) => d < self.devices().len() && p@ == self.devices()[d as int].pools.page_bytes(),
                None => d >= self.devices().len(),
            },
    {
        if d < self.pmems.len() {
            Some(self.pmems[d].pools.page())
        } else {
            None
        }
    }

    /// The body bytes of device `d`.
    pub fn device_body(&self, d: usize) -> (r: Option<&Vec<u8>>)
        ensures
            match r {
                Some(b) => d < self.devices().len() && b@ == self.devices()[d as int].body@,
                None => d >= self.devices().len(),
            },
    {
        if d < self.pmems.len() {
            Some(&self.pmems[d].body)
        } else {
            None
        }
    }

    /// The free ranges of device `d`'s body, sorted by start.
    pub fn device_free_regions(&self, d: usize) -> (r: Option<&Vec<Span>>)
        ensures
            match r {
                Some(v) => d < self.devices().len() && v@ == self.devices()[d as int].pools.free_ranges(),
                None => d >= self.devices().len(),
            },
    {
        if d < self.pmems.len() {
            Some(self.pmems[d].pools.free_regions())
        } else {
            None
        }
    }

    /// A name longer than the name field is stored nowhere.
    proof fn lemma_long_name_absent(self, nb: Seq<u8>, d: int)
        requires
            self.wf(),
            nb.len() > NAME_LEN as int,
            0 <= d,
        ensures
            spec_find_in(self.devices(), nb, d) is None,
        decreases self.devices().len() - d,
    {
        if d < self.devices().len() {
            lemma_find_slot_long_name(self.devices()[d].pools.page_bytes(), nb, 0);
            self.lemma_long_name_absent(nb, d + 1);
        }
    }

    /// Looks a pool up by name, maps its body into virtual memory if that
    /// has not happened yet, and returns the mapped base address and the
    /// logical length.
    ///
    /// Fails only when no pool has the name, or when the body is unmapped
    /// and the virtual-memory manager cannot map it; a pool whose body is
    /// already mapped is always returned, without any change of state.
    #[verifier::rlimit(100)]
    pub fn get_pool(&mut self, vmm: &mut vmem::Manager, name: &str) -> (r: Option<(u64, u64)>)
        requires
            old(self).wf(),
            old(vmm).wf(),
        ensures
            final(self).wf(),
            final(vmm).wf(),
            final(self).devices() == old(self).devices(),
            match r {
                Some((addr, len)) => {
                    &&& old(self).spec_find(name.spec_bytes()) is Some
                    &&& ({
                        let (d, i) = old(self).spec_find(name.spec_bytes()).unwrap();
                        len as int == spec_entry_length(
                            old(self).devices()[d].pools.page_bytes(),
                            i,
                        )
                    })
                    &&& final(self).spec_get(name.spec_bytes()) == Some((addr, len))
                    &&& (old(self).spec_get(name.spec_bytes()) is Some ==> {
                        &&& *final(self) == *old(self)
                        &&& *final(vmm) == *old(vmm)
                        &&& old(self).spec_get(name.spec_bytes()) == Some((addr, len))
                    })
                    // A fresh mapping spans the pool's whole reserved body at
                    // the device's physical range, and is recorded as such.
                    &&& (old(self).spec_get(name.spec_bytes()) is None ==> ({
                        let (d, i) = old(self).spec_find(name.spec_bytes()).unwrap();
                        let p1 = old(self).devices()[d].pools.page_bytes();
                        final(vmm).mappings() == old(vmm).mappings().push(
                            MappedRegion {
                                virt: Span {
                                    start: addr,
                                    size: spec_reserved_len(spec_entry_length(p1, i)) as u64,
                                },
                                phys: Span {
                                    start: (old(self).devices()[d].info.phys_addr
                                        + spec_entry_offset(p1, i)) as u64,
                                    size: spec_reserved_len(spec_entry_length(p1, i)) as u64,
                                },
                            },
                        )
                    }))
                },
                None => {
                    &&& (old(self).spec_find(name.spec_bytes()) is None ==> *final(self) == *old(
                        self,
                    ) && *final(vmm) == *old(vmm))
                    &&& (old(self).spec_find(name.spec_bytes()) is Some ==> old(self).spec_get(
                        name.spec_bytes(),
                    ) is None && *final(self) == *old(self) && *final(vmm) == *old(vmm))
                    // The pool exists but its body could not be mapped: the
                    // device's physical range is unusable or virtual space
                    // ran out.
                    &&& (old(self).spec_find(name.spec_bytes()) matches Some((d, i)) ==> ({
                        let p1 = old(self).devices()[d].pools.page_bytes();
                        let phys = old(self).devices()[d].info.phys_addr as int;
                        let off = spec_entry_offset(p1, i);
                        ||| phys + off > u64::MAX
                        ||| (phys + off) % (PAGE_SIZE as int) != 0
                        ||| (forall|j: int|
                            0 <= j < old(vmm).free_ranges().len() ==> crate::ranges::spec_align_up(
                                (#[trigger] old(vmm).free_ranges()[j]).start as int,
                                PAGE_SIZE as int,
                            ) + spec_reserved_len(spec_entry_length(p1, i)) > old(
                                vmm,
                            ).free_ranges()[j].end())
                    }))
                },
            },
    {
        let nb = name.as_bytes();
        if nb.len() > NAME_LEN {
            proof {
                old(self).lemma_long_name_absent(nb@, 0);
            }
            return None;
        }
        let found = self.find(nb);
        let (d, i) = match found {
            Some(x) => x,
            None => {
                return None;
            },
        };
        let e = match self.pmems[d].pools.get(i) {
            Some(e) => e,
            None => {
                proof {
                    lemma_find_in_live(old(self).devices(), nb@, 0, d as int, i as int);
                    assert(false);
                }
                return None;
            },
        };
        proof {
            lemma_find_in_live(old(self).devices(), nb@, 0, d as int, i as int);
        }
        let handle = self.pmems[d].info.handle;
        let off = e.offset();
        let len = e.len();
        match self.translation_index(handle, off) {
            Some(t) => {
                let addr = self.translated[t].pages.start;
                return Some((addr, len));
            },
            None => {},
        }
        // Map the body: one run of 4 KiB pages over the device's physical
        // range at the pool's offset.
        proof {
            assert(old(self).spec_get(name.spec_bytes()) is None);
        }
        let got = self.map_body_plain(vmm, d, off, len);
        match got {
            Some(addr) => {
                proof {
                    assert(self.spec_get(name.spec_bytes()) == Some((addr, len)));
                }
                Some((addr, len))
            },
            None => None,
        }
    }
}

/// After the found entry is cleared, its name is gone from every device:
/// the destroyed entry was, by uniqueness, the only one carrying it.
#[verifier::rlimit(100)]
proof fn lemma_destroy_finish(
    m0: Manager,
    m2: Manager,
    d: int,
    i: int,
    nb: Seq<u8>,
    handle: u32,
    off: u64,
    ts0: Seq<Translation>,
)
    requires
        m0.wf(),
        m0.spec_find(nb) == Some((d, i)),
        0 <= d < m0.devices().len(),
        0 <= i < ENTRY_COUNT,
        m2.devices().len() == m0.devices().len(),
        forall|d2: int|
            0 <= d2 < m0.devices().len() && d2 != d ==> #[trigger] m2.devices()[d2]
                == m0.devices()[d2],
        m2.devices()[d].pools.page_bytes().len() == PAGE_SIZE as int,
        !spec_entry_live(m2.devices()[d].pools.page_bytes(), i),
        forall|q: int|
            0 <= q < PAGE_SIZE as int && !(crate::pmem::table::entry_pos(i) <= q
                < crate::pmem::table::entry_pos(i) + 46)
                ==> m2.devices()[d].pools.page_bytes()[q]
                == m0.devices()[d].pools.page_bytes()[q],
    ensures
        m2.spec_find(nb) is None,
{
    let p1 = m0.devices()[d].pools.page_bytes();
    let p2 = m2.devices()[d].pools.page_bytes();
    lemma_find_in_live(m0.devices(), nb, 0, d, i);
    assert(spec_entry_live(p1, i));
    lemma_entry_frame(p1, p2, i);
    assert forall|d2: int| 0 <= d2 < m2.devices().len() implies spec_find_slot(
        (#[trigger] m2.devices()[d2]).pools.page_bytes(),
        nb,
    ) is None by {
        if d2 == d {
            assert forall|j: int|
                0 <= j < ENTRY_COUNT implies !(#[trigger] spec_entry_live(p2, j)
                && spec_entry_name(p2, j) == spec_stored_name(nb)) by {
                if j != i {
                    if spec_entry_live(p2, j) {
                        assert(spec_entry_live(p1, j));
                        assert(spec_entry_name(p2, j) == spec_entry_name(p1, j));
                        assert(spec_entry_name(p1, j) != spec_entry_name(p1, i));
                    }
                }
            }
            lemma_find_slot_none_intro(p2, nb, 0);
        } else {
            assert(m2.devices()[d2] == m0.devices()[d2]);
            assert forall|j: int|
                0 <= j < ENTRY_COUNT implies !(#[trigger] spec_entry_live(
                m0.devices()[d2].pools.page_bytes(),
                j,
            ) && spec_entry_name(m0.devices()[d2].pools.page_bytes(), j) == spec_stored_name(
                nb,
            )) by {
                if spec_entry_live(m0.devices()[d2].pools.page_bytes(), j) {
                    assert(spec_entry_name(m0.devices()[d2].pools.page_bytes(), j)
                        != spec_entry_name(p1, i));
                }
            }
            lemma_find_slot_none_intro(m0.devices()[d2].pools.page_bytes(), nb, 0);
        }
    }
    lemma_find_in_none_intro(m2.devices(), nb, 0);
}

/// A found name names a live entry.
proof fn lemma_find_in_live(dv: Seq<ManagedPmem>, nb: Seq<u8>, d0: int, d: int, i: int)
    requires
        spec_find_in(dv, nb, d0) == Some((d, i)),
        0 <= d0,
    ensures
        d0 <= d < dv.len(),
        0 <= i < ENTRY_COUNT,
        spec_entry_live(dv[d].pools.page_bytes(), i),
        spec_entry_name(dv[d].pools.page_bytes(), i) == spec_stored_name(nb),
    decreases dv.len() - d0,
{
    if d0 < dv.len() {
        match spec_find_slot(dv[d0].pools.page_bytes(), nb) {
            Some(j) => {
                lemma_find_slot_live(dv[d0].pools.page_bytes(), nb, 0, j);
            },
            None => {
                lemma_find_in_live(dv, nb, d0 + 1, d, i);
            },
        }
    }
}

/// When no slot is found, no slot matches.
proof fn lemma_find_slot_none(page: Seq<u8>, nb: Seq<u8>, i0: int)
    requires
        0 <= i0,
        spec_find_slot_from(page, nb, i0) is None,
    ensures
        forall|j: int|
            i0 <= j < ENTRY_COUNT ==> !(#[trigger] spec_entry_live(page, j) && spec_entry_name(
                page,
                j,
            ) == spec_stored_name(nb)),
    decreases ENTRY_COUNT as int - i0,
{
    if i0 < ENTRY_COUNT {
        lemma_find_slot_none(page, nb, i0 + 1);
    }
}

/// The first matching slot is the one found.
proof fn lemma_find_slot_first(page: Seq<u8>, nb: Seq<u8>, i0: int, k: int)
    requires
        0 <= i0 <= k < ENTRY_COUNT,
        forall|j: int|
            i0 <= j < k ==> !(#[trigger] spec_entry_live(page, j) && spec_entry_name(page, j)
                == spec_stored_name(nb)),
        spec_entry_live(page, k),
        spec_entry_name(page, k) == spec_stored_name(nb),
    ensures
        spec_find_slot_from(page, nb, i0) == Some(k),
    decreases k - i0,
{
    if i0 < k {
        lemma_find_slot_first(page, nb, i0 + 1, k);
    }
}

/// When no device holds the name, no slot of any device matches.
proof fn lemma_find_in_none(dv: Seq<ManagedPmem>, nb: Seq<u8>, d0: int)
    requires
        0 <= d0,
        spec_find_in(dv, nb, d0) is None,
    ensures
        forall|d: int|
            d0 <= d < dv.len() ==> spec_find_slot((#[trigger] dv[d]).pools.page_bytes(), nb)
                is None,
    decreases dv.len() - d0,
{
    if d0 < dv.len() {
        lemma_find_in_none(dv, nb, d0 + 1);
    }
}

/// The first device with a matching slot is the one found.
proof fn lemma_find_in_first(dv: Seq<ManagedPmem>, nb: Seq<u8>, d0: int, d: int, k: int)
    requires
        0 <= d0 <= d < dv.len(),
        forall|d2: int|
            d0 <= d2 < d ==> spec_find_slot((#[trigger] dv[d2]).pools.page_bytes(), nb) is None,
        spec_find_slot(dv[d].pools.page_bytes(), nb) == Some(k),
    ensures
        spec_find_in(dv, nb, d0) == Some((d, k)),
    decreases d - d0,
{
    if d0 < d {
        lemma_find_in_first(dv, nb, d0 + 1, d, k);
    }
}

/// When no slot matches, none is found.
proof fn lemma_find_slot_none_intro(page: Seq<u8>, nb: Seq<u8>, i0: int)
    requires
        0 <= i0,
        forall|j: int|
            i0 <= j < ENTRY_COUNT ==> !(#[trigger] spec_entry_live(page, j) && spec_entry_name(
                page,
                j,
            ) == spec_stored_name(nb)),
    ensures
        spec_find_slot_from(page, nb, i0) is None,
    decreases ENTRY_COUNT as int - i0,
{
    if i0 < ENTRY_COUNT {
        lemma_find_slot_none_intro(page, nb, i0 + 1);
    }
}

/// When no device's table finds the name, the manager does not either.
proof fn lemma_find_in_none_intro(dv: Seq<ManagedPmem>, nb: Seq<u8>, d0: int)
    requires
        0 <= d0,
        forall|d: int|
            d0 <= d < dv.len() ==> spec_find_slot((#[trigger] dv[d]).pools.page_bytes(), nb)
                is None,
    ensures
        spec_find_in(dv, nb, d0) is None,
    decreases dv.len() - d0,
{
    if d0 < dv.len() {
        lemma_find_in_none_intro(dv, nb, d0 + 1);
    }
}

/// A found slot is live and carries the name.
proof fn lemma_find_slot_live(page: Seq<u8>, nb: Seq<u8>, i0: int, i: int)
    requires
        spec_find_slot_from(page, nb, i0) == Some(i),
        0 <= i0,
    ensures
        i0 <= i < ENTRY_COUNT,
        spec_entry_live(page, i),
        spec_entry_name(page, i) == spec_stored_name(nb),
    decreases ENTRY_COUNT as int - i0,
{
    if i0 < ENTRY_COUNT {
        if !(spec_entry_live(page, i0) && spec_entry_name(page, i0) == spec_stored_name(nb)) {
            lemma_find_slot_live(page, nb, i0 + 1, i);
        }
    }
}

/// A failed mapping of the moved region rolls the move back: once the
/// entry is restored to its old place and its old bytes, the pools are as
/// they were.
#[verifier::rlimit(100)]
proof fn lemma_resize_rollback(
    m0: Manager,
    m1: Manager,
    m3: Manager,
    d: int,
    i: int,
    o1: u64,
    l1: u64,
    o2: u64,
    new_size: u64,
)
    requires
        new_size as int + PAGE_SIZE - 1 <= u64::MAX,
        l1 as int + PAGE_SIZE - 1 <= u64::MAX,
        m0.wf(),
        m1.wf(),
        m3.wf(),
        0 <= d < m0.devices().len(),
        0 <= i < ENTRY_COUNT,
        m1.devices().len() == m0.devices().len(),
        m3.devices().len() == m1.devices().len(),
        forall|d2: int|
            0 <= d2 < m0.devices().len() && d2 != d ==> #[trigger] m1.devices()[d2]
                == m0.devices()[d2],
        forall|d2: int|
            0 <= d2 < m0.devices().len() && d2 != d ==> #[trigger] m3.devices()[d2]
                == m1.devices()[d2],
        m1.devices()[d].info == m0.devices()[d].info,
        m3.devices()[d].info == m1.devices()[d].info,
        m3.devices()[d].body == m1.devices()[d].body,
        m1.devices()[d].pools.spec_device_size() == m0.devices()[d].pools.spec_device_size(),
        m3.devices()[d].pools.spec_device_size() == m1.devices()[d].pools.spec_device_size(),
        // What the move did on device d.
        spec_entry_live(m0.devices()[d].pools.page_bytes(), i),
        o1 as int == spec_entry_offset(m0.devices()[d].pools.page_bytes(), i),
        l1 as int == spec_entry_length(m0.devices()[d].pools.page_bytes(), i),
        o2 as int == spec_entry_offset(m1.devices()[d].pools.page_bytes(), i),
        Some(o2 as int) == crate::ranges::spec_first_fit(
            m0.devices()[d].pools.free_ranges(),
            spec_reserved_len(new_size as int) as u64,
            PAGE_SIZE,
        ),
        o2 + spec_reserved_len(new_size as int) <= o1 || o1 + spec_reserved_len(l1 as int) <= o2,
        forall|q: int|
            0 <= q < PAGE_SIZE as int && !(crate::pmem::table::entry_pos(i) <= q
                < crate::pmem::table::entry_pos(i) + 16)
                ==> m1.devices()[d].pools.page_bytes()[q] == m0.devices()[d].pools.page_bytes()[q],
        forall|b: int|
            #[trigger] m1.devices()[d].pools.free_at(b) <==> ((m0.devices()[d].pools.free_at(b)
                || (o1 as int <= b < o1 + spec_reserved_len(l1 as int))) && !(o2 as int <= b < o2
                + spec_reserved_len(new_size as int))),
        m1.devices()[d].body@.len() == m0.devices()[d].body@.len(),
        forall|x: int|
            0 <= x < m0.devices()[d].body@.len() && !(o2 - PAGE_SIZE <= x < o2 - PAGE_SIZE
                + spec_reserved_len(new_size as int)) ==> #[trigger] m1.devices()[d].body@[x]
                == m0.devices()[d].body@[x],
        // What the restoration did.
        spec_entry_live(m3.devices()[d].pools.page_bytes(), i),
        spec_entry_offset(m3.devices()[d].pools.page_bytes(), i) == o1 as int,
        spec_entry_length(m3.devices()[d].pools.page_bytes(), i) == l1 as int,
        forall|q: int|
            0 <= q < PAGE_SIZE as int && !(crate::pmem::table::entry_pos(i) <= q
                < crate::pmem::table::entry_pos(i) + 16)
                ==> m3.devices()[d].pools.page_bytes()[q] == m1.devices()[d].pools.page_bytes()[q],
        forall|b: int|
            #[trigger] m3.devices()[d].pools.free_at(b) <==> ((m1.devices()[d].pools.free_at(b)
                || (o2 as int <= b < o2 + spec_reserved_len(new_size as int))) && !(o1 as int <= b
                < o1 + spec_reserved_len(l1 as int))),
    ensures
        spec_same_pools(m0, m3),
{
    reveal(spec_same_pools);
    let p0 = m0.devices()[d].pools.page_bytes();
    let p1 = m1.devices()[d].pools.page_bytes();
    let p3 = m3.devices()[d].pools.page_bytes();
    assert forall|q: int|
        0 <= q < PAGE_SIZE as int && !(crate::pmem::table::entry_pos(i) <= q
            < crate::pmem::table::entry_pos(i) + 16) implies p3[q] == p0[q] by {}
    crate::pmem::table::lemma_entry_frame(p0, p3, i);
    crate::pmem::table::lemma_reserved_len_props(l1 as int);
    crate::pmem::table::lemma_reserved_len_props(new_size as int);
    lemma_rollback_free(m0, m1, m3, d, i, o1, l1, o2, new_size);
    lemma_rollback_bodies(m0, m3, d, i, o1, l1, o2, new_size);

    assert forall|d2: int| 0 <= d2 < m0.devices().len() implies {
        let v1 = m0.devices()[d2];
        let v2 = #[trigger] m3.devices()[d2];
        &&& v2.info == v1.info
        &&& v2.body@.len() == v1.body@.len()
        &&& (forall|j: int, x: int|
            0 <= j < ENTRY_COUNT && #[trigger] spec_entry_live(v1.pools.page_bytes(), j)
                && spec_entry_offset(v1.pools.page_bytes(), j) - PAGE_SIZE <= x
                < spec_entry_offset(v1.pools.page_bytes(), j) - PAGE_SIZE + spec_reserved_len(
                spec_entry_length(v1.pools.page_bytes(), j),
            ) ==> #[trigger] v2.body@[x] == v1.body@[x])
        &&& v2.pools.spec_device_size() == v1.pools.spec_device_size()
        &&& v2.pools.free_ranges() == v1.pools.free_ranges()
        &&& (forall|j: int|
            0 <= j < ENTRY_COUNT ==> #[trigger] spec_entry_live(v2.pools.page_bytes(), j)
                == spec_entry_live(v1.pools.page_bytes(), j) && (spec_entry_live(
                v1.pools.page_bytes(),
                j,
            ) ==> spec_entry_offset(v2.pools.page_bytes(), j) == spec_entry_offset(
                v1.pools.page_bytes(),
                j,
            ) && spec_entry_length(v2.pools.page_bytes(), j) == spec_entry_length(
                v1.pools.page_bytes(),
                j,
            ) && spec_entry_name(v2.pools.page_bytes(), j) == spec_entry_name(
                v1.pools.page_bytes(),
                j,
            )))
    } by {
        if d2 != d {
            assert(m3.devices()[d2] == m0.devices()[d2]);
        } else {
            assert forall|j: int| 0 <= j < ENTRY_COUNT implies #[trigger] spec_entry_live(p3, j)
                == spec_entry_live(p0, j) && (spec_entry_live(p0, j) ==> spec_entry_offset(p3, j)
                == spec_entry_offset(p0, j) && spec_entry_length(p3, j) == spec_entry_length(
                p0,
                j,
            ) && spec_entry_name(p3, j) == spec_entry_name(p0, j)) by {
                if j == i {
                    assert(spec_entry_name(p3, i) =~= spec_entry_name(p0, i));
                }
            }
        }
    }
}

/// The free ranges come back exactly after a rolled-back move.
#[verifier::rlimit(100)]
proof fn lemma_rollback_free(
    m0: Manager,
    m1: Manager,
    m3: Manager,
    d: int,
    i: int,
    o1: u64,
    l1: u64,
    o2: u64,
    new_size: u64,
)
    requires
        new_size as int + PAGE_SIZE - 1 <= u64::MAX,
        l1 as int + PAGE_SIZE - 1 <= u64::MAX,
        m0.wf(),
        m3.wf(),
        0 <= d < m0.devices().len(),
        0 <= i < ENTRY_COUNT,
        m1.devices().len() == m0.devices().len(),
        m3.devices().len() == m1.devices().len(),
        spec_entry_live(m0.devices()[d].pools.page_bytes(), i),
        o1 as int == spec_entry_offset(m0.devices()[d].pools.page_bytes(), i),
        l1 as int == spec_entry_length(m0.devices()[d].pools.page_bytes(), i),
        Some(o2 as int) == crate::ranges::spec_first_fit(
            m0.devices()[d].pools.free_ranges(),
            spec_reserved_len(new_size as int) as u64,
            PAGE_SIZE,
        ),
        forall|b: int|
            #[trigger] m1.devices()[d].pools.free_at(b) <==> ((m0.devices()[d].pools.free_at(b)
                || (o1 as int <= b < o1 + spec_reserved_len(l1 as int))) && !(o2 as int <= b < o2
                + spec_reserved_len(new_size as int))),
        forall|b: int|
            #[trigger] m3.devices()[d].pools.free_at(b) <==> ((m1.devices()[d].pools.free_at(b)
                || (o2 as int <= b < o2 + spec_reserved_len(new_size as int))) && !(o1 as int <= b
                < o1 + spec_reserved_len(l1 as int))),
    ensures
        m3.devices()[d].pools.free_ranges() == m0.devices()[d].pools.free_ranges(),
{
    let p0 = m0.devices()[d].pools.page_bytes();
    crate::pmem::table::lemma_reserved_len_props(l1 as int);
    crate::pmem::table::lemma_reserved_len_props(new_size as int);
    lemma_first_fit_free(
        m0.devices()[d].pools.free_ranges(),
        spec_reserved_len(new_size as int) as u64,
        PAGE_SIZE,
        0,
        o2 as int,
    );
    assert forall|b: int| covers(m3.devices()[d].pools.free_ranges(), b) <==> covers(
        m0.devices()[d].pools.free_ranges(),
        b,
    ) by {
        assert(m3.devices()[d].pools.free_at(b) == covers(m3.devices()[d].pools.free_ranges(), b));
        assert(m1.devices()[d].pools.free_at(b) == covers(m1.devices()[d].pools.free_ranges(), b));
        assert(m0.devices()[d].pools.free_at(b) == covers(m0.devices()[d].pools.free_ranges(), b));
        if o2 as int <= b < o2 + spec_reserved_len(new_size as int) {
            assert(covers(m0.devices()[d].pools.free_ranges(), b));
        }
        if o1 as int <= b < o1 + spec_reserved_len(l1 as int) {
            // The old region was the entry's own space: used, not free.
            assert(spec_entry_covers(p0, i, b));
            assert(crate::pmem::table::spec_used(p0, b));
            assert(crate::pmem::table::spec_entry_ok(p0, i, m0.devices()[d].info.size as int));
            assert(!m0.devices()[d].pools.free_at(b));
        }
    }
    lemma_canonical_unique(
        m3.devices()[d].pools.free_ranges(),
        m0.devices()[d].pools.free_ranges(),
    );
}

/// Pool body bytes survive a rolled-back move: the move wrote only into
/// the region that is free again.
#[verifier::rlimit(100)]
proof fn lemma_rollback_bodies(
    m0: Manager,
    m3: Manager,
    d: int,
    i: int,
    o1: u64,
    l1: u64,
    o2: u64,
    new_size: u64,
)
    requires
        new_size as int + PAGE_SIZE - 1 <= u64::MAX,
        l1 as int + PAGE_SIZE - 1 <= u64::MAX,
        m0.wf(),
        0 <= d < m0.devices().len(),
        0 <= i < ENTRY_COUNT,
        m3.devices().len() == m0.devices().len(),
        m3.devices()[d].body@.len() == m0.devices()[d].body@.len(),
        forall|x: int|
            0 <= x < m0.devices()[d].body@.len() && !(o2 - PAGE_SIZE <= x < o2 - PAGE_SIZE
                + spec_reserved_len(new_size as int)) ==> #[trigger] m3.devices()[d].body@[x]
                == m0.devices()[d].body@[x],
        Some(o2 as int) == crate::ranges::spec_first_fit(
            m0.devices()[d].pools.free_ranges(),
            spec_reserved_len(new_size as int) as u64,
            PAGE_SIZE,
        ),
    ensures
        forall|j: int, x: int|
            0 <= j < ENTRY_COUNT && #[trigger] spec_entry_live(
                m0.devices()[d].pools.page_bytes(),
                j,
            ) && spec_entry_offset(m0.devices()[d].pools.page_bytes(), j) - PAGE_SIZE <= x
                < spec_entry_offset(m0.devices()[d].pools.page_bytes(), j) - PAGE_SIZE
                + spec_reserved_len(
                spec_entry_length(m0.devices()[d].pools.page_bytes(), j),
            ) ==> #[trigger] m3.devices()[d].body@[x] == m0.devices()[d].body@[x],
{
    let p0 = m0.devices()[d].pools.page_bytes();
    lemma_first_fit_free(
        m0.devices()[d].pools.free_ranges(),
        spec_reserved_len(new_size as int) as u64,
        PAGE_SIZE,
        0,
        o2 as int,
    );
    assert forall|j: int, x: int|
        0 <= j < ENTRY_COUNT && #[trigger] spec_entry_live(p0, j) && spec_entry_offset(p0, j)
            - PAGE_SIZE <= x < spec_entry_offset(p0, j) - PAGE_SIZE + spec_reserved_len(
            spec_entry_length(p0, j),
        ) implies #[trigger] m3.devices()[d].body@[x] == m0.devices()[d].body@[x] by {
        crate::pmem::table::lemma_reserved_len_props(spec_entry_length(p0, j));
        assert(crate::pmem::table::spec_entry_ok(p0, j, m0.devices()[d].info.size as int));
        if o2 - PAGE_SIZE <= x < o2 - PAGE_SIZE + spec_reserved_len(new_size as int) {
            // x + PAGE_SIZE lies in the new region, which was free, yet
            // also in entry j's used region: impossible.
            assert(m0.devices()[d].pools.free_at(x + PAGE_SIZE));
            assert(spec_entry_covers(p0, j, x + PAGE_SIZE));
            assert(crate::pmem::table::spec_used(p0, x + PAGE_SIZE));
            assert(false);
        }
    }
}

/// A failed body mapping rolls a fresh pool placement back: after the slot
/// is cleared and its bytes released again, the pools are as they were.
#[verifier::rlimit(100)]
proof fn lemma_create_rollback(
    m0: Manager,
    m1: Manager,
    m2: Manager,
    d: int,
    k: int,
    off: u64,
    size: u64,
    nb: Seq<u8>,
)
    requires
        m0.wf(),
        m1.wf(),
        m2.wf(),
        0 <= d < m0.devices().len(),
        spec_created_at(m0, m1, d, k, nb, size),
        spec_entry_offset(m1.devices()[d].pools.page_bytes(), k) == off as int,
        m2.devices().len() == m1.devices().len(),
        forall|d2: int|
            0 <= d2 < m1.devices().len() && d2 != d ==> #[trigger] m2.devices()[d2]
                == m1.devices()[d2],
        m2.devices()[d].info == m1.devices()[d].info,
        m2.devices()[d].body == m1.devices()[d].body,
        m2.devices()[d].pools.spec_device_size() == m1.devices()[d].pools.spec_device_size(),
        exists|k2: int|
            #![trigger spec_entry_live(m1.devices()[d].pools.page_bytes(), k2)]
            {
                let q1 = m1.devices()[d].pools.page_bytes();
                let q2 = m2.devices()[d].pools.page_bytes();
                &&& 0 <= k2 < ENTRY_COUNT
                &&& spec_entry_live(q1, k2)
                &&& spec_entry_offset(q1, k2) == off as int
                &&& spec_entry_length(q1, k2) == size as int
                &&& !spec_entry_live(q2, k2)
                &&& (forall|q: int|
                    0 <= q < PAGE_SIZE as int && !(crate::pmem::table::entry_pos(k2) <= q
                        < crate::pmem::table::entry_pos(k2) + 46) ==> q2[q] == q1[q])
            },
        forall|b: int|
            #[trigger] m2.devices()[d].pools.free_at(b) <==> (m1.devices()[d].pools.free_at(b) || (
            off as int <= b < off + spec_reserved_len(size as int))),
    ensures
        spec_same_pools(m0, m2),
{
    reveal(spec_same_pools);
    reveal(spec_created_at);
    let p0 = m0.devices()[d].pools.page_bytes();
    let p1 = m1.devices()[d].pools.page_bytes();
    let p2 = m2.devices()[d].pools.page_bytes();
    let k2 = choose|k2: int|
        #![trigger spec_entry_live(m1.devices()[d].pools.page_bytes(), k2)]
        {
            &&& 0 <= k2 < ENTRY_COUNT
            &&& spec_entry_live(p1, k2)
            &&& spec_entry_offset(p1, k2) == off as int
            &&& spec_entry_length(p1, k2) == size as int
            &&& !spec_entry_live(p2, k2)
            &&& (forall|q: int|
                0 <= q < PAGE_SIZE as int && !(crate::pmem::table::entry_pos(k2) <= q
                    < crate::pmem::table::entry_pos(k2) + 46) ==> p2[q] == p1[q])
        };
    // Two live entries cannot share the offset, so the cleared slot is the
    // created one.
    assert(k2 == k) by {
        if k2 != k {
            assert(crate::pmem::table::spec_entries_disjoint(p1, k, k2));
            crate::pmem::table::lemma_reserved_len_props(spec_entry_length(p1, k));
            crate::pmem::table::lemma_reserved_len_props(spec_entry_length(p1, k2));
        }
    }
    lemma_entry_frame(p0, p1, k);
    lemma_entry_frame(p1, p2, k);
    assert forall|q: int|
        0 <= q < PAGE_SIZE as int && !(crate::pmem::table::entry_pos(k) <= q
            < crate::pmem::table::entry_pos(k) + 46) implies p2[q] == p0[q] by {}
    lemma_entry_frame(p0, p2, k);

    // The created block lay inside the old free space.
    lemma_first_fit_free(
        m0.devices()[d].pools.free_ranges(),
        spec_reserved_len(size as int) as u64,
        PAGE_SIZE,
        0,
        off as int,
    );
    assert forall|b: int| covers(m2.devices()[d].pools.free_ranges(), b) <==> covers(
        m0.devices()[d].pools.free_ranges(),
        b,
    ) by {
        assert(m2.devices()[d].pools.free_at(b) == covers(m2.devices()[d].pools.free_ranges(), b));
        assert(m0.devices()[d].pools.free_at(b) == covers(m0.devices()[d].pools.free_ranges(), b));
        if off as int <= b < off + spec_reserved_len(size as int) {
            assert(covers(m0.devices()[d].pools.free_ranges(), b));
        }
    }
    lemma_canonical_unique(
        m2.devices()[d].pools.free_ranges(),
        m0.devices()[d].pools.free_ranges(),
    );

    assert forall|d2: int| 0 <= d2 < m0.devices().len() implies {
        let v1 = m0.devices()[d2];
        let v2 = #[trigger] m2.devices()[d2];
        &&& v2.info == v1.info
        &&& v2.body == v1.body
        &&& v2.pools.spec_device_size() == v1.pools.spec_device_size()
        &&& v2.pools.free_ranges() == v1.pools.free_ranges()
        &&& (forall|i: int|
            0 <= i < ENTRY_COUNT ==> #[trigger] spec_entry_live(v2.pools.page_bytes(), i)
                == spec_entry_live(v1.pools.page_bytes(), i) && (spec_entry_live(
                v1.pools.page_bytes(),
                i,
            ) ==> spec_entry_offset(v2.pools.page_bytes(), i) == spec_entry_offset(
                v1.pools.page_bytes(),
                i,
            ) && spec_entry_length(v2.pools.page_bytes(), i) == spec_entry_length(
                v1.pools.page_bytes(),
                i,
            ) && spec_entry_name(v2.pools.page_bytes(), i) == spec_entry_name(
                v1.pools.page_bytes(),
                i,
            )))
    } by {
        if d2 != d {
            assert(m1.devices()[d2] == m0.devices()[d2]);
            assert(m2.devices()[d2] == m1.devices()[d2]);
        } else {
            assert forall|i: int| 0 <= i < ENTRY_COUNT implies #[trigger] spec_entry_live(p2, i)
                == spec_entry_live(p0, i) && (spec_entry_live(p0, i) ==> spec_entry_offset(p2, i)
                == spec_entry_offset(p0, i) && spec_entry_length(p2, i) == spec_entry_length(
                p0,
                i,
            ) && spec_entry_name(p2, i) == spec_entry_name(p0, i)) by {
                if i == k {
                    assert(!spec_entry_live(p0, k));
                    assert(!spec_entry_live(p2, k));
                }
            }
        }
    }
}

/// After one device's table gains a live entry whose name no live entry
/// carried, the manager invariants hold again.
proof fn lemma_create_wf(m1: Manager, m2: Manager, d: int, k: int, nb: Seq<u8>)
    requires
        m1.wf(),
        0 <= d < m1.devices().len(),
        m2.devices().len() == m1.devices().len(),
        m2.translations() == m1.translations(),
        forall|x: int| 0 <= x < m1.devices().len() && x != d ==> #[trigger] m2.devices()[x]
            == m1.devices()[x],
        m2.devices()[d].info == m1.devices()[d].info,
        m2.devices()[d].body == m1.devices()[d].body,
        m2.devices()[d].pools.wf(),
        m2.devices()[d].pools.spec_device_size() == m1.devices()[d].pools.spec_device_size(),
        0 <= k < ENTRY_COUNT,
        !spec_entry_live(m1.devices()[d].pools.page_bytes(), k),
        spec_entry_live(m2.devices()[d].pools.page_bytes(), k),
        spec_entry_name(m2.devices()[d].pools.page_bytes(), k) == spec_stored_name(nb),
        forall|q: int|
            0 <= q < PAGE_SIZE as int && !(crate::pmem::table::entry_pos(k) <= q
                < crate::pmem::table::entry_pos(k) + 46) ==> m2.devices()[d].pools.page_bytes()[q]
                == m1.devices()[d].pools.page_bytes()[q],
        forall|d2: int, i2: int|
            0 <= d2 < m1.devices().len() && 0 <= i2 < ENTRY_COUNT && #[trigger] spec_entry_live(
                m1.devices()[d2].pools.page_bytes(),
                i2,
            ) ==> spec_entry_name(m1.devices()[d2].pools.page_bytes(), i2) != spec_stored_name(nb),
    ensures
        m2.wf(),
{
    let p1 = m1.devices()[d].pools.page_bytes();
    let p2 = m2.devices()[d].pools.page_bytes();
    lemma_entry_frame(p1, p2, k);
    assert forall|d1: int, i1: int, d2: int, i2: int|
        (0 <= d1 < m2.devices().len() && 0 <= d2 < m2.devices().len() && 0 <= i1 < ENTRY_COUNT
            && 0 <= i2 < ENTRY_COUNT && (d1 != d2 || i1 != i2) && #[trigger] spec_entry_live(
            m2.devices()[d1].pools.page_bytes(),
            i1,
        ) && #[trigger] spec_entry_live(m2.devices()[d2].pools.page_bytes(), i2)) implies
        spec_entry_name(m2.devices()[d1].pools.page_bytes(), i1) != spec_entry_name(
        m2.devices()[d2].pools.page_bytes(),
        i2,
    ) by {
        let n1 = if d1 == d && i1 == k {
            spec_stored_name(nb)
        } else {
            spec_entry_name(m1.devices()[d1].pools.page_bytes(), i1)
        };
        if d1 == d && i1 == k {
            if d2 == d && i2 != k {
                assert(spec_entry_live(p1, i2));
                assert(spec_entry_name(p2, i2) == spec_entry_name(p1, i2));
            } else if d2 != d {
                assert(spec_entry_live(m1.devices()[d2].pools.page_bytes(), i2));
            }
        } else if d2 == d && i2 == k {
            if d1 == d {
                assert(spec_entry_live(p1, i1));
                assert(spec_entry_name(p2, i1) == spec_entry_name(p1, i1));
            } else {
                assert(spec_entry_live(m1.devices()[d1].pools.page_bytes(), i1));
            }
        } else {
            // Neither is the new entry: both names and liveness are as before.
            if d1 == d {
                assert(spec_entry_live(p1, i1));
                assert(spec_entry_name(p2, i1) == spec_entry_name(p1, i1));
            }
            if d2 == d {
                assert(spec_entry_live(p1, i2));
                assert(spec_entry_name(p2, i2) == spec_entry_name(p1, i2));
            }
        }
    }
    assert forall|d1: int, d2: int|
        0 <= d1 < d2 < m2.devices().len() implies (#[trigger] m2.devices()[d1]).info.handle != (
        #[trigger] m2.devices()[d2]).info.handle by {
        assert(m2.devices()[d1].info == m1.devices()[d1].info);
        assert(m2.devices()[d2].info == m1.devices()[d2].info);
    }
    assert forall|x: int| 0 <= x < m2.devices().len() implies {
        let dev = #[trigger] m2.devices()[x];
        &&& dev.pools.wf()
        &&& dev.pools.spec_device_size() == dev.info.size
        &&& dev.body@.len() == dev.info.size - PAGE_SIZE
    } by {
        if x != d {
            assert(m2.devices()[x] == m1.devices()[x]);
        }
    }
}

/// After a live entry of one device's table changes only its offset and
/// length fields, the manager invariants hold again: names and liveness are
/// as before.
proof fn lemma_move_wf(m1: Manager, m2: Manager, d: int, k: int)
    requires
        m1.wf(),
        0 <= d < m1.devices().len(),
        m2.devices().len() == m1.devices().len(),
        m2.translations() == m1.translations(),
        forall|x: int| 0 <= x < m1.devices().len() && x != d ==> #[trigger] m2.devices()[x]
            == m1.devices()[x],
        m2.devices()[d].info == m1.devices()[d].info,
        m2.devices()[d].body == m1.devices()[d].body,
        m2.devices()[d].pools.wf(),
        m2.devices()[d].pools.spec_device_size() == m1.devices()[d].pools.spec_device_size(),
        0 <= k < ENTRY_COUNT,
        forall|q: int|
            0 <= q < PAGE_SIZE as int && !(crate::pmem::table::entry_pos(k) <= q
                < crate::pmem::table::entry_pos(k) + 16) ==> m2.devices()[d].pools.page_bytes()[q]
                == m1.devices()[d].pools.page_bytes()[q],
    ensures
        m2.wf(),
        forall|j: int|
            0 <= j < ENTRY_COUNT ==> #[trigger] spec_entry_name(
                m2.devices()[d].pools.page_bytes(),
                j,
            ) == spec_entry_name(m1.devices()[d].pools.page_bytes(), j) && spec_entry_live(
                m2.devices()[d].pools.page_bytes(),
                j,
            ) == spec_entry_live(m1.devices()[d].pools.page_bytes(), j),
{
    let p1 = m1.devices()[d].pools.page_bytes();
    let p2 = m2.devices()[d].pools.page_bytes();
    lemma_entry_frame(p1, p2, k);
    assert forall|j: int| 0 <= j < ENTRY_COUNT implies #[trigger] spec_entry_name(p2, j)
        == spec_entry_name(p1, j) && spec_entry_live(p2, j) == spec_entry_live(p1, j) by {
        if j == k {
            assert(spec_entry_name(p2, k) =~= spec_entry_name(p1, k));
        }
    }
    assert forall|d1: int, i1: int, d2: int, i2: int|
        (0 <= d1 < m2.devices().len() && 0 <= d2 < m2.devices().len() && 0 <= i1 < ENTRY_COUNT
            && 0 <= i2 < ENTRY_COUNT && (d1 != d2 || i1 != i2) && #[trigger] spec_entry_live(
            m2.devices()[d1].pools.page_bytes(),
            i1,
        ) && #[trigger] spec_entry_live(m2.devices()[d2].pools.page_bytes(), i2)) implies
        spec_entry_name(m2.devices()[d1].pools.page_bytes(), i1) != spec_entry_name(
        m2.devices()[d2].pools.page_bytes(),
        i2,
    ) by {
        if d1 == d {
            assert(spec_entry_live(p1, i1));
            assert(spec_entry_name(p2, i1) == spec_entry_name(p1, i1));
        }
        if d2 == d {
            assert(spec_entry_live(p1, i2));
            assert(spec_entry_name(p2, i2) == spec_entry_name(p1, i2));
        }
    }
    assert forall|d1: int, d2: int|
        0 <= d1 < d2 < m2.devices().len() implies (#[trigger] m2.devices()[d1]).info.handle != (
        #[trigger] m2.devices()[d2]).info.handle by {
        assert(m2.devices()[d1].info == m1.devices()[d1].info);
        assert(m2.devices()[d2].info == m1.devices()[d2].info);
    }
    assert forall|x: int| 0 <= x < m2.devices().len() implies {
        let dev = #[trigger] m2.devices()[x];
        &&& dev.pools.wf()
        &&& dev.pools.spec_device_size() == dev.info.size
        &&& dev.body@.len() == dev.info.size - PAGE_SIZE
    } by {
        if x != d {
            assert(m2.devices()[x] == m1.devices()[x]);
        }
    }
}

/// A name keeps finding the same device and slot when names and liveness
/// are unchanged everywhere.
proof fn lemma_find_stable(m1: Manager, m2: Manager, nb: Seq<u8>, d: int, k: int)
    requires
        m1.spec_find(nb) == Some((d, k)),
        m2.devices().len() == m1.devices().len(),
        forall|x: int| 0 <= x < m1.devices().len() && x != d ==> #[trigger] m2.devices()[x]
            == m1.devices()[x],
        forall|j: int|
            0 <= j < ENTRY_COUNT ==> #[trigger] spec_entry_name(
                m2.devices()[d].pools.page_bytes(),
                j,
            ) == spec_entry_name(m1.devices()[d].pools.page_bytes(), j) && spec_entry_live(
                m2.devices()[d].pools.page_bytes(),
                j,
            ) == spec_entry_live(m1.devices()[d].pools.page_bytes(), j),
    ensures
        m2.spec_find(nb) == Some((d, k)),
{
    lemma_find_in_live(m1.devices(), nb, 0, d, k);
    lemma_find_in_prefix(m1.devices(), nb, 0, d, k);
    lemma_find_in_at(m1.devices(), nb, 0, d, k);
    lemma_find_slot_live(m1.devices()[d].pools.page_bytes(), nb, 0, k);
    lemma_find_slot_prefix(m1.devices()[d].pools.page_bytes(), nb, 0, k);
    assert forall|j: int|
        0 <= j < k implies !(#[trigger] spec_entry_live(m2.devices()[d].pools.page_bytes(), j)
        && spec_entry_name(m2.devices()[d].pools.page_bytes(), j) == spec_stored_name(nb)) by {}
    lemma_find_slot_first(m2.devices()[d].pools.page_bytes(), nb, 0, k);
    assert forall|d2: int| 0 <= d2 < d implies spec_find_slot(
        (#[trigger] m2.devices()[d2]).pools.page_bytes(),
        nb,
    ) is None by {
        assert(m2.devices()[d2] == m1.devices()[d2]);
    }
    lemma_find_in_first(m2.devices(), nb, 0, d, k);
}

/// Replacing one device's body bytes, length unchanged, preserves the
/// manager invariants.
proof fn lemma_body_swap_wf(m2: Manager, m3: Manager, d: int)
    requires
        m2.wf(),
        0 <= d < m2.devices().len(),
        m3.devices().len() == m2.devices().len(),
        m3.translations() == m2.translations(),
        forall|x: int| 0 <= x < m2.devices().len() && x != d ==> #[trigger] m3.devices()[x]
            == m2.devices()[x],
        m3.devices()[d].info == m2.devices()[d].info,
        m3.devices()[d].pools == m2.devices()[d].pools,
        m3.devices()[d].body@.len() == m2.devices()[d].body@.len(),
    ensures
        m3.wf(),
{
    assert forall|x: int| 0 <= x < m3.devices().len() implies {
        let dev = #[trigger] m3.devices()[x];
        &&& dev.pools.wf()
        &&& dev.pools.spec_device_size() == dev.info.size
        &&& dev.body@.len() == dev.info.size - PAGE_SIZE
    } by {
        if x != d {
            assert(m3.devices()[x] == m2.devices()[x]);
        }
        assert(m2.devices()[x].pools.wf());
    }
    assert forall|d1: int, d2: int|
        0 <= d1 < d2 < m3.devices().len() implies (#[trigger] m3.devices()[d1]).info.handle != (
        #[trigger] m3.devices()[d2]).info.handle by {
        assert(m3.devices()[d1].info == m2.devices()[d1].info);
        assert(m3.devices()[d2].info == m2.devices()[d2].info);
    }
    assert forall|d1: int, i1: int, d2: int, i2: int|
        (0 <= d1 < m3.devices().len() && 0 <= d2 < m3.devices().len() && 0 <= i1 < ENTRY_COUNT
            && 0 <= i2 < ENTRY_COUNT && (d1 != d2 || i1 != i2) && #[trigger] spec_entry_live(
            m3.devices()[d1].pools.page_bytes(),
            i1,
        ) && #[trigger] spec_entry_live(m3.devices()[d2].pools.page_bytes(), i2)) implies
        spec_entry_name(m3.devices()[d1].pools.page_bytes(), i1) != spec_entry_name(
        m3.devices()[d2].pools.page_bytes(),
        i2,
    ) by {
        assert(m3.devices()[d1].pools == m2.devices()[d1].pools);
        assert(m3.devices()[d2].pools == m2.devices()[d2].pools);
        assert(spec_entry_live(m2.devices()[d1].pools.page_bytes(), i1));
        assert(spec_entry_live(m2.devices()[d2].pools.page_bytes(), i2));
    }
}

/// Lookups by name see only the header pages, not the bodies.
proof fn lemma_find_same_pages(dv2: Seq<ManagedPmem>, dv3: Seq<ManagedPmem>, nb: Seq<u8>, d0: int)
    requires
        0 <= d0,
        dv3.len() == dv2.len(),
        forall|x: int|
            0 <= x < dv2.len() ==> (#[trigger] dv3[x]).pools.page_bytes()
                == dv2[x].pools.page_bytes(),
    ensures
        spec_find_in(dv3, nb, d0) == spec_find_in(dv2, nb, d0),
    decreases dv2.len() - d0,
{
    if d0 < dv2.len() {
        lemma_find_same_pages(dv2, dv3, nb, d0 + 1);
    }
}

/// The found device's table finds the slot.
proof fn lemma_find_in_at(dv: Seq<ManagedPmem>, nb: Seq<u8>, d0: int, d: int, k: int)
    requires
        0 <= d0,
        spec_find_in(dv, nb, d0) == Some((d, k)),
    ensures
        spec_find_slot(dv[d].pools.page_bytes(), nb) == Some(k),
    decreases dv.len() - d0,
{
    if d0 < dv.len() {
        if spec_find_slot(dv[d0].pools.page_bytes(), nb) is None {
            lemma_find_in_at(dv, nb, d0 + 1, d, k);
        }
    }
}

/// Devices before the found one find nothing.
proof fn lemma_find_in_prefix(dv: Seq<ManagedPmem>, nb: Seq<u8>, d0: int, d: int, k: int)
    requires
        0 <= d0,
        spec_find_in(dv, nb, d0) == Some((d, k)),
    ensures
        forall|d2: int|
            d0 <= d2 < d ==> spec_find_slot((#[trigger] dv[d2]).pools.page_bytes(), nb) is None,
    decreases dv.len() - d0,
{
    if d0 < dv.len() {
        if spec_find_slot(dv[d0].pools.page_bytes(), nb) is None {
            lemma_find_in_prefix(dv, nb, d0 + 1, d, k);
        }
    }
}

/// Slots before the found one do not match.
proof fn lemma_find_slot_prefix(page: Seq<u8>, nb: Seq<u8>, i0: int, k: int)
    requires
        0 <= i0,
        spec_find_slot_from(page, nb, i0) == Some(k),
    ensures
        forall|j: int|
            i0 <= j < k ==> !(#[trigger] spec_entry_live(page, j) && spec_entry_name(page, j)
                == spec_stored_name(nb)),
    decreases ENTRY_COUNT as int - i0,
{
    if i0 < ENTRY_COUNT {
        if !(spec_entry_live(page, i0) && spec_entry_name(page, i0) == spec_stored_name(nb)) {
            lemma_find_slot_prefix(page, nb, i0 + 1, k);
        }
    }
}

/// After a live entry of one device's table is cleared, the manager
/// invariants hold again.
proof fn lemma_kill_wf(m1: Manager, m2: Manager, d: int, k: int)
    requires
        m1.wf(),
        0 <= d < m1.devices().len(),
        m2.devices().len() == m1.devices().len(),
        m2.translations() == m1.translations(),
        forall|x: int| 0 <= x < m1.devices().len() && x != d ==> #[trigger] m2.devices()[x]
            == m1.devices()[x],
        m2.devices()[d].info == m1.devices()[d].info,
        m2.devices()[d].body == m1.devices()[d].body,
        m2.devices()[d].pools.wf(),
        m2.devices()[d].pools.spec_device_size() == m1.devices()[d].pools.spec_device_size(),
        0 <= k < ENTRY_COUNT,
        !spec_entry_live(m2.devices()[d].pools.page_bytes(), k),
        forall|q: int|
            0 <= q < PAGE_SIZE as int && !(crate::pmem::table::entry_pos(k) <= q
                < crate::pmem::table::entry_pos(k) + 46) ==> m2.devices()[d].pools.page_bytes()[q]
                == m1.devices()[d].pools.page_bytes()[q],
    ensures
        m2.wf(),
{
    let p1 = m1.devices()[d].pools.page_bytes();
    let p2 = m2.devices()[d].pools.page_bytes();
    lemma_entry_frame(p1, p2, k);
    assert forall|d1: int, i1: int, d2: int, i2: int|
        (0 <= d1 < m2.devices().len() && 0 <= d2 < m2.devices().len() && 0 <= i1 < ENTRY_COUNT
            && 0 <= i2 < ENTRY_COUNT && (d1 != d2 || i1 != i2) && #[trigger] spec_entry_live(
            m2.devices()[d1].pools.page_bytes(),
            i1,
        ) && #[trigger] spec_entry_live(m2.devices()[d2].pools.page_bytes(), i2)) implies
        spec_entry_name(m2.devices()[d1].pools.page_bytes(), i1) != spec_entry_name(
        m2.devices()[d2].pools.page_bytes(),
        i2,
    ) by {
        if d1 == d {
            assert(!(i1 == k));
            assert(spec_entry_live(p1, i1));
            assert(spec_entry_name(p2, i1) == spec_entry_name(p1, i1));
        }
        if d2 == d {
            assert(!(i2 == k));
            assert(spec_entry_live(p1, i2));
            assert(spec_entry_name(p2, i2) == spec_entry_name(p1, i2));
        }
    }
    assert forall|d1: int, d2: int|
        0 <= d1 < d2 < m2.devices().len() implies (#[trigger] m2.devices()[d1]).info.handle != (
        #[trigger] m2.devices()[d2]).info.handle by {
        assert(m2.devices()[d1].info == m1.devices()[d1].info);
        assert(m2.devices()[d2].info == m1.devices()[d2].info);
    }
    assert forall|x: int| 0 <= x < m2.devices().len() implies {
        let dev = #[trigger] m2.devices()[x];
        &&& dev.pools.wf()
        &&& dev.pools.spec_device_size() == dev.info.size
        &&& dev.body@.len() == dev.info.size - PAGE_SIZE
    } by {
        if x != d {
            assert(m2.devices()[x] == m1.devices()[x]);
        }
    }
}

} // verus!
