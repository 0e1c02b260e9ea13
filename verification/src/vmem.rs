//! Virtual-memory management: reserving virtual address ranges out of a
//! free-range index, recording which pages map to which physical frames,
//! and deriving the initially usable ranges from the regions a boot-time
//! page table already maps.
//!
//! Installing the recorded mappings into the hardware page table, and
//! flushing the TLB, is the surrounding kernel's part; this manager makes
//! the decisions and owns the bookkeeping.

use crate::ranges::{canonical, covers, is_pow2, lemma_canonical_unique, RangeIndex, Span};
use vstd::prelude::*;

verus! {

/// Lowest virtual address the manager may hand out.
pub const FIRST_ADDRESS: u64 = 10 * 0x1000;

/// One past the highest virtual address: the 48-bit address space.
pub const LAST_ADDRESS: u64 = 0x1_0000_0000_0000;

/// The three page sizes the paging hardware supports.
#[derive(Clone, Copy, Debug, PartialEq, Eq, Structural)]
pub enum PageKind {
    /// 4 KiB.
    Regular,
    /// 2 MiB.
    Large,
    /// 1 GiB.
    Huge,
}

impl PageKind {
    /// Bytes covered by one page of this kind.
    pub open spec fn spec_size(self) -> u64 {
        match self {
            PageKind::Regular => 0x1000,
            PageKind::Large => 0x20_0000,
            PageKind::Huge => 0x4000_0000,
        }
    }

    /// Bytes covered by one page of this kind.
    pub fn size(&self) -> (r: u64)
        ensures
            r == self.spec_size(),
    {
        match self {
            PageKind::Regular => 0x1000,
            PageKind::Large => 0x20_0000,
            PageKind::Huge => 0x4000_0000,
        }
    }
}

/// Every page size is a power of two.
pub proof fn lemma_page_kind_pow2(k: PageKind)
    ensures
        is_pow2(k.spec_size()),
{
    assert(0x1000u64 & 0xFFFu64 == 0u64) by (bit_vector);
    assert(0x20_0000u64 & 0x1F_FFFFu64 == 0u64) by (bit_vector);
    assert(0x4000_0000u64 & 0x3FFF_FFFFu64 == 0u64) by (bit_vector);
}

/// A run of `count` pages of one kind, starting at virtual address `start`.
#[derive(Clone, Copy, Debug, PartialEq, Eq, Structural)]
pub struct PageSpan {
    pub kind: PageKind,
    pub start: u64,
    pub count: u64,
}

impl PageSpan {
    /// The bytes the run covers.
    pub open spec fn byte_span(self) -> Span {
        Span { start: self.start, size: (self.count * self.kind.spec_size()) as u64 }
    }
}

/// A mapped virtual page of one of the three sizes, by start address.
#[derive(Clone, Copy, Debug, PartialEq, Eq, Structural)]
pub enum Pages {
    Regular(u64),
    Large(u64),
    Huge(u64),
}

impl Pages {
    /// The page's first virtual address.
    pub open spec fn spec_start_address(self) -> u64 {
        match self {
            Pages::Regular(a) => a,
            Pages::Large(a) => a,
            Pages::Huge(a) => a,
        }
    }

    /// The page's size in bytes.
    pub open spec fn spec_size(self) -> u64 {
        match self {
            Pages::Regular(_) => 0x1000,
            Pages::Large(_) => 0x20_0000,
            Pages::Huge(_) => 0x4000_0000,
        }
    }

    pub fn start_address(&self) -> (r: u64)
        ensures
            r == self.spec_start_address(),
    {
        match self {
            Pages::Regular(a) => *a,
            Pages::Large(a) => *a,
            Pages::Huge(a) => *a,
        }
    }

    pub fn size(&self) -> (r: u64)
        ensures
            r == self.spec_size(),
    {
        match self {
            Pages::Regular(_) => 0x1000,
            Pages::Large(_) => 0x20_0000,
            Pages::Huge(_) => 0x4000_0000,
        }
    }
}

/// A mapped physical frame of one of the three sizes, by start address.
#[derive(Clone, Copy, Debug, PartialEq, Eq, Structural)]
pub enum PhysFrames {
    Regular(u64),
    Large(u64),
    Huge(u64),
}

impl PhysFrames {
    /// The frame's first physical address.
    pub open spec fn spec_start_address(self) -> u64 {
        match self {
            PhysFrames::Regular(a) => a,
            PhysFrames::Large(a) => a,
            PhysFrames::Huge(a) => a,
        }
    }

    /// The frame's size in bytes.
    pub open spec fn spec_size(self) -> u64 {
        match self {
            PhysFrames::Regular(_) => 0x1000,
            PhysFrames::Large(_) => 0x20_0000,
            PhysFrames::Huge(_) => 0x4000_0000,
        }
    }

    pub fn start_address(&self) -> (r: u64)
        ensures
            r == self.spec_start_address(),
    {
        match self {
            PhysFrames::Regular(a) => *a,
            PhysFrames::Large(a) => *a,
            PhysFrames::Huge(a) => *a,
        }
    }

    pub fn size(&self) -> (r: u64)
        ensures
            r == self.spec_size(),
    {
        match self {
            PhysFrames::Regular(_) => 0x1000,
            PhysFrames::Large(_) => 0x20_0000,
            PhysFrames::Huge(_) => 0x4000_0000,
        }
    }
}

/// One entry of a page table: a virtual page and the physical frame behind
/// it.
#[derive(Clone, Copy, Debug, PartialEq, Eq, Structural)]
pub struct VirtMapping {
    pub virt: Pages,
    pub phys: PhysFrames,
}

/// A contiguous mapped region: a virtual byte range and the physical byte
/// range behind its first part.
#[derive(Clone, Copy, Debug, PartialEq, Eq, Structural)]
pub struct MappedRegion {
    pub virt: Span,
    pub phys: Span,
}

/// Merging step of `into_regions`: append one page mapping, fusing it with
/// the last region when it continues that region's virtual range.
pub open spec fn spec_merge_step(acc: Seq<MappedRegion>, m: VirtMapping) -> Seq<MappedRegion> {
    let virt = Span { start: m.virt.spec_start_address(), size: m.virt.spec_size() };
    let phys = Span { start: m.phys.spec_start_address(), size: m.phys.spec_size() };
    if acc.len() > 0 && acc.last().virt.end() == virt.start as int && acc.last().virt.size
        + virt.size <= u64::MAX {
        acc.update(
            acc.len() - 1,
            MappedRegion {
                virt: Span {
                    start: acc.last().virt.start,
                    size: (acc.last().virt.size + virt.size) as u64,
                },
                phys: acc.last().phys,
            },
        )
    } else {
        acc.push(MappedRegion { virt, phys })
    }
}

/// The regions that `into_regions` builds from a list of page mappings.
pub open spec fn spec_into_regions(ms: Seq<VirtMapping>) -> Seq<MappedRegion>
    decreases ms.len(),
{
    if ms.len() == 0 {
        Seq::empty()
    } else {
        spec_merge_step(spec_into_regions(ms.drop_last()), ms.last())
    }
}

/// Page mappings, merged into contiguous regions.
pub trait MappedRegions: Sized {
    /// The page mappings this value holds, in order.
    spec fn mappings_view(self) -> Seq<VirtMapping>;

    /// Merges virtually adjacent page mappings into contiguous regions.
    fn into_regions(self) -> (r: Vec<MappedRegion>)
        ensures
            r@ == spec_into_regions(self.mappings_view()),
    ;
}

impl MappedRegions for Vec<VirtMapping> {
    open spec fn mappings_view(self) -> Seq<VirtMapping> {
        self@
    }

    fn into_regions(self) -> (r: Vec<MappedRegion>)
        ensures
            r@ == spec_into_regions(self@),
    {
        let ghost ms = self@;
        let mut out: Vec<MappedRegion> = Vec::new();
        let n = self.len();
        let mut i: usize = 0;
        while i < n
            invariant
                ms == self@,
                n == ms.len(),
                0 <= i <= n,
                out@ == spec_into_regions(ms.subrange(0, i as int)),
            decreases n - i,
        {
            let m = self[i];
            let virt = Span { start: m.virt.start_address(), size: m.virt.size() };
            let phys = Span { start: m.phys.start_address(), size: m.phys.size() };
            let ghost prefix = ms.subrange(0, i as int);
            proof {
                assert(ms.subrange(0, i as int + 1).drop_last() =~= prefix);
                assert(ms.subrange(0, i as int + 1).last() == m);
            }
            let ln = out.len();
            let mut merged = false;
            if ln > 0 {
                let last = out[ln - 1];
                if last.virt.size <= u64::MAX - last.virt.start && last.virt.start + last.virt.size
                    == virt.start && virt.size <= u64::MAX - last.virt.size {
                    out.set(
                        ln - 1,
                        MappedRegion {
                            virt: Span {
                                start: last.virt.start,
                                size: last.virt.size + virt.size,
                            },
                            phys: last.phys,
                        },
                    );
                    merged = true;
                }
            }
            if !merged {
                out.push(MappedRegion { virt, phys });
            }
            i += 1;
        }
        proof {
            assert(ms.subrange(0, n as int) =~= ms);
        }
        out
    }
}

/// State of the `into_usable` walk after some regions: the usable gaps
/// found so far, and the next candidate address.
pub open spec fn spec_usable_walk(rs: Seq<MappedRegion>) -> (Seq<Span>, u64)
    decreases rs.len(),
{
    if rs.len() == 0 {
        (Seq::empty(), FIRST_ADDRESS)
    } else {
        let (acc, current) = spec_usable_walk(rs.drop_last());
        let r = rs.last();
        let acc2 = if r.virt.start > current {
            acc.push(Span { start: current, size: (r.virt.start - current) as u64 })
        } else {
            acc
        };
        let next = if r.virt.size <= u64::MAX - r.virt.start {
            (r.virt.start + r.virt.size) as u64
        } else {
            u64::MAX
        };
        (acc2, next)
    }
}

/// The usable ranges that `into_usable` derives from a list of mapped
/// regions: the gaps between them from `FIRST_ADDRESS` on, and the tail up
/// to `LAST_ADDRESS`.
pub open spec fn spec_into_usable(rs: Seq<MappedRegion>) -> Seq<Span> {
    let (acc, current) = spec_usable_walk(rs);
    if current < LAST_ADDRESS {
        acc.push(Span { start: current, size: (LAST_ADDRESS - current) as u64 })
    } else {
        acc
    }
}

/// Mapped regions, inverted into the address ranges still usable.
pub trait UsableRegions: Sized {
    /// The mapped regions this value holds, in order.
    spec fn regions_view(self) -> Seq<MappedRegion>;

    /// The complement of the mapped regions within the manageable part of
    /// the 48-bit address space.
    fn into_usable(self) -> (r: Vec<Span>)
        ensures
            r@ == spec_into_usable(self.regions_view()),
    ;
}

impl UsableRegions for Vec<MappedRegion> {
    open spec fn regions_view(self) -> Seq<MappedRegion> {
        self@
    }

    fn into_usable(self) -> (r: Vec<Span>)
        ensures
            r@ == spec_into_usable(self@),
    {
        let ghost rs = self@;
        let mut out: Vec<Span> = Vec::new();
        let mut current: u64 = FIRST_ADDRESS;
        let n = self.len();
        let mut i: usize = 0;
        while i < n
            invariant
                rs == self@,
                n == rs.len(),
                0 <= i <= n,
                (out@, current) == spec_usable_walk(rs.subrange(0, i as int)),
            decreases n - i,
        {
            let r = self[i];
            proof {
                assert(rs.subrange(0, i as int + 1).drop_last() =~= rs.subrange(0, i as int));
                assert(rs.subrange(0, i as int + 1).last() == r);
            }
            if r.virt.start > current {
                out.push(Span { start: current, size: r.virt.start - current });
            }
            current = if r.virt.size <= u64::MAX - r.virt.start {
                r.virt.start + r.virt.size
            } else {
                u64::MAX
            };
            i += 1;
        }
        proof {
            assert(rs.subrange(0, n as int) =~= rs);
        }
        if current < LAST_ADDRESS {
            out.push(Span { start: current, size: LAST_ADDRESS - current });
        }
        out
    }
}

/// The virtual-memory manager: a free-range index over virtual addresses
/// and the record of the page mappings it has handed out.  The surrounding
/// kernel installs and removes the recorded mappings in the hardware page
/// table.
pub struct Manager {
    free: RangeIndex,
    mapped: Vec<MappedRegion>,
}

impl Manager {
    /// The free virtual ranges, sorted by start.
    pub closed spec fn free_ranges(self) -> Seq<Span> {
        self.free@
    }

    /// The regions this manager has mapped: virtual range and the physical
    /// range behind it, in the order they were allocated.
    pub closed spec fn mappings(self) -> Seq<MappedRegion> {
        self.mapped@
    }

    /// Virtual address `b` is currently free.
    pub open spec fn free_at(self, b: int) -> bool {
        covers(self.free_ranges(), b)
    }

    /// Well-formedness: the free index is canonical, and no byte of a
    /// mapped region is free.
    pub open spec fn wf(self) -> bool {
        &&& canonical(self.free_ranges())
        &&& forall|i: int, b: int|
            0 <= i < self.mappings().len() && (#[trigger] self.mappings()[i]).virt.contains(b)
                ==> !(#[trigger] self.free_at(b))
        &&& forall|i: int|
            0 <= i < self.mappings().len() ==> (#[trigger] self.mappings()[i]).virt.size > 0
                && self.mappings()[i].virt.end() <= u64::MAX
    }

    /// Builds a manager over the given usable ranges, with nothing mapped
    /// yet.  Rejects ranges that are not sorted, disjoint and non-abutting.
    pub fn new(usable: Vec<Span>) -> (r: Option<Manager>)
        ensures
            match r {
                Some(m) => {
                    &&& m.wf()
                    &&& m.free_ranges() == usable@
                    &&& m.mappings() == Seq::<MappedRegion>::empty()
                },
                None => !canonical(usable@),
            },
    {
        match RangeIndex::from_sorted(usable) {
            Some(free) => Some(Manager { free, mapped: Vec::new() }),
            None => None,
        }
    }

    /// The current free virtual ranges, sorted by start.
    pub fn usable_regions(&self) -> (r: &Vec<Span>)
        ensures
            r@ == self.free_ranges(),
    {
        self.free.regions()
    }

    /// The regions this manager has mapped, in allocation order.
    pub fn mapped_regions(&self) -> (r: &Vec<MappedRegion>)
        ensures
            r@ == self.mappings(),
    {
        &self.mapped
    }

    /// Reserves `page_count` pages (at least one) of the given kind,
    /// aligned to the page size, and records that they map to the physical
    /// frames starting at `phys_start`.  Fails, changing nothing, when
    /// `phys_start` is misaligned for the kind, when the byte count
    /// overflows, or when no free range can hold the aligned run.
    pub fn allocate(&mut self, phys_start: u64, page_count: u64, kind: PageKind) -> (r: Option<
        PageSpan,
    >)
        requires
            old(self).wf(),
        ensures
            final(self).wf(),
            match r {
                Some(ps) => {
                    &&& ps.kind == kind
                    &&& ps.count == if page_count > 0 {
                        page_count as int
                    } else {
                        1
                    }
                    &&& ps.start as int % kind.spec_size() as int == 0
                    &&& phys_start as int % kind.spec_size() as int == 0
                    &&& ps.count * kind.spec_size() <= u64::MAX
                    &&& ps.start + ps.count * kind.spec_size() <= u64::MAX
                    &&& (forall|b: int|
                        ps.start <= b < ps.start + ps.count * kind.spec_size()
                            ==> #[trigger] old(self).free_at(b))
                    &&& (forall|b: int|
                        #[trigger] final(self).free_at(b) <==> (old(self).free_at(b) && !(
                        ps.start <= b < ps.start + ps.count * kind.spec_size())))
                    &&& final(self).mappings() == old(self).mappings().push(
                        MappedRegion {
                            virt: Span {
                                start: ps.start,
                                size: (ps.count * kind.spec_size()) as u64,
                            },
                            phys: Span {
                                start: phys_start,
                                size: (ps.count * kind.spec_size()) as u64,
                            },
                        },
                    )
                },
                None => {
                    &&& *final(self) == *old(self)
                    &&& {
                        ||| phys_start as int % kind.spec_size() as int != 0
                        ||| (if page_count > 0 {
                            page_count as int
                        } else {
                            1
                        }) * kind.spec_size() > u64::MAX
                        ||| (forall|i: int|
                            0 <= i < old(self).free_ranges().len()
                                ==> crate::ranges::spec_align_up(
                                (#[trigger] old(self).free_ranges()[i]).start as int,
                                kind.spec_size() as int,
                            ) + (if page_count > 0 {
                                page_count as int
                            } else {
                                1
                            }) * kind.spec_size() > old(self).free_ranges()[i].end())
                    }
                },
            },
    {
        let sz = kind.size();
        if phys_start % sz != 0 {
            return None;
        }
        let count = if page_count > 0 {
            page_count
        } else {
            1
        };
        if count > u64::MAX / sz {
            proof {
                assert(count * sz > u64::MAX) by (nonlinear_arith)
                    requires
                        sz > 0,
                        count > u64::MAX as int / sz as int,
                        count >= 1,
                ;
            }
            return None;
        }
        let bytes = count * sz;
        proof {
            assert(count * sz <= (u64::MAX as int / sz as int) * sz <= u64::MAX) by (nonlinear_arith)
                requires
                    sz > 0,
                    count <= u64::MAX as int / sz as int,
            ;
            lemma_page_kind_pow2(kind);
            assert(bytes > 0) by (nonlinear_arith)
                requires
                    count > 0,
                    sz > 0,
                    bytes == count * sz,
            ;
        }
        let ghost f1 = self.free;
        let got = self.free.reserve_range(bytes, sz);
        let span = match got {
            Some(span) => span,
            None => {
                proof {
                    assert(old(self).free_ranges() == f1@);
                }
                return None;
            },
        };
        proof {
            assert(self.free.wf());
            assert(got == Some(span));
            assert(span.size == bytes);
            assert(forall|b: int| span.contains(b) ==> #[trigger] f1.is_free(b));
            assert(forall|b: int|
                #[trigger] self.free.is_free(b) <==> (f1.is_free(b) && !span.contains(b)));
        }
        let region = MappedRegion {
            virt: Span { start: span.start, size: bytes },
            phys: Span { start: phys_start, size: bytes },
        };
        let ghost m1 = self.mapped@;
        self.mapped.push(region);
        proof {
            assert(old(self).mappings() == m1);
            assert(old(self).free_ranges() == f1@);
            assert forall|i: int, b: int|
                0 <= i < self.mapped@.len() && (#[trigger] self.mapped@[i]).virt.contains(b)
                    implies !(#[trigger] self.free_at(b)) by {
                assert(self.free_at(b) == self.free.is_free(b));
                if i < m1.len() {
                    assert(old(self).mappings()[i].virt.contains(b));
                    assert(!old(self).free_at(b));
                    assert(old(self).free_at(b) == f1.is_free(b));
                } else {
                    assert(self.mapped@[i] == region);
                    assert(span.contains(b));
                }
            }
            assert forall|i: int|
                0 <= i < self.mapped@.len() implies (#[trigger] self.mapped@[i]).virt.size > 0
                    && self.mapped@[i].virt.end() <= u64::MAX by {
                if i < m1.len() {
                    assert(old(self).mappings()[i].virt.size > 0);
                } else {
                    assert(self.mapped@[i] == region);
                }
            }
            assert forall|b: int|
                #[trigger] self.free_at(b) <==> (old(self).free_at(b) && !(span.start as int <= b
                    < span.start + bytes)) by {
                assert(self.free.is_free(b) <==> (f1.is_free(b) && !span.contains(b)));
            }
            assert forall|b: int|
                span.start as int <= b < span.start + bytes implies #[trigger] old(self).free_at(
                b,
            ) by {
                assert(f1.is_free(b));
            }
        }
        Some(PageSpan { kind, start: span.start, count })
    }

    /// Releases the virtual range of a page run and drops every recorded
    /// mapping that intersects it.  Returns `false`, changing nothing, when
    /// the run is empty, overflows, or starts on an address that is already
    /// free.
    pub fn deallocate(&mut self, pages: PageSpan) -> (r: bool)
        requires
            old(self).wf(),
        ensures
            final(self).wf(),
            r ==> {
                &&& (forall|b: int|
                    #[trigger] final(self).free_at(b) <==> (old(self).free_at(b) || (
                    pages.start as int <= b < pages.start + pages.count * pages.kind.spec_size())))
                &&& (forall|t: int|
                    0 <= t < final(self).mappings().len() ==> #[trigger] old(
                        self,
                    ).mappings().contains(final(self).mappings()[t]))
                &&& (forall|s2: int|
                    0 <= s2 < old(self).mappings().len() && (forall|b: int|
                        !(#[trigger] old(self).mappings()[s2].virt.contains(b) && pages.start <= b
                            < pages.start + pages.count * pages.kind.spec_size()))
                        ==> #[trigger] final(self).mappings().contains(old(self).mappings()[s2]))
                &&& (forall|t: int, b: int|
                    0 <= t < final(self).mappings().len()
                        && #[trigger] final(self).mappings()[t].virt.contains(b) ==> !(
                    pages.start as int <= b < pages.start + pages.count
                        * pages.kind.spec_size()))
            },
            !r ==> *final(self) == *old(self),
            r <==> (pages.count > 0 && pages.count * pages.kind.spec_size() <= u64::MAX
                && pages.start + pages.count * pages.kind.spec_size() <= u64::MAX && !old(
                self,
            ).free_at(pages.start as int)),
    {
        let sz = pages.kind.size();
        if pages.count == 0 || pages.count > u64::MAX / sz {
            proof {
                if pages.count > 0 {
                    assert(pages.count * sz > u64::MAX) by (nonlinear_arith)
                        requires
                            sz > 0,
                            pages.count > u64::MAX as int / sz as int,
                            pages.count >= 1,
                    ;
                }
            }
            return false;
        }
        let bytes = pages.count * sz;
        proof {
            assert(pages.count * sz <= (u64::MAX as int / sz as int) * sz <= u64::MAX)
                by (nonlinear_arith)
                requires
                    sz > 0,
                    pages.count <= u64::MAX as int / sz as int,
            ;
            assert(bytes > 0) by (nonlinear_arith)
                requires
                    pages.count > 0,
                    sz > 0,
                    bytes == pages.count * sz,
            ;
        }
        let span = Span { start: pages.start, size: bytes };
        if pages.start > u64::MAX - bytes {
            return false;
        }
        let ghost f1 = self.free;
        let ok = self.free.release_range(span);
        if !ok {
            proof {
                assert(f1.is_free(span.start as int));
                assert(old(self).free_at(span.start as int));
            }
            return false;
        }
        proof {
            assert(!f1.is_free(span.start as int));
            assert(old(self).free_ranges() == f1@);
            assert(!old(self).free_at(span.start as int));
        }
        proof {
            assert(self.free.wf());
            assert(ok <==> !f1.is_free(span.start as int));
            assert(forall|b: int|
                #[trigger] self.free.is_free(b) <==> (f1.is_free(b) || span.contains(b)));
        }

        // Drop every mapping that intersects the released range.
        let ghost m1 = self.mapped@;
        proof {
            assert(old(self).mappings() == m1);
            assert forall|i2: int|
                0 <= i2 < m1.len() implies (#[trigger] m1[i2]).virt.size > 0 && m1[i2].virt.end()
                    <= u64::MAX by {
                assert(old(self).mappings()[i2].virt.size > 0 && old(self).mappings()[
                i2].virt.end() <= u64::MAX);
            }
        }
        let mut kept: Vec<MappedRegion> = Vec::new();
        let n = self.mapped.len();
        let mut i: usize = 0;
        while i < n
            invariant
                m1 == self.mapped@,
                n == m1.len(),
                0 <= i <= n,
                span.size > 0,
                span.end() <= u64::MAX,
                forall|i2: int|
                    0 <= i2 < m1.len() ==> (#[trigger] m1[i2]).virt.size > 0 && m1[i2].virt.end()
                        <= u64::MAX,
                forall|t: int|
                    0 <= t < kept@.len() ==> exists|s: int|
                        0 <= s < i && #[trigger] kept@[t] == m1[s],
                forall|t: int, b: int|
                    0 <= t < kept@.len() && #[trigger] kept@[t].virt.contains(b) ==> !span.contains(
                        b,
                    ),
                forall|s: int|
                    0 <= s < i && !(exists|b: int|
                        (#[trigger] m1[s]).virt.contains(b) && span.contains(b)) ==> exists|t: int|
                        0 <= t < kept@.len() && #[trigger] kept@[t] == m1[s],
            decreases n - i,
        {
            let m = self.mapped[i];
            // Intersection test on the virtual ranges.
            let m_end = m.virt.start + m.virt.size;
            let s_end = span.start + span.size;
            let intersects = m.virt.start < s_end && span.start < m_end;
            proof {
                if intersects {
                    let c = if span.start as int >= m.virt.start as int {
                        span.start as int
                    } else {
                        m.virt.start as int
                    };
                    assert(m.virt.contains(c) && span.contains(c));
                } else {
                    assert forall|b: int| m.virt.contains(b) implies !span.contains(b) by {}
                }
            }
            if !intersects {
                let ghost keptv = kept@;
                kept.push(m);
                proof {
                    assert(kept@[keptv.len() as int] == m1[i as int]);
                    assert forall|s: int|
                        0 <= s < i + 1 && !(exists|b: int|
                            (#[trigger] m1[s]).virt.contains(b) && span.contains(
                                b,
                            )) implies exists|t: int|
                        0 <= t < kept@.len() && #[trigger] kept@[t] == m1[s] by {
                        if s < i {
                            let t = choose|t: int| 0 <= t < keptv.len() && #[trigger] keptv[t]
                                == m1[s];
                            assert(kept@[t] == m1[s]);
                        } else {
                            assert(kept@[keptv.len() as int] == m1[s]);
                        }
                    }
                }
            }
            i += 1;
        }
        self.mapped = kept;
        proof {
            assert(old(self).mappings() == m1);
            assert(old(self).free_ranges() == f1@);
            assert(self.mappings() == kept@);
            assert forall|i2: int, b: int|
                0 <= i2 < self.mapped@.len() && (#[trigger] self.mapped@[i2]).virt.contains(b)
                    implies !(#[trigger] self.free_at(b)) by {
                assert(self.free_at(b) == self.free.is_free(b));
                assert(kept@[i2].virt.contains(b));
                assert(!span.contains(b));
                let s = choose|s: int| 0 <= s < m1.len() && #[trigger] kept@[i2] == m1[s];
                assert(old(self).mappings()[s].virt.contains(b));
                assert(!old(self).free_at(b));
                assert(old(self).free_at(b) == f1.is_free(b));
            }
            assert forall|i2: int|
                0 <= i2 < self.mapped@.len() implies (#[trigger] self.mapped@[i2]).virt.size > 0
                    && self.mapped@[i2].virt.end() <= u64::MAX by {
                let s = choose|s: int| 0 <= s < m1.len() && #[trigger] kept@[i2] == m1[s];
                assert(old(self).mappings()[s].virt.size > 0);
            }
            assert forall|b: int|
                #[trigger] self.free_at(b) <==> (old(self).free_at(b) || (pages.start as int <= b
                    < pages.start + pages.count * pages.kind.spec_size())) by {
                assert(self.free.is_free(b) <==> (f1.is_free(b) || span.contains(b)));
                assert(old(self).free_at(b) == f1.is_free(b));
            }
            assert forall|t: int, b: int|
                0 <= t < self.mappings().len() && #[trigger] self.mappings()[t].virt.contains(
                    b,
                ) implies !(pages.start as int <= b < pages.start + pages.count
                * pages.kind.spec_size()) by {
                assert(kept@[t].virt.contains(b));
                assert(!span.contains(b));
            }
            assert forall|t: int|
                0 <= t < self.mappings().len() implies #[trigger] old(self).mappings().contains(
                self.mappings()[t],
            ) by {
                assert(0 <= t < kept@.len());
                let s = choose|s: int| 0 <= s < m1.len() && #[trigger] kept@[t] == m1[s];
                assert(old(self).mappings()[s] == kept@[t]);
            }
            assert forall|s2: int|
                0 <= s2 < old(self).mappings().len() && (forall|b: int|
                    !(#[trigger] old(self).mappings()[s2].virt.contains(b) && pages.start <= b
                        < pages.start + pages.count * pages.kind.spec_size()))
                implies #[trigger] self.mappings().contains(old(self).mappings()[s2]) by {
                assert forall|b: int| !((#[trigger] m1[s2].virt.contains(b)) && span.contains(
                    b,
                )) by {
                    assert(old(self).mappings()[s2] == m1[s2]);
                    if m1[s2].virt.contains(b) && span.contains(b) {
                        assert(old(self).mappings()[s2].virt.contains(b) && pages.start <= b
                            < pages.start + pages.count * pages.kind.spec_size());
                    }
                }
                assert(!(exists|b: int| (#[trigger] m1[s2].virt.contains(b)) && span.contains(b)));
                let t = choose|t: int| 0 <= t < kept@.len() && #[trigger] kept@[t] == m1[s2];
                assert(self.mappings()[t] == old(self).mappings()[s2]);
            }
        }
        true
    }
}

/// Invertibility: reserving a virtual range and then releasing exactly that
/// range leaves the free-range index as it was, range for range.
pub proof fn lemma_allocate_deallocate_inverse(
    pre: Manager,
    mid: Manager,
    post: Manager,
    span: Span,
)
    requires
        pre.wf(),
        mid.wf(),
        post.wf(),
        forall|b: int| span.contains(b) ==> pre.free_at(b),
        forall|b: int| #[trigger] mid.free_at(b) <==> (pre.free_at(b) && !span.contains(b)),
        forall|b: int| #[trigger] post.free_at(b) <==> (mid.free_at(b) || span.contains(b)),
    ensures
        post.free_ranges() == pre.free_ranges(),
{
    assert forall|x: int| covers(post.free_ranges(), x) <==> covers(pre.free_ranges(), x) by {
        assert(post.free_at(x) <==> (mid.free_at(x) || span.contains(x)));
        assert(mid.free_at(x) <==> (pre.free_at(x) && !span.contains(x)));
        if span.contains(x) {
            assert(pre.free_at(x));
        }
    }
    lemma_canonical_unique(post.free_ranges(), pre.free_ranges());
}

/// The virtual address spelled by four page-table level indices: the walk
/// of the boot page table derives each mapped page's address this way.
pub fn level_indices_address(i4: u64, i3: u64, i2: u64, i1: u64) -> (r: u64)
    requires
        i4 < 512,
        i3 < 512,
        i2 < 512,
        i1 < 512,
    ensures
        r as int == i4 * 0x80_0000_0000 + i3 * 0x4000_0000 + i2 * 0x20_0000 + i1 * 0x1000,
{
    i4 * 0x80_0000_0000 + i3 * 0x4000_0000 + i2 * 0x20_0000 + i1 * 0x1000
}

} // verus!
