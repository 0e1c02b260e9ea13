//! The on-device pool table: one page at device offset 0 holding a magic
//! number and a dense array of fixed-size pool entries, plus the in-memory
//! free-range index over the device body that is rebuilt from the live
//! entries at recovery.
//!
//! Layout of the header page: bytes 0..2 hold the little-endian magic
//! `0x9898`; from byte 2 on, `ENTRY_COUNT` packed entries of 46 bytes each:
//! `{u64 offset, u64 length, u8[30] name}`.  An entry is live exactly when
//! its name's first byte is not NUL.

use crate::bytes::{read_u16, read_u64, spec_u16_at, spec_u64_at, write_u64};
use crate::ranges::{
    canonical, covers, lemma_align_up_props, spec_align_up, spec_first_fit, RangeIndex, Span,
};
use crate::PAGE_SIZE;
use vstd::pervasive::VecAdditionalExecFns;
use vstd::string::StringSliceAdditionalSpecFns;
use vstd::prelude::*;

verus! {

/// Magic number marking an initialized pool-table page.
pub const MAGIC_NUMBER: u16 = 0x9898;

/// Bytes of a pool name, NUL-padded on the device.
pub const NAME_LEN: usize = 30;

/// Bytes of one packed entry: offset, length, name.
pub const ENTRY_SIZE: usize = 46;

/// Entries in one header page: (PAGE_SIZE - 2) / ENTRY_SIZE.
pub const ENTRY_COUNT: usize = 89;

/// Byte position of entry `i` inside the header page.
pub open spec fn entry_pos(i: int) -> int {
    2 + 46 * i
}

/// The `offset` field of entry `i`.
pub open spec fn spec_entry_offset(page: Seq<u8>, i: int) -> int {
    spec_u64_at(page, entry_pos(i))
}

/// The `length` field of entry `i`.
pub open spec fn spec_entry_length(page: Seq<u8>, i: int) -> int {
    spec_u64_at(page, entry_pos(i) + 8)
}

/// The 30 name bytes of entry `i`.
pub open spec fn spec_entry_name(page: Seq<u8>, i: int) -> Seq<u8> {
    page.subrange(entry_pos(i) + 16, entry_pos(i) + 46)
}

/// Entry `i` is live: the first byte of its name is not NUL.
pub open spec fn spec_entry_live(page: Seq<u8>, i: int) -> bool {
    spec_entry_name(page, i)[0] != 0
}

/// The page carries the magic number.
pub open spec fn spec_magic_ok(page: Seq<u8>) -> bool {
    spec_u16_at(page, 0) == MAGIC_NUMBER
}

/// Bytes actually reserved on the device for a pool of logical length
/// `length`: the length rounded up to whole pages, and at least one page.
pub open spec fn spec_reserved_len(length: int) -> int {
    let r = spec_align_up(length, PAGE_SIZE as int);
    if r < PAGE_SIZE as int {
        PAGE_SIZE as int
    } else {
        r
    }
}

/// Basic bounds of the reserved length.
pub proof fn lemma_reserved_len_props(length: int)
    requires
        length >= 0,
    ensures
        spec_reserved_len(length) >= length,
        spec_reserved_len(length) >= PAGE_SIZE as int,
        spec_reserved_len(length) % (PAGE_SIZE as int) == 0,
        spec_reserved_len(length) < length + PAGE_SIZE as int || spec_reserved_len(length)
            == PAGE_SIZE as int,
{
    lemma_align_up_props(length, PAGE_SIZE as int);
}

/// The reserved length grows with the logical length.
pub proof fn lemma_reserved_len_monotone(a: int, b: int)
    requires
        0 <= a <= b,
    ensures
        spec_reserved_len(a) <= spec_reserved_len(b),
{
    lemma_align_up_props(a, PAGE_SIZE as int);
    lemma_align_up_props(b, PAGE_SIZE as int);
    let x = spec_align_up(a, PAGE_SIZE as int);
    let y = spec_align_up(b, PAGE_SIZE as int);
    if x > y {
        assert(x >= y + PAGE_SIZE) by (nonlinear_arith)
            requires
                x % (PAGE_SIZE as int) == 0,
                y % (PAGE_SIZE as int) == 0,
                x > y,
                PAGE_SIZE == 0x1000u64,
        ;
        assert(x < a + PAGE_SIZE);
        assert(y >= b);
        assert(false);
    }
}

/// Entry `i` covers device byte `b`.
pub open spec fn spec_entry_covers(page: Seq<u8>, i: int, b: int) -> bool {
    spec_entry_offset(page, i) <= b < spec_entry_offset(page, i) + spec_reserved_len(
        spec_entry_length(page, i),
    )
}

/// Some live entry covers device byte `b`.
pub open spec fn spec_used(page: Seq<u8>, b: int) -> bool {
    exists|i: int|
        0 <= i < ENTRY_COUNT && #[trigger] spec_entry_live(page, i) && spec_entry_covers(
            page,
            i,
            b,
        )
}

/// Entry `i` names a region that lies inside the device body, page-aligned.
pub open spec fn spec_entry_ok(page: Seq<u8>, i: int, device_size: int) -> bool {
    let off = spec_entry_offset(page, i);
    let res = spec_reserved_len(spec_entry_length(page, i));
    &&& PAGE_SIZE as int <= off
    &&& off % (PAGE_SIZE as int) == 0
    &&& off + res <= device_size
}

/// Live entries `i` and `j` occupy disjoint parts of the device.
pub open spec fn spec_entries_disjoint(page: Seq<u8>, i: int, j: int) -> bool {
    let off_i = spec_entry_offset(page, i);
    let res_i = spec_reserved_len(spec_entry_length(page, i));
    let off_j = spec_entry_offset(page, j);
    let res_j = spec_reserved_len(spec_entry_length(page, j));
    off_i + res_i <= off_j || off_j + res_j <= off_i
}

/// Every live entry of the page is in bounds, aligned, and disjoint from
/// every other live entry.  A page read back from the device must satisfy
/// this before the table accepts it.
pub open spec fn spec_entries_consistent(page: Seq<u8>, device_size: int) -> bool {
    &&& forall|i: int|
        0 <= i < ENTRY_COUNT && #[trigger] spec_entry_live(page, i) ==> spec_entry_ok(
            page,
            i,
            device_size,
        )
    &&& forall|i: int, j: int|
        0 <= i < ENTRY_COUNT && 0 <= j < ENTRY_COUNT && i != j && #[trigger] spec_entry_live(
            page,
            i,
        ) && #[trigger] spec_entry_live(page, j) ==> spec_entries_disjoint(page, i, j)
}

/// A pool name as it stands in an entry: the name bytes, NUL-padded to the
/// full field width.
pub open spec fn spec_stored_name(nb: Seq<u8>) -> Seq<u8>
    recommends
        nb.len() <= NAME_LEN as int,
{
    nb + Seq::new((NAME_LEN - nb.len()) as nat, |x: int| 0u8)
}

/// The first slot whose live entry carries exactly this name, scanning from
/// slot `i` on.
pub open spec fn spec_find_slot_from(page: Seq<u8>, nb: Seq<u8>, i: int) -> Option<int>
    decreases ENTRY_COUNT as int - i,
{
    if i < 0 || i >= ENTRY_COUNT {
        None
    } else if spec_entry_live(page, i) && spec_entry_name(page, i) == spec_stored_name(nb) {
        Some(i)
    } else {
        spec_find_slot_from(page, nb, i + 1)
    }
}

/// The first slot whose live entry carries exactly this name.
pub open spec fn spec_find_slot(page: Seq<u8>, nb: Seq<u8>) -> Option<int> {
    spec_find_slot_from(page, nb, 0)
}

/// One pool entry, as read from the header page.
pub struct Entry {
    offset: u64,
    length: u64,
    name: Vec<u8>,
}

impl Entry {
    /// Device byte offset of the pool body.
    pub closed spec fn spec_offset(self) -> u64 {
        self.offset
    }

    /// Logical pool length in bytes, as requested at creation.
    pub closed spec fn spec_len(self) -> u64 {
        self.length
    }

    /// The stored name bytes, NUL-padded to `NAME_LEN`.
    pub closed spec fn spec_name(self) -> Seq<u8> {
        self.name@
    }

    /// The entry carries a full name field and a length whose page round-up
    /// fits in a `u64`.
    pub open spec fn wf(self) -> bool {
        &&& self.spec_name().len() == NAME_LEN
        &&& self.spec_len() + PAGE_SIZE - 1 <= u64::MAX
    }

    pub fn offset(&self) -> (r: u64)
        ensures
            r == self.spec_offset(),
    {
        self.offset
    }

    pub fn len(&self) -> (r: u64)
        ensures
            r == self.spec_len(),
    {
        self.length
    }

    /// The length rounded up to whole pages: the space the pool's body
    /// occupies on the device, except that a zero-length pool still reserves
    /// one page.
    pub fn real_len(&self) -> (r: u64)
        requires
            self.spec_len() + PAGE_SIZE - 1 <= u64::MAX,
        ensures
            r as int == spec_align_up(self.spec_len() as int, PAGE_SIZE as int),
    {
        let rem = self.length % PAGE_SIZE;
        if rem == 0 {
            self.length
        } else {
            self.length + (PAGE_SIZE - rem)
        }
    }

    /// Number of pages the pool body occupies.
    pub fn frames(&self) -> (r: u64)
        requires
            self.spec_len() + PAGE_SIZE - 1 <= u64::MAX,
        ensures
            r as int == spec_align_up(self.spec_len() as int, PAGE_SIZE as int) / (
            PAGE_SIZE as int),
    {
        self.real_len() / PAGE_SIZE
    }

    /// Whether the logical length is zero.
    pub fn is_empty(&self) -> (r: bool)
        ensures
            r == (self.spec_len() == 0),
    {
        self.length == 0
    }

    /// The name without its NUL padding.
    pub fn name(&self) -> (r: Vec<u8>)
        ensures
            r@ == trim_nul(self.spec_name()),
    {
        let mut out: Vec<u8> = Vec::new();
        let n = self.name.len();
        let mut i: usize = 0;
        while i < n
            invariant
                n == self.name@.len(),
                0 <= i <= n,
                forall|j: int| 0 <= j < i ==> self.name@[j] != 0,
                out@ =~= self.name@.subrange(0, i as int),
            decreases n - i,
        {
            let b = self.name[i];
            if b == 0 {
                proof {
                    lemma_trim_nul_prefix(self.name@, i as int);
                }
                return out;
            }
            out.push(b);
            proof {
                assert(out@ =~= self.name@.subrange(0, i as int + 1));
            }
            i += 1;
        }
        proof {
            lemma_trim_nul_all(self.name@);
        }
        out
    }
}

/// The name bytes up to, and not including, the first NUL.
pub open spec fn trim_nul(s: Seq<u8>) -> Seq<u8>
    decreases s.len(),
{
    if s.len() == 0 {
        s
    } else if s[0] == 0 {
        Seq::empty()
    } else {
        seq![s[0]] + trim_nul(s.subrange(1, s.len() as int))
    }
}

/// If the first `i` bytes are non-NUL and byte `i` is NUL, trimming yields
/// exactly those first `i` bytes.
proof fn lemma_trim_nul_prefix(s: Seq<u8>, i: int)
    requires
        0 <= i < s.len(),
        forall|j: int| 0 <= j < i ==> s[j] != 0,
        s[i] == 0,
    ensures
        trim_nul(s) =~= s.subrange(0, i),
    decreases i,
{
    if i == 0 {
    } else {
        let s1 = s.subrange(1, s.len() as int);
        lemma_trim_nul_prefix(s1, i - 1);
        assert(trim_nul(s) =~= seq![s[0]] + s1.subrange(0, i - 1));
    }
}

/// Trimming a sequence with no NUL at all returns it whole.
proof fn lemma_trim_nul_all(s: Seq<u8>)
    requires
        forall|j: int| 0 <= j < s.len() ==> s[j] != 0,
    ensures
        trim_nul(s) =~= s,
    decreases s.len(),
{
    if s.len() > 0 {
        let s1 = s.subrange(1, s.len() as int);
        lemma_trim_nul_all(s1);
        assert(trim_nul(s) =~= seq![s[0]] + s1);
    }
}

/// A live entry paired with its slot index, as yielded by `Table::entries`.
pub struct IterEntry {
    index: usize,
    inner: Entry,
}

impl IterEntry {
    pub closed spec fn spec_index(self) -> usize {
        self.index
    }

    pub closed spec fn spec_entry(self) -> Entry {
        self.inner
    }

    /// The slot index of this entry in the table.
    pub fn index(&self) -> (r: usize)
        ensures
            r == self.spec_index(),
    {
        self.index
    }

    /// The entry itself.
    pub fn entry(&self) -> (r: &Entry)
        ensures
            *r == self.spec_entry(),
    {
        &self.inner
    }
}

/// One pool table: the header-page bytes as they stand on the device, the
/// device size, and the free-range index over the device body.
pub struct Table {
    page: Vec<u8>,
    device_size: u64,
    free: RangeIndex,
}

impl Table {
    /// The header-page bytes.
    pub closed spec fn page_bytes(self) -> Seq<u8> {
        self.page@
    }

    /// Size in bytes of the whole device.
    pub closed spec fn spec_device_size(self) -> u64 {
        self.device_size
    }

    /// The free ranges over the device body, sorted by start.
    pub closed spec fn free_ranges(self) -> Seq<Span> {
        self.free@
    }

    /// Device byte `b` is currently free.
    pub open spec fn free_at(self, b: int) -> bool {
        covers(self.free_ranges(), b)
    }

    /// Well-formedness: the page is one page long and carries the magic;
    /// live entries are in bounds, aligned and pairwise disjoint; and the
    /// free index is canonical and holds exactly the body bytes that no live
    /// entry covers.
    pub open spec fn wf(self) -> bool {
        &&& self.page_bytes().len() == PAGE_SIZE as int
        &&& self.spec_device_size() >= PAGE_SIZE
        &&& spec_magic_ok(self.page_bytes())
        &&& spec_entries_consistent(self.page_bytes(), self.spec_device_size() as int)
        &&& canonical(self.free_ranges())
        &&& forall|b: int|
            PAGE_SIZE as int <= b < self.spec_device_size() as int ==> (#[trigger] self.free_at(b)
                <==> !spec_used(self.page_bytes(), b))
        &&& forall|b: int|
            #[trigger] self.free_at(b) ==> PAGE_SIZE as int <= b < self.spec_device_size() as int
    }

    /// Validates or initializes the header page of a device and builds the
    /// free-range index over its body.
    ///
    /// With a valid magic number the live entries are checked and the free
    /// index becomes the complement of their regions within the body; a page
    /// whose live entries are out of bounds, misaligned or overlapping is
    /// rejected.  With any other magic the page is freshly initialized:
    /// magic written, every entry zeroed, and the whole body free.
    pub fn new(device_size: u64, page: Vec<u8>) -> (r: Option<Table>)
        ensures
            match r {
                Some(t) => {
                    &&& t.wf()
                    &&& t.spec_device_size() == device_size
                    &&& page@.len() == PAGE_SIZE as int
                    &&& device_size >= PAGE_SIZE
                    &&& (spec_magic_ok(page@) ==> t.page_bytes() == page@)
                    &&& (!spec_magic_ok(page@) ==> {
                        &&& forall|i: int|
                            0 <= i < ENTRY_COUNT ==> !spec_entry_live(t.page_bytes(), i)
                        &&& forall|p: int| 2 <= p < PAGE_SIZE as int ==> t.page_bytes()[p] == 0
                        &&& t.free_ranges() == if device_size > PAGE_SIZE {
                            seq![Span { start: PAGE_SIZE, size: (device_size - PAGE_SIZE) as u64 }]
                        } else {
                            Seq::<Span>::empty()
                        }
                    })
                },
                None => {
                    page@.len() != PAGE_SIZE as int || device_size < PAGE_SIZE || (spec_magic_ok(
                        page@,
                    ) && !spec_entries_consistent(page@, device_size as int))
                },
            },
    {
        if page.len() != PAGE_SIZE as usize || device_size < PAGE_SIZE {
            return None;
        }
        let magic = read_u16(&page, 0);
        if magic == MAGIC_NUMBER {
            Self::recover(device_size, page)
        } else {
            Some(Self::init(device_size, page))
        }
    }

    /// Rebuilds a table from a page that already carries the magic number.
    #[verifier::rlimit(100)]
    fn recover(device_size: u64, page: Vec<u8>) -> (r: Option<Table>)
        requires
            page.len() == PAGE_SIZE as int,
            device_size >= PAGE_SIZE,
            spec_magic_ok(page@),
        ensures
            match r {
                Some(t) => {
                    &&& t.wf()
                    &&& t.spec_device_size() == device_size
                    &&& t.page_bytes() == page@
                },
                None => !spec_entries_consistent(page@, device_size as int),
            },
    {
        let mut free = if device_size > PAGE_SIZE {
            let mut v: Vec<Span> = Vec::new();
            v.push(Span { start: PAGE_SIZE, size: device_size - PAGE_SIZE });
            match RangeIndex::from_sorted(v) {
                Some(f) => f,
                None => {
                    return None;  // unreachable: a single non-empty range is canonical
                },
            }
        } else {
            RangeIndex::empty()
        };
        proof {
            assert forall|b: int| free.is_free(b) <==> (PAGE_SIZE as int <= b
                < device_size as int && !spec_used_first(page@, 0, b)) by {
                if device_size > PAGE_SIZE {
                    if free.is_free(b) {
                        let w = choose|w: int|
                            0 <= w < free@.len() && (#[trigger] free@[w]).contains(b);
                        assert(w == 0);
                    }
                    if PAGE_SIZE as int <= b < device_size as int {
                        assert(free@[0].contains(b));
                    }
                }
            }
        }

        let mut i: usize = 0;
        while i < ENTRY_COUNT
            invariant
                page.len() == PAGE_SIZE as int,
                device_size >= PAGE_SIZE,
                0 <= i <= ENTRY_COUNT,
                free.wf(),
                forall|j: int|
                    0 <= j < i && #[trigger] spec_entry_live(page@, j) ==> spec_entry_ok(
                        page@,
                        j,
                        device_size as int,
                    ),
                forall|j: int, l: int|
                    0 <= j < i && 0 <= l < i && j != l && #[trigger] spec_entry_live(page@, j)
                        && #[trigger] spec_entry_live(page@, l) ==> spec_entries_disjoint(
                        page@,
                        j,
                        l,
                    ),
                forall|b: int|
                    #[trigger] free.is_free(b) <==> (PAGE_SIZE as int <= b < device_size as int
                        && !spec_used_first(page@, i as int, b)),
            decreases ENTRY_COUNT - i,
        {
            let pos = 2 + ENTRY_SIZE * i;
            let live = page[pos + 16] != 0;
            proof {
                assert(spec_entry_name(page@, i as int)[0] == page@[entry_pos(i as int) + 16]);
            }
            if live {
                let off = read_u64(&page, pos);
                let length = read_u64(&page, pos + 8);
                if length > u64::MAX - (PAGE_SIZE - 1) {
                    proof {
                        lemma_reserved_len_props(length as int);
                        assert(spec_entry_live(page@, i as int));
                        assert(!spec_entry_ok(page@, i as int, device_size as int));
                    }
                    return None;
                }
                let rem = length % PAGE_SIZE;
                let rounded = if rem == 0 {
                    length
                } else {
                    length + (PAGE_SIZE - rem)
                };
                let reserved = if rounded < PAGE_SIZE {
                    PAGE_SIZE
                } else {
                    rounded
                };
                if off % PAGE_SIZE != 0 {
                    proof {
                        assert(spec_entry_live(page@, i as int));
                        assert(!spec_entry_ok(page@, i as int, device_size as int));
                    }
                    return None;
                }
                if off > u64::MAX - reserved {
                    proof {
                        lemma_reserved_len_props(length as int);
                        assert(reserved as int == spec_reserved_len(length as int));
                        assert(spec_entry_live(page@, i as int));
                        assert(!spec_entry_ok(page@, i as int, device_size as int));
                    }
                    return None;
                }
                let span = Span { start: off, size: reserved };
                let ghost prev = free;
                let ok = free.reserve_exact(span);
                if !ok {
                    proof {
                        lemma_reserve_exact_failure(prev, page@, i as int, span, device_size);
                    }
                    return None;
                }
                proof {
                    assert(free.wf());
                    assert(ok <==> (forall|b: int| span.contains(b) ==> prev.is_free(b)));
                    assert(forall|b: int|
                        #[trigger] free.is_free(b) <==> (prev.is_free(b) && !span.contains(b)));
                    lemma_recover_step_live(prev, free, page@, i as int, span, device_size);
                }
            } else {
                proof {
                    assert forall|b: int| spec_used_first(page@, i as int + 1, b)
                        <==> spec_used_first(page@, i as int, b) by {
                        if spec_used_first(page@, i as int + 1, b) {
                            let w = choose|w: int|
                                0 <= w < i as int + 1 && #[trigger] spec_entry_live(page@, w)
                                    && spec_entry_covers(page@, w, b);
                            assert(w < i as int);
                        }
                    }
                }
            }
            i += 1;
        }
        let ghost pg = page@;
        let ghost fr = free;
        proof {
            assert(forall|b: int|
                spec_used(pg, b) <==> spec_used_first(pg, ENTRY_COUNT as int, b));
        }
        let t = Table { page, device_size, free };
        proof {
            assert(t.page_bytes() == pg);
            assert(t.free_ranges() == fr@);
            assert forall|b: int|
                PAGE_SIZE as int <= b < t.spec_device_size() as int implies (#[trigger] t.free_at(b)
                <==> !spec_used(t.page_bytes(), b)) by {
                assert(t.free_at(b) == fr.is_free(b));
            }
            assert forall|b: int| #[trigger] t.free_at(b) implies PAGE_SIZE as int <= b
                < t.spec_device_size() as int by {
                assert(fr.is_free(b));
            }
        }
        Some(t)
    }

    /// Writes a fresh table: magic number, all entries zeroed, whole body
    /// free.
    fn init(device_size: u64, mut page: Vec<u8>) -> (t: Table)
        requires
            page.len() == PAGE_SIZE as int,
            device_size >= PAGE_SIZE,
        ensures
            t.wf(),
            t.spec_device_size() == device_size,
            forall|i: int| 0 <= i < ENTRY_COUNT ==> !spec_entry_live(t.page_bytes(), i),
            forall|p: int| 2 <= p < PAGE_SIZE as int ==> t.page_bytes()[p] == 0,
            t.free_ranges() == if device_size > PAGE_SIZE {
                seq![Span { start: PAGE_SIZE, size: (device_size - PAGE_SIZE) as u64 }]
            } else {
                Seq::<Span>::empty()
            },
    {
        let mut p: usize = 2;
        while p < PAGE_SIZE as usize
            invariant
                page.len() == PAGE_SIZE as int,
                2 <= p <= PAGE_SIZE as int,
                forall|q: int| 2 <= q < p ==> page@[q] == 0,
            decreases PAGE_SIZE as int - p,
        {
            page.set(p, 0);
            p += 1;
        }
        page.set(0, (MAGIC_NUMBER % 0x100) as u8);
        page.set(1, (MAGIC_NUMBER / 0x100) as u8);
        let free = if device_size > PAGE_SIZE {
            let mut v: Vec<Span> = Vec::new();
            v.push(Span { start: PAGE_SIZE, size: device_size - PAGE_SIZE });
            match RangeIndex::from_sorted(v) {
                Some(f) => f,
                None => RangeIndex::empty(),  // unreachable: the single range is canonical
            }
        } else {
            RangeIndex::empty()
        };
        let t = Table { page, device_size, free };
        proof {
            assert(spec_magic_ok(t.page_bytes()));
            assert forall|i: int| 0 <= i < ENTRY_COUNT implies !spec_entry_live(
                t.page_bytes(),
                i,
            ) by {
                assert(spec_entry_name(t.page_bytes(), i)[0] == t.page_bytes()[entry_pos(i) + 16]);
            }
            assert forall|b: int|
                PAGE_SIZE as int <= b < t.spec_device_size() as int implies (#[trigger] t.free_at(b)
                <==> !spec_used(t.page_bytes(), b)) by {
                if device_size > PAGE_SIZE {
                    assert(t.free_ranges()[0].contains(b));
                }
                assert(!spec_used(t.page_bytes(), b));
            }
            assert forall|b: int| #[trigger] t.free_at(b) implies PAGE_SIZE as int <= b
                < t.spec_device_size() as int by {
                if t.free_at(b) {
                    let w = choose|w: int|
                        0 <= w < t.free_ranges().len() && (#[trigger] t.free_ranges()[w]).contains(
                            b,
                        );
                    assert(w == 0);
                }
            }
        }
        t
    }

    /// Whether entry `k` of this table is live.
    fn live_at(&self, k: usize) -> (r: bool)
        requires
            self.page_bytes().len() == PAGE_SIZE as int,
            k < ENTRY_COUNT,
        ensures
            r == spec_entry_live(self.page_bytes(), k as int),
    {
        let b = self.page[2 + ENTRY_SIZE * k + 16];
        proof {
            assert(spec_entry_name(self.page_bytes(), k as int)[0] == self.page_bytes()[entry_pos(
                k as int,
            ) + 16]);
        }
        b != 0
    }

    /// Writes the offset and length fields of entry `k`.
    fn store_fields(page: &mut Vec<u8>, k: usize, off: u64, length: u64)
        requires
            old(page).len() == PAGE_SIZE as int,
            k < ENTRY_COUNT,
        ensures
            final(page)@.len() == PAGE_SIZE as int,
            spec_entry_offset(final(page)@, k as int) == off as int,
            spec_entry_length(final(page)@, k as int) == length as int,
            forall|q: int|
                0 <= q < PAGE_SIZE as int && !(entry_pos(k as int) <= q < entry_pos(k as int) + 16)
                    ==> final(page)@[q] == old(page)@[q],
    {
        let pos = 2 + ENTRY_SIZE * k;
        write_u64(page, pos, off);
        write_u64(page, pos + 8, length);
    }

    /// Writes the name field of entry `k`: the given bytes, NUL-padded.
    fn store_name(page: &mut Vec<u8>, k: usize, name: &[u8])
        requires
            old(page).len() == PAGE_SIZE as int,
            k < ENTRY_COUNT,
            name@.len() <= NAME_LEN as int,
        ensures
            final(page)@.len() == PAGE_SIZE as int,
            spec_entry_name(final(page)@, k as int) == name@ + Seq::new(
                (NAME_LEN - name@.len()) as nat,
                |x: int| 0u8,
            ),
            forall|q: int|
                0 <= q < PAGE_SIZE as int && !(entry_pos(k as int) + 16 <= q < entry_pos(k as int)
                    + 46) ==> final(page)@[q] == old(page)@[q],
    {
        let pos = 2 + ENTRY_SIZE * k + 16;
        let n = name.len();
        let mut j: usize = 0;
        while j < NAME_LEN
            invariant
                page.len() == PAGE_SIZE as int,
                pos == entry_pos(k as int) + 16,
                pos + NAME_LEN as int <= PAGE_SIZE as int,
                n == name@.len() <= NAME_LEN as int,
                0 <= j <= NAME_LEN as int,
                forall|q: int|
                    pos as int <= q < pos as int + j ==> #[trigger] page@[q] == (if q - pos < n {
                        name@[q - pos]
                    } else {
                        0u8
                    }),
                forall|q: int|
                    0 <= q < PAGE_SIZE as int && !(pos as int <= q < pos as int + j) ==> page@[q]
                        == old(page)@[q],
            decreases NAME_LEN as int - j,
        {
            let b = if j < n {
                name[j]
            } else {
                0
            };
            page.set(pos + j, b);
            j += 1;
        }
        proof {
            assert forall|y: int| 0 <= y < NAME_LEN as int implies #[trigger] spec_entry_name(
                page@,
                k as int,
            )[y] == (if y < n {
                name@[y]
            } else {
                0u8
            }) by {
                assert(page@[pos as int + y] == (if (pos as int + y) - pos < n {
                    name@[(pos as int + y) - pos]
                } else {
                    0u8
                }));
            }
            assert(spec_entry_name(page@, k as int) =~= name@ + Seq::new(
                (NAME_LEN - name@.len()) as nat,
                |x: int| 0u8,
            ));
        }
    }

    /// Zeroes all 46 bytes of entry `k`.
    fn zero_entry(page: &mut Vec<u8>, k: usize)
        requires
            old(page).len() == PAGE_SIZE as int,
            k < ENTRY_COUNT,
        ensures
            final(page)@.len() == PAGE_SIZE as int,
            spec_entry_offset(final(page)@, k as int) == 0,
            spec_entry_length(final(page)@, k as int) == 0,
            spec_entry_name(final(page)@, k as int) == Seq::new(NAME_LEN as nat, |x: int| 0u8),
            !spec_entry_live(final(page)@, k as int),
            forall|q: int|
                0 <= q < PAGE_SIZE as int && !(entry_pos(k as int) <= q < entry_pos(k as int) + 46)
                    ==> final(page)@[q] == old(page)@[q],
    {
        let pos = 2 + ENTRY_SIZE * k;
        let mut j: usize = 0;
        while j < ENTRY_SIZE
            invariant
                page.len() == PAGE_SIZE as int,
                pos == entry_pos(k as int),
                pos + ENTRY_SIZE as int <= PAGE_SIZE as int,
                0 <= j <= ENTRY_SIZE as int,
                forall|q: int| pos as int <= q < pos as int + j ==> #[trigger] page@[q] == 0u8,
                forall|q: int|
                    0 <= q < PAGE_SIZE as int && !(pos as int <= q < pos as int + j) ==> page@[q]
                        == old(page)@[q],
            decreases ENTRY_SIZE as int - j,
        {
            page.set(pos + j, 0);
            j += 1;
        }
        proof {
            assert(spec_entry_offset(page@, k as int) == 0);
            assert(spec_entry_length(page@, k as int) == 0);
            assert forall|y: int| 0 <= y < NAME_LEN as int implies spec_entry_name(
                page@,
                k as int,
            )[y] == 0u8 by {
                assert(page@[pos as int + 16 + y] == 0u8);
            }
            assert(spec_entry_name(page@, k as int) =~= Seq::new(NAME_LEN as nat, |x: int| 0u8));
        }
    }

    /// Creates a pool entry: picks the first empty slot, reserves a
    /// page-aligned block of the device body that holds `size` bytes, and
    /// writes the entry.  Returns the device offset of the block.
    ///
    /// Fails, leaving the table unchanged, exactly when the name is empty,
    /// starts with a NUL byte or is longer than `NAME_LEN` bytes, when the
    /// rounded size cannot be represented, when every slot is taken, or when
    /// no free range of the body can hold the block.
    pub fn allocate(&mut self, name: &str, size: u64) -> (r: Option<u64>)
        requires
            old(self).wf(),
        ensures
            final(self).wf(),
            final(self).spec_device_size() == old(self).spec_device_size(),
            match r {
                Some(off) => {
                    &&& 1 <= name.spec_bytes().len() <= NAME_LEN as int
                    &&& (forall|j: int| 0 <= j < name.spec_bytes().len() ==> name.spec_bytes()[j] != 0)
                    &&& PAGE_SIZE as int <= off && off as int % (PAGE_SIZE as int) == 0
                    &&& off + spec_reserved_len(size as int) <= old(self).spec_device_size()
                    &&& Some(off as int) == spec_first_fit(
                        old(self).free_ranges(),
                        spec_reserved_len(size as int) as u64,
                        PAGE_SIZE,
                    )
                    &&& exists|k: int|
                        {
                            &&& 0 <= k < ENTRY_COUNT
                            &&& !spec_entry_live(old(self).page_bytes(), k)
                            &&& (forall|j: int|
                                0 <= j < k ==> spec_entry_live(old(self).page_bytes(), j))
                            &&& spec_entry_offset(final(self).page_bytes(), k) == off as int
                            &&& spec_entry_length(final(self).page_bytes(), k) == size as int
                            &&& #[trigger] spec_entry_name(final(self).page_bytes(), k)
                                == name.spec_bytes() + Seq::new(
                                (NAME_LEN - name.spec_bytes().len()) as nat,
                                |x: int| 0u8,
                            )
                            &&& forall|q: int|
                                0 <= q < PAGE_SIZE as int && !(entry_pos(k) <= q < entry_pos(k)
                                    + 46) ==> final(self).page_bytes()[q]
                                    == old(self).page_bytes()[q]
                        }
                    &&& forall|b: int|
                        #[trigger] final(self).free_at(b) <==> (old(self).free_at(b) && !(
                        off as int <= b < off + spec_reserved_len(size as int)))
                },
                None => {
                    &&& *final(self) == *old(self)
                    &&& {
                        ||| name.spec_bytes().len() == 0
                        ||| name.spec_bytes().len() > NAME_LEN as int
                        ||| (exists|j: int|
                            0 <= j < name.spec_bytes().len() && name.spec_bytes()[j] == 0)
                        ||| size as int + PAGE_SIZE - 1 > u64::MAX
                        ||| (forall|j: int|
                            0 <= j < ENTRY_COUNT ==> spec_entry_live(old(self).page_bytes(), j))
                        ||| spec_first_fit(
                            old(self).free_ranges(),
                            spec_reserved_len(size as int) as u64,
                            PAGE_SIZE,
                        ) is None
                    }
                },
            },
    {
        let nb = name.as_bytes();
        if nb.len() == 0 || nb.len() > NAME_LEN {
            return None;
        }
        // A NUL byte anywhere in the name would blur the line between the
        // name and its padding on the device.
        let mut j: usize = 0;
        while j < nb.len()
            invariant
                *self == *old(self),
                old(self).wf(),
                nb@ == name.spec_bytes(),
                0 <= j <= nb@.len(),
                forall|x: int| 0 <= x < j ==> nb@[x] != 0,
            decreases nb@.len() - j,
        {
            if nb[j] == 0 {
                return None;
            }
            j += 1;
        }
        if size > u64::MAX - (PAGE_SIZE - 1) {
            return None;
        }

        // First empty slot.
        let mut k: usize = 0;
        while k < ENTRY_COUNT && self.live_at(k)
            invariant
                *self == *old(self),
                old(self).wf(),
                0 <= k <= ENTRY_COUNT,
                forall|j: int| 0 <= j < k ==> spec_entry_live(old(self).page_bytes(), j),
            decreases ENTRY_COUNT as int - k,
        {
            k += 1;
        }
        if k == ENTRY_COUNT {
            return None;
        }
        proof {
            assert(!spec_entry_live(old(self).page_bytes(), k as int));
        }

        // Space for the body.
        let rem = size % PAGE_SIZE;
        let rounded = if rem == 0 {
            size
        } else {
            size + (PAGE_SIZE - rem)
        };
        let needed = if rounded < PAGE_SIZE {
            PAGE_SIZE
        } else {
            rounded
        };
        proof {
            assert(needed as int == spec_reserved_len(size as int));
        }
        let ghost f1 = self.free;
        let ghost p1 = self.page@;
        proof {
            lemma_page_size_pow2();
        }
        let got = self.free.reserve_range(needed, PAGE_SIZE);
        let span = match got {
            Some(span) => span,
            None => {
                proof {
                    assert(self.page_bytes() == p1);
                    assert(old(self).free_ranges() == f1@);
                    assert(spec_first_fit(f1@, needed, PAGE_SIZE) is None);
                }
                return None;
            },
        };
        proof {
            assert(self.free.wf());
            assert(got == Some(span));
            assert(span.size == needed);
            assert(span.start as int % (PAGE_SIZE as int) == 0);
            assert(Some(span.start as int) == spec_first_fit(f1@, needed, PAGE_SIZE));
            assert(old(self).free_ranges() == f1@);
            assert(forall|b: int| span.contains(b) ==> f1.is_free(b));
            assert(forall|b: int|
                #[trigger] self.free.is_free(b) <==> (f1.is_free(b) && !span.contains(b)));
        }

        // Write the entry.
        let off = span.start;
        Self::store_fields(&mut self.page, k, off, size);
        Self::store_name(&mut self.page, k, nb);
        proof {
            assert(spec_entry_name(self.page_bytes(), k as int)[0] == nb[0]);
            assert(spec_entry_live(self.page_bytes(), k as int));
            assert forall|b: int|
                PAGE_SIZE as int <= b < self.device_size as int implies (#[trigger] f1.is_free(b)
                <==> !spec_used(p1, b)) by {
                assert(old(self).free_at(b) <==> !spec_used(old(self).page_bytes(), b));
            }
            assert forall|b: int| #[trigger] f1.is_free(b) implies PAGE_SIZE as int <= b
                < self.device_size as int by {
                assert(old(self).free_at(b));
            }
            lemma_alloc_wf(
                p1,
                self.page@,
                k as int,
                span,
                size,
                self.device_size,
                f1,
                self.free,
            );
            assert forall|b: int|
                PAGE_SIZE as int <= b < self.device_size as int implies (#[trigger] self.free_at(b)
                <==> !spec_used(self.page_bytes(), b)) by {
                assert(self.free.is_free(b) <==> !spec_used(self.page@, b));
            }
            assert forall|b: int| #[trigger] self.free_at(b) implies PAGE_SIZE as int <= b
                < self.device_size as int by {
                assert(self.free.is_free(b));
            }
            assert forall|b: int|
                #[trigger] self.free_at(b) <==> (old(self).free_at(b) && !(off as int <= b < off
                + spec_reserved_len(size as int))) by {
                assert(self.free.is_free(b) <==> (f1.is_free(b) && !span.contains(b)));
            }
            assert(spec_entry_name(self.page_bytes(), k as int) == name.spec_bytes() + Seq::new(
                (NAME_LEN - name.spec_bytes().len()) as nat,
                |x: int| 0u8,
            ));
        }
        Some(off)
    }

    /// Frees the pool entry in slot `index`: releases its device region back
    /// to the free index and zeroes the slot.  Returns `false`, without
    /// changing anything, when the slot is out of range or not live.
    pub fn deallocate(&mut self, index: usize) -> (r: bool)
        requires
            old(self).wf(),
        ensures
            final(self).wf(),
            final(self).spec_device_size() == old(self).spec_device_size(),
            r <==> (index < ENTRY_COUNT && spec_entry_live(old(self).page_bytes(), index as int)),
            r ==> {
                &&& !spec_entry_live(final(self).page_bytes(), index as int)
                &&& spec_entry_offset(final(self).page_bytes(), index as int) == 0
                &&& spec_entry_length(final(self).page_bytes(), index as int) == 0
                &&& forall|q: int|
                    0 <= q < PAGE_SIZE as int && !(entry_pos(index as int) <= q < entry_pos(
                        index as int,
                    ) + 46) ==> final(self).page_bytes()[q] == old(self).page_bytes()[q]
                &&& forall|b: int|
                    #[trigger] final(self).free_at(b) <==> (old(self).free_at(b)
                        || spec_entry_covers(old(self).page_bytes(), index as int, b))
            },
            !r ==> *final(self) == *old(self),
    {
        if index >= ENTRY_COUNT {
            return false;
        }
        if !self.live_at(index) {
            return false;
        }
        let ghost p1 = self.page@;
        let ghost f1 = self.free;
        proof {
            assert(spec_entry_live(p1, index as int));
            assert(spec_entry_ok(p1, index as int, self.device_size as int));
            lemma_reserved_len_props(spec_entry_length(p1, index as int));
        }
        let pos = 2 + ENTRY_SIZE * index;
        let off = read_u64(&self.page, pos);
        let length = read_u64(&self.page, pos + 8);
        let rem = length % PAGE_SIZE;
        let rounded = if rem == 0 {
            length
        } else {
            length + (PAGE_SIZE - rem)
        };
        let reserved = if rounded < PAGE_SIZE {
            PAGE_SIZE
        } else {
            rounded
        };
        let span = Span { start: off, size: reserved };
        proof {
            assert(span.size as int == spec_reserved_len(spec_entry_length(p1, index as int)));
            assert(spec_entry_covers(p1, index as int, span.start as int));
            assert(spec_used(p1, span.start as int));
            assert(old(self).free_at(span.start as int) <==> !spec_used(
                old(self).page_bytes(),
                span.start as int,
            ));
        }
        let ok = self.free.release_range(span);
        proof {
            assert(ok <==> !f1.is_free(span.start as int));
            assert(f1.is_free(span.start as int) == old(self).free_at(span.start as int));
            assert(ok);
            assert(forall|b: int|
                #[trigger] self.free.is_free(b) <==> (f1.is_free(b) || span.contains(b)));
        }
        Self::zero_entry(&mut self.page, index);
        proof {
            assert forall|b: int|
                PAGE_SIZE as int <= b < self.device_size as int implies (#[trigger] f1.is_free(b)
                <==> !spec_used(p1, b)) by {
                assert(old(self).free_at(b) <==> !spec_used(old(self).page_bytes(), b));
            }
            assert forall|b: int| #[trigger] f1.is_free(b) implies PAGE_SIZE as int <= b
                < self.device_size as int by {
                assert(old(self).free_at(b));
            }
            lemma_dealloc_wf(p1, self.page@, index as int, span, self.device_size, f1, self.free);
            assert forall|b: int|
                PAGE_SIZE as int <= b < self.device_size as int implies (#[trigger] self.free_at(b)
                <==> !spec_used(self.page_bytes(), b)) by {
                assert(self.free.is_free(b) <==> !spec_used(self.page@, b));
            }
            assert forall|b: int| #[trigger] self.free_at(b) implies PAGE_SIZE as int <= b
                < self.device_size as int by {
                assert(self.free.is_free(b));
            }
            assert forall|b: int|
                #[trigger] self.free_at(b) <==> (old(self).free_at(b) || spec_entry_covers(
                old(self).page_bytes(),
                index as int,
                b,
            )) by {
                assert(self.free.is_free(b) <==> (f1.is_free(b) || span.contains(b)));
            }
        }
        true
    }

    /// Moves the pool entry in slot `index` to a larger region: reserves a
    /// block for `new_size` bytes, releases the old region, and rewrites the
    /// entry's offset and length.  The caller must copy the body afterwards.
    /// Returns `false`, without changing anything, when the slot is not
    /// live, when the new size does not need a larger region, or when no
    /// free range can hold the new block.
    pub fn reallocate(&mut self, index: usize, new_size: u64) -> (r: bool)
        requires
            old(self).wf(),
        ensures
            final(self).wf(),
            final(self).spec_device_size() == old(self).spec_device_size(),
            r ==> {
                let p1 = old(self).page_bytes();
                let p2 = final(self).page_bytes();
                let old_off = spec_entry_offset(p1, index as int);
                let old_res = spec_reserved_len(spec_entry_length(p1, index as int));
                let new_off = spec_entry_offset(p2, index as int);
                &&& index < ENTRY_COUNT
                &&& spec_entry_live(p1, index as int)
                &&& spec_reserved_len(new_size as int) > old_res
                &&& spec_entry_length(p2, index as int) == new_size as int
                &&& spec_entry_name(p2, index as int) == spec_entry_name(p1, index as int)
                &&& spec_entry_live(p2, index as int)
                &&& PAGE_SIZE as int <= new_off && new_off % (PAGE_SIZE as int) == 0
                &&& new_off + spec_reserved_len(new_size as int)
                    <= old(self).spec_device_size() as int
                &&& Some(new_off) == spec_first_fit(
                    old(self).free_ranges(),
                    spec_reserved_len(new_size as int) as u64,
                    PAGE_SIZE,
                )
                &&& (forall|q: int|
                    0 <= q < PAGE_SIZE as int && !(entry_pos(index as int) <= q < entry_pos(
                        index as int,
                    ) + 16) ==> p2[q] == p1[q])
                &&& (new_off + spec_reserved_len(new_size as int) <= old_off || old_off + old_res
                    <= new_off)
                &&& (forall|b: int|
                    #[trigger] final(self).free_at(b) <==> ((old(self).free_at(b) || (old_off <= b
                        < old_off + old_res)) && !(new_off <= b < new_off + spec_reserved_len(
                        new_size as int,
                    ))))
            },
            !r ==> {
                &&& *final(self) == *old(self)
                &&& {
                    ||| index >= ENTRY_COUNT
                    ||| !spec_entry_live(old(self).page_bytes(), index as int)
                    ||| new_size as int + PAGE_SIZE - 1 > u64::MAX
                    ||| spec_reserved_len(new_size as int) <= spec_reserved_len(
                        spec_entry_length(old(self).page_bytes(), index as int),
                    )
                    ||| spec_first_fit(
                        old(self).free_ranges(),
                        spec_reserved_len(new_size as int) as u64,
                        PAGE_SIZE,
                    ) is None
                }
            },
    {
        if index >= ENTRY_COUNT {
            return false;
        }
        if !self.live_at(index) {
            return false;
        }
        if new_size > u64::MAX - (PAGE_SIZE - 1) {
            return false;
        }
        let ghost p1 = self.page@;
        let ghost f1 = self.free;
        proof {
            assert(spec_entry_live(p1, index as int));
            assert(spec_entry_ok(p1, index as int, self.device_size as int));
            lemma_reserved_len_props(spec_entry_length(p1, index as int));
            lemma_reserved_len_props(new_size as int);
        }
        let pos = 2 + ENTRY_SIZE * index;
        let old_off = read_u64(&self.page, pos);
        let old_length = read_u64(&self.page, pos + 8);
        let old_rem = old_length % PAGE_SIZE;
        let old_rounded = if old_rem == 0 {
            old_length
        } else {
            old_length + (PAGE_SIZE - old_rem)
        };
        let old_reserved = if old_rounded < PAGE_SIZE {
            PAGE_SIZE
        } else {
            old_rounded
        };
        let new_rem = new_size % PAGE_SIZE;
        let new_rounded = if new_rem == 0 {
            new_size
        } else {
            new_size + (PAGE_SIZE - new_rem)
        };
        let new_reserved = if new_rounded < PAGE_SIZE {
            PAGE_SIZE
        } else {
            new_rounded
        };
        if new_reserved <= old_reserved {
            return false;
        }
        proof {
            lemma_page_size_pow2();
        }
        let got = self.free.reserve_range(new_reserved, PAGE_SIZE);
        let nspan = match got {
            Some(nspan) => nspan,
            None => {
                proof {
                    assert(old(self).free_ranges() == f1@);
                    assert(spec_first_fit(f1@, new_reserved, PAGE_SIZE) is None);
                }
                return false;
            },
        };
        proof {
            assert(self.free.wf());
            assert(got == Some(nspan));
            assert(nspan.size == new_reserved);
            assert(Some(nspan.start as int) == spec_first_fit(f1@, new_reserved, PAGE_SIZE));
            assert(old(self).free_ranges() == f1@);
            assert(forall|b: int| nspan.contains(b) ==> f1.is_free(b));
            assert(forall|b: int|
                #[trigger] self.free.is_free(b) <==> (f1.is_free(b) && !nspan.contains(b)));
        }
        let ghost f2 = self.free;
        let ospan = Span { start: old_off, size: old_reserved };
        proof {
            assert(ospan.size as int == spec_reserved_len(spec_entry_length(p1, index as int)));
            assert(spec_entry_covers(p1, index as int, ospan.start as int));
            assert(spec_used(p1, ospan.start as int));
            assert(old(self).free_at(ospan.start as int) <==> !spec_used(
                old(self).page_bytes(),
                ospan.start as int,
            ));
            assert(!f1.is_free(ospan.start as int));
        }
        let ok = self.free.release_range(ospan);
        proof {
            assert(ok <==> !f2.is_free(ospan.start as int));
            assert(ok);
            assert(forall|b: int|
                #[trigger] self.free.is_free(b) <==> (f2.is_free(b) || ospan.contains(b)));
        }
        Self::store_fields(&mut self.page, index, nspan.start, new_size);
        proof {
            assert forall|b: int|
                PAGE_SIZE as int <= b < self.device_size as int implies (#[trigger] f1.is_free(b)
                <==> !spec_used(p1, b)) by {
                assert(old(self).free_at(b) <==> !spec_used(old(self).page_bytes(), b));
            }
            assert forall|b: int| #[trigger] f1.is_free(b) implies PAGE_SIZE as int <= b
                < self.device_size as int by {
                assert(old(self).free_at(b));
            }
            lemma_realloc_wf(
                p1,
                self.page@,
                index as int,
                ospan,
                nspan,
                new_size,
                self.device_size,
                f1,
                f2,
                self.free,
            );
            assert forall|b: int|
                PAGE_SIZE as int <= b < self.device_size as int implies (#[trigger] self.free_at(b)
                <==> !spec_used(self.page_bytes(), b)) by {
                assert(self.free.is_free(b) <==> !spec_used(self.page@, b));
            }
            assert forall|b: int| #[trigger] self.free_at(b) implies PAGE_SIZE as int <= b
                < self.device_size as int by {
                assert(self.free.is_free(b));
            }
            assert forall|b: int|
                #[trigger] self.free_at(b) <==> ((old(self).free_at(b) || (ospan.start as int <= b
                    < ospan.end())) && !(nspan.start as int <= b < nspan.end())) by {
                assert(self.free.is_free(b) <==> (f2.is_free(b) || ospan.contains(b)));
                assert(f2.is_free(b) <==> (f1.is_free(b) && !nspan.contains(b)));
                if ospan.contains(b) {
                    assert(!nspan.contains(b)) by {
                        if nspan.contains(b) {
                            assert(f1.is_free(b));
                            assert(spec_used(p1, b));
                        }
                    }
                }
            }
            // The new and the old interval cannot overlap: the new one was
            // free, the old one was not.
            assert(nspan.end() <= ospan.start || ospan.end() <= nspan.start) by {
                if !(nspan.end() <= ospan.start || ospan.end() <= nspan.start) {
                    let c = if nspan.start as int >= ospan.start as int {
                        nspan.start as int
                    } else {
                        ospan.start as int
                    };
                    assert(nspan.contains(c) && ospan.contains(c));
                    assert(f1.is_free(c));
                    assert(spec_entry_covers(p1, index as int, c));
                    assert(spec_used(p1, c));
                }
            }
        }
        true
    }

    /// Whether entry `k` is live and named exactly `nb`.
    fn name_matches(&self, k: usize, nb: &[u8]) -> (r: bool)
        requires
            self.page_bytes().len() == PAGE_SIZE as int,
            k < ENTRY_COUNT,
            nb@.len() <= NAME_LEN as int,
        ensures
            r == (spec_entry_live(self.page_bytes(), k as int) && spec_entry_name(
                self.page_bytes(),
                k as int,
            ) == spec_stored_name(nb@)),
    {
        if !self.live_at(k) {
            return false;
        }
        let pos = 2 + ENTRY_SIZE * k + 16;
        let n = nb.len();
        let mut j: usize = 0;
        while j < NAME_LEN
            invariant
                self.page_bytes().len() == PAGE_SIZE as int,
                k < ENTRY_COUNT,
                pos == entry_pos(k as int) + 16,
                n == nb@.len() <= NAME_LEN as int,
                0 <= j <= NAME_LEN as int,
                forall|y: int|
                    0 <= y < j ==> #[trigger] self.page@[pos as int + y] == (if y < n {
                        nb@[y]
                    } else {
                        0u8
                    }),
            decreases NAME_LEN as int - j,
        {
            let want = if j < n {
                nb[j]
            } else {
                0
            };
            if self.page[pos + j] != want {
                proof {
                    assert(spec_entry_name(self.page_bytes(), k as int)[j as int]
                        == self.page@[pos as int + j]);
                    assert(spec_stored_name(nb@)[j as int] == want);
                }
                return false;
            }
            j += 1;
        }
        proof {
            assert forall|y: int| 0 <= y < NAME_LEN as int implies #[trigger] spec_entry_name(
                self.page_bytes(),
                k as int,
            )[y] == spec_stored_name(nb@)[y] by {
                assert(self.page@[pos as int + y] == (if y < n {
                    nb@[y]
                } else {
                    0u8
                }));
            }
            assert(spec_entry_name(self.page_bytes(), k as int) =~= spec_stored_name(nb@));
        }
        true
    }

    /// The slot of the live entry named `nb`, if any.
    pub fn find_by_name(&self, nb: &[u8]) -> (r: Option<usize>)
        requires
            self.wf(),
            nb@.len() <= NAME_LEN as int,
        ensures
            match r {
                Some(k) => k < ENTRY_COUNT && spec_find_slot(self.page_bytes(), nb@) == Some(
                    k as int,
                ),
                None => spec_find_slot(self.page_bytes(), nb@) is None,
            },
    {
        let mut k: usize = 0;
        while k < ENTRY_COUNT
            invariant
                self.wf(),
                nb@.len() <= NAME_LEN as int,
                0 <= k <= ENTRY_COUNT,
                spec_find_slot(self.page_bytes(), nb@) == spec_find_slot_from(
                    self.page_bytes(),
                    nb@,
                    k as int,
                ),
            decreases ENTRY_COUNT as int - k,
        {
            if self.name_matches(k, nb) {
                return Some(k);
            }
            k += 1;
        }
        None
    }

    /// The slot of the live entry whose region starts at this device
    /// offset, if any.
    pub fn find_by_offset(&self, off: u64) -> (r: Option<usize>)
        requires
            self.wf(),
        ensures
            match r {
                Some(i) => i < ENTRY_COUNT && spec_entry_live(self.page_bytes(), i as int)
                    && spec_entry_offset(self.page_bytes(), i as int) == off as int,
                None => forall|i: int|
                    0 <= i < ENTRY_COUNT && #[trigger] spec_entry_live(self.page_bytes(), i)
                        ==> spec_entry_offset(self.page_bytes(), i) != off as int,
            },
    {
        let mut i: usize = 0;
        while i < ENTRY_COUNT
            invariant
                self.wf(),
                0 <= i <= ENTRY_COUNT,
                forall|j: int|
                    0 <= j < i && #[trigger] spec_entry_live(self.page_bytes(), j)
                        ==> spec_entry_offset(self.page_bytes(), j) != off as int,
            decreases ENTRY_COUNT as int - i,
        {
            if self.live_at(i) {
                let pos = 2 + ENTRY_SIZE * i;
                if read_u64(&self.page, pos) == off {
                    return Some(i);
                }
            }
            i += 1;
        }
        None
    }

    /// Moves the entry in slot `index` back to a region it occupied before:
    /// the reversal of `reallocate` when the caller cannot finish the move.
    /// The prior region must be entirely free again.
    #[verifier::rlimit(100)]
    pub fn restore_moved_entry(&mut self, index: usize, old_offset: u64, old_length: u64)
        requires
            old(self).wf(),
            index < ENTRY_COUNT,
            spec_entry_live(old(self).page_bytes(), index as int),
            old_length as int + PAGE_SIZE - 1 <= u64::MAX,
            old_offset as int % (PAGE_SIZE as int) == 0,
            old_offset as int + spec_reserved_len(old_length as int) <= u64::MAX,
            forall|b: int|
                old_offset as int <= b < old_offset + spec_reserved_len(old_length as int)
                    ==> #[trigger] old(self).free_at(b),
        ensures
            final(self).wf(),
            final(self).spec_device_size() == old(self).spec_device_size(),
            spec_entry_live(final(self).page_bytes(), index as int),
            spec_entry_offset(final(self).page_bytes(), index as int) == old_offset as int,
            spec_entry_length(final(self).page_bytes(), index as int) == old_length as int,
            spec_entry_name(final(self).page_bytes(), index as int) == spec_entry_name(
                old(self).page_bytes(),
                index as int,
            ),
            forall|q: int|
                0 <= q < PAGE_SIZE as int && !(entry_pos(index as int) <= q < entry_pos(
                    index as int,
                ) + 16) ==> final(self).page_bytes()[q] == old(self).page_bytes()[q],
            forall|b: int|
                #[trigger] final(self).free_at(b) <==> ((old(self).free_at(b) || (spec_entry_offset(
                    old(self).page_bytes(),
                    index as int,
                ) <= b < spec_entry_offset(old(self).page_bytes(), index as int)
                    + spec_reserved_len(
                    spec_entry_length(old(self).page_bytes(), index as int),
                ))) && !(old_offset as int <= b < old_offset + spec_reserved_len(
                    old_length as int,
                ))),
    {
        let ghost p1 = self.page@;
        let ghost f1 = self.free;
        proof {
            assert(spec_entry_ok(p1, index as int, self.device_size as int));
            lemma_reserved_len_props(spec_entry_length(p1, index as int));
            lemma_reserved_len_props(old_length as int);
        }
        let pos = 2 + ENTRY_SIZE * index;
        let cur_off = read_u64(&self.page, pos);
        let cur_length = read_u64(&self.page, pos + 8);
        let cur_rem = cur_length % PAGE_SIZE;
        let cur_rounded = if cur_rem == 0 {
            cur_length
        } else {
            cur_length + (PAGE_SIZE - cur_rem)
        };
        let cur_reserved = if cur_rounded < PAGE_SIZE {
            PAGE_SIZE
        } else {
            cur_rounded
        };
        let old_rem = old_length % PAGE_SIZE;
        let old_rounded = if old_rem == 0 {
            old_length
        } else {
            old_length + (PAGE_SIZE - old_rem)
        };
        let old_reserved = if old_rounded < PAGE_SIZE {
            PAGE_SIZE
        } else {
            old_rounded
        };
        let nspan = Span { start: old_offset, size: old_reserved };
        proof {
            assert(nspan.size as int == spec_reserved_len(old_length as int));
            assert forall|b: int| nspan.contains(b) implies f1.is_free(b) by {
                assert(old(self).free_at(b));
            }
        }
        let ok = self.free.reserve_exact(nspan);
        proof {
            assert(self.free.wf());
            assert(ok <==> (forall|b: int| nspan.contains(b) ==> #[trigger] f1.is_free(b)));
            assert(ok);
            assert(forall|b: int|
                #[trigger] self.free.is_free(b) <==> (f1.is_free(b) && !nspan.contains(b)));
        }
        let ghost f2 = self.free;
        let ospan = Span { start: cur_off, size: cur_reserved };
        proof {
            assert(ospan.size as int == spec_reserved_len(spec_entry_length(p1, index as int)));
            assert(spec_entry_covers(p1, index as int, ospan.start as int));
            assert(spec_used(p1, ospan.start as int));
            assert(old(self).free_at(ospan.start as int) <==> !spec_used(
                old(self).page_bytes(),
                ospan.start as int,
            ));
            assert(!f1.is_free(ospan.start as int));
        }
        let ok2 = self.free.release_range(ospan);
        proof {
            assert(ok2 <==> !f2.is_free(ospan.start as int));
            assert(ok2);
            assert(forall|b: int|
                #[trigger] self.free.is_free(b) <==> (f2.is_free(b) || ospan.contains(b)));
        }
        Self::store_fields(&mut self.page, index, old_offset, old_length);
        proof {
            assert forall|b: int|
                PAGE_SIZE as int <= b < self.device_size as int implies (#[trigger] f1.is_free(b)
                <==> !spec_used(p1, b)) by {
                assert(old(self).free_at(b) <==> !spec_used(old(self).page_bytes(), b));
            }
            assert forall|b: int| #[trigger] f1.is_free(b) implies PAGE_SIZE as int <= b
                < self.device_size as int by {
                assert(old(self).free_at(b));
            }
            lemma_realloc_wf(
                p1,
                self.page@,
                index as int,
                ospan,
                nspan,
                old_length,
                self.device_size,
                f1,
                f2,
                self.free,
            );
            assert forall|b: int|
                PAGE_SIZE as int <= b < self.device_size as int implies (#[trigger] self.free_at(b)
                <==> !spec_used(self.page_bytes(), b)) by {
                assert(self.free.is_free(b) <==> !spec_used(self.page@, b));
            }
            assert forall|b: int| #[trigger] self.free_at(b) implies PAGE_SIZE as int <= b
                < self.device_size as int by {
                assert(self.free.is_free(b));
            }
            assert forall|b: int|
                #[trigger] self.free_at(b) <==> ((old(self).free_at(b) || (ospan.start as int <= b
                    < ospan.end())) && !(nspan.start as int <= b < nspan.end())) by {
                assert(self.free.is_free(b) <==> (f2.is_free(b) || ospan.contains(b)));
                assert(f2.is_free(b) <==> (f1.is_free(b) && !nspan.contains(b)));
                if ospan.contains(b) {
                    assert(!nspan.contains(b)) by {
                        if nspan.contains(b) {
                            assert(f1.is_free(b));
                            assert(spec_used(p1, b));
                        }
                    }
                }
            }
        }
    }

    /// Reads entry `k` whole.
    fn load_entry(&self, k: usize) -> (e: Entry)
        requires
            self.wf(),
            k < ENTRY_COUNT,
            spec_entry_live(self.page_bytes(), k as int),
        ensures
            e.wf(),
            e.spec_offset() as int == spec_entry_offset(self.page_bytes(), k as int),
            e.spec_len() as int == spec_entry_length(self.page_bytes(), k as int),
            e.spec_name() == spec_entry_name(self.page_bytes(), k as int),
    {
        let pos = 2 + ENTRY_SIZE * k;
        let offset = read_u64(&self.page, pos);
        let length = read_u64(&self.page, pos + 8);
        let mut name: Vec<u8> = Vec::new();
        let mut j: usize = 0;
        while j < NAME_LEN
            invariant
                self.page_bytes().len() == PAGE_SIZE as int,
                k < ENTRY_COUNT,
                pos == entry_pos(k as int),
                0 <= j <= NAME_LEN as int,
                name@ =~= self.page@.subrange(pos as int + 16, pos as int + 16 + j),
            decreases NAME_LEN as int - j,
        {
            name.push(self.page[pos + 16 + j]);
            proof {
                assert(name@ =~= self.page@.subrange(pos as int + 16, pos as int + 16 + j + 1));
            }
            j += 1;
        }
        proof {
            assert(name@ =~= spec_entry_name(self.page_bytes(), k as int));
            assert(spec_entry_live(self.page_bytes(), k as int));
            assert(spec_entry_ok(self.page_bytes(), k as int, self.device_size as int));
            lemma_reserved_len_props(spec_entry_length(self.page_bytes(), k as int));
        }
        Entry { offset, length, name }
    }

    /// The live entry in slot `index`, if there is one.
    pub fn get(&self, index: usize) -> (r: Option<Entry>)
        requires
            self.wf(),
        ensures
            match r {
                Some(e) => {
                    &&& index < ENTRY_COUNT
                    &&& spec_entry_live(self.page_bytes(), index as int)
                    &&& e.wf()
                    &&& e.spec_offset() as int == spec_entry_offset(self.page_bytes(), index as int)
                    &&& e.spec_len() as int == spec_entry_length(self.page_bytes(), index as int)
                    &&& e.spec_name() == spec_entry_name(self.page_bytes(), index as int)
                },
                None => index >= ENTRY_COUNT || !spec_entry_live(
                    self.page_bytes(),
                    index as int,
                ),
            },
    {
        if index >= ENTRY_COUNT {
            return None;
        }
        if !self.live_at(index) {
            return None;
        }
        Some(self.load_entry(index))
    }

    /// All live entries, in slot order, each with its slot index.
    pub fn entries(&self) -> (r: Vec<IterEntry>)
        requires
            self.wf(),
        ensures
            forall|t: int|
                0 <= t < r.len() ==> {
                    let ie = #[trigger] r[t];
                    &&& ie.spec_index() < ENTRY_COUNT
                    &&& spec_entry_live(self.page_bytes(), ie.spec_index() as int)
                    &&& ie.spec_entry().wf()
                    &&& ie.spec_entry().spec_offset() as int == spec_entry_offset(
                        self.page_bytes(),
                        ie.spec_index() as int,
                    )
                    &&& ie.spec_entry().spec_len() as int == spec_entry_length(
                        self.page_bytes(),
                        ie.spec_index() as int,
                    )
                    &&& ie.spec_entry().spec_name() == spec_entry_name(
                        self.page_bytes(),
                        ie.spec_index() as int,
                    )
                },
            forall|t1: int, t2: int|
                0 <= t1 < t2 < r.len() ==> (#[trigger] r[t1]).spec_index() < (
                #[trigger] r[t2]).spec_index(),
            forall|i: int|
                0 <= i < ENTRY_COUNT && #[trigger] spec_entry_live(self.page_bytes(), i)
                    ==> exists|t: int| 0 <= t < r.len() && (#[trigger] r[t]).spec_index() == i,
    {
        let mut r: Vec<IterEntry> = Vec::new();
        let mut i: usize = 0;
        while i < ENTRY_COUNT
            invariant
                self.wf(),
                0 <= i <= ENTRY_COUNT,
                forall|t: int|
                    0 <= t < r.len() ==> {
                        let ie = #[trigger] r@[t];
                        &&& ie.spec_index() < i
                        &&& spec_entry_live(self.page_bytes(), ie.spec_index() as int)
                        &&& ie.spec_entry().wf()
                        &&& ie.spec_entry().spec_offset() as int == spec_entry_offset(
                            self.page_bytes(),
                            ie.spec_index() as int,
                        )
                        &&& ie.spec_entry().spec_len() as int == spec_entry_length(
                            self.page_bytes(),
                            ie.spec_index() as int,
                        )
                        &&& ie.spec_entry().spec_name() == spec_entry_name(
                            self.page_bytes(),
                            ie.spec_index() as int,
                        )
                    },
                forall|t1: int, t2: int|
                    0 <= t1 < t2 < r.len() ==> (#[trigger] r@[t1]).spec_index() < (
                    #[trigger] r@[t2]).spec_index(),
                forall|j: int|
                    0 <= j < i && #[trigger] spec_entry_live(self.page_bytes(), j) ==> exists|
                        t: int,
                    | 0 <= t < r.len() && (#[trigger] r@[t]).spec_index() == j,
            decreases ENTRY_COUNT as int - i,
        {
            if self.live_at(i) {
                let e = self.load_entry(i);
                let ghost rold = r@;
                r.push(IterEntry { index: i, inner: e });
                proof {
                    assert(r@[rold.len() as int].spec_index() == i as int);
                    assert forall|j: int|
                        0 <= j < i + 1 && #[trigger] spec_entry_live(
                            self.page_bytes(),
                            j,
                        ) implies exists|t: int|
                        0 <= t < r@.len() && (#[trigger] r@[t]).spec_index() == j by {
                        if j < i {
                            let t = choose|t: int|
                                0 <= t < rold.len() && (#[trigger] rold[t]).spec_index() == j;
                            assert(r@[t].spec_index() == j);
                        } else {
                            assert(r@[rold.len() as int].spec_index() == j);
                        }
                    }
                }
            }
            i += 1;
        }
        r
    }

    /// The current free ranges of the device body, sorted by start.
    pub fn free_regions(&self) -> (r: &Vec<Span>)
        ensures
            r@ == self.free_ranges(),
    {
        self.free.regions()
    }

    /// Size in bytes of the device this table manages.
    pub fn device_size(&self) -> (r: u64)
        ensures
            r == self.spec_device_size(),
    {
        self.device_size
    }

    /// The header-page bytes as they stand on the device.
    pub fn page(&self) -> (r: &Vec<u8>)
        ensures
            r@ == self.page_bytes(),
    {
        &self.page
    }
}

/// Whether entry `j` of a raw header page is live.
pub fn page_entry_live(p: &Vec<u8>, j: usize) -> (r: bool)
    requires
        p.len() == PAGE_SIZE as int,
        j < ENTRY_COUNT,
    ensures
        r == spec_entry_live(p@, j as int),
{
    let b = p[2 + ENTRY_SIZE * j + 16];
    proof {
        assert(spec_entry_name(p@, j as int)[0] == p@[entry_pos(j as int) + 16]);
    }
    b != 0
}

/// Whether entry `i` of one header page and entry `j` of another carry the
/// same name bytes.
pub fn entry_names_equal(pa: &Vec<u8>, i: usize, pb: &Vec<u8>, j: usize) -> (r: bool)
    requires
        pa.len() == PAGE_SIZE as int,
        pb.len() == PAGE_SIZE as int,
        i < ENTRY_COUNT,
        j < ENTRY_COUNT,
    ensures
        r == (spec_entry_name(pa@, i as int) == spec_entry_name(pb@, j as int)),
{
    let pi = 2 + ENTRY_SIZE * i + 16;
    let pj = 2 + ENTRY_SIZE * j + 16;
    let mut y: usize = 0;
    while y < NAME_LEN
        invariant
            pa@.len() == PAGE_SIZE as int,
            pb@.len() == PAGE_SIZE as int,
            i < ENTRY_COUNT,
            j < ENTRY_COUNT,
            pi == entry_pos(i as int) + 16,
            pj == entry_pos(j as int) + 16,
            0 <= y <= NAME_LEN as int,
            forall|x: int| 0 <= x < y ==> #[trigger] pa@[pi as int + x] == pb@[pj as int + x],
        decreases NAME_LEN as int - y,
    {
        if pa[pi + y] != pb[pj + y] {
            proof {
                assert(spec_entry_name(pa@, i as int)[y as int] == pa@[pi as int + y]);
                assert(spec_entry_name(pb@, j as int)[y as int] == pb@[pj as int + y]);
            }
            return false;
        }
        y += 1;
    }
    proof {
        assert forall|x: int| 0 <= x < NAME_LEN as int implies #[trigger] spec_entry_name(
            pa@,
            i as int,
        )[x] == spec_entry_name(pb@, j as int)[x] by {
            assert(pa@[pi as int + x] == pb@[pj as int + x]);
        }
        assert(spec_entry_name(pa@, i as int) =~= spec_entry_name(pb@, j as int));
    }
    true
}

/// A name longer than the name field never matches any slot.
pub proof fn lemma_find_slot_long_name(page: Seq<u8>, nb: Seq<u8>, i: int)
    requires
        page.len() == PAGE_SIZE as int,
        nb.len() > NAME_LEN as int,
    ensures
        spec_find_slot_from(page, nb, i) is None,
    decreases ENTRY_COUNT as int - i,
{
    if 0 <= i < ENTRY_COUNT {
        assert(spec_entry_name(page, i).len() == NAME_LEN as int);
        assert(spec_stored_name(nb).len() > NAME_LEN as int);
        lemma_find_slot_long_name(page, nb, i + 1);
    }
}

/// Exclusivity: in a well-formed table, two distinct live entries occupy
/// byte-disjoint regions of the device.
pub proof fn lemma_live_entries_disjoint(t: Table, i: int, j: int)
    requires
        t.wf(),
        0 <= i < ENTRY_COUNT,
        0 <= j < ENTRY_COUNT,
        i != j,
        spec_entry_live(t.page_bytes(), i),
        spec_entry_live(t.page_bytes(), j),
    ensures
        spec_entries_disjoint(t.page_bytes(), i, j),
{
}

/// No overlap with free space: in a well-formed table, a byte covered by a
/// live entry is never free.
pub proof fn lemma_used_not_free(t: Table, i: int, b: int)
    requires
        t.wf(),
        0 <= i < ENTRY_COUNT,
        spec_entry_live(t.page_bytes(), i),
        spec_entry_covers(t.page_bytes(), i, b),
    ensures
        !t.free_at(b),
{
    assert(spec_entry_ok(t.page_bytes(), i, t.spec_device_size() as int));
    lemma_reserved_len_props(spec_entry_length(t.page_bytes(), i));
    assert(spec_used(t.page_bytes(), b));
}

/// Durability: two well-formed tables over the same header page and device
/// size have the same free ranges.  Re-reading the device after a restart
/// therefore rebuilds exactly the free index that was in memory before.
pub proof fn lemma_recovery_rebuilds_free(t1: Table, t2: Table)
    requires
        t1.wf(),
        t2.wf(),
        t1.page_bytes() == t2.page_bytes(),
        t1.spec_device_size() == t2.spec_device_size(),
    ensures
        t1.free_ranges() == t2.free_ranges(),
{
    assert forall|b: int| covers(t1.free_ranges(), b) <==> covers(t2.free_ranges(), b) by {
        assert(t1.free_at(b) == covers(t1.free_ranges(), b));
        assert(t2.free_at(b) == covers(t2.free_ranges(), b));
        if t1.free_at(b) {
            assert(PAGE_SIZE as int <= b < t1.spec_device_size() as int);
            assert(!spec_used(t1.page_bytes(), b));
            assert(t2.free_at(b));
        }
        if t2.free_at(b) {
            assert(PAGE_SIZE as int <= b < t2.spec_device_size() as int);
            assert(!spec_used(t2.page_bytes(), b));
            assert(t1.free_at(b));
        }
    }
    crate::ranges::lemma_canonical_unique(t1.free_ranges(), t2.free_ranges());
}

/// Some live entry other than `k` covers device byte `b`.
pub open spec fn spec_used_except(page: Seq<u8>, k: int, b: int) -> bool {
    exists|i: int|
        0 <= i < ENTRY_COUNT && i != k && #[trigger] spec_entry_live(page, i)
            && spec_entry_covers(page, i, b)
}

/// Rewriting bytes of entry `k` alone leaves the magic and every other
/// entry's fields untouched, and therefore what the other entries cover.
pub proof fn lemma_entry_frame(p1: Seq<u8>, p2: Seq<u8>, k: int)
    requires
        p1.len() == PAGE_SIZE as int,
        p2.len() == PAGE_SIZE as int,
        0 <= k < ENTRY_COUNT,
        forall|q: int|
            0 <= q < PAGE_SIZE as int && !(entry_pos(k) <= q < entry_pos(k) + 46) ==> p2[q]
                == p1[q],
    ensures
        spec_magic_ok(p2) == spec_magic_ok(p1),
        forall|j: int|
            0 <= j < ENTRY_COUNT && j != k ==> #[trigger] spec_entry_offset(p2, j)
                == spec_entry_offset(p1, j) && spec_entry_length(p2, j) == spec_entry_length(
                p1,
                j,
            ) && spec_entry_name(p2, j) == spec_entry_name(p1, j),
        forall|j: int|
            0 <= j < ENTRY_COUNT && j != k ==> (#[trigger] spec_entry_live(p2, j)
                == spec_entry_live(p1, j)),
        forall|j: int, b: int|
            0 <= j < ENTRY_COUNT && j != k ==> (#[trigger] spec_entry_covers(p2, j, b)
                == spec_entry_covers(p1, j, b)),
        forall|b: int| #[trigger] spec_used_except(p2, k, b) == spec_used_except(p1, k, b),
{
    assert forall|j: int| 0 <= j < ENTRY_COUNT && j != k implies #[trigger] spec_entry_offset(
        p2,
        j,
    ) == spec_entry_offset(p1, j) && spec_entry_length(p2, j) == spec_entry_length(p1, j)
        && spec_entry_name(p2, j) == spec_entry_name(p1, j) by {
        assert(entry_pos(j) + 46 <= entry_pos(k) || entry_pos(k) + 46 <= entry_pos(j));
        assert(spec_entry_name(p2, j) =~= spec_entry_name(p1, j));
    }
    assert forall|b: int| #[trigger] spec_used_except(p2, k, b) == spec_used_except(
        p1,
        k,
        b,
    ) by {
        if spec_used_except(p1, k, b) {
            let i = choose|i: int|
                0 <= i < ENTRY_COUNT && i != k && #[trigger] spec_entry_live(p1, i)
                    && spec_entry_covers(p1, i, b);
            assert(spec_entry_live(p2, i) && spec_entry_covers(p2, i, b));
        }
        if spec_used_except(p2, k, b) {
            let i = choose|i: int|
                0 <= i < ENTRY_COUNT && i != k && #[trigger] spec_entry_live(p2, i)
                    && spec_entry_covers(p2, i, b);
            assert(spec_entry_live(p1, i) && spec_entry_covers(p1, i, b));
        }
    }
}

/// What the whole table covers, split at entry `k`.
proof fn lemma_used_split(page: Seq<u8>, k: int, b: int)
    requires
        0 <= k < ENTRY_COUNT,
    ensures
        spec_used(page, b) <==> (spec_used_except(page, k, b) || (spec_entry_live(page, k)
            && spec_entry_covers(page, k, b))),
{
    if spec_used(page, b) {
        let i = choose|i: int|
            0 <= i < ENTRY_COUNT && #[trigger] spec_entry_live(page, i) && spec_entry_covers(
                page,
                i,
                b,
            );
        if i != k {
            assert(spec_used_except(page, k, b));
        }
    }
    if spec_used_except(page, k, b) {
        let i = choose|i: int|
            0 <= i < ENTRY_COUNT && i != k && #[trigger] spec_entry_live(page, i)
                && spec_entry_covers(page, i, b);
        assert(spec_used(page, b));
    }
    if spec_entry_live(page, k) && spec_entry_covers(page, k, b) {
        assert(spec_used(page, b));
    }
}

/// Some live entry among the first `n` covers device byte `b`.
pub open spec fn spec_used_first(page: Seq<u8>, n: int, b: int) -> bool {
    exists|i: int|
        0 <= i < n && #[trigger] spec_entry_live(page, i) && spec_entry_covers(page, i, b)
}

/// A failed exact reservation during recovery means the entry overlaps an
/// earlier one (or the recovery invariant could not have held).
proof fn lemma_reserve_exact_failure(
    free: RangeIndex,
    page: Seq<u8>,
    i: int,
    span: Span,
    device_size: u64,
)
    requires
        free.wf(),
        0 <= i < ENTRY_COUNT,
        spec_entry_live(page, i),
        span.start == spec_entry_offset(page, i),
        span.size == spec_reserved_len(spec_entry_length(page, i)),
        span.end() <= u64::MAX,
        forall|b: int|
            #[trigger] free.is_free(b) <==> (PAGE_SIZE as int <= b < device_size as int
                && !spec_used_first(page, i, b)),
        !(forall|b: int| span.contains(b) ==> free.is_free(b)),
    ensures
        !spec_entries_consistent(page, device_size as int),
{
    let b = choose|b: int| span.contains(b) && !free.is_free(b);
    assert(span.contains(b));
    if b < PAGE_SIZE as int {
        // The entry starts in front of the device body.
        assert(span.start <= b);
        assert(!spec_entry_ok(page, i, device_size as int));
    } else if b >= device_size as int {
        // The entry runs past the device end.
        assert(!spec_entry_ok(page, i, device_size as int));
    } else {
        assert(spec_used_first(page, i, b));
        let j = choose|j: int|
            0 <= j < i && #[trigger] spec_entry_live(page, j) && spec_entry_covers(page, j, b);
        assert(!spec_entries_disjoint(page, i, j));
    }
}

/// A successful exact reservation during recovery extends the invariant to
/// entry `i`: the entry is in bounds and disjoint from all earlier ones, and
/// the free index now excludes its bytes.
proof fn lemma_recover_step_live(
    prev: RangeIndex,
    cur: RangeIndex,
    page: Seq<u8>,
    i: int,
    span: Span,
    device_size: u64,
)
    requires
        prev.wf(),
        cur.wf(),
        0 <= i < ENTRY_COUNT,
        spec_entry_live(page, i),
        span.start == spec_entry_offset(page, i),
        span.size == spec_reserved_len(spec_entry_length(page, i)),
        span.size > 0,
        span.end() <= u64::MAX,
        span.start as int % (PAGE_SIZE as int) == 0,
        forall|b: int|
            #[trigger] prev.is_free(b) <==> (PAGE_SIZE as int <= b < device_size as int
                && !spec_used_first(page, i, b)),
        forall|b: int| span.contains(b) ==> prev.is_free(b),
        forall|b: int| #[trigger] cur.is_free(b) <==> (prev.is_free(b) && !span.contains(b)),
        forall|j: int|
            0 <= j < i && #[trigger] spec_entry_live(page, j) ==> spec_entry_ok(
                page,
                j,
                device_size as int,
            ),
        forall|j: int, l: int|
            0 <= j < i && 0 <= l < i && j != l && #[trigger] spec_entry_live(page, j)
                && #[trigger] spec_entry_live(page, l) ==> spec_entries_disjoint(page, j, l),
    ensures
        spec_entry_ok(page, i, device_size as int),
        forall|j: int|
            0 <= j < i + 1 && #[trigger] spec_entry_live(page, j) ==> spec_entry_ok(
                page,
                j,
                device_size as int,
            ),
        forall|j: int, l: int|
            0 <= j < i + 1 && 0 <= l < i + 1 && j != l && #[trigger] spec_entry_live(page, j)
                && #[trigger] spec_entry_live(page, l) ==> spec_entries_disjoint(page, j, l),
        forall|b: int|
            #[trigger] cur.is_free(b) <==> (PAGE_SIZE as int <= b < device_size as int
                && !spec_used_first(page, i + 1, b)),
{
    // All of the entry's bytes were free, so they lie inside the body.
    assert(spec_entry_ok(page, i, device_size as int)) by {
        assert(span.contains(span.start as int));
        assert(prev.is_free(span.start as int));
        assert(span.contains(span.end() - 1));
        assert(prev.is_free(span.end() - 1));
    }
    // Disjointness with every earlier live entry.
    assert forall|j: int| 0 <= j < i && spec_entry_live(page, j) implies spec_entries_disjoint(
        page,
        i,
        j,
    ) by {
        let off_j = spec_entry_offset(page, j);
        let res_j = spec_reserved_len(spec_entry_length(page, j));
        if !spec_entries_disjoint(page, i, j) {
            // Two overlapping intervals share a byte: the larger start.
            let c = if span.start as int >= off_j {
                span.start as int
            } else {
                off_j
            };
            assert(spec_align_up(spec_entry_length(page, j), PAGE_SIZE as int)
                >= spec_entry_length(page, j));
            assert(res_j > 0);
            assert(span.contains(c));
            assert(spec_entry_covers(page, j, c));
            assert(spec_used_first(page, i, c));
            assert(prev.is_free(c));
            assert(false);
        }
    }
    assert forall|j: int, l: int|
        0 <= j < i + 1 && 0 <= l < i + 1 && j != l && #[trigger] spec_entry_live(page, j)
            && #[trigger] spec_entry_live(page, l) implies spec_entries_disjoint(page, j, l) by {
        if j == i {
            assert(spec_entries_disjoint(page, i, l));
            assert(spec_entries_disjoint(page, l, i) ==> spec_entries_disjoint(page, i, l));
        } else if l == i {
            assert(spec_entries_disjoint(page, i, j));
        }
    }
    // The free index now excludes entry i's bytes.
    assert forall|b: int| #[trigger] cur.is_free(b) <==> (PAGE_SIZE as int <= b
        < device_size as int && !spec_used_first(page, i + 1, b)) by {
        if spec_used_first(page, i + 1, b) {
            let w = choose|w: int|
                0 <= w < i + 1 && #[trigger] spec_entry_live(page, w) && spec_entry_covers(
                    page,
                    w,
                    b,
                );
            if w == i {
                assert(span.contains(b));
            } else {
                assert(spec_used_first(page, i, b));
            }
        }
        if spec_used_first(page, i, b) {
            let w = choose|w: int|
                0 <= w < i && #[trigger] spec_entry_live(page, w) && spec_entry_covers(page, w, b);
            assert(spec_used_first(page, i + 1, b));
        }
        if span.contains(b) {
            assert(spec_used_first(page, i + 1, b));
        }
    }
}

/// After a fresh entry is written into slot `k` over a newly reserved
/// block, the table invariants hold again.
proof fn lemma_alloc_wf(
    p1: Seq<u8>,
    p2: Seq<u8>,
    k: int,
    span: Span,
    size: u64,
    device_size: u64,
    f1: RangeIndex,
    f2: RangeIndex,
)
    requires
        p1.len() == PAGE_SIZE as int,
        p2.len() == PAGE_SIZE as int,
        device_size >= PAGE_SIZE,
        spec_magic_ok(p1),
        spec_entries_consistent(p1, device_size as int),
        f1.wf(),
        f2.wf(),
        forall|b: int|
            PAGE_SIZE as int <= b < device_size as int ==> (#[trigger] f1.is_free(b) <==> !spec_used(
                p1,
                b,
            )),
        forall|b: int| #[trigger] f1.is_free(b) ==> PAGE_SIZE as int <= b < device_size as int,
        forall|b: int| span.contains(b) ==> f1.is_free(b),
        forall|b: int| #[trigger] f2.is_free(b) <==> (f1.is_free(b) && !span.contains(b)),
        span.size as int == spec_reserved_len(size as int),
        span.start as int % (PAGE_SIZE as int) == 0,
        0 <= k < ENTRY_COUNT,
        !spec_entry_live(p1, k),
        spec_entry_live(p2, k),
        spec_entry_offset(p2, k) == span.start as int,
        spec_entry_length(p2, k) == size as int,
        forall|q: int|
            0 <= q < PAGE_SIZE as int && !(entry_pos(k) <= q < entry_pos(k) + 46) ==> p2[q]
                == p1[q],
    ensures
        spec_magic_ok(p2),
        spec_entries_consistent(p2, device_size as int),
        PAGE_SIZE as int <= span.start,
        span.start + spec_reserved_len(size as int) <= device_size,
        forall|b: int|
            PAGE_SIZE as int <= b < device_size as int ==> (#[trigger] f2.is_free(b) <==> !spec_used(
                p2,
                b,
            )),
        forall|b: int| #[trigger] f2.is_free(b) ==> PAGE_SIZE as int <= b < device_size as int,
{
    lemma_entry_frame(p1, p2, k);
    lemma_reserved_len_props(size as int);

    // The reserved block lies in the device body.
    assert(span.contains(span.start as int));
    assert(f1.is_free(span.start as int));
    assert(span.contains(span.end() - 1));
    assert(f1.is_free(span.end() - 1));
    assert(PAGE_SIZE as int <= span.start);
    assert(span.end() <= device_size);

    // The new entry is in bounds, and disjoint from every other live entry.
    assert(spec_entry_ok(p2, k, device_size as int));
    assert forall|j: int|
        0 <= j < ENTRY_COUNT && j != k && spec_entry_live(p2, j) implies spec_entries_disjoint(
        p2,
        j,
        k,
    ) by {
        assert(spec_entry_live(p1, j));
        assert(spec_entry_ok(p1, j, device_size as int));
        let off_j = spec_entry_offset(p1, j);
        let res_j = spec_reserved_len(spec_entry_length(p1, j));
        if !spec_entries_disjoint(p2, j, k) {
            lemma_reserved_len_props(spec_entry_length(p1, j));
            let c = if span.start as int >= off_j {
                span.start as int
            } else {
                off_j
            };
            assert(span.contains(c));
            assert(spec_entry_covers(p1, j, c));
            assert(spec_used(p1, c));
            assert(f1.is_free(c));
            assert(false);
        }
    }
    assert forall|i: int, j: int|
        0 <= i < ENTRY_COUNT && 0 <= j < ENTRY_COUNT && i != j && #[trigger] spec_entry_live(p2, i)
            && #[trigger] spec_entry_live(p2, j) implies spec_entries_disjoint(p2, i, j) by {
        if i != k && j != k {
            assert(spec_entry_live(p1, i) && spec_entry_live(p1, j));
            assert(spec_entries_disjoint(p1, i, j));
        } else if i == k {
            assert(spec_entries_disjoint(p2, j, k));
        } else {
            assert(spec_entries_disjoint(p2, i, k));
        }
    }

    // The free index is the complement of the used bytes again.
    assert forall|b: int| PAGE_SIZE as int <= b < device_size as int implies (#[trigger] f2.is_free(
        b,
    ) <==> !spec_used(p2, b)) by {
        lemma_used_split(p1, k, b);
        lemma_used_split(p2, k, b);
        assert(spec_entry_covers(p2, k, b) <==> span.contains(b));
    }
}

/// The page size is a power of two.
proof fn lemma_page_size_pow2()
    ensures
        crate::ranges::is_pow2(PAGE_SIZE),
{
    assert(PAGE_SIZE == 0x1000u64);
    assert((PAGE_SIZE - 1) as u64 == 0xFFFu64);
    assert(0x1000u64 & 0xFFFu64 == 0u64) by (bit_vector);
}

/// After a live entry is zeroed and its region released, the table
/// invariants hold again.
proof fn lemma_dealloc_wf(
    p1: Seq<u8>,
    p2: Seq<u8>,
    k: int,
    span: Span,
    device_size: u64,
    f1: RangeIndex,
    f2: RangeIndex,
)
    requires
        p1.len() == PAGE_SIZE as int,
        p2.len() == PAGE_SIZE as int,
        device_size >= PAGE_SIZE,
        spec_magic_ok(p1),
        spec_entries_consistent(p1, device_size as int),
        f1.wf(),
        f2.wf(),
        forall|b: int|
            PAGE_SIZE as int <= b < device_size as int ==> (#[trigger] f1.is_free(b) <==> !spec_used(
                p1,
                b,
            )),
        forall|b: int| #[trigger] f1.is_free(b) ==> PAGE_SIZE as int <= b < device_size as int,
        forall|b: int| #[trigger] f2.is_free(b) <==> (f1.is_free(b) || span.contains(b)),
        0 <= k < ENTRY_COUNT,
        spec_entry_live(p1, k),
        !spec_entry_live(p2, k),
        span.start as int == spec_entry_offset(p1, k),
        span.size as int == spec_reserved_len(spec_entry_length(p1, k)),
        forall|q: int|
            0 <= q < PAGE_SIZE as int && !(entry_pos(k) <= q < entry_pos(k) + 46) ==> p2[q]
                == p1[q],
    ensures
        spec_magic_ok(p2),
        spec_entries_consistent(p2, device_size as int),
        forall|b: int|
            PAGE_SIZE as int <= b < device_size as int ==> (#[trigger] f2.is_free(b) <==> !spec_used(
                p2,
                b,
            )),
        forall|b: int| #[trigger] f2.is_free(b) ==> PAGE_SIZE as int <= b < device_size as int,
{
    lemma_entry_frame(p1, p2, k);
    assert(spec_entry_ok(p1, k, device_size as int));

    assert forall|i: int, j: int|
        0 <= i < ENTRY_COUNT && 0 <= j < ENTRY_COUNT && i != j && #[trigger] spec_entry_live(p2, i)
            && #[trigger] spec_entry_live(p2, j) implies spec_entries_disjoint(p2, i, j) by {
        assert(spec_entry_live(p1, i) && spec_entry_live(p1, j));
        assert(spec_entries_disjoint(p1, i, j));
    }
    assert forall|i: int|
        0 <= i < ENTRY_COUNT && #[trigger] spec_entry_live(p2, i) implies spec_entry_ok(
        p2,
        i,
        device_size as int,
    ) by {
        assert(spec_entry_live(p1, i));
        assert(spec_entry_ok(p1, i, device_size as int));
    }

    // The released bytes belonged to entry k alone.
    assert forall|b: int| span.contains(b) implies !spec_used_except(p1, k, b) by {
        if spec_used_except(p1, k, b) {
            let j = choose|j: int|
                0 <= j < ENTRY_COUNT && j != k && #[trigger] spec_entry_live(p1, j)
                    && spec_entry_covers(p1, j, b);
            assert(spec_entries_disjoint(p1, k, j));
        }
    }

    assert forall|b: int| PAGE_SIZE as int <= b < device_size as int implies (#[trigger] f2.is_free(
        b,
    ) <==> !spec_used(p2, b)) by {
        lemma_used_split(p1, k, b);
        lemma_used_split(p2, k, b);
        assert(spec_entry_covers(p1, k, b) <==> span.contains(b));
    }
    assert forall|b: int| #[trigger] f2.is_free(b) implies PAGE_SIZE as int <= b
        < device_size as int by {
        if span.contains(b) {
            assert(PAGE_SIZE as int <= span.start);
            assert(span.end() <= device_size);
        }
    }
}

/// After a live entry is moved to a newly reserved region and its old
/// region released, the table invariants hold again.
proof fn lemma_realloc_wf(
    p1: Seq<u8>,
    p2: Seq<u8>,
    k: int,
    ospan: Span,
    nspan: Span,
    new_size: u64,
    device_size: u64,
    f1: RangeIndex,
    f2: RangeIndex,
    f3: RangeIndex,
)
    requires
        p1.len() == PAGE_SIZE as int,
        p2.len() == PAGE_SIZE as int,
        device_size >= PAGE_SIZE,
        spec_magic_ok(p1),
        spec_entries_consistent(p1, device_size as int),
        f1.wf(),
        f2.wf(),
        f3.wf(),
        forall|b: int|
            PAGE_SIZE as int <= b < device_size as int ==> (#[trigger] f1.is_free(b) <==> !spec_used(
                p1,
                b,
            )),
        forall|b: int| #[trigger] f1.is_free(b) ==> PAGE_SIZE as int <= b < device_size as int,
        forall|b: int| nspan.contains(b) ==> f1.is_free(b),
        forall|b: int| #[trigger] f2.is_free(b) <==> (f1.is_free(b) && !nspan.contains(b)),
        forall|b: int| #[trigger] f3.is_free(b) <==> (f2.is_free(b) || ospan.contains(b)),
        0 <= k < ENTRY_COUNT,
        spec_entry_live(p1, k),
        spec_entry_live(p2, k),
        ospan.start as int == spec_entry_offset(p1, k),
        ospan.size as int == spec_reserved_len(spec_entry_length(p1, k)),
        nspan.size as int == spec_reserved_len(new_size as int),
        nspan.start as int % (PAGE_SIZE as int) == 0,
        spec_entry_offset(p2, k) == nspan.start as int,
        spec_entry_length(p2, k) == new_size as int,
        forall|q: int|
            0 <= q < PAGE_SIZE as int && !(entry_pos(k) <= q < entry_pos(k) + 46) ==> p2[q]
                == p1[q],
    ensures
        spec_magic_ok(p2),
        spec_entries_consistent(p2, device_size as int),
        PAGE_SIZE as int <= nspan.start,
        nspan.start + spec_reserved_len(new_size as int) <= device_size,
        forall|b: int|
            PAGE_SIZE as int <= b < device_size as int ==> (#[trigger] f3.is_free(b) <==> !spec_used(
                p2,
                b,
            )),
        forall|b: int| #[trigger] f3.is_free(b) ==> PAGE_SIZE as int <= b < device_size as int,
{
    lemma_entry_frame(p1, p2, k);
    lemma_reserved_len_props(new_size as int);
    lemma_reserved_len_props(spec_entry_length(p1, k));
    assert(spec_entry_ok(p1, k, device_size as int));

    // The new region lies in the device body.
    assert(nspan.contains(nspan.start as int));
    assert(f1.is_free(nspan.start as int));
    assert(nspan.contains(nspan.end() - 1));
    assert(f1.is_free(nspan.end() - 1));
    assert(PAGE_SIZE as int <= nspan.start);
    assert(nspan.end() <= device_size);
    assert(spec_entry_ok(p2, k, device_size as int));

    // Disjointness of the moved entry from every other live entry.
    assert forall|j: int|
        0 <= j < ENTRY_COUNT && j != k && spec_entry_live(p2, j) implies spec_entries_disjoint(
        p2,
        j,
        k,
    ) by {
        assert(spec_entry_live(p1, j));
        assert(spec_entry_ok(p1, j, device_size as int));
        let off_j = spec_entry_offset(p1, j);
        if !spec_entries_disjoint(p2, j, k) {
            lemma_reserved_len_props(spec_entry_length(p1, j));
            let c = if nspan.start as int >= off_j {
                nspan.start as int
            } else {
                off_j
            };
            assert(nspan.contains(c));
            assert(spec_entry_covers(p1, j, c));
            assert(spec_used(p1, c));
            assert(f1.is_free(c));
            assert(false);
        }
    }
    assert forall|i: int, j: int|
        0 <= i < ENTRY_COUNT && 0 <= j < ENTRY_COUNT && i != j && #[trigger] spec_entry_live(p2, i)
            && #[trigger] spec_entry_live(p2, j) implies spec_entries_disjoint(p2, i, j) by {
        if i != k && j != k {
            assert(spec_entry_live(p1, i) && spec_entry_live(p1, j));
            assert(spec_entries_disjoint(p1, i, j));
        } else if i == k {
            assert(spec_entries_disjoint(p2, j, k));
        } else {
            assert(spec_entries_disjoint(p2, i, k));
        }
    }
    assert forall|i: int|
        0 <= i < ENTRY_COUNT && #[trigger] spec_entry_live(p2, i) implies spec_entry_ok(
        p2,
        i,
        device_size as int,
    ) by {
        if i != k {
            assert(spec_entry_live(p1, i));
            assert(spec_entry_ok(p1, i, device_size as int));
        }
    }

    // The old region belonged to entry k alone.
    assert forall|b: int| ospan.contains(b) implies !spec_used_except(p1, k, b) by {
        if spec_used_except(p1, k, b) {
            let j = choose|j: int|
                0 <= j < ENTRY_COUNT && j != k && #[trigger] spec_entry_live(p1, j)
                    && spec_entry_covers(p1, j, b);
            assert(spec_entries_disjoint(p1, k, j));
        }
    }

    assert forall|b: int| PAGE_SIZE as int <= b < device_size as int implies (#[trigger] f3.is_free(
        b,
    ) <==> !spec_used(p2, b)) by {
        lemma_used_split(p1, k, b);
        lemma_used_split(p2, k, b);
        assert(spec_entry_covers(p1, k, b) <==> ospan.contains(b));
        assert(spec_entry_covers(p2, k, b) <==> nspan.contains(b));
        if nspan.contains(b) {
            assert(f1.is_free(b));
        }
    }
    assert forall|b: int| #[trigger] f3.is_free(b) implies PAGE_SIZE as int <= b
        < device_size as int by {
        if ospan.contains(b) {
            assert(PAGE_SIZE as int <= ospan.start);
            assert(ospan.end() <= device_size);
        }
    }
}

} // verus!
