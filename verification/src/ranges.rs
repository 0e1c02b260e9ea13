//! Free-range index over a one-dimensional address space.
//!
//! The index keeps the currently free byte ranges in canonical form: sorted
//! by start, every range non-empty, and no two ranges overlapping or abutting
//! (abutting ranges are always merged).  `reserve_range` carves an aligned
//! block out of some free range; `release_range` gives a block back and
//! re-establishes the canonical form by coalescing.

use vstd::pervasive::VecAdditionalExecFns;
use vstd::prelude::*;

verus! {

/// A byte range `[start, start + size)`.
#[derive(Clone, Copy, Debug, PartialEq, Eq, Structural)]
pub struct Span {
    pub start: u64,
    pub size: u64,
}

impl Span {
    /// One-past-the-end address of the range.
    pub open spec fn end(self) -> int {
        self.start + self.size
    }

    /// Whether address `b` lies inside the range.
    pub open spec fn contains(self, b: int) -> bool {
        self.start <= b < self.end()
    }
}

/// The least multiple of `align` that is `>= addr`.
pub open spec fn spec_align_up(addr: int, align: int) -> int
    recommends
        align > 0,
        addr >= 0,
{
    if addr % align == 0 {
        addr
    } else {
        addr + (align - addr % align)
    }
}

/// `align` is a power of two.
pub open spec fn is_pow2(align: u64) -> bool {
    align > 0 && (align & (align - 1) as u64) == 0
}

pub proof fn lemma_align_up_props(addr: int, align: int)
    requires
        align > 0,
        addr >= 0,
    ensures
        spec_align_up(addr, align) % align == 0,
        addr <= spec_align_up(addr, align) < addr + align,
{
    let r = addr % align;
    if r != 0 {
        assert((addr + (align - r)) % align == 0) by (nonlinear_arith)
            requires
                align > 0,
                addr >= 0,
                r == addr % align,
                r != 0,
        ;
        assert(0 <= r < align) by (nonlinear_arith)
            requires
                align > 0,
                addr >= 0,
                r == addr % align,
        ;
    }
}

/// Rounds `addr` up to the next multiple of `align`; `None` when that
/// multiple does not fit in a `u64`.
pub fn checked_align_up(addr: u64, align: u64) -> (r: Option<u64>)
    requires
        align > 0,
    ensures
        match r {
            Some(v) => v == spec_align_up(addr as int, align as int),
            None => spec_align_up(addr as int, align as int) > u64::MAX,
        },
{
    let rem = addr % align;
    if rem == 0 {
        Some(addr)
    } else {
        let pad = align - rem;
        if addr <= u64::MAX - pad {
            Some(addr + pad)
        } else {
            None
        }
    }
}

/// An aligned block of `needed` bytes fits inside the range.
pub open spec fn spec_fits(r: Span, needed: u64, align: u64) -> bool {
    spec_align_up(r.start as int, align as int) + needed <= r.end()
}

/// The lowest address of an aligned block of `needed` bytes in the first
/// range (from `i` on) that can hold one.
pub open spec fn spec_first_fit_from(rs: Seq<Span>, needed: u64, align: u64, i: int) -> Option<
    int,
>
    decreases rs.len() - i,
{
    if i < 0 || i >= rs.len() {
        None
    } else if spec_fits(rs[i], needed, align) {
        Some(spec_align_up(rs[i].start as int, align as int))
    } else {
        spec_first_fit_from(rs, needed, align, i + 1)
    }
}

/// The lowest address of an aligned block of `needed` bytes in the first
/// range that can hold one: with the ranges kept sorted by start, the
/// first-fit, lowest-address placement.
pub open spec fn spec_first_fit(rs: Seq<Span>, needed: u64, align: u64) -> Option<int> {
    spec_first_fit_from(rs, needed, align, 0)
}

/// A block placed by first fit lies wholly inside free space.
pub proof fn lemma_first_fit_free(rs: Seq<Span>, needed: u64, align: u64, i0: int, a: int)
    requires
        canonical(rs),
        align > 0,
        0 <= i0,
        spec_first_fit_from(rs, needed, align, i0) == Some(a),
    ensures
        forall|b: int| a <= b < a + needed ==> covers(rs, b),
    decreases rs.len() - i0,
{
    if i0 < rs.len() {
        if spec_fits(rs[i0], needed, align) {
            lemma_align_up_props(rs[i0].start as int, align as int);
            assert forall|b: int| a <= b < a + needed implies covers(rs, b) by {
                assert(rs[i0].contains(b));
            }
        } else {
            lemma_first_fit_free(rs, needed, align, i0 + 1, a);
        }
    }
}

/// Canonical form of a free-range sequence: every range non-empty and closed
/// under `u64` arithmetic, and each range ending strictly before the next one
/// starts (so none overlap and none abut).
pub open spec fn canonical(s: Seq<Span>) -> bool {
    &&& forall|i: int| 0 <= i < s.len() ==> (#[trigger] s[i]).size > 0 && s[i].end() <= u64::MAX
    &&& forall|i: int| 0 <= i < s.len() - 1 ==> (#[trigger] s[i]).end() < s[i + 1].start
}

/// Some range of `s` contains address `b`.
pub open spec fn covers(s: Seq<Span>, b: int) -> bool {
    exists|i: int| 0 <= i < s.len() && (#[trigger] s[i]).contains(b)
}

/// In a canonical sequence, ranges are ordered: any earlier range ends
/// strictly before any later range starts.
pub proof fn lemma_canonical_order(s: Seq<Span>, i: int, j: int)
    requires
        canonical(s),
        0 <= i < j < s.len(),
    ensures
        s[i].end() < s[j].start,
    decreases j - i,
{
    if j == i + 1 {
    } else {
        lemma_canonical_order(s, i, j - 1);
    }
}

/// A contiguous run of covered addresses lies inside a single range: if `a`
/// and `b` are covered and everything between them is covered, the range that
/// contains `a` contains `b` as well.
pub proof fn lemma_contiguous_in_one_range(s: Seq<Span>, a: int, b: int)
    requires
        canonical(s),
        a <= b,
        forall|x: int| a <= x <= b ==> covers(s, x),
    ensures
        exists|i: int| 0 <= i < s.len() && (#[trigger] s[i]).contains(a) && s[i].contains(b),
    decreases b - a,
{
    if a == b {
        assert(covers(s, a));
        let i = choose|i: int| 0 <= i < s.len() && (#[trigger] s[i]).contains(a);
        assert(s[i].contains(a) && s[i].contains(b));
    } else {
        lemma_contiguous_in_one_range(s, a, b - 1);
        let i = choose|i: int|
            0 <= i < s.len() && (#[trigger] s[i]).contains(a) && s[i].contains(b - 1);
        assert(covers(s, b));
        let j = choose|j: int| 0 <= j < s.len() && (#[trigger] s[j]).contains(b);
        if i == j {
            assert(s[i].contains(a) && s[i].contains(b));
        } else if i < j {
            lemma_canonical_order(s, i, j);
            // s[i] ends before s[j] starts; b - 1 sits in s[i] and b in s[j],
            // which leaves no room for the strict gap between the two.
            assert(false);
        } else {
            lemma_canonical_order(s, j, i);
            assert(false);
        }
    }
}

/// Coverage distributes over concatenation.
proof fn lemma_covers_concat(s1: Seq<Span>, s2: Seq<Span>, b: int)
    ensures
        covers(s1 + s2, b) <==> (covers(s1, b) || covers(s2, b)),
{
    let s = s1 + s2;
    if covers(s, b) {
        let i = choose|i: int| 0 <= i < s.len() && (#[trigger] s[i]).contains(b);
        if i < s1.len() {
            assert(s1[i].contains(b));
        } else {
            assert(s2[i - s1.len()].contains(b));
        }
    }
    if covers(s1, b) {
        let i = choose|i: int| 0 <= i < s1.len() && (#[trigger] s1[i]).contains(b);
        assert(s[i].contains(b));
    }
    if covers(s2, b) {
        let i = choose|i: int| 0 <= i < s2.len() && (#[trigger] s2[i]).contains(b);
        assert(s[i + s1.len()].contains(b));
    }
}

/// Two canonical sequences covering the same addresses are equal.
#[verifier::rlimit(100)]
pub proof fn lemma_canonical_unique(a: Seq<Span>, b: Seq<Span>)
    requires
        canonical(a),
        canonical(b),
        forall|x: int| covers(a, x) <==> covers(b, x),
    ensures
        a =~= b,
    decreases a.len(),
{
    if a.len() == 0 {
        if b.len() > 0 {
            assert(covers(b, b[0].start as int));
            assert(!covers(a, b[0].start as int));
        }
    } else if b.len() == 0 {
        assert(covers(a, a[0].start as int));
        assert(!covers(b, a[0].start as int));
    } else {
        lemma_first_range_determined(a, b);
        lemma_first_range_determined(b, a);
        assert(a[0] == b[0]);
        let a1 = a.subrange(1, a.len() as int);
        let b1 = b.subrange(1, b.len() as int);
        assert(canonical(a1)) by {
            assert(forall|i: int| 0 <= i < a1.len() ==> a1[i] == a[i + 1]);
        }
        assert(canonical(b1)) by {
            assert(forall|i: int| 0 <= i < b1.len() ==> b1[i] == b[i + 1]);
        }
        assert(forall|x: int| covers(a1, x) <==> covers(b1, x)) by {
            assert forall|x: int| covers(a1, x) implies covers(b1, x) by {
                lemma_tail_covers(a, b, x);
            }
            assert forall|x: int| covers(b1, x) implies covers(a1, x) by {
                lemma_tail_covers(b, a, x);
            }
        }
        lemma_canonical_unique(a1, b1);
        assert(a =~= b) by {
            assert(forall|i: int| 1 <= i < a.len() ==> a[i] == a1[i - 1] && b[i] == b1[i - 1]);
        }
    }
}

proof fn lemma_tail_covers(a: Seq<Span>, b: Seq<Span>, x: int)
    requires
        canonical(a),
        canonical(b),
        a.len() > 0,
        b.len() > 0,
        a[0] == b[0],
        forall|y: int| covers(a, y) <==> covers(b, y),
        covers(a.subrange(1, a.len() as int), x),
    ensures
        covers(b.subrange(1, b.len() as int), x),
{
    let a1 = a.subrange(1, a.len() as int);
    let b1 = b.subrange(1, b.len() as int);
    let i = choose|i: int| 0 <= i < a1.len() && (#[trigger] a1[i]).contains(x);
    assert(a1[i] == a[i + 1]);
    lemma_canonical_order(a, 0, i + 1);
    assert(x > a[0].end());
    assert(covers(a, x));
    assert(covers(b, x));
    let j = choose|j: int| 0 <= j < b.len() && (#[trigger] b[j]).contains(x);
    if j == 0 {
        assert(b[0].contains(x));
        assert(false);
    }
    assert(b1[j - 1] == b[j]);
    assert(b1[j - 1].contains(x));
}

/// The first ranges of two canonical sequences covering the same addresses
/// agree: `b`'s first range can neither start earlier nor reach further.
proof fn lemma_first_range_determined(a: Seq<Span>, b: Seq<Span>)
    requires
        canonical(a),
        canonical(b),
        a.len() > 0,
        b.len() > 0,
        forall|x: int| covers(a, x) <==> covers(b, x),
    ensures
        b[0].start >= a[0].start,
        b[0].end() <= a[0].end(),
{
    // b[0].start is covered by b, hence by a, by some range a[k]; every
    // a-range starts at or after a[0].start.
    assert(covers(b, b[0].start as int));
    let k = choose|k: int| 0 <= k < a.len() && (#[trigger] a[k]).contains(b[0].start as int);
    if k > 0 {
        lemma_canonical_order(a, 0, k);
    }
    assert(b[0].start >= a[0].start);

    if b[0].end() > a[0].end() {
        // Then a[0].end() itself lies in [b[0].start, b[0].end()): it is
        // covered by b but not by a.
        let e = a[0].end();
        assert(b[0].start <= e) by {
            assert(covers(a, a[0].start as int));
            assert(covers(b, a[0].start as int));
            let j = choose|j: int| 0 <= j < b.len() && (#[trigger] b[j]).contains(a[0].start as int);
            if j > 0 {
                lemma_canonical_order(b, 0, j);
                // b[0] ends before b[j] starts <= a[0].start, but b[0] was
                // assumed to reach past a[0].end() > a[0].start.
                assert(false);
            }
        }
        assert(b[0].contains(e));
        assert(covers(b, e));
        assert(covers(a, e));
        let m = choose|m: int| 0 <= m < a.len() && (#[trigger] a[m]).contains(e);
        if m == 0 {
            assert(false);
        } else {
            lemma_canonical_order(a, 0, m);
            // a[m] starts after a[0].end(), so it cannot contain e == a[0].end().
            assert(false);
        }
    }
}

/// The free-range index itself: a canonical sequence of free byte ranges.
pub struct RangeIndex {
    ranges: Vec<Span>,
}

impl View for RangeIndex {
    type V = Seq<Span>;

    closed spec fn view(&self) -> Seq<Span> {
        self.ranges@
    }
}

impl RangeIndex {
    /// The index is well formed: its ranges are in canonical form.
    pub open spec fn wf(self) -> bool {
        canonical(self@)
    }

    /// Address `b` lies in some free range.
    pub open spec fn is_free(self, b: int) -> bool {
        covers(self@, b)
    }

    /// An index with no free space at all.
    pub fn empty() -> (r: Self)
        ensures
            r@ =~= Seq::<Span>::empty(),
            r.wf(),
    {
        RangeIndex { ranges: Vec::new() }
    }

    /// Builds an index from ranges already in canonical form; rejects any
    /// other input.
    pub fn from_sorted(v: Vec<Span>) -> (r: Option<Self>)
        ensures
            match r {
                Some(ri) => ri@ == v@ && ri.wf(),
                None => !canonical(v@),
            },
    {
        let n = v.len();
        let mut i: usize = 0;
        while i < n
            invariant
                n == v@.len(),
                0 <= i <= n,
                forall|j: int| 0 <= j < i ==> (#[trigger] v@[j]).size > 0 && v@[j].end() <= u64::MAX,
                forall|j: int| 0 <= j < i && j < n - 1 ==> (#[trigger] v@[j]).end() < v@[j + 1].start,
            decreases n - i,
        {
            let cur = v[i];
            if cur.size == 0 || cur.start > u64::MAX - cur.size {
                return None;
            }
            if i + 1 < n {
                if cur.start + cur.size >= v[i + 1].start {
                    return None;
                }
            }
            i += 1;
        }
        Some(RangeIndex { ranges: v })
    }

    /// The current free ranges, sorted by start.
    pub fn regions(&self) -> (r: &Vec<Span>)
        ensures
            r@ == self@,
    {
        &self.ranges
    }

    /// Reserves `needed` bytes at an address aligned to `align`, carving them
    /// out of the first free range that can hold them.  The head padding and
    /// the tail remainder of the chosen range stay free.  Fails exactly when
    /// no free range can hold an aligned block of `needed` bytes.
    pub fn reserve_range(&mut self, needed: u64, align: u64) -> (r: Option<Span>)
        requires
            old(self).wf(),
            needed > 0,
            is_pow2(align),
        ensures
            final(self).wf(),
            match r {
                Some(s) => {
                    &&& s.size == needed
                    &&& s.start as int % align as int == 0
                    &&& s.end() <= u64::MAX
                    &&& Some(s.start as int) == spec_first_fit(old(self)@, needed, align)
                    &&& forall|b: int| s.contains(b) ==> #[trigger] old(self).is_free(b)
                    &&& forall|b: int|
                        #[trigger] final(self).is_free(b) <==> (old(self).is_free(b)
                            && !s.contains(b))
                },
                None => {
                    &&& *final(self) == *old(self)
                    &&& spec_first_fit(old(self)@, needed, align) is None
                    &&& forall|i: int|
                        0 <= i < old(self)@.len() ==> spec_align_up(
                            (#[trigger] old(self)@[i]).start as int,
                            align as int,
                        ) + needed > old(self)@[i].end()
                },
            },
    {
        let ghost o = self@;
        let n = self.ranges.len();
        let mut k: usize = 0;
        while k < n
            invariant
                *self == *old(self),
                o == self@,
                n == o.len(),
                old(self).wf(),
                needed > 0,
                align > 0,
                0 <= k <= n,
                forall|i: int|
                    0 <= i < k ==> spec_align_up((#[trigger] o[i]).start as int, align as int)
                        + needed > o[i].end(),
                spec_first_fit(o, needed, align) == spec_first_fit_from(o, needed, align, k as int),
            decreases n - k,
        {
            let cur = self.ranges[k];
            if let Some(aligned) = checked_align_up(cur.start, align) {
                let pad = aligned - cur.start;
                if pad <= cur.size && needed <= cur.size - pad {
                    let res = Span { start: aligned, size: needed };
                    let tail_size = cur.size - needed - pad;
                    let tail = Span { start: aligned + needed, size: tail_size };
                    let head = Span { start: cur.start, size: pad };
                    self.ranges.remove(k);
                    if tail_size > 0 {
                        self.ranges.insert(k, tail);
                    }
                    if pad > 0 {
                        self.ranges.insert(k, head);
                    }
                    proof {
                        lemma_align_up_props(cur.start as int, align as int);
                        let ki = k as int;
                        let prefix = o.subrange(0, ki);
                        let suffix = o.subrange(ki + 1, o.len() as int);
                        let mid = spec_mid(head, tail);
                        let s1 = o.remove(ki);
                        assert(s1.subrange(0, ki) =~= prefix);
                        assert(s1.subrange(ki, s1.len() as int) =~= suffix);
                        if tail.size > 0 {
                            assert(s1.insert(ki, tail) =~= prefix + seq![tail] + suffix);
                            let s2 = s1.insert(ki, tail);
                            if head.size > 0 {
                                assert(s2.subrange(0, ki) =~= prefix);
                                assert(s2.subrange(ki, s2.len() as int) =~= seq![tail] + suffix);
                                assert(s2.insert(ki, head) =~= prefix + mid + suffix);
                            }
                        } else {
                            if head.size > 0 {
                                assert(s1.insert(ki, head) =~= prefix + mid + suffix);
                            }
                        }
                        assert(self@ =~= prefix + mid + suffix);
                        lemma_reserve_canonical(o, self@, ki, head, res, tail);
                        lemma_reserve_covers(o, self@, ki, head, res, tail);
                    }
                    return Some(res);
                }
            }
            proof {
                lemma_align_up_props(cur.start as int, align as int);
            }
            k += 1;
        }
        None
    }

    /// Reserves exactly the given byte range.  Succeeds, removing those
    /// bytes from the index, if and only if every byte of the range is
    /// currently free.
    pub fn reserve_exact(&mut self, span: Span) -> (r: bool)
        requires
            old(self).wf(),
            span.size > 0,
            span.end() <= u64::MAX,
        ensures
            final(self).wf(),
            r <==> (forall|b: int| span.contains(b) ==> #[trigger] old(self).is_free(b)),
            r ==> forall|b: int|
                #[trigger] final(self).is_free(b) <==> (old(self).is_free(b) && !span.contains(
                b)),
            !r ==> *final(self) == *old(self),
    {
        let ghost o = self@;
        let n = self.ranges.len();
        let mut k: usize = 0;
        while k < n
            invariant
                *self == *old(self),
                o == self@,
                n == o.len(),
                old(self).wf(),
                span.size > 0,
                span.end() <= u64::MAX,
                0 <= k <= n,
                forall|i: int|
                    0 <= i < k ==> !((#[trigger] o[i]).start <= span.start && span.end()
                        <= o[i].end()),
            decreases n - k,
        {
            let cur = self.ranges[k];
            if cur.start <= span.start && span.size <= cur.size && span.start - cur.start
                <= cur.size - span.size {
                let res = span;
                let pad = span.start - cur.start;
                let tail_size = cur.size - span.size - pad;
                let tail = Span { start: span.start + span.size, size: tail_size };
                let head = Span { start: cur.start, size: pad };
                self.ranges.remove(k);
                if tail_size > 0 {
                    self.ranges.insert(k, tail);
                }
                if pad > 0 {
                    self.ranges.insert(k, head);
                }
                proof {
                    let ki = k as int;
                    let prefix = o.subrange(0, ki);
                    let suffix = o.subrange(ki + 1, o.len() as int);
                    let mid = spec_mid(head, tail);
                    let s1 = o.remove(ki);
                    assert(s1.subrange(0, ki) =~= prefix);
                    assert(s1.subrange(ki, s1.len() as int) =~= suffix);
                    if tail.size > 0 {
                        assert(s1.insert(ki, tail) =~= prefix + seq![tail] + suffix);
                        let s2 = s1.insert(ki, tail);
                        if head.size > 0 {
                            assert(s2.subrange(0, ki) =~= prefix);
                            assert(s2.subrange(ki, s2.len() as int) =~= seq![tail] + suffix);
                            assert(s2.insert(ki, head) =~= prefix + mid + suffix);
                        }
                    } else {
                        if head.size > 0 {
                            assert(s1.insert(ki, head) =~= prefix + mid + suffix);
                        }
                    }
                    assert(self@ =~= prefix + mid + suffix);
                    lemma_reserve_canonical(o, self@, ki, head, res, tail);
                    lemma_reserve_covers(o, self@, ki, head, res, tail);
                    assert forall|b: int| span.contains(b) implies covers(o, b) by {
                        assert(o[ki].contains(b));
                    }
                }
                return true;
            }
            k += 1;
        }
        proof {
            // No single free range holds the whole block, so by contiguity
            // some byte of the block is not free.
            if forall|b: int| span.contains(b) ==> #[trigger] old(self).is_free(b) {
                assert forall|b: int| span.contains(b) implies covers(o, b) by {
                    assert(old(self).is_free(b));
                }
                lemma_contiguous_in_one_range(o, span.start as int, span.end() - 1);
                let i = choose|i: int|
                    0 <= i < o.len() && (#[trigger] o[i]).contains(span.start as int)
                        && o[i].contains(span.end() - 1);
                assert(o[i].start <= span.start && span.end() <= o[i].end());
                assert(false);
            }
        }
        false
    }

    /// Gives a byte range back to the index and coalesces it with any free
    /// ranges it touches.  Returns `false`, without changing anything, when
    /// the range's start is already free.
    #[verifier::rlimit(60)]
    pub fn release_range(&mut self, span: Span) -> (r: bool)
        requires
            old(self).wf(),
            span.size > 0,
            span.end() <= u64::MAX,
        ensures
            final(self).wf(),
            r <==> !old(self).is_free(span.start as int),
            r ==> forall|b: int|
                #[trigger] final(self).is_free(b) <==> (old(self).is_free(b) || span.contains(
                b)),
            !r ==> *final(self) == *old(self),
    {
        let ghost o = self@;
        let n = self.ranges.len();

        // Refuse a double release: the start must not already be free.
        let mut i: usize = 0;
        while i < n
            invariant
                *self == *old(self),
                o == self@,
                n == o.len(),
                old(self).wf(),
                0 <= i <= n,
                forall|j: int| 0 <= j < i ==> !(#[trigger] o[j]).contains(span.start as int),
            decreases n - i,
        {
            let cur = self.ranges[i];
            if cur.start <= span.start && span.start < cur.start + cur.size {
                return false;
            }
            i += 1;
        }
        proof {
            assert(!covers(o, span.start as int)) by {
                if covers(o, span.start as int) {
                    let w = choose|w: int|
                        0 <= w < o.len() && (#[trigger] o[w]).contains(span.start as int);
                }
            }
        }

        // Position of the released range in start order.
        let mut pos: usize = 0;
        while pos < n && self.ranges[pos].start < span.start
            invariant
                *self == *old(self),
                o == self@,
                n == o.len(),
                old(self).wf(),
                0 <= pos <= n,
                forall|j: int| 0 <= j < pos ==> (#[trigger] o[j]).start < span.start,
            decreases n - pos,
        {
            pos += 1;
        }
        proof {
            if (pos as int) < n {
                assert(o[pos as int].start != span.start) by {
                    if o[pos as int].start == span.start {
                        assert(o[pos as int].contains(span.start as int));
                        assert(covers(o, span.start as int));
                    }
                }
            }
        }

        // The ranges with the released one slotted in, still sorted by start.
        let mut v: Vec<Span> = Vec::new();
        let mut i: usize = 0;
        while i < pos
            invariant
                *self == *old(self),
                o == self@,
                n == o.len(),
                0 <= i <= pos <= n,
                v@ =~= o.subrange(0, i as int),
            decreases pos - i,
        {
            v.push(self.ranges[i]);
            proof {
                assert(v@ =~= o.subrange(0, i as int + 1));
            }
            i += 1;
        }
        v.push(span);
        let mut j: usize = pos;
        while j < n
            invariant
                *self == *old(self),
                o == self@,
                n == o.len(),
                0 <= pos <= j <= n,
                v@ =~= o.subrange(0, pos as int) + seq![span] + o.subrange(pos as int, j as int),
            decreases n - j,
        {
            v.push(self.ranges[j]);
            proof {
                assert(v@ =~= o.subrange(0, pos as int) + seq![span] + o.subrange(
                    pos as int,
                    j as int + 1,
                ));
            }
            j += 1;
        }
        proof {
            lemma_slotted_props(o, v@, pos as int, span);
        }

        // One coalescing sweep: merge every pair that overlaps or abuts.
        let vn = v.len();
        let mut out: Vec<Span> = Vec::new();
        let mut q: usize = 0;
        while q < vn
            invariant
                vn == v@.len(),
                0 <= q <= vn,
                sorted_spans(v@),
                canonical(out@),
                forall|b: int| covers(out@, b) <==> covers(v@.subrange(0, q as int), b),
                q > 0 ==> out@.len() > 0 && out@.last().start <= v@[q as int - 1].start,
                q == 0 ==> out@.len() == 0,
            decreases vn - q,
        {
            let x = v[q];
            let ghost processed = v@.subrange(0, q as int);
            let ghost outv = out@;
            proof {
                assert(v@.subrange(0, q as int + 1) =~= processed.push(x));
                lemma_covers_push_all(processed, v@.subrange(0, q as int + 1), x);
            }
            if out.len() == 0 {
                out.push(x);
                proof {
                    lemma_covers_push_all(outv, out@, x);
                }
            } else {
                let li = out.len() - 1;
                let last = out[li];
                if last.start + last.size >= x.start {
                    let last_end = last.start + last.size;
                    let x_end = x.start + x.size;
                    let new_end = if last_end >= x_end {
                        last_end
                    } else {
                        x_end
                    };
                    let merged = Span { start: last.start, size: new_end - last.start };
                    out.set(li, merged);
                    proof {
                        assert(x == v@[q as int]);
                        assert(x.start > last.start);
                        assert(forall|b: int|
                            merged.contains(b) <==> (last.contains(b) || x.contains(b)));
                        lemma_covers_update_last(outv, out@, li as int, merged, last, x);
                    }
                } else {
                    out.push(x);
                    proof {
                        lemma_covers_push_all(outv, out@, x);
                    }
                }
            }
            q += 1;
        }
        proof {
            assert(v@.subrange(0, vn as int) =~= v@);
        }
        self.ranges = out;
        proof {
            lemma_slotted_covers(o, v@, pos as int, span);
        }
        true
    }
}

/// Releasing a block that abuts free ranges on both sides leaves one merged
/// range: after a release whose bytes sit exactly between two ranges that
/// were already free, a single range of the new index spans all three parts.
pub proof fn lemma_release_coalesces(
    pre: RangeIndex,
    post: RangeIndex,
    span: Span,
    left: Span,
    right: Span,
)
    requires
        pre.wf(),
        post.wf(),
        span.size > 0,
        left.size > 0,
        right.size > 0,
        left.end() == span.start,
        span.end() == right.start,
        forall|b: int| left.contains(b) ==> pre.is_free(b),
        forall|b: int| right.contains(b) ==> pre.is_free(b),
        forall|b: int| post.is_free(b) <==> (pre.is_free(b) || span.contains(b)),
    ensures
        exists|i: int|
            0 <= i < post@.len() && (#[trigger] post@[i]).start <= left.start && right.end()
                <= post@[i].end(),
{
    let lo = left.start as int;
    let hi = right.end() - 1;
    assert forall|x: int| lo <= x <= hi implies covers(post@, x) by {
        if x < span.start {
            assert(left.contains(x));
        } else if x < span.end() {
            assert(span.contains(x));
        } else {
            assert(right.contains(x));
        }
    }
    lemma_contiguous_in_one_range(post@, lo, hi);
    let i = choose|i: int|
        0 <= i < post@.len() && (#[trigger] post@[i]).contains(lo) && post@[i].contains(hi);
    assert(post@[i].start <= left.start && right.end() <= post@[i].end());
}

/// Reserving a block and then releasing exactly that block restores the
/// index: the free ranges after the release equal the free ranges before the
/// reservation, range for range.
pub proof fn lemma_reserve_release_inverse(
    pre: RangeIndex,
    mid: RangeIndex,
    post: RangeIndex,
    res: Span,
)
    requires
        pre.wf(),
        mid.wf(),
        post.wf(),
        forall|b: int| res.contains(b) ==> pre.is_free(b),
        forall|b: int| mid.is_free(b) <==> (pre.is_free(b) && !res.contains(b)),
        forall|b: int| post.is_free(b) <==> (mid.is_free(b) || res.contains(b)),
    ensures
        post@ == pre@,
{
    assert forall|x: int| covers(post@, x) <==> covers(pre@, x) by {
        assert(post.is_free(x) <==> (mid.is_free(x) || res.contains(x)));
        assert(mid.is_free(x) <==> (pre.is_free(x) && !res.contains(x)));
        if res.contains(x) {
            assert(pre.is_free(x));
        }
    }
    lemma_canonical_unique(post@, pre@);
}

/// Starts strictly increase, every range is non-empty, and every range stays
/// within `u64`.
spec fn sorted_spans(s: Seq<Span>) -> bool {
    &&& forall|i: int| 0 <= i < s.len() ==> (#[trigger] s[i]).size > 0 && s[i].end() <= u64::MAX
    &&& forall|i: int| 0 <= i < s.len() - 1 ==> (#[trigger] s[i]).start < s[i + 1].start
}

/// Slotting a fresh range into a canonical sequence at its start position
/// keeps the starts strictly increasing.
proof fn lemma_slotted_props(o: Seq<Span>, v: Seq<Span>, pos: int, span: Span)
    requires
        canonical(o),
        0 <= pos <= o.len(),
        span.size > 0,
        span.end() <= u64::MAX,
        forall|j: int| 0 <= j < pos ==> (#[trigger] o[j]).start < span.start,
        pos < o.len() ==> o[pos].start > span.start,
        v =~= o.subrange(0, pos) + seq![span] + o.subrange(pos, o.len() as int),
    ensures
        sorted_spans(v),
{
    assert forall|i: int| 0 <= i < v.len() implies (#[trigger] v[i]).size > 0 && v[i].end()
        <= u64::MAX by {
        if i < pos {
            assert(v[i] == o[i]);
        } else if i == pos {
            assert(v[i] == span);
        } else {
            assert(v[i] == o[i - 1]);
        }
    }
    assert forall|i: int| 0 <= i < v.len() - 1 implies (#[trigger] v[i]).start < v[i
        + 1].start by {
        if i + 1 < pos {
            assert(v[i] == o[i] && v[i + 1] == o[i + 1]);
        } else if i + 1 == pos {
            assert(v[i] == o[i] && v[i + 1] == span);
        } else if i == pos {
            assert(v[i] == span && v[i + 1] == o[i]);
        } else {
            assert(v[i] == o[i - 1] && v[i + 1] == o[i]);
        }
    }
}

/// The slotted sequence covers the old bytes plus the released range.
proof fn lemma_slotted_covers(o: Seq<Span>, v: Seq<Span>, pos: int, span: Span)
    requires
        0 <= pos <= o.len(),
        span.size > 0,
        v =~= o.subrange(0, pos) + seq![span] + o.subrange(pos, o.len() as int),
    ensures
        forall|b: int| covers(v, b) <==> (covers(o, b) || span.contains(b)),
{
    assert forall|b: int| covers(v, b) implies (covers(o, b) || span.contains(b)) by {
        let w = choose|w: int| 0 <= w < v.len() && (#[trigger] v[w]).contains(b);
        if w < pos {
            assert(v[w] == o[w]);
            assert(o[w].contains(b));
        } else if w == pos {
        } else {
            assert(v[w] == o[w - 1]);
            assert(o[w - 1].contains(b));
        }
    }
    assert forall|b: int| covers(o, b) || span.contains(b) implies covers(v, b) by {
        if covers(o, b) {
            let w = choose|w: int| 0 <= w < o.len() && (#[trigger] o[w]).contains(b);
            if w < pos {
                assert(v[w].contains(b));
            } else {
                assert(v[w + 1].contains(b));
            }
        } else {
            assert(v[pos].contains(b));
        }
    }
}

/// Coverage after pushing one range.
proof fn lemma_covers_push_all(before: Seq<Span>, after: Seq<Span>, x: Span)
    requires
        after == before.push(x),
    ensures
        forall|b: int| covers(after, b) <==> (covers(before, b) || x.contains(b)),
{
    assert forall|b: int| covers(after, b) <==> (covers(before, b) || x.contains(b)) by {
        if covers(after, b) {
            let w = choose|w: int| 0 <= w < after.len() && (#[trigger] after[w]).contains(b);
            if w < before.len() {
                assert(before[w].contains(b));
            }
        }
        if covers(before, b) {
            let w = choose|w: int| 0 <= w < before.len() && (#[trigger] before[w]).contains(b);
            assert(after[w].contains(b));
        }
        if x.contains(b) {
            assert(after[before.len() as int].contains(b));
        }
    }
}

/// Coverage after widening the last range to also cover `x`.
proof fn lemma_covers_update_last(
    before: Seq<Span>,
    after: Seq<Span>,
    li: int,
    merged: Span,
    last: Span,
    x: Span,
)
    requires
        before.len() > 0,
        li == before.len() - 1,
        before[li] == last,
        after == before.update(li, merged),
        forall|b: int| merged.contains(b) <==> (last.contains(b) || x.contains(b)),
    ensures
        forall|b: int| covers(after, b) <==> (covers(before, b) || x.contains(b)),
{
    assert forall|b: int| covers(after, b) <==> (covers(before, b) || x.contains(b)) by {
        if covers(after, b) {
            let w = choose|w: int| 0 <= w < after.len() && (#[trigger] after[w]).contains(b);
            if w < li {
                assert(before[w].contains(b));
            } else {
                assert(merged.contains(b));
                if last.contains(b) {
                    assert(before[li].contains(b));
                }
            }
        }
        if covers(before, b) {
            let w = choose|w: int| 0 <= w < before.len() && (#[trigger] before[w]).contains(b);
            if w < li {
                assert(after[w].contains(b));
            } else {
                assert(after[li].contains(b));
            }
        }
        if x.contains(b) {
            assert(after[li].contains(b));
        }
    }
}

/// The ranges that replace the chosen free range: its head padding and its
/// tail remainder, keeping only the non-empty ones.
spec fn spec_mid(head: Span, tail: Span) -> Seq<Span> {
    if head.size > 0 && tail.size > 0 {
        seq![head, tail]
    } else if head.size > 0 {
        seq![head]
    } else if tail.size > 0 {
        seq![tail]
    } else {
        Seq::<Span>::empty()
    }
}

/// Replacing `o[k]` by its head padding and tail remainder keeps the
/// sequence canonical.
proof fn lemma_reserve_canonical(o: Seq<Span>, n: Seq<Span>, k: int, head: Span, res: Span, tail: Span)
    requires
        canonical(o),
        0 <= k < o.len(),
        head.start == o[k].start,
        res.start == head.end(),
        tail.start == res.end(),
        tail.end() == o[k].end(),
        res.size > 0,
        n =~= o.subrange(0, k) + spec_mid(head, tail) + o.subrange(k + 1, o.len() as int),
    ensures
        canonical(n),
{
    let mid = spec_mid(head, tail);
    let m = mid.len();
    let prefix = o.subrange(0, k);
    let pm = prefix + mid;
    assert forall|i: int| 0 <= i < n.len() implies (#[trigger] n[i]).size > 0 && n[i].end()
        <= u64::MAX by {
        if i < k {
            assert(n[i] == o[i]);
        } else if i < k + m {
            assert(n[i] == mid[i - k]);
        } else {
            assert(n[i] == o[i - m + 1]);
        }
    }
    assert forall|i: int| 0 <= i < n.len() - 1 implies (#[trigger] n[i]).end() < n[i + 1].start by {
        if i + 1 < k {
            assert(n[i] == o[i] && n[i + 1] == o[i + 1]);
        } else if i + 1 == k {
            assert(n[i] == o[i]);
            if m > 0 {
                assert(n[k] == mid[0]);
                assert(mid[0].start >= o[k].start);
            } else {
                assert(n[k] == o[k + 1]);
                lemma_canonical_order(o, i, k + 1);
            }
        } else if i + 1 < k + m {
            assert(n[i] == head && n[i + 1] == tail);
        } else if i + 1 == k + m && m > 0 {
            assert(n[i] == mid[m - 1]);
            assert(n[i + 1] == o[k + 1]);
            assert(mid[m - 1].end() <= o[k].end());
        } else {
            assert(n[i] == o[i - m + 1] && n[i + 1] == o[i + 2 - m]);
        }
    }
}

/// Replacing `o[k]` by its head padding and tail remainder removes exactly
/// the reserved block from the covered bytes.
proof fn lemma_reserve_covers(o: Seq<Span>, n: Seq<Span>, k: int, head: Span, res: Span, tail: Span)
    requires
        canonical(o),
        0 <= k < o.len(),
        head.start == o[k].start,
        res.start == head.end(),
        tail.start == res.end(),
        tail.end() == o[k].end(),
        res.size > 0,
        n =~= o.subrange(0, k) + spec_mid(head, tail) + o.subrange(k + 1, o.len() as int),
    ensures
        forall|b: int| res.contains(b) ==> covers(o, b),
        forall|b: int| covers(n, b) <==> (covers(o, b) && !res.contains(b)),
{
    assert forall|b: int| res.contains(b) implies covers(o, b) by {
        assert(o[k].contains(b));
    }
    assert forall|b: int| covers(n, b) implies (covers(o, b) && !res.contains(b)) by {
        lemma_reserve_covers_fwd(o, n, k, head, res, tail, b);
    }
    assert forall|b: int| covers(o, b) && !res.contains(b) implies covers(n, b) by {
        lemma_reserve_covers_bwd(o, n, k, head, res, tail, b);
    }
}

proof fn lemma_reserve_covers_fwd(
    o: Seq<Span>,
    n: Seq<Span>,
    k: int,
    head: Span,
    res: Span,
    tail: Span,
    b: int,
)
    requires
        canonical(o),
        0 <= k < o.len(),
        head.start == o[k].start,
        res.start == head.end(),
        tail.start == res.end(),
        tail.end() == o[k].end(),
        res.size > 0,
        n =~= o.subrange(0, k) + spec_mid(head, tail) + o.subrange(k + 1, o.len() as int),
        covers(n, b),
    ensures
        covers(o, b),
        !res.contains(b),
{
    let mid = spec_mid(head, tail);
    let m = mid.len();
    let j = choose|j: int| 0 <= j < n.len() && (#[trigger] n[j]).contains(b);
    if j < k {
        assert(n[j] == o[j]);
        assert(o[j].contains(b));
        lemma_canonical_order(o, j, k);
    } else if j < k + m {
        assert(n[j] == mid[j - k]);
        assert(mid[j - k] == head || mid[j - k] == tail);
        assert(o[k].contains(b));
    } else {
        assert(n[j] == o[j - m + 1]);
        assert(o[j - m + 1].contains(b));
        lemma_canonical_order(o, k, j - m + 1);
    }
}

proof fn lemma_reserve_covers_bwd(
    o: Seq<Span>,
    n: Seq<Span>,
    k: int,
    head: Span,
    res: Span,
    tail: Span,
    b: int,
)
    requires
        canonical(o),
        0 <= k < o.len(),
        head.start == o[k].start,
        res.start == head.end(),
        tail.start == res.end(),
        tail.end() == o[k].end(),
        res.size > 0,
        n =~= o.subrange(0, k) + spec_mid(head, tail) + o.subrange(k + 1, o.len() as int),
        covers(o, b),
        !res.contains(b),
    ensures
        covers(n, b),
{
    let mid = spec_mid(head, tail);
    let m = mid.len();
    let i = choose|i: int| 0 <= i < o.len() && (#[trigger] o[i]).contains(b);
    if i < k {
        assert(n[i] == o[i]);
        assert(n[i].contains(b));
    } else if i == k {
        if b < res.start {
            assert(head.contains(b));
            assert(head.size > 0);
            assert(n[k] == mid[0] && mid[0] == head);
            assert(n[k].contains(b));
        } else {
            assert(tail.contains(b));
            assert(tail.size > 0);
            assert(n[k + m - 1] == mid[m - 1] && mid[m - 1] == tail);
            assert(n[k + m - 1].contains(b));
        }
    } else {
        assert(n[i + m - 1] == o[i]);
        assert(n[i + m - 1].contains(b));
    }
}

} // verus!
