//! Inverted-repeat model: paired equal-length ranges (`Segment`) and ordered,
//! strictly nested lists of them (`Repeat`).
//!
//! Coordinates are `i64`. Every constructor validates its input and refuses,
//! rather than repairs, anything that breaks the invariants.

use vstd::prelude::*;

use std::ops::Range;

verus! {

/// Why constructing a [`Segment`] or a [`Repeat`] was refused.
#[derive(Copy, Clone, Debug, PartialEq, Eq, Structural)]
pub enum BuildError {
    /// A coordinate range was empty or inverted (`start >= end`).
    EmptyRange,
    /// The two ranges of a segment differ in length.
    LengthMismatch,
    /// The left range of a segment reaches past the start of its right range.
    OverlappingRanges,
    /// A repeat was given no segments at all.
    NoSegments,
    /// Consecutive segments of a repeat are not nested outer-to-inner.
    NotNested,
}

/// Mathematical view of a segment: its four coordinates as unbounded integers.
/// `l0..l1` is the left range, `r0..r1` the right range.
pub struct SegmentView {
    pub l0: int,
    pub l1: int,
    pub r0: int,
    pub r1: int,
}

impl SegmentView {
    /// Validity: both ranges non-empty, equal in length, and the left range
    /// ends at or before the right range starts.
    pub open spec fn wf(self) -> bool {
        self.l0 < self.l1 <= self.r0 < self.r1 && self.l1 - self.l0 == self.r1 - self.r0
    }

    /// All four coordinates moved by `k`.
    pub open spec fn shifted(self, k: int) -> SegmentView {
        SegmentView { l0: self.l0 + k, l1: self.l1 + k, r0: self.r0 + k, r1: self.r1 + k }
    }

    /// `inner` lies strictly inside `self`: after the left range of `self`
    /// and before its right range.
    pub open spec fn nests(self, inner: SegmentView) -> bool {
        self.l1 <= inner.l0 && inner.r1 <= self.r0
    }

    /// Length of the left (equivalently the right) range.
    pub open spec fn range_len(self) -> int {
        self.l1 - self.l0
    }
}

/// One paired (left, right) unit of an inverted repeat.
#[derive(Debug)]
pub struct Segment {
    left: Range<i64>,
    right: Range<i64>,
}

impl View for Segment {
    type V = SegmentView;

    closed spec fn view(&self) -> SegmentView {
        SegmentView {
            l0: self.left.start as int,
            l1: self.left.end as int,
            r0: self.right.start as int,
            r1: self.right.end as int,
        }
    }
}

impl Clone for Segment {
    fn clone(&self) -> (r: Self)
        ensures
            r@ == self@,
    {
        Segment { left: self.left.start..self.left.end, right: self.right.start..self.right.end }
    }
}

impl Segment {
    /// Builds a segment from its two ranges, refusing empty ranges, unequal
    /// lengths and overlap, in that order of checks.
    pub fn new(left: Range<i64>, right: Range<i64>) -> (r: Result<Segment, BuildError>)
        ensures
            r matches Ok(s) ==> s@ == (SegmentView {
                l0: left.start as int,
                l1: left.end as int,
                r0: right.start as int,
                r1: right.end as int,
            }) && s@.wf(),
            r is Ok <==> left.start < left.end <= right.start < right.end
                && left.end - left.start == right.end - right.start,
            r == Err::<Segment, BuildError>(BuildError::EmptyRange)
                <==> !(left.start < left.end) || !(right.start < right.end),
            r == Err::<Segment, BuildError>(BuildError::LengthMismatch)
                <==> left.start < left.end && right.start < right.end
                    && left.end - left.start != right.end - right.start,
            r == Err::<Segment, BuildError>(BuildError::OverlappingRanges)
                <==> left.start < left.end && right.start < right.end
                    && left.end - left.start == right.end - right.start
                    && !(left.end <= right.start),
    {
        if left.start >= left.end || right.start >= right.end {
            return Err(BuildError::EmptyRange);
        }
        if (left.end as i128) - (left.start as i128) != (right.end as i128) - (right.start as i128) {
            return Err(BuildError::LengthMismatch);
        }
        if left.end > right.start {
            return Err(BuildError::OverlappingRanges);
        }
        Ok(Segment { left, right })
    }

    /// The left range.
    pub fn left(&self) -> (r: &Range<i64>)
        ensures
            r.start == self@.l0,
            r.end == self@.l1,
    {
        &self.left
    }

    /// The right range.
    pub fn right(&self) -> (r: &Range<i64>)
        ensures
            r.start == self@.r0,
            r.end == self@.r1,
    {
        &self.right
    }

    /// Distance between the end of the left range and the start of the right one.
    pub fn inner_gap(&self) -> (r: i64)
        requires
            self@.wf(),
            self@.r0 - self@.l1 <= i64::MAX,
        ensures
            r == self@.r0 - self@.l1,
    {
        self.right.start - self.left.end
    }

    /// Total aligned length: both ranges together.
    pub fn seqlen(&self) -> (r: i64)
        requires
            self@.wf(),
            2 * self@.range_len() <= i64::MAX,
        ensures
            r == 2 * self@.range_len(),
    {
        (self.left.end - self.left.start) * 2
    }

    /// Minimal range covering both ranges of the segment.
    pub fn brange(&self) -> (r: Range<i64>)
        requires
            self@.wf(),
        ensures
            r.start == self@.l0,
            r.end == self@.r1,
    {
        self.left.start..self.right.end
    }

    /// Moves all four coordinates by `shift`.
    pub fn shift(&mut self, shift: i64)
        requires
            old(self)@.wf(),
            i64::MIN <= old(self)@.l0 + shift,
            old(self)@.r1 + shift <= i64::MAX,
        ensures
            final(self)@ == old(self)@.shifted(shift as int),
    {
        self.left.start = self.left.start + shift;
        self.left.end = self.left.end + shift;
        self.right.start = self.right.start + shift;
        self.right.end = self.right.end + shift;
    }
}

/// Consecutive segments are ordered outer-to-inner and never overlap.
pub open spec fn chained(segs: Seq<SegmentView>) -> bool {
    forall|i: int| 0 <= i < segs.len() - 1 ==> #[trigger] segs[i].nests(segs[i + 1])
}

/// The view of a vector of segments.
pub open spec fn views_of(segments: Seq<Segment>) -> Seq<SegmentView> {
    segments.map_values(|s: Segment| s@)
}

/// An inverted repeat: a non-empty list of segments, outer-to-inner.
#[derive(Debug)]
pub struct Repeat {
    segments: Vec<Segment>,
}

impl View for Repeat {
    type V = Seq<SegmentView>;

    closed spec fn view(&self) -> Seq<SegmentView> {
        views_of(self.segments@)
    }
}

impl Clone for Repeat {
    fn clone(&self) -> (r: Self)
        ensures
            r@ == self@,
    {
        let mut segments: Vec<Segment> = Vec::new();
        let mut i: usize = 0;
        while i < self.segments.len()
            invariant
                i <= self.segments@.len(),
                segments@.len() == i,
                forall|j: int| 0 <= j < i ==> #[trigger] segments@[j]@ == self.segments@[j]@,
            decreases self.segments@.len() - i,
        {
            segments.push(self.segments[i].clone());
            i = i + 1;
        }
        proof {
            assert(views_of(segments@) =~= views_of(self.segments@));
        }
        Repeat { segments }
    }
}

impl Repeat {
    /// Validity: at least one segment, every segment valid, consecutive
    /// segments strictly nested outer-to-inner.
    pub open spec fn wf(self) -> bool {
        &&& self@.len() > 0
        &&& forall|i: int| 0 <= i < self@.len() ==> self@[i].wf()
        &&& chained(self@)
    }

    /// Builds a repeat, refusing an empty list and any consecutive pair of
    /// segments that is out of order or overlapping.
    pub fn new(segments: Vec<Segment>) -> (r: Result<Repeat, BuildError>)
        requires
            forall|i: int| 0 <= i < segments@.len() ==> #[trigger] segments@[i]@.wf(),
        ensures
            r matches Ok(rep) ==> rep@ == views_of(segments@) && rep.wf(),
            r is Ok <==> segments@.len() > 0 && chained(views_of(segments@)),
            r == Err::<Repeat, BuildError>(BuildError::NoSegments) <==> segments@.len() == 0,
            r == Err::<Repeat, BuildError>(BuildError::NotNested)
                <==> segments@.len() > 0 && !chained(views_of(segments@)),
    {
        if segments.len() == 0 {
            return Err(BuildError::NoSegments);
        }
        let ghost vs = views_of(segments@);
        let mut i: usize = 1;
        while i < segments.len()
            invariant
                1 <= i <= segments@.len(),
                vs == views_of(segments@),
                vs.len() == segments@.len(),
                forall|j: int| 0 <= j < i - 1 ==> #[trigger] vs[j].nests(vs[j + 1]),
            decreases segments@.len() - i,
        {
            let prev = &segments[i - 1];
            let nxt = &segments[i];
            let ghost j = i - 1;
            proof {
                assert(vs[j] == segments@[j]@);
                assert(vs[j + 1] == segments@[j + 1]@);
            }
            if !(prev.left.end <= nxt.left.start && nxt.right.end <= prev.right.start) {
                proof {
                    assert(!vs[j].nests(vs[j + 1]));
                    assert(!chained(vs));
                }
                return Err(BuildError::NotNested);
            }
            assert(vs[j].nests(vs[j + 1]));
            i = i + 1;
        }
        Ok(Repeat { segments })
    }

    /// The segments, outer-to-inner.
    pub fn segments(&self) -> (r: &Vec<Segment>)
        ensures
            views_of(r@) == self@,
    {
        &self.segments
    }

    /// Sum of the aligned lengths of the first `n` segments.
    pub open spec fn total_len_below(segs: Seq<SegmentView>, n: int) -> int
        decreases n,
    {
        if n <= 0 {
            0
        } else {
            Self::total_len_below(segs, n - 1) + 2 * segs[n - 1].range_len()
        }
    }

    /// Sum of the aligned lengths of all segments.
    pub open spec fn total_len(segs: Seq<SegmentView>) -> int {
        Self::total_len_below(segs, segs.len() as int)
    }

    /// Total aligned length of the repeat: twice the summed range lengths.
    pub fn seqlen(&self) -> (r: i64)
        requires
            self.wf(),
            Self::total_len(self@) <= i64::MAX,
        ensures
            r == Self::total_len(self@),
    {
        proof {
            Self::lemma_total_len_mono(self@, self@.len() as int);
        }
        let mut sum: i64 = 0;
        let mut i: usize = 0;
        while i < self.segments.len()
            invariant
                i <= self@.len(),
                self.wf(),
                Self::total_len(self@) <= i64::MAX,
                sum == Self::total_len_below(self@, i as int),
                forall|n: int|
                    0 <= n <= self@.len() ==> 0 <= #[trigger] Self::total_len_below(self@, n)
                        <= Self::total_len(self@),
                self@.len() == self.segments@.len(),
            decreases self@.len() - i,
        {
            let s = &self.segments[i];
            assert(s@ == self@[i as int]);
            assert(self@[i as int].wf());
            assert(Self::total_len_below(self@, i + 1) == Self::total_len_below(self@, i as int)
                + 2 * self@[i as int].range_len());
            sum = sum + s.seqlen();
            i = i + 1;
        }
        sum
    }

    /// Every partial sum is at most the total: each term is non-negative.
    proof fn lemma_total_len_mono(segs: Seq<SegmentView>, n: int)
        requires
            n <= segs.len(),
            forall|i: int| 0 <= i < segs.len() ==> segs[i].wf(),
        ensures
            forall|m: int| 0 <= m <= n ==> 0 <= #[trigger] Self::total_len_below(segs, m)
                <= Self::total_len_below(segs, n),
        decreases n,
    {
        if n > 0 {
            Self::lemma_total_len_mono(segs, n - 1);
            assert(segs[n - 1].wf());
            let prev = Self::total_len_below(segs, n - 1);
            assert(Self::total_len_below(segs, n) == prev + 2 * segs[n - 1].range_len());
            assert forall|m: int|
                0 <= m <= n implies 0 <= #[trigger] Self::total_len_below(segs, m)
                <= Self::total_len_below(segs, n) by {
                if m <= n - 1 {
                    assert(Self::total_len_below(segs, m) <= Self::total_len_below(segs, n - 1));
                }
            }
        }
    }

    /// Gap between the two ranges of the innermost segment.
    pub fn inner_gap(&self) -> (r: i64)
        requires
            self.wf(),
            self@.last().r0 - self@.last().l1 <= i64::MAX,
        ensures
            r == self@.last().r0 - self@.last().l1,
    {
        assert(self@.last().wf());
        self.segments[self.segments.len() - 1].inner_gap()
    }

    /// Minimal range covering every left range: from the outermost left start
    /// to the innermost left end.
    pub fn left_brange(&self) -> (r: Range<i64>)
        requires
            self.wf(),
        ensures
            r.start == self@[0].l0,
            r.end == self@.last().l1,
    {
        self.segments[0].left.start..self.segments[self.segments.len() - 1].left.end
    }

    /// Minimal range covering every right range: from the innermost right
    /// start to the outermost right end.
    pub fn right_brange(&self) -> (r: Range<i64>)
        requires
            self.wf(),
        ensures
            r.start == self@.last().r0,
            r.end == self@[0].r1,
    {
        self.segments[self.segments.len() - 1].right.start..self.segments[0].right.end
    }

    /// Bounding range of the whole repeat: that of its outermost segment.
    pub fn brange(&self) -> (r: Range<i64>)
        requires
            self.wf(),
        ensures
            r.start == self@[0].l0,
            r.end == self@[0].r1,
    {
        assert(self@[0].wf());
        self.segments[0].brange()
    }

    /// Every coordinate of a well-formed repeat lies inside the bounding range.
    pub proof fn lemma_inside_bounds(segs: Seq<SegmentView>, i: int)
        requires
            segs.len() > 0,
            forall|j: int| 0 <= j < segs.len() ==> segs[j].wf(),
            chained(segs),
            0 <= i < segs.len(),
        ensures
            segs[0].l0 <= segs[i].l0 && segs[i].r1 <= segs[0].r1,
        decreases i,
    {
        if i > 0 {
            Self::lemma_inside_bounds(segs, i - 1);
            let x = i - 1;
            assert(segs[x].nests(segs[x + 1]));
        }
    }

    /// Moves every coordinate of every segment by `shift`.
    pub fn shift(&mut self, shift: i64)
        requires
            old(self).wf(),
            i64::MIN <= old(self)@[0].l0 + shift,
            old(self)@[0].r1 + shift <= i64::MAX,
        ensures
            final(self)@ == old(self)@.map_values(|s: SegmentView| s.shifted(shift as int)),
            final(self).wf(),
    {
        let ghost orig = self@;
        let mut i: usize = 0;
        while i < self.segments.len()
            invariant
                i <= orig.len(),
                self.segments@.len() == orig.len(),
                orig.len() > 0,
                forall|j: int| 0 <= j < orig.len() ==> orig[j].wf(),
                chained(orig),
                i64::MIN <= orig[0].l0 + shift,
                orig[0].r1 + shift <= i64::MAX,
                forall|j: int| 0 <= j < i ==> self.segments@[j]@ == orig[j].shifted(shift as int),
                forall|j: int| i <= j < orig.len() ==> self.segments@[j]@ == orig[j],
            decreases orig.len() - i,
        {
            proof {
                Self::lemma_inside_bounds(orig, i as int);
                assert(orig[i as int].wf());
            }
            let s = &self.segments[i];
            let moved = Segment {
                left: (s.left.start + shift)..(s.left.end + shift),
                right: (s.right.start + shift)..(s.right.end + shift),
            };
            self.segments.set(i, moved);
            i = i + 1;
        }
        proof {
            assert(self@ =~= orig.map_values(|s: SegmentView| s.shifted(shift as int)));
            assert forall|j: int| 0 <= j < self@.len() implies self@[j].wf() by {
                assert(orig[j].wf());
            }
            assert forall|j: int| 0 <= j < self@.len() - 1 implies #[trigger] self@[j].nests(self@[j + 1]) by {
                assert(orig[j].nests(orig[j + 1]));
            }
        }
    }

    /// All ranges the repeat occupies, sorted by coordinate: the left ranges
    /// outer-to-inner, then the right ranges inner-to-outer. Consecutive
    /// ranges never overlap.
    pub fn seqranges(&self) -> (r: Vec<Range<i64>>)
        requires
            self.wf(),
        ensures
            r@.len() == 2 * self@.len(),
            forall|i: int|
                0 <= i < r@.len() ==> (#[trigger] r@[i]).start == Self::block_start(self@, i)
                    && r@[i].end == Self::block_end(self@, i),
            forall|i: int| 0 <= i < r@.len() - 1 ==> (#[trigger] r@[i]).end <= r@[i + 1].start,
            forall|i: int| 0 <= i < r@.len() ==> (#[trigger] r@[i]).start < r@[i].end,
    {
        let n = self.segments.len();
        let mut out: Vec<Range<i64>> = Vec::new();
        let mut i: usize = 0;
        while i < n
            invariant
                i <= n,
                n == self@.len(),
                self.wf(),
                out@.len() == i,
                forall|k: int|
                    0 <= k < i ==> (#[trigger] out@[k]).start == Self::block_start(self@, k)
                        && out@[k].end == Self::block_end(self@, k),
            decreases n - i,
        {
            let s = &self.segments[i];
            proof {
                assert(self@[i as int] == self.segments@[i as int]@);
            }
            out.push(s.left.start..s.left.end);
            i = i + 1;
        }
        let mut j: usize = 0;
        while j < n
            invariant
                j <= n,
                n == self@.len(),
                self.wf(),
                out@.len() == n + j,
                forall|k: int|
                    0 <= k < n + j ==> (#[trigger] out@[k]).start == Self::block_start(self@, k)
                        && out@[k].end == Self::block_end(self@, k),
            decreases n - j,
        {
            let s = &self.segments[n - 1 - j];
            proof {
                let ghost pos = n - 1 - j as int;
                assert(self@[pos] == self.segments@[pos]@);
                assert(Self::block_start(self@, n + j as int) == self@[pos].r0);
                assert(Self::block_end(self@, n + j as int) == self@[pos].r1);
            }
            out.push(s.right.start..s.right.end);
            j = j + 1;
        }
        proof {
            assert forall|i: int|
                0 <= i < out@.len() - 1 implies (#[trigger] out@[i]).end <= out@[i + 1].start by {
                Self::lemma_seqranges_sorted(self@, i);
            }
            assert forall|i: int|
                0 <= i < out@.len() implies (#[trigger] out@[i]).start < out@[i].end by {
                if i < self@.len() {
                    assert(self@[i].wf());
                } else {
                    assert(self@[2 * self@.len() - 1 - i].wf());
                }
            }
        }
        out
    }

    /// Adjacent occupied ranges of a well-formed repeat do not overlap.
    proof fn lemma_seqranges_sorted(segs: Seq<SegmentView>, i: int)
        requires
            segs.len() > 0,
            forall|j: int| 0 <= j < segs.len() ==> segs[j].wf(),
            chained(segs),
            0 <= i < 2 * segs.len() - 1,
        ensures
            Self::block_end(segs, i) <= Self::block_start(segs, i + 1),
    {
        let n = segs.len() as int;
        if i < n - 1 {
            assert(segs[i].nests(segs[i + 1]));
        } else if i == n - 1 {
            assert(segs[n - 1].wf());
        } else {
            let x = n - 2 - (i - n);
            assert(segs[x].nests(segs[x + 1]));
        }
    }

    /// Start coordinate of the `i`-th occupied range (left ranges first,
    /// then right ranges inner-to-outer).
    pub open spec fn block_start(segs: Seq<SegmentView>, i: int) -> int {
        if i < segs.len() {
            segs[i].l0
        } else {
            segs[2 * segs.len() - 1 - i].r0
        }
    }

    /// End coordinate of the `i`-th occupied range.
    pub open spec fn block_end(segs: Seq<SegmentView>, i: int) -> int {
        if i < segs.len() {
            segs[i].l1
        } else {
            segs[2 * segs.len() - 1 - i].r1
        }
    }
}

/// Shifting a segment by `k` and then by `-k` restores the original
/// coordinates exactly.
pub proof fn lemma_segment_shift_roundtrip(s: SegmentView, k: int)
    ensures
        s.shifted(k).shifted(-k) == s,
{
}

/// Shifting a repeat by `k` and then by `-k` restores every coordinate of
/// every segment exactly.
pub proof fn lemma_shift_roundtrip(segs: Seq<SegmentView>, k: int)
    ensures
        segs.map_values(|s: SegmentView| s.shifted(k)).map_values(
            |s: SegmentView| s.shifted(-k),
        ) == segs,
{
    assert(segs.map_values(|s: SegmentView| s.shifted(k)).map_values(
        |s: SegmentView| s.shifted(-k),
    ) =~= segs);
}

} // verus!
