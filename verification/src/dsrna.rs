//! Double-stranded regions over unsigned coordinates: paired equal-length
//! windows (`Segment`) and groups of them (`dsRNA`) with a derived bounding
//! range and a flat block list for overlap queries.

use vstd::prelude::*;

use std::ops::Range;

use crate::repeats::BuildError;

verus! {

/// One paired (top, bottom) window of a double-stranded region.
#[derive(Debug)]
pub struct Segment {
    top: Range<usize>,
    bottom: Range<usize>,
}

impl Segment {
    /// Validity: both windows non-empty, equal in length, and the top window
    /// ends at or before the bottom window starts.
    pub open spec fn wf(self) -> bool {
        &&& self.top_start() < self.top_end() <= self.bottom_start() < self.bottom_end()
        &&& self.top_end() - self.top_start() == self.bottom_end() - self.bottom_start()
    }

    /// Start of the top window.
    pub closed spec fn top_start(self) -> int {
        self.top.start as int
    }

    /// End of the top window.
    pub closed spec fn top_end(self) -> int {
        self.top.end as int
    }

    /// Start of the bottom window.
    pub closed spec fn bottom_start(self) -> int {
        self.bottom.start as int
    }

    /// End of the bottom window.
    pub closed spec fn bottom_end(self) -> int {
        self.bottom.end as int
    }

    /// Builds a segment, refusing empty windows, unequal lengths and overlap.
    pub fn new(top: Range<usize>, bottom: Range<usize>) -> (r: Result<Segment, BuildError>)
        ensures
            r matches Ok(s) ==> s.top_start() == top.start && s.top_end() == top.end
                && s.bottom_start() == bottom.start && s.bottom_end() == bottom.end && s.wf(),
            r is Ok <==> top.start < top.end <= bottom.start < bottom.end && top.end - top.start
                == bottom.end - bottom.start,
    {
        if top.start >= top.end || bottom.start >= bottom.end {
            return Err(BuildError::EmptyRange);
        }
        if top.end - top.start != bottom.end - bottom.start {
            return Err(BuildError::LengthMismatch);
        }
        if top.end > bottom.start {
            return Err(BuildError::OverlappingRanges);
        }
        Ok(Segment { top, bottom })
    }

    /// The top window.
    pub fn top(&self) -> (r: &Range<usize>)
        ensures
            r.start == self.top_start(),
            r.end == self.top_end(),
    {
        &self.top
    }

    /// The bottom window.
    pub fn bottom(&self) -> (r: &Range<usize>)
        ensures
            r.start == self.bottom_start(),
            r.end == self.bottom_end(),
    {
        &self.bottom
    }
}

impl Clone for Segment {
    fn clone(&self) -> (r: Self)
        ensures
            r.top_start() == self.top_start(),
            r.top_end() == self.top_end(),
            r.bottom_start() == self.bottom_start(),
            r.bottom_end() == self.bottom_end(),
    {
        Segment { top: self.top.start..self.top.end, bottom: self.bottom.start..self.bottom.end }
    }
}

/// A double-stranded region: a non-empty group of segments with the derived
/// minimal range covering all of them.
#[allow(non_camel_case_types)]
#[derive(Debug)]
pub struct dsRNA {
    segments: Vec<Segment>,
    brange: Range<usize>,
}

impl dsRNA {
    /// The segments, for specification purposes.
    pub closed spec fn segments_view(self) -> Seq<Segment> {
        self.segments@
    }

    /// The derived bounding coordinates.
    pub closed spec fn brange_view(self) -> (int, int) {
        (self.brange.start as int, self.brange.end as int)
    }

    /// The bounding range covers every window tightly: it starts at the least
    /// window start and ends at the greatest window end.
    pub open spec fn brange_wf(self) -> bool {
        &&& forall|i: int|
            0 <= i < self.segments_view().len() ==> {
                let s = #[trigger] self.segments_view()[i];
                self.brange_view().0 <= s.top_start() && s.top_end() <= self.brange_view().1
                    && self.brange_view().0 <= s.bottom_start() && s.bottom_end()
                    <= self.brange_view().1
            }
        &&& exists|i: int|
            0 <= i < self.segments_view().len() && {
                let s = #[trigger] self.segments_view()[i];
                s.top_start() == self.brange_view().0 || s.bottom_start() == self.brange_view().0
            }
        &&& exists|i: int|
            0 <= i < self.segments_view().len() && {
                let s = #[trigger] self.segments_view()[i];
                s.top_end() == self.brange_view().1 || s.bottom_end() == self.brange_view().1
            }
    }

    /// Builds a region from a non-empty segment group, deriving the bounding
    /// range over every window.
    pub fn new(segments: Vec<Segment>) -> (r: Result<dsRNA, BuildError>)
        ensures
            r is Ok <==> segments@.len() > 0,
            r matches Ok(d) ==> d.segments_view() == segments@ && d.brange_wf(),
    {
        if segments.len() == 0 {
            return Err(BuildError::NoSegments);
        }
        let mut start: usize = segments[0].top.start;
        let mut end: usize = segments[0].top.end;
        let mut i: usize = 0;
        while i < segments.len()
            invariant
                i <= segments@.len(),
                segments@.len() > 0,
                forall|j: int|
                    0 <= j < i ==> {
                        let s = #[trigger] segments@[j];
                        start <= s.top_start() && s.top_end() <= end && start <= s.bottom_start()
                            && s.bottom_end() <= end
                    },
                (start == segments@[0].top_start() || exists|j: int|
                    0 <= j < i && {
                        let s = #[trigger] segments@[j];
                        s.top_start() == start || s.bottom_start() == start
                    }),
                (end == segments@[0].top_end() || exists|j: int|
                    0 <= j < i && {
                        let s = #[trigger] segments@[j];
                        s.top_end() == end || s.bottom_end() == end
                    }),
            decreases segments@.len() - i,
        {
            let s = &segments[i];
            if s.top.start < start {
                start = s.top.start;
            }
            if s.bottom.start < start {
                start = s.bottom.start;
            }
            if s.top.end > end {
                end = s.top.end;
            }
            if s.bottom.end > end {
                end = s.bottom.end;
            }
            i = i + 1;
        }
        let ghost segsv = segments@;
        let d = dsRNA { segments, brange: start..end };
        proof {
            assert(d.segments_view() == segsv);
            if start == segsv[0].top_start() {
                assert(0 <= 0 < d.segments_view().len() && {
                    let s = d.segments_view()[0];
                    s.top_start() == d.brange_view().0 || s.bottom_start() == d.brange_view().0
                });
            } else {
                let w = choose|j: int|
                    0 <= j < segsv.len() && {
                        let s = #[trigger] segsv[j];
                        s.top_start() == start || s.bottom_start() == start
                    };
                assert(0 <= w < d.segments_view().len() && {
                    let s = d.segments_view()[w];
                    s.top_start() == d.brange_view().0 || s.bottom_start() == d.brange_view().0
                });
            }
            if end == segsv[0].top_end() {
                assert(0 <= 0 < d.segments_view().len() && {
                    let s = d.segments_view()[0];
                    s.top_end() == d.brange_view().1 || s.bottom_end() == d.brange_view().1
                });
            } else {
                let w = choose|j: int|
                    0 <= j < segsv.len() && {
                        let s = #[trigger] segsv[j];
                        s.top_end() == end || s.bottom_end() == end
                    };
                assert(0 <= w < d.segments_view().len() && {
                    let s = d.segments_view()[w];
                    s.top_end() == d.brange_view().1 || s.bottom_end() == d.brange_view().1
                });
            }
        }
        Ok(d)
    }

    /// The segments of the region.
    pub fn segments(&self) -> (r: &Vec<Segment>)
        ensures
            r@ == self.segments_view(),
    {
        &self.segments
    }

    /// The minimal range covering every window.
    pub fn brange(&self) -> (r: &Range<usize>)
        ensures
            r.start == self.brange_view().0,
            r.end == self.brange_view().1,
    {
        &self.brange
    }

    /// Every window of every segment, top then bottom, in segment order.
    pub fn blocks(&self) -> (r: Vec<Range<usize>>)
        ensures
            r@.len() == 2 * self.segments_view().len(),
            forall|i: int|
                0 <= i < self.segments_view().len() ==> {
                    let s = #[trigger] self.segments_view()[i];
                    r@[2 * i].start == s.top_start() && r@[2 * i].end == s.top_end() && r@[2 * i
                        + 1].start == s.bottom_start() && r@[2 * i + 1].end == s.bottom_end()
                },
    {
        let mut out: Vec<Range<usize>> = Vec::new();
        let mut i: usize = 0;
        while i < self.segments.len()
            invariant
                i <= self.segments_view().len(),
                out@.len() == 2 * i,
                forall|j: int|
                    0 <= j < i ==> {
                        let s = #[trigger] self.segments_view()[j];
                        out@[2 * j].start == s.top_start() && out@[2 * j].end == s.top_end()
                            && out@[2 * j + 1].start == s.bottom_start() && out@[2 * j + 1].end
                            == s.bottom_end()
                    },
            decreases self.segments_view().len() - i,
        {
            let s = &self.segments[i];
            out.push(s.top.start..s.top.end);
            out.push(s.bottom.start..s.bottom.end);
            i = i + 1;
        }
        out
    }
}

} // verus!
