//! Coordinate index over repeat candidates: anchors sorted by bounding start
//! and by bounding end (grouping candidates that share a coordinate), reverse
//! maps from candidate id to anchor position, and per-candidate block lists.

use vstd::prelude::*;

use std::ops::Range;

use crate::repeats::Repeat;

verus! {

/// One coordinate value together with every candidate whose bounding range
/// starts (or ends) exactly there.
pub struct IndexAnchor {
    pub pos: i64,
    pub repeats: Vec<usize>,
}

/// Bounding start of candidate `id`.
pub open spec fn start_key(rs: Seq<Repeat>, id: int) -> int {
    rs[id]@[0].l0
}

/// Bounding end of candidate `id`.
pub open spec fn end_key(rs: Seq<Repeat>, id: int) -> int {
    rs[id]@[0].r1
}

/// Key of candidate `id`: bounding end where `ends` is set, else bounding start.
pub open spec fn key_spec(rs: Seq<Repeat>, id: int, ends: bool) -> int {
    if ends {
        end_key(rs, id)
    } else {
        start_key(rs, id)
    }
}

/// The anchor array is sorted strictly by position; every anchor holds at
/// least one candidate, listed by increasing id; every member's key equals
/// the anchor position.
pub open spec fn anchors_wf(anchors: Seq<IndexAnchor>, rs: Seq<Repeat>, ends: bool) -> bool {
    &&& forall|p: int, q: int|
        0 <= p < q < anchors.len() ==> (#[trigger] anchors[p]).pos < (#[trigger] anchors[q]).pos
    &&& forall|p: int| 0 <= p < anchors.len() ==> (#[trigger] anchors[p]).repeats@.len() > 0
    &&& forall|p: int, m: int|
        0 <= p < anchors.len() && 0 <= m < (#[trigger] anchors[p]).repeats@.len() ==> {
            let id = #[trigger] anchors[p].repeats@[m];
            id < rs.len() && anchors[p].pos == key_spec(rs, id as int, ends)
        }
    &&& forall|p: int, m: int|
        0 <= p < anchors.len() && 0 <= m < (#[trigger] anchors[p]).repeats@.len() - 1
            ==> (#[trigger] anchors[p].repeats@[m]) < anchors[p].repeats@[m + 1]
}

/// The reverse map sends every candidate to the anchor that lists it.
pub open spec fn revmap_wf(
    anchors: Seq<IndexAnchor>,
    rev: Seq<usize>,
    rs: Seq<Repeat>,
    ends: bool,
) -> bool {
    &&& rev.len() == rs.len()
    &&& forall|id: int|
        0 <= id < rs.len() ==> {
            let p = #[trigger] rev[id] as int;
            &&& p < anchors.len()
            &&& anchors[p].pos == key_spec(rs, id, ends)
            &&& anchors[p].repeats@.contains(id as usize)
        }
}

/// Sorted anchor arrays over the bounding coordinates of a candidate list,
/// with reverse maps and per-candidate block lists.
pub struct Index {
    starts: Vec<IndexAnchor>,
    ends: Vec<IndexAnchor>,
    revstart: Vec<usize>,
    revend: Vec<usize>,
    blocks: Vec<Vec<Range<i64>>>,
}

impl Index {
    /// The anchors sorted by bounding start.
    pub closed spec fn starts_view(self) -> Seq<IndexAnchor> {
        self.starts@
    }

    /// The anchors sorted by bounding end.
    pub closed spec fn ends_view(self) -> Seq<IndexAnchor> {
        self.ends@
    }

    /// The reverse maps (starts, ends).
    pub closed spec fn revmaps_view(self) -> (Seq<usize>, Seq<usize>) {
        (self.revstart@, self.revend@)
    }

    /// The per-candidate block lists.
    pub closed spec fn blocks_view(self) -> Seq<Vec<Range<i64>>> {
        self.blocks@
    }

    /// Everything `new` guarantees, relative to the candidates it was built from.
    pub open spec fn wf_for(self, rs: Seq<Repeat>) -> bool {
        &&& anchors_wf(self.starts_view(), rs, false)
        &&& anchors_wf(self.ends_view(), rs, true)
        &&& revmap_wf(self.starts_view(), self.revmaps_view().0, rs, false)
        &&& revmap_wf(self.ends_view(), self.revmaps_view().1, rs, true)
        &&& self.blocks_view().len() == rs.len()
        &&& forall|id: int|
            0 <= id < rs.len() ==> {
                let b = (#[trigger] self.blocks_view()[id])@;
                &&& b.len() == 2 * rs[id]@.len()
                &&& forall|k: int|
                    0 <= k < b.len() ==> (#[trigger] b[k]).start == Repeat::block_start(rs[id]@, k)
                        && b[k].end == Repeat::block_end(rs[id]@, k)
            }
    }

    /// Builds the index for a non-empty candidate list.
    pub fn new(invrep: &Vec<Repeat>) -> (r: Index)
        requires
            invrep@.len() > 0,
            forall|i: int| 0 <= i < invrep@.len() ==> (#[trigger] invrep@[i]).wf(),
        ensures
            r.wf_for(invrep@),
    {
        let (starts, revstart) = index_by(invrep, false);
        let (ends, revend) = index_by(invrep, true);
        let mut blocks: Vec<Vec<Range<i64>>> = Vec::new();
        let mut id: usize = 0;
        while id < invrep.len()
            invariant
                id <= invrep@.len(),
                forall|i: int| 0 <= i < invrep@.len() ==> (#[trigger] invrep@[i]).wf(),
                blocks@.len() == id,
                forall|i: int|
                    0 <= i < id ==> {
                        let b = (#[trigger] blocks@[i])@;
                        &&& b.len() == 2 * invrep@[i]@.len()
                        &&& forall|k: int|
                            0 <= k < b.len() ==> (#[trigger] b[k]).start == Repeat::block_start(
                                invrep@[i]@,
                                k,
                            ) && b[k].end == Repeat::block_end(invrep@[i]@, k)
                    },
            decreases invrep@.len() - id,
        {
            blocks.push(invrep[id].seqranges());
            id = id + 1;
        }
        Index { starts, ends, revstart, revend, blocks }
    }

    /// The anchors sorted by bounding end.
    pub fn ends(&self) -> (r: &Vec<IndexAnchor>)
        ensures
            r@ == self.ends_view(),
    {
        &self.ends
    }

    /// The anchors sorted by bounding start.
    pub fn starts(&self) -> (r: &Vec<IndexAnchor>)
        ensures
            r@ == self.starts_view(),
    {
        &self.starts
    }

    /// Positions of candidate `rnaid` in the start and end anchor arrays.
    pub fn revmap(&self, rnaid: usize) -> (r: (usize, usize))
        requires
            rnaid < self.revmaps_view().0.len(),
            rnaid < self.revmaps_view().1.len(),
        ensures
            r.0 == self.revmaps_view().0[rnaid as int],
            r.1 == self.revmaps_view().1[rnaid as int],
    {
        (self.revstart[rnaid], self.revend[rnaid])
    }

    /// The coordinate-sorted block list of candidate `rnaid`.
    pub fn blocks(&self, rnaid: usize) -> (r: &Vec<Range<i64>>)
        requires
            rnaid < self.blocks_view().len(),
        ensures
            r == self.blocks_view()[rnaid as int],
    {
        &self.blocks[rnaid]
    }
}

/// Key of candidate `id`: bounding end where `ends` is set, else bounding start.
fn key_of(invrep: &Vec<Repeat>, id: usize, ends: bool) -> (r: i64)
    requires
        id < invrep@.len(),
        invrep@[id as int].wf(),
    ensures
        r == key_spec(invrep@, id as int, ends),
{
    let rng = invrep[id].brange();
    if ends {
        rng.end
    } else {
        rng.start
    }
}

/// Builds one sorted anchor array and its reverse map over the chosen
/// bounding coordinate of every candidate.
fn index_by(invrep: &Vec<Repeat>, ends: bool) -> (r: (Vec<IndexAnchor>, Vec<usize>))
    requires
        invrep@.len() > 0,
        forall|i: int| 0 <= i < invrep@.len() ==> (#[trigger] invrep@[i]).wf(),
    ensures
        anchors_wf(r.0@, invrep@, ends),
        revmap_wf(r.0@, r.1@, invrep@, ends),
{
    let ghost rs = invrep@;
    let n = invrep.len();

    let mut anchors: Vec<IndexAnchor> = Vec::new();
    // Lowest key not yet grouped; `more` says whether one exists.
    let mut more: bool = true;
    let mut next: i64 = key_of(invrep, 0, ends);
    // Find the smallest key overall.
    let mut id: usize = 1;
    while id < n
        invariant
            1 <= id <= n,
            n == rs.len(),
            rs == invrep@,
            forall|i: int| 0 <= i < rs.len() ==> (#[trigger] rs[i]).wf(),
            forall|i: int| 0 <= i < id ==> next <= #[trigger] key_spec(rs, i, ends),
            exists|i: int| 0 <= i < id && next == #[trigger] key_spec(rs, i, ends),
        decreases n - id,
    {
        let k = key_of(invrep, id, ends);
        if k < next {
            next = k;
        }
        id = id + 1;
    }
    // Group candidates key by key, in increasing key order.
    while more
        invariant
            n == rs.len(),
            rs == invrep@,
            n > 0,
            forall|i: int| 0 <= i < rs.len() ==> (#[trigger] rs[i]).wf(),
            anchors_wf(anchors@, rs, ends),
            more ==> exists|i: int| 0 <= i < n && next == #[trigger] key_spec(rs, i, ends),
            more ==> forall|p: int|
                0 <= p < anchors@.len() ==> (#[trigger] anchors@[p]).pos < next,
            forall|i: int|
                0 <= i < n && (!more || #[trigger] key_spec(rs, i, ends) < next) ==> exists|p: int|
                    0 <= p < anchors@.len() && (#[trigger] anchors@[p]).pos == key_spec(rs, i, ends)
                        && anchors@[p].repeats@.contains(i as usize),
        decreases (if more {
            1int
        } else {
            0int
        }), count_ge(rs, ends, next as int, n as int),
    {
        let ghost anchors0 = anchors@;
        let cur: i64 = next;
        // Collect every candidate with key `cur`, by increasing id.
        let mut members: Vec<usize> = Vec::new();
        let mut found_next: bool = false;
        let mut nxt: i64 = 0;
        let mut i: usize = 0;
        while i < n
            invariant
                i <= n,
                n == rs.len(),
                rs == invrep@,
                forall|j: int| 0 <= j < rs.len() ==> (#[trigger] rs[j]).wf(),
                forall|m: int|
                    0 <= m < members@.len() ==> (#[trigger] members@[m]) < i && key_spec(
                        rs,
                        members@[m] as int,
                        ends,
                    ) == cur,
                forall|m: int|
                    0 <= m < members@.len() - 1 ==> (#[trigger] members@[m]) < members@[m + 1],
                forall|j: int|
                    0 <= j < i && #[trigger] key_spec(rs, j, ends) == cur ==> members@.contains(
                        j as usize,
                    ),
                found_next ==> exists|j: int|
                    0 <= j < i && #[trigger] key_spec(rs, j, ends) == nxt && nxt > cur,
                found_next ==> forall|j: int|
                    0 <= j < i && #[trigger] key_spec(rs, j, ends) > cur ==> nxt <= key_spec(
                        rs,
                        j,
                        ends,
                    ),
                !found_next ==> forall|j: int| 0 <= j < i ==> #[trigger] key_spec(rs, j, ends)
                    <= cur,
            decreases n - i,
        {
            let k = key_of(invrep, i, ends);
            if k == cur {
                let ghost members0 = members@;
                members.push(i);
                proof {
                    assert(members@[members@.len() - 1] == i as usize);
                    assert(members@.contains(i as usize));
                    assert forall|j: int|
                        0 <= j < i && #[trigger] key_spec(rs, j, ends)
                            == cur implies members@.contains(j as usize) by {
                        let m = choose|m: int| 0 <= m < members0.len() && members0[m] == j as usize;
                        assert(members@[m] == j as usize);
                    }
                }
            } else if k > cur {
                if !found_next || k < nxt {
                    found_next = true;
                    nxt = k;
                }
            }
            i = i + 1;
        }
        proof {
            let w = choose|i: int| 0 <= i < n && cur == #[trigger] key_spec(rs, i, ends);
            assert(members@.contains(w as usize));
            assert(members@.len() > 0);
        }
        anchors.push(IndexAnchor { pos: cur, repeats: members });
        proof {
            assert forall|i2: int|
                0 <= i2 < n && (!found_next || #[trigger] key_spec(rs, i2, ends)
                    < nxt) implies exists|p: int|
                0 <= p < anchors@.len() && (#[trigger] anchors@[p]).pos == key_spec(rs, i2, ends)
                    && anchors@[p].repeats@.contains(i2 as usize) by {
                if key_spec(rs, i2, ends) < cur {
                    let p0 = choose|p: int|
                        0 <= p < anchors0.len() && (#[trigger] anchors0[p]).pos == key_spec(
                            rs,
                            i2,
                            ends,
                        ) && anchors0[p].repeats@.contains(i2 as usize);
                    assert(anchors@[p0].pos == key_spec(rs, i2, ends)
                        && anchors@[p0].repeats@.contains(i2 as usize));
                } else {
                    assert(key_spec(rs, i2, ends) == cur);
                    let p1 = anchors@.len() - 1;
                    assert(anchors@[p1].pos == key_spec(rs, i2, ends)
                        && anchors@[p1].repeats@.contains(i2 as usize));
                }
            }
            if found_next {
                lemma_count_ge_decreases(rs, ends, cur as int, nxt as int, n as int);
            }
        }
        more = found_next;
        next = nxt;
    }
    // Reverse map: for each candidate, the unique anchor with its key.
    let mut rev: Vec<usize> = Vec::new();
    let mut id2: usize = 0;
    while id2 < n
        invariant
            id2 <= n,
            n == rs.len(),
            rs == invrep@,
            forall|i: int| 0 <= i < rs.len() ==> (#[trigger] rs[i]).wf(),
            anchors_wf(anchors@, rs, ends),
            forall|i: int|
                0 <= i < n ==> exists|p: int|
                    0 <= p < anchors@.len() && (#[trigger] anchors@[p]).pos == #[trigger] key_spec(
                        rs,
                        i,
                        ends,
                    ) && anchors@[p].repeats@.contains(i as usize),
            rev@.len() == id2,
            forall|i: int|
                0 <= i < id2 ==> {
                    let p = #[trigger] rev@[i] as int;
                    &&& p < anchors@.len()
                    &&& anchors@[p].pos == key_spec(rs, i, ends)
                    &&& anchors@[p].repeats@.contains(i as usize)
                },
        decreases n - id2,
    {
        let k = key_of(invrep, id2, ends);
        let ghost wp = choose|q: int|
            0 <= q < anchors@.len() && (#[trigger] anchors@[q]).pos == key_spec(
                rs,
                id2 as int,
                ends,
            ) && anchors@[q].repeats@.contains(id2 as usize);
        let mut p: usize = 0;
        while p < anchors.len() && anchors[p].pos != k
            invariant
                0 <= wp < anchors@.len(),
                anchors@[wp].pos == k,
                anchors@[wp].repeats@.contains(id2 as usize),
                p <= anchors@.len(),
                forall|q: int| 0 <= q < p ==> (#[trigger] anchors@[q]).pos != k,
            decreases anchors@.len() - p,
        {
            p = p + 1;
        }
        proof {
            assert(p <= wp);
            if p < wp {
                assert(anchors@[p as int].pos == anchors@[wp].pos);
                assert(false);
            }
        }
        rev.push(p);
        id2 = id2 + 1;
    }
    (anchors, rev)
}

/// Number of candidates whose key is at least `bound`.
pub closed spec fn count_ge(rs: Seq<Repeat>, ends: bool, bound: int, n: int) -> int
    decreases n,
{
    if n <= 0 {
        0
    } else {
        count_ge(rs, ends, bound, n - 1) + (if key_spec(rs, n - 1, ends) >= bound {
            1int
        } else {
            0int
        })
    }
}

/// Raising the frontier strictly decreases the count of keys at or above it,
/// provided some key equals the old frontier.
proof fn lemma_count_ge_decreases(rs: Seq<Repeat>, ends: bool, cur: int, nxt: int, n: int)
    requires
        cur < nxt,
        exists|i: int| 0 <= i < n && #[trigger] key_spec(rs, i, ends) == cur,
        n >= 0,
    ensures
        0 <= count_ge(rs, ends, nxt, n) < count_ge(rs, ends, cur, n),
{
    let w = choose|i: int| 0 <= i < n && #[trigger] key_spec(rs, i, ends) == cur;
    lemma_count_ge_split(rs, ends, cur, nxt, n, w);
}

/// Counting helper: the count at the higher frontier stays strictly below the
/// one at the lower frontier once the witness key is included.
proof fn lemma_count_ge_split(rs: Seq<Repeat>, ends: bool, cur: int, nxt: int, n: int, w: int)
    requires
        cur < nxt,
        0 <= w < n,
        key_spec(rs, w, ends) == cur,
    ensures
        0 <= count_ge(rs, ends, nxt, n) < count_ge(rs, ends, cur, n),
    decreases n,
{
    if n - 1 == w {
        lemma_count_ge_mono(rs, ends, cur, nxt, n - 1);
    } else {
        lemma_count_ge_split(rs, ends, cur, nxt, n - 1, w);
    }
}

/// A higher frontier never counts more keys.
proof fn lemma_count_ge_mono(rs: Seq<Repeat>, ends: bool, cur: int, nxt: int, n: int)
    requires
        cur <= nxt,
    ensures
        0 <= count_ge(rs, ends, nxt, n) <= count_ge(rs, ends, cur, n),
    decreases n,
{
    if n > 0 {
        lemma_count_ge_mono(rs, ends, cur, nxt, n - 1);
    }
}

/// First position in `data[lo..hi)` whose coordinate exceeds `pos`, found by
/// a linear scan: the reference answer for the binary searches below.
pub open spec fn upper_scan(data: Seq<IndexAnchor>, pos: int, lo: int, hi: int) -> int
    decreases hi - lo,
{
    if lo >= hi {
        lo
    } else if data[lo].pos > pos {
        lo
    } else {
        upper_scan(data, pos, lo + 1, hi)
    }
}

/// First position in `data[lo..hi)` whose coordinate reaches `pos`, found by
/// a linear scan: the reference answer for the binary searches below.
pub open spec fn lower_scan(data: Seq<IndexAnchor>, pos: int, lo: int, hi: int) -> int
    decreases hi - lo,
{
    if lo >= hi {
        lo
    } else if data[lo].pos >= pos {
        lo
    } else {
        lower_scan(data, pos, lo + 1, hi)
    }
}

/// The anchors of `data[lo..hi)` are sorted by coordinate.
pub open spec fn sorted_range(data: Seq<IndexAnchor>, lo: int, hi: int) -> bool {
    forall|i: int, j: int|
        lo <= i <= j < hi ==> (#[trigger] data[i]).pos <= (#[trigger] data[j]).pos
}

/// On a sorted range, any position that splits the range into "at most `pos`"
/// and "above `pos`" is exactly the linear-scan answer.
proof fn lemma_upper_scan_unique(data: Seq<IndexAnchor>, pos: int, lo: int, hi: int, r: int)
    requires
        0 <= lo <= r <= hi <= data.len(),
        forall|i: int| lo <= i < r ==> (#[trigger] data[i]).pos <= pos,
        forall|i: int| r <= i < hi ==> (#[trigger] data[i]).pos > pos,
    ensures
        r == upper_scan(data, pos, lo, hi),
    decreases hi - lo,
{
    if lo < hi && lo < r {
        lemma_upper_scan_unique(data, pos, lo + 1, hi, r);
    }
}

/// On a sorted range, any position that splits the range into "below `pos`"
/// and "at least `pos`" is exactly the linear-scan answer.
proof fn lemma_lower_scan_unique(data: Seq<IndexAnchor>, pos: int, lo: int, hi: int, r: int)
    requires
        0 <= lo <= r <= hi <= data.len(),
        forall|i: int| lo <= i < r ==> (#[trigger] data[i]).pos < pos,
        forall|i: int| r <= i < hi ==> (#[trigger] data[i]).pos >= pos,
    ensures
        r == lower_scan(data, pos, lo, hi),
    decreases hi - lo,
{
    if lo < hi && lo < r {
        lemma_lower_scan_unique(data, pos, lo + 1, hi, r);
    }
}

/// Upper bound by bisection: the first anchor in `data[lo..hi)` strictly past
/// `pos`. Matches the linear scan on sorted input.
pub fn right(data: &Vec<IndexAnchor>, pos: i64, lo: usize, hi: usize) -> (r: usize)
    requires
        lo <= hi <= data@.len(),
        sorted_range(data@, lo as int, hi as int),
    ensures
        lo <= r <= hi,
        forall|i: int| lo <= i < r ==> (#[trigger] data@[i]).pos <= pos,
        forall|i: int| r <= i < hi ==> (#[trigger] data@[i]).pos > pos,
        r == upper_scan(data@, pos as int, lo as int, hi as int),
{
    let ghost lo0 = lo as int;
    let ghost hi0 = hi as int;
    let mut lo = lo;
    let mut hi_m = hi;
    while lo < hi_m
        invariant
            lo0 <= lo <= hi_m <= hi0 <= data@.len(),
            sorted_range(data@, lo0, hi0),
            forall|i: int| lo0 <= i < lo ==> (#[trigger] data@[i]).pos <= pos,
            forall|i: int| hi_m <= i < hi0 ==> (#[trigger] data@[i]).pos > pos,
        decreases hi_m - lo,
    {
        let mid = lo + (hi_m - lo) / 2;
        if pos < data[mid].pos {
            hi_m = mid;
        } else {
            lo = mid + 1;
        }
    }
    proof {
        lemma_upper_scan_unique(data@, pos as int, lo0, hi0, lo as int);
    }
    lo
}

/// Lower bound by bisection: the first anchor in `data[lo..hi)` at or past
/// `pos`. Matches the linear scan on sorted input.
pub fn left(data: &Vec<IndexAnchor>, pos: i64, lo: usize, hi: usize) -> (r: usize)
    requires
        lo <= hi <= data@.len(),
        sorted_range(data@, lo as int, hi as int),
    ensures
        lo <= r <= hi,
        forall|i: int| lo <= i < r ==> (#[trigger] data@[i]).pos < pos,
        forall|i: int| r <= i < hi ==> (#[trigger] data@[i]).pos >= pos,
        r == lower_scan(data@, pos as int, lo as int, hi as int),
{
    let ghost lo0 = lo as int;
    let ghost hi0 = hi as int;
    let mut lo = lo;
    let mut hi_m = hi;
    while lo < hi_m
        invariant
            lo0 <= lo <= hi_m <= hi0 <= data@.len(),
            sorted_range(data@, lo0, hi0),
            forall|i: int| lo0 <= i < lo ==> (#[trigger] data@[i]).pos < pos,
            forall|i: int| hi_m <= i < hi0 ==> (#[trigger] data@[i]).pos >= pos,
        decreases hi_m - lo,
    {
        let mid = lo + (hi_m - lo) / 2;
        if data[mid].pos < pos {
            lo = mid + 1;
        } else {
            hi_m = mid;
        }
    }
    proof {
        lemma_lower_scan_unique(data@, pos as int, lo0, hi0, lo as int);
    }
    lo
}

} // verus!
