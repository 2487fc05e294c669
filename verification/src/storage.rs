//! Path storage for the alignment scan: tracks one open path per active
//! diagonal and per row, extends paths only on strict score improvement,
//! folds pending ambiguous matches into the confirmed count on real
//! extension, and files finished paths subject to score and match-count
//! thresholds, keeping only the best duplicate per start cell.

use vstd::prelude::*;

use crate::traceback::Trace;

verus! {

/// One locally-optimal alignment path under construction: inclusive start and
/// best end cells, best score, confirmed matches, and matches pending since
/// the last score improvement.
#[derive(Copy, Clone, PartialEq, Eq, Debug)]
pub struct Path {
    pub start: (usize, usize),
    pub end: (usize, usize),
    pub score: i64,
    pub matches: usize,
    pub potential_matches: usize,
}

/// The path a fresh diagonal move opens.
pub open spec fn path_new_spec(start: (usize, usize), score: i64) -> Path {
    Path { start, end: start, score, matches: 1, potential_matches: 0 }
}

/// How a path absorbs one more cell: a (possible) match goes into the pending
/// count; on strict score improvement the end moves, the score updates, and
/// pending matches are confirmed.
pub open spec fn path_extend_spec(p: Path, row: int, col: int, newscore: i64, op: Trace) -> Path {
    let pending = if op == Trace::Match || op == Trace::Equivalent {
        p.potential_matches + 1
    } else {
        p.potential_matches as int
    };
    if newscore > p.score {
        Path {
            start: p.start,
            end: ((row as usize), (col as usize)),
            score: newscore,
            matches: (p.matches + pending) as usize,
            potential_matches: 0,
        }
    } else {
        Path {
            start: p.start,
            end: p.end,
            score: p.score,
            matches: p.matches,
            potential_matches: pending as usize,
        }
    }
}

impl Path {
    /// Opens a path at one cell with its first (possible) match confirmed.
    pub fn new(start: (usize, usize), score: i64) -> (r: Path)
        ensures
            r == path_new_spec(start, score),
    {
        Path { start, end: start, score, matches: 1, potential_matches: 0 }
    }

    /// Absorbs one more cell into the path.
    pub fn extend(&mut self, row: usize, col: usize, newscore: i64, op: Trace)
        requires
            old(self).matches + old(self).potential_matches + 1 <= usize::MAX,
        ensures
            *final(self) == path_extend_spec(*old(self), row as int, col as int, newscore, op),
    {
        if op == Trace::Match || op == Trace::Equivalent {
            self.potential_matches = self.potential_matches + 1;
        }
        if newscore > self.score {
            self.end = (row, col);
            self.score = newscore;
            self.matches = self.matches + self.potential_matches;
            self.potential_matches = 0;
        }
    }
}

/// The mathematical state of the storage.
pub struct StoreModel {
    pub diagonal: Option<Path>,
    pub savediag: bool,
    pub cache: Seq<Option<Path>>,
    pub results: Seq<Seq<Path>>,
}

/// Position of the first already-filed path with the given start cell.
pub open spec fn find_same_start(row: Seq<Path>, start: (usize, usize)) -> Option<int>
    decreases row.len(),
{
    if row.len() == 0 {
        Option::None
    } else if row[0].start == start {
        Option::Some(0int)
    } else {
        match find_same_start(row.drop_first(), start) {
            Option::Some(j) => Option::Some(j + 1),
            Option::None => Option::None,
        }
    }
}

/// Filing a finished path: dropped when under either threshold; otherwise it
/// replaces a lower-scoring duplicate with the same start, or is appended.
pub open spec fn save_spec(m: StoreModel, minscore: i64, minmatches: int, p: Path) -> StoreModel {
    if p.score < minscore || p.matches < minmatches || p.start.0 >= m.results.len() {
        m
    } else {
        let row = p.start.0 as int;
        let filed = match find_same_start(m.results[row], p.start) {
            Option::Some(j) => if m.results[row][j].score < p.score {
                m.results[row].update(j, p)
            } else {
                m.results[row]
            },
            Option::None => m.results[row].push(p),
        };
        StoreModel { results: m.results.update(row, filed), ..m }
    }
}

/// Closing the pending diagonal path, if it was marked for saving.
pub open spec fn close_diag_spec(m: StoreModel, minscore: i64, minmatches: int) -> StoreModel {
    match m.diagonal {
        Option::Some(d) => if m.savediag {
            save_spec(m, minscore, minmatches, d)
        } else {
            m
        },
        Option::None => m,
    }
}

/// One cell report. The new diagonal track and the row cache move as the
/// decision dictates; a diagonal decision consumes the old diagonal path
/// (extending it or opening a new one), any other decision closes it.
pub open spec fn step_spec(
    m: StoreModel,
    row: int,
    col: int,
    newscore: i64,
    op: Trace,
    minscore: i64,
    minmatches: int,
) -> StoreModel {
    if op == Trace::Restart {
        let closed = close_diag_spec(m, minscore, minmatches);
        StoreModel {
            diagonal: m.cache[row],
            savediag: true,
            cache: closed.cache.update(row, Option::None),
            ..closed
        }
    } else if op == Trace::GapRow {
        let closed = close_diag_spec(m, minscore, minmatches);
        StoreModel {
            diagonal: m.cache[row],
            savediag: true,
            cache: closed.cache.update(row, if row >= 1 {
                m.cache[row - 1]
            } else {
                Option::None
            }),
            ..closed
        }
    } else if op == Trace::GapCol {
        let closed = close_diag_spec(m, minscore, minmatches);
        StoreModel { diagonal: m.cache[row], savediag: false, ..closed }
    } else {
        // A diagonal decision: the old diagonal is consumed, never filed.
        let opened = match m.diagonal {
            Option::None => path_new_spec(((row as usize), (col as usize)), newscore),
            Option::Some(d) => path_extend_spec(d, row, col, newscore, op),
        };
        StoreModel {
            diagonal: m.cache[row],
            savediag: true,
            cache: m.cache.update(row, Option::Some(opened)),
            results: m.results,
        }
    }
}

/// End of one column: the pending diagonal closes and the track resets.
pub open spec fn column_end_spec(m: StoreModel, minscore: i64, minmatches: int) -> StoreModel {
    let closed = close_diag_spec(m, minscore, minmatches);
    StoreModel { diagonal: Option::None, savediag: false, ..closed }
}

/// A cleared storage for `rows` rows.
pub open spec fn prepared_spec(rows: int) -> StoreModel {
    StoreModel {
        diagonal: Option::None,
        savediag: false,
        cache: Seq::new(rows as nat, |i: int| Option::None),
        results: Seq::new(rows as nat, |i: int| Seq::empty()),
    }
}

/// Closing every still-open row track at the end of the scan, top row first.
pub open spec fn drain_spec(m: StoreModel, minscore: i64, minmatches: int, upto: int) -> StoreModel
    decreases upto,
{
    if upto <= 0 {
        m
    } else {
        let before = drain_spec(m, minscore, minmatches, upto - 1);
        match m.cache[upto - 1] {
            Option::Some(p) => save_spec(before, minscore, minmatches, p),
            Option::None => before,
        }
    }
}

/// Tracks, closes and files locally-optimal alignment paths while the scan
/// reports cell decisions column by column.
pub struct AllOptimal {
    minmatches: usize,
    minscore: i64,
    diagonal: Option<Path>,
    savediag: bool,
    cache: Vec<Option<Path>>,
    results: Vec<Vec<Path>>,
}

impl AllOptimal {
    /// The mathematical state.
    pub closed spec fn model(self) -> StoreModel {
        StoreModel {
            diagonal: self.diagonal,
            savediag: self.savediag,
            cache: self.cache@,
            results: self.results@.map_values(|r: Vec<Path>| r@),
        }
    }

    /// The minimum score a filed path needs.
    pub closed spec fn minscore_spec(self) -> i64 {
        self.minscore
    }

    /// The minimum confirmed-match count a filed path needs.
    pub closed spec fn minmatches_spec(self) -> int {
        self.minmatches as int
    }

    /// Shape: one cache slot and one result row per sequence row.
    pub open spec fn wf(self) -> bool {
        self.model().cache.len() == self.model().results.len()
    }

    /// A fresh storage for `rows` rows with the given thresholds.
    pub fn new(rows: usize, minlen: usize, minscore: i64) -> (r: AllOptimal)
        ensures
            r.model() == prepared_spec(rows as int),
            r.minscore_spec() == minscore,
            r.minmatches_spec() == minlen,
            r.wf(),
    {
        let mut s = AllOptimal {
            minmatches: minlen,
            minscore,
            diagonal: Option::None,
            savediag: false,
            cache: Vec::new(),
            results: Vec::new(),
        };
        s.prepare(rows, 0);
        s
    }

    /// Clears the storage for a fresh scan of `newrows` rows.
    pub fn prepare(&mut self, newrows: usize, newcols: usize)
        ensures
            final(self).model() == prepared_spec(newrows as int),
            final(self).minscore_spec() == old(self).minscore_spec(),
            final(self).minmatches_spec() == old(self).minmatches_spec(),
            final(self).wf(),
    {
        let _ = newcols;
        let mut cache: Vec<Option<Path>> = Vec::new();
        let mut results: Vec<Vec<Path>> = Vec::new();
        let mut i: usize = 0;
        while i < newrows
            invariant
                i <= newrows,
                cache@.len() == i,
                results@.len() == i,
                forall|k: int| 0 <= k < i ==> #[trigger] cache@[k] is None,
                forall|k: int| 0 <= k < i ==> (#[trigger] results@[k])@.len() == 0,
            decreases newrows - i,
        {
            cache.push(Option::None);
            results.push(Vec::new());
            i = i + 1;
        }
        self.cache = cache;
        self.results = results;
        self.diagonal = Option::None;
        self.savediag = false;
        proof {
            assert(self.model().cache =~= prepared_spec(newrows as int).cache);
            assert(self.model().results =~~= prepared_spec(newrows as int).results);
        }
    }

    /// Files one finished path, subject to the thresholds and same-start
    /// duplicate handling.
    fn save(&mut self, p: Path)
        requires
            old(self).wf(),
        ensures
            final(self).model() == save_spec(
                old(self).model(),
                old(self).minscore_spec(),
                old(self).minmatches_spec(),
                p,
            ),
            final(self).minscore_spec() == old(self).minscore_spec(),
            final(self).minmatches_spec() == old(self).minmatches_spec(),
            final(self).wf(),
            final(self).model().diagonal == old(self).model().diagonal,
            final(self).model().savediag == old(self).model().savediag,
            final(self).model().cache == old(self).model().cache,
    {
        let ghost m0 = self.model();
        if p.score < self.minscore || p.matches < self.minmatches {
            return ;
        }
        let row = p.start.0;
        if row >= self.results.len() {
            return ;
        }
        let ghost oldrow = self.results@[row as int]@;
        let n = self.results[row].len();
        let mut j: usize = 0;
        while j < n
            invariant
                j <= n,
                row < self.results@.len(),
                n == oldrow.len(),
                oldrow == self.results@[row as int]@,
                m0 == self.model(),
                m0 == old(self).model(),
                old(self).wf(),
                self.minscore_spec() == old(self).minscore_spec(),
                self.minmatches_spec() == old(self).minmatches_spec(),
                p.score >= old(self).minscore_spec(),
                p.matches >= old(self).minmatches_spec(),
                row == p.start.0,
                forall|k: int| 0 <= k < j ==> (#[trigger] oldrow[k]).start != p.start,
            decreases n - j,
        {
            let cand = self.results[row][j];
            if cand.start.0 == p.start.0 && cand.start.1 == p.start.1 {
                proof {
                    assert(cand.start == p.start);
                }
                proof {
                    lemma_find_same_start(oldrow, p.start, j as int);
                }
                let ghost target = save_spec(
                    m0,
                    old(self).minscore_spec(),
                    old(self).minmatches_spec(),
                    p,
                );
                if self.results[row][j].score < p.score {
                    let mut newrow = copy_paths(&self.results[row]);
                    newrow.set(j, p);
                    self.results.set(row, newrow);
                    proof {
                        assert(self.model().results =~~= m0.results.update(
                            row as int,
                            oldrow.update(j as int, p),
                        ));
                        assert(target.results == m0.results.update(
                            row as int,
                            oldrow.update(j as int, p),
                        ));
                        assert(self.model().diagonal == target.diagonal);
                        assert(self.model().savediag == target.savediag);
                        assert(self.model().cache == target.cache);
                        assert(self.model() == target);
                    }
                } else {
                    proof {
                        assert(target.results == m0.results);
                        assert(self.model() == target);
                    }
                }
                return ;
            }
            j = j + 1;
        }
        proof {
            lemma_find_none(oldrow, p.start);
        }
        let mut newrow = copy_paths(&self.results[row]);
        newrow.push(p);
        self.results.set(row, newrow);
        proof {
            assert(self.model().results =~~= m0.results.update(row as int, oldrow.push(p)));
        }
    }

    /// One cell report: every cell of the scan calls this once, rows within a
    /// column in increasing order.
    pub fn step(&mut self, row: usize, col: usize, newscore: i64, op: Trace)
        requires
            old(self).wf(),
            row < old(self).model().cache.len(),
            match old(self).model().diagonal {
                Option::Some(d) => d.matches + d.potential_matches + 1 <= usize::MAX,
                Option::None => true,
            },
        ensures
            final(self).model() == step_spec(
                old(self).model(),
                row as int,
                col as int,
                newscore,
                op,
                old(self).minscore_spec(),
                old(self).minmatches_spec(),
            ),
            final(self).minscore_spec() == old(self).minscore_spec(),
            final(self).minmatches_spec() == old(self).minmatches_spec(),
            final(self).wf(),
    {
        let ghost m0 = self.model();
        match op {
            Trace::Restart => {
                let newdiag = self.cache[row];
                self.cache.set(row, Option::None);
                self.close_pending();
                self.diagonal = newdiag;
                self.savediag = true;
            },
            Trace::GapRow => {
                let newdiag = self.cache[row];
                let above = if row >= 1 {
                    self.cache[row - 1]
                } else {
                    Option::None
                };
                self.cache.set(row, above);
                self.close_pending();
                self.diagonal = newdiag;
                self.savediag = true;
            },
            Trace::GapCol => {
                let newdiag = self.cache[row];
                self.close_pending();
                self.diagonal = newdiag;
                self.savediag = false;
            },
            _ => {
                let newdiag = self.cache[row];
                let opened = match self.diagonal {
                    Option::None => Path::new((row, col), newscore),
                    Option::Some(d) => {
                        let mut d2 = d;
                        d2.extend(row, col, newscore, op);
                        d2
                    },
                };
                self.cache.set(row, Option::Some(opened));
                self.diagonal = newdiag;
                self.savediag = true;
            },
        }
    }

    /// Closes the pending diagonal path if it was marked for saving.
    fn close_pending(&mut self)
        requires
            old(self).wf(),
        ensures
            final(self).model().results == close_diag_spec(
                old(self).model(),
                old(self).minscore_spec(),
                old(self).minmatches_spec(),
            ).results,
            final(self).model().diagonal == old(self).model().diagonal,
            final(self).model().savediag == old(self).model().savediag,
            final(self).model().cache == old(self).model().cache,
            final(self).minscore_spec() == old(self).minscore_spec(),
            final(self).minmatches_spec() == old(self).minmatches_spec(),
            final(self).wf(),
    {
        if self.savediag {
            match self.diagonal {
                Option::Some(d) => {
                    self.save(d);
                },
                Option::None => {},
            }
        }
    }

    /// End of one column: the pending diagonal closes and the track resets.
    pub fn on_column_end(&mut self)
        requires
            old(self).wf(),
        ensures
            final(self).model() == column_end_spec(
                old(self).model(),
                old(self).minscore_spec(),
                old(self).minmatches_spec(),
            ),
            final(self).minscore_spec() == old(self).minscore_spec(),
            final(self).minmatches_spec() == old(self).minmatches_spec(),
            final(self).wf(),
    {
        self.close_pending();
        self.diagonal = Option::None;
        self.savediag = false;
    }

    /// Ends the scan: every still-open row track is closed and filed, and the
    /// collected result rows are handed out, leaving the storage empty.
    pub fn finalize(&mut self) -> (r: Vec<Vec<Path>>)
        requires
            old(self).wf(),
        ensures
            r@.map_values(|v: Vec<Path>| v@) == drain_spec(
                old(self).model(),
                old(self).minscore_spec(),
                old(self).minmatches_spec(),
                old(self).model().cache.len() as int,
            ).results,
            final(self).model() == prepared_spec(0),
            final(self).minscore_spec() == old(self).minscore_spec(),
            final(self).minmatches_spec() == old(self).minmatches_spec(),
            final(self).wf(),
    {
        let ghost m0 = self.model();
        let ghost minsc = self.minscore_spec();
        let ghost minm = self.minmatches_spec();
        let rows = self.cache.len();
        let mut i: usize = 0;
        while i < rows
            invariant
                i <= rows,
                rows == m0.cache.len(),
                self.wf(),
                self.minscore_spec() == minsc,
                self.minmatches_spec() == minm,
                self.model().cache == m0.cache,
                self.model().results == drain_spec(m0, minsc, minm, i as int).results,
                drain_spec(m0, minsc, minm, i as int).cache == m0.cache,
                drain_spec(m0, minsc, minm, i as int).diagonal == m0.diagonal,
                drain_spec(m0, minsc, minm, i as int).savediag == m0.savediag,
            decreases rows - i,
        {
            proof {
                lemma_drain_frame(m0, minsc, minm, i + 1);
            }
            match self.cache[i] {
                Option::Some(p) => {
                    self.save(p);
                },
                Option::None => {},
            }
            i = i + 1;
        }
        let mut out: Vec<Vec<Path>> = Vec::new();
        let mut k: usize = 0;
        let total = self.results.len();
        while k < total
            invariant
                k <= total,
                total == self.results@.len(),
                out@.len() == k,
                forall|q: int| 0 <= q < k ==> (#[trigger] out@[q])@ == self.results@[q]@,
            decreases total - k,
        {
            out.push(copy_paths(&self.results[k]));
            k = k + 1;
        }
        self.prepare(0, 0);
        proof {
            assert(out@.map_values(|v: Vec<Path>| v@) =~~= drain_spec(
                m0,
                minsc,
                minm,
                m0.cache.len() as int,
            ).results);
        }
        out
    }
}

/// Draining leaves the rest of the state untouched.
pub proof fn lemma_drain_frame(m: StoreModel, minscore: i64, minmatches: int, upto: int)
    ensures
        drain_spec(m, minscore, minmatches, upto).cache == m.cache,
        drain_spec(m, minscore, minmatches, upto).diagonal == m.diagonal,
        drain_spec(m, minscore, minmatches, upto).savediag == m.savediag,
        drain_spec(m, minscore, minmatches, upto).results.len() == m.results.len(),
    decreases upto,
{
    if upto > 0 {
        lemma_drain_frame(m, minscore, minmatches, upto - 1);
    }
}

/// Copies one row of finished paths.
fn copy_paths(v: &Vec<Path>) -> (r: Vec<Path>)
    ensures
        r@ == v@,
{
    let mut out: Vec<Path> = Vec::new();
    let mut i: usize = 0;
    while i < v.len()
        invariant
            i <= v@.len(),
            out@ == v@.take(i as int),
        decreases v@.len() - i,
    {
        out.push(v[i]);
        proof {
            assert(out@ =~= v@.take(i + 1));
        }
        i = i + 1;
    }
    proof {
        assert(v@.take(v@.len() as int) =~= v@);
    }
    out
}

/// If the first `j` entries have other starts and entry `j` matches, the
/// search finds `j`.
proof fn lemma_find_same_start(row: Seq<Path>, start: (usize, usize), j: int)
    requires
        0 <= j < row.len(),
        forall|k: int| 0 <= k < j ==> (#[trigger] row[k]).start != start,
        row[j].start == start,
    ensures
        find_same_start(row, start) == Option::Some(j),
    decreases j,
{
    if j > 0 {
        lemma_find_same_start(row.drop_first(), start, j - 1);
    } else {
    }
}

/// If no entry has the start, the search finds nothing.
proof fn lemma_find_none(row: Seq<Path>, start: (usize, usize))
    requires
        forall|k: int| 0 <= k < row.len() ==> (#[trigger] row[k]).start != start,
    ensures
        find_same_start(row, start) is None,
    decreases row.len(),
{
    if row.len() > 0 {
        lemma_find_none(row.drop_first(), start);
    }
}

/// Every filed path cleared both thresholds.
pub open spec fn results_filtered(results: Seq<Seq<Path>>, minscore: i64, minmatches: int) -> bool {
    forall|i: int, j: int|
        0 <= i < results.len() && 0 <= j < results[i].len() ==> (#[trigger] results[i][j]).score
            >= minscore && results[i][j].matches >= minmatches
}

/// Filing preserves the threshold guarantee: a path is only filed after
/// clearing both thresholds.
pub proof fn lemma_save_filtered(m: StoreModel, minscore: i64, minmatches: int, p: Path)
    requires
        results_filtered(m.results, minscore, minmatches),
    ensures
        results_filtered(save_spec(m, minscore, minmatches, p).results, minscore, minmatches),
{
    let out = save_spec(m, minscore, minmatches, p).results;
    assert forall|i: int, j: int|
        0 <= i < out.len() && 0 <= j < out[i].len() implies (#[trigger] out[i][j]).score
        >= minscore && out[i][j].matches >= minmatches by {
        if p.score < minscore || p.matches < minmatches || p.start.0 >= m.results.len() {
            assert(out[i][j] == m.results[i][j]);
        } else {
            let row = p.start.0 as int;
            match find_same_start(m.results[row], p.start) {
                Option::Some(j0) => {
                    lemma_find_range(m.results[row], p.start);
                    assert(out[i][j] == p || out[i][j] == m.results[i][j]);
                },
                Option::None => {
                    assert(out[i][j] == p || out[i][j] == m.results[i][j]);
                },
            }
        }
    }
}

/// A successful same-start search returns an index inside the row.
pub proof fn lemma_find_range(row: Seq<Path>, start: (usize, usize))
    requires
        find_same_start(row, start) is Some,
    ensures
        0 <= find_same_start(row, start)->Some_0 < row.len(),
    decreases row.len(),
{
    if row.len() > 0 && row[0].start != start {
        lemma_find_range(row.drop_first(), start);
    }
}

/// Closing the pending diagonal keeps the threshold guarantee.
pub proof fn lemma_close_filtered(m: StoreModel, minscore: i64, minmatches: int)
    requires
        results_filtered(m.results, minscore, minmatches),
    ensures
        results_filtered(close_diag_spec(m, minscore, minmatches).results, minscore, minmatches),
{
    match m.diagonal {
        Option::Some(d) => {
            if m.savediag {
                lemma_save_filtered(m, minscore, minmatches, d);
            }
        },
        Option::None => {},
    }
}

/// One step keeps the threshold guarantee.
pub proof fn lemma_step_filtered(
    m: StoreModel,
    row: int,
    col: int,
    ns: i64,
    op: Trace,
    minscore: i64,
    minmatches: int,
)
    requires
        results_filtered(m.results, minscore, minmatches),
    ensures
        results_filtered(
            step_spec(m, row, col, ns, op, minscore, minmatches).results,
            minscore,
            minmatches,
        ),
{
    lemma_close_filtered(m, minscore, minmatches);
}

/// Ending a column keeps the threshold guarantee.
pub proof fn lemma_colend_filtered(m: StoreModel, minscore: i64, minmatches: int)
    requires
        results_filtered(m.results, minscore, minmatches),
    ensures
        results_filtered(column_end_spec(m, minscore, minmatches).results, minscore, minmatches),
{
    lemma_close_filtered(m, minscore, minmatches);
}

/// Draining the open rows keeps the threshold guarantee.
pub proof fn lemma_drain_filtered(m: StoreModel, minscore: i64, minmatches: int, upto: int)
    requires
        results_filtered(m.results, minscore, minmatches),
    ensures
        results_filtered(drain_spec(m, minscore, minmatches, upto).results, minscore, minmatches),
    decreases upto,
{
    if upto > 0 {
        lemma_drain_filtered(m, minscore, minmatches, upto - 1);
        match m.cache[upto - 1] {
            Option::Some(p) => {
                lemma_save_filtered(
                    drain_spec(m, minscore, minmatches, upto - 1),
                    minscore,
                    minmatches,
                    p,
                );
            },
            Option::None => {},
        }
    }
}

} // verus!
