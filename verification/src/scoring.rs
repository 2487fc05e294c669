//! Pluggable scoring: symbol-pair scores with equivalence classification
//! (match, mismatch, or ambiguous equivalence), and additive affine gap
//! costs. A gap of length L costs open + L * extend; the alignment engine
//! only ever adds per-position open and extend values.

use vstd::prelude::*;

verus! {

/// How a pair of symbols relates: a confirmed match, a confirmed mismatch,
/// or an ambiguous equivalence settled only by a later post-pass.
#[derive(Copy, Clone, PartialEq, Eq, Structural, Debug, Hash)]
pub enum EquivType {
    Match,
    Mismatch,
    Equivalent,
}

/// Classifies symbol pairs into match, mismatch or ambiguous equivalence.
pub trait EquivClassifier: Sized {
    /// Symbols this classifier accepts.
    spec fn symbol_ok(&self, s: u8) -> bool;

    /// The classification, as a mathematical function.
    spec fn classify_spec(&self, s1: u8, s2: u8) -> EquivType;

    /// Classifies one pair of symbols.
    fn classify(&self, s1: u8, s2: u8) -> (r: EquivType)
        requires
            self.symbol_ok(s1),
            self.symbol_ok(s2),
        ensures
            r == self.classify_spec(s1, s2),
    ;
}

/// Position-aware symbol-pair scoring.
pub trait Scorer: EquivClassifier {
    /// The score, as a mathematical function of positions and symbols.
    spec fn score_spec(&self, pos1: int, s1: u8, pos2: int, s2: u8) -> i64;

    /// Scores one pair of symbols at the given positions.
    fn score(&self, seq1pos: usize, s1: u8, seq2pos: usize, s2: u8) -> (r: i64)
        requires
            self.symbol_ok(s1),
            self.symbol_ok(s2),
        ensures
            r == self.score_spec(seq1pos as int, s1, seq2pos as int, s2),
    ;
}

/// Position-aware additive gap costs, kept separate per sequence.
pub trait GapScorer: Sized {
    /// Cost of opening a gap in the first sequence before `pos`.
    spec fn seq1_gap_open_spec(&self, pos: int) -> i64;

    /// Cost of extending a gap in the first sequence at `pos`.
    spec fn seq1_gap_extend_spec(&self, pos: int) -> i64;

    /// Cost of opening a gap in the second sequence before `pos`.
    spec fn seq2_gap_open_spec(&self, pos: int) -> i64;

    /// Cost of extending a gap in the second sequence at `pos`.
    spec fn seq2_gap_extend_spec(&self, pos: int) -> i64;

    fn seq1_gap_open(&self, pos: usize) -> (r: i64)
        ensures
            r == self.seq1_gap_open_spec(pos as int),
    ;

    fn seq1_gap_extend(&self, pos: usize) -> (r: i64)
        ensures
            r == self.seq1_gap_extend_spec(pos as int),
    ;

    fn seq2_gap_open(&self, pos: usize) -> (r: i64)
        ensures
            r == self.seq2_gap_open_spec(pos as int),
    ;

    fn seq2_gap_extend(&self, pos: usize) -> (r: i64)
        ensures
            r == self.seq2_gap_extend_spec(pos as int),
    ;
}

/// A full scoring scheme: symbol scores plus gap costs.
pub trait ScoringScheme: Scorer + GapScorer {

}

/// Position-invariant scoring by symbol equality: one score for equal
/// symbols, another for different ones. Never reports an ambiguity.
pub struct MatchMismatch {
    pub samesc: i64,
    pub diffsc: i64,
}

impl EquivClassifier for MatchMismatch {
    open spec fn symbol_ok(&self, s: u8) -> bool {
        true
    }

    open spec fn classify_spec(&self, s1: u8, s2: u8) -> EquivType {
        if s1 == s2 {
            EquivType::Match
        } else {
            EquivType::Mismatch
        }
    }

    fn classify(&self, s1: u8, s2: u8) -> (r: EquivType) {
        if s1 == s2 {
            EquivType::Match
        } else {
            EquivType::Mismatch
        }
    }
}

impl Scorer for MatchMismatch {
    open spec fn score_spec(&self, pos1: int, s1: u8, pos2: int, s2: u8) -> i64 {
        if s1 == s2 {
            self.samesc
        } else {
            self.diffsc
        }
    }

    fn score(&self, seq1pos: usize, s1: u8, seq2pos: usize, s2: u8) -> (r: i64) {
        if s1 == s2 {
            self.samesc
        } else {
            self.diffsc
        }
    }
}

/// The flat table position of a symbol pair lies in range, and its row and
/// column are recovered by division and remainder.
proof fn lemma_pair_at_bounds(alph: int, s1: u8, s2: u8)
    requires
        (s1 as int) < alph,
        (s2 as int) < alph,
    ensures
        0 <= (s1 as int) * alph + (s2 as int) < alph * alph,
        ((s1 as int) * alph + (s2 as int)) % alph == s2 as int,
        ((s1 as int) * alph + (s2 as int)) / alph == s1 as int,
{
    let k = (s1 as int) * alph + (s2 as int);
    assert(0 <= k < alph * alph && k % alph == s2 as int && k / alph == s1 as int)
        by (nonlinear_arith)
        requires
            k == (s1 as int) * alph + (s2 as int),
            (s1 as int) < alph,
            (s2 as int) < alph,
            0 <= s1 as int,
            0 <= s2 as int,
    ;
}

/// Dense substitution matrix over an alphabet of `alphsize` symbols, holding
/// a score and an equivalence class for every ordered pair.
pub struct Matrix {
    alphsize: usize,
    scores: Vec<i64>,
    subtypes: Vec<EquivType>,
}

impl Matrix {
    /// The score table, for specification purposes.
    pub closed spec fn scores_view(&self) -> Seq<i64> {
        self.scores@
    }

    /// The class table, for specification purposes.
    pub closed spec fn subtypes_view(&self) -> Seq<EquivType> {
        self.subtypes@
    }

    /// The alphabet size, for specification purposes.
    pub closed spec fn alph(&self) -> int {
        self.alphsize as int
    }

    /// Table position of one ordered symbol pair.
    pub open spec fn pair_at(&self, s1: u8, s2: u8) -> int {
        (s1 as int) * self.alph() + (s2 as int)
    }
}

impl Matrix {
    /// Internal shape: one table entry per ordered symbol pair.
    pub open spec fn wf(&self) -> bool {
        &&& self.scores_view().len() == self.alph() * self.alph()
        &&& self.subtypes_view().len() == self.alph() * self.alph()
    }

    /// The alphabet size the matrix was built for.
    pub open spec fn alphsize_spec(&self) -> int {
        self.alph()
    }

    /// Builds a matrix scoring `matched` on the diagonal (class `Match`) and
    /// `mismatched` everywhere else (class `Mismatch`).
    pub fn new(alphsize: usize, matched: i64, mismatched: i64) -> (r: Matrix)
        requires
            alphsize * alphsize <= usize::MAX,
        ensures
            r.wf(),
            r.alphsize_spec() == alphsize,
            forall|s1: u8, s2: u8|
                s1 < alphsize && s2 < alphsize ==> #[trigger] r.score_spec(0, s1, 0, s2) == (if s1
                    == s2 {
                    matched
                } else {
                    mismatched
                }),
            forall|s1: u8, s2: u8|
                s1 < alphsize && s2 < alphsize ==> #[trigger] r.classify_spec(s1, s2) == (if s1
                    == s2 {
                    EquivType::Match
                } else {
                    EquivType::Mismatch
                }),
    {
        let total = alphsize * alphsize;
        let mut scores: Vec<i64> = Vec::new();
        let mut subtypes: Vec<EquivType> = Vec::new();
        let mut i: usize = 0;
        while i < total
            invariant
                i <= total,
                total == alphsize * alphsize,
                scores@.len() == i,
                subtypes@.len() == i,
                forall|k: int|
                    0 <= k < i ==> #[trigger] scores@[k] == (if k % (alphsize as int) == k / (
                    alphsize as int) {
                        matched
                    } else {
                        mismatched
                    }),
                forall|k: int|
                    0 <= k < i ==> #[trigger] subtypes@[k] == (if k % (alphsize as int) == k / (
                    alphsize as int) {
                        EquivType::Match
                    } else {
                        EquivType::Mismatch
                    }),
            decreases total - i,
        {
            let row = i / alphsize;
            let col = i % alphsize;
            if row == col {
                scores.push(matched);
                subtypes.push(EquivType::Match);
            } else {
                scores.push(mismatched);
                subtypes.push(EquivType::Mismatch);
            }
            i = i + 1;
        }
        let m = Matrix { alphsize, scores, subtypes };
        proof {
            assert forall|s1: u8, s2: u8| s1 < alphsize && s2 < alphsize implies #[trigger] m
                .score_spec(0, s1, 0, s2) == (if s1 == s2 {
                matched
            } else {
                mismatched
            }) by {
                lemma_pair_at_bounds(alphsize as int, s1, s2);
            }
            assert forall|s1: u8, s2: u8| s1 < alphsize && s2 < alphsize implies #[trigger] m
                .classify_spec(s1, s2) == (if s1 == s2 {
                EquivType::Match
            } else {
                EquivType::Mismatch
            }) by {
                lemma_pair_at_bounds(alphsize as int, s1, s2);
            }
        }
        m
    }

    /// Overrides the score and class of one ordered symbol pair.
    pub fn set(&mut self, a: u8, b: u8, weight: i64, subtype: EquivType)
        requires
            old(self).wf(),
            (a as int) < old(self).alphsize_spec(),
            (b as int) < old(self).alphsize_spec(),
        ensures
            final(self).wf(),
            final(self).alphsize_spec() == old(self).alphsize_spec(),
            final(self).score_spec(0, a, 0, b) == weight,
            final(self).classify_spec(a, b) == subtype,
            forall|s1: u8, s2: u8|
                old(self).symbol_ok(s1) && old(self).symbol_ok(s2) && !(s1 == a && s2 == b) ==> {
                    &&& #[trigger] final(self).score_spec(0, s1, 0, s2) == old(self).score_spec(
                        0,
                        s1,
                        0,
                        s2,
                    )
                    &&& final(self).classify_spec(s1, s2) == old(self).classify_spec(s1, s2)
                },
    {
        let table_len = self.scores.len();
        proof {
            assert(table_len == self.alph() * self.alph());
            assert((a as int) * (self.alphsize as int) + (b as int) < self.alphsize
                * self.alphsize && 0 <= (a as int) * (self.alphsize as int)) by (nonlinear_arith)
                requires
                    (a as int) < self.alphsize as int,
                    (b as int) < self.alphsize as int,
                    0 <= a as int,
                    0 <= b as int,
            ;
        }
        let ind = (a as usize) * self.alphsize + (b as usize);
        proof {
            assert(ind == self.pair_at(a, b));
            assert forall|s1: u8, s2: u8|
                (s1 as int) < self.alph() && (s2 as int) < self.alph() implies 0 <= (
            #[trigger] self.pair_at(s1, s2)) < self.alph() * self.alph() && (!(s1 == a && s2 == b)
                ==> self.pair_at(s1, s2) != self.pair_at(a, b)) by {
                assert(0 <= (s1 as int) * self.alph() + (s2 as int) < self.alph() * self.alph()
                    && (!(s1 == a && s2 == b) ==> (s1 as int) * self.alph() + (s2 as int) != (
                a as int) * self.alph() + (b as int))) by (nonlinear_arith)
                    requires
                        0 <= s1 as int,
                        0 <= a as int,
                        (s1 as int) < self.alph(),
                        (s2 as int) < self.alph(),
                        (b as int) < self.alph(),
                        0 <= s2 as int,
                        0 <= b as int,
                        (s1 as int) == (a as int) <==> s1 == a,
                        (s2 as int) == (b as int) <==> s2 == b,
                ;
            }
        }
        self.scores.set(ind, weight);
        self.subtypes.set(ind, subtype);
    }
}

impl EquivClassifier for Matrix {
    open spec fn symbol_ok(&self, s: u8) -> bool {
        self.wf() && (s as int) < self.alph()
    }

    open spec fn classify_spec(&self, s1: u8, s2: u8) -> EquivType {
        self.subtypes_view()[self.pair_at(s1, s2)]
    }

    fn classify(&self, s1: u8, s2: u8) -> (r: EquivType) {
        let table_len = self.subtypes.len();
        proof {
            assert(table_len == self.alph() * self.alph());
            assert((s1 as int) * (self.alphsize as int) + (s2 as int) < self.alphsize
                * self.alphsize && 0 <= (s1 as int) * (self.alphsize as int) + (s2 as int))
                by (nonlinear_arith)
                requires
                    (s1 as int) < self.alphsize as int,
                    (s2 as int) < self.alphsize as int,
                    0 <= s1 as int,
                    0 <= s2 as int,
            ;
        }
        let ind = (s1 as usize) * self.alphsize + (s2 as usize);
        self.subtypes[ind]
    }
}

impl Scorer for Matrix {
    open spec fn score_spec(&self, pos1: int, s1: u8, pos2: int, s2: u8) -> i64 {
        self.scores_view()[self.pair_at(s1, s2)]
    }

    fn score(&self, seq1pos: usize, s1: u8, seq2pos: usize, s2: u8) -> (r: i64) {
        let table_len = self.scores.len();
        proof {
            assert(table_len == self.alph() * self.alph());
            assert((s1 as int) * (self.alphsize as int) + (s2 as int) < self.alphsize
                * self.alphsize && 0 <= (s1 as int) * (self.alphsize as int) + (s2 as int))
                by (nonlinear_arith)
                requires
                    (s1 as int) < self.alphsize as int,
                    (s2 as int) < self.alphsize as int,
                    0 <= s1 as int,
                    0 <= s2 as int,
            ;
        }
        let ind = (s1 as usize) * self.alphsize + (s2 as usize);
        self.scores[ind]
    }
}

/// Affine gap costs: a fixed opening cost plus a fixed per-unit extension
/// cost, identical for both sequences and all positions.
pub struct AffineScheme {
    pub open_cost: i64,
    pub extend_cost: i64,
}

impl GapScorer for AffineScheme {
    open spec fn seq1_gap_open_spec(&self, pos: int) -> i64 {
        self.open_cost
    }

    open spec fn seq1_gap_extend_spec(&self, pos: int) -> i64 {
        self.extend_cost
    }

    open spec fn seq2_gap_open_spec(&self, pos: int) -> i64 {
        self.open_cost
    }

    open spec fn seq2_gap_extend_spec(&self, pos: int) -> i64 {
        self.extend_cost
    }

    fn seq1_gap_open(&self, pos: usize) -> (r: i64) {
        self.open_cost
    }

    fn seq1_gap_extend(&self, pos: usize) -> (r: i64) {
        self.extend_cost
    }

    fn seq2_gap_open(&self, pos: usize) -> (r: i64) {
        self.open_cost
    }

    fn seq2_gap_extend(&self, pos: usize) -> (r: i64) {
        self.extend_cost
    }
}

/// Composes a gap scorer and a symbol scorer into one scoring scheme.
pub struct Delegate<G: GapScorer, S: Scorer> {
    pub gap: G,
    pub symbols: S,
}

impl<G: GapScorer, S: Scorer> EquivClassifier for Delegate<G, S> {
    open spec fn symbol_ok(&self, s: u8) -> bool {
        self.symbols.symbol_ok(s)
    }

    open spec fn classify_spec(&self, s1: u8, s2: u8) -> EquivType {
        self.symbols.classify_spec(s1, s2)
    }

    fn classify(&self, s1: u8, s2: u8) -> (r: EquivType) {
        self.symbols.classify(s1, s2)
    }
}

impl<G: GapScorer, S: Scorer> Scorer for Delegate<G, S> {
    open spec fn score_spec(&self, pos1: int, s1: u8, pos2: int, s2: u8) -> i64 {
        self.symbols.score_spec(pos1, s1, pos2, s2)
    }

    fn score(&self, seq1pos: usize, s1: u8, seq2pos: usize, s2: u8) -> (r: i64) {
        self.symbols.score(seq1pos, s1, seq2pos, s2)
    }
}

impl<G: GapScorer, S: Scorer> GapScorer for Delegate<G, S> {
    open spec fn seq1_gap_open_spec(&self, pos: int) -> i64 {
        self.gap.seq1_gap_open_spec(pos)
    }

    open spec fn seq1_gap_extend_spec(&self, pos: int) -> i64 {
        self.gap.seq1_gap_extend_spec(pos)
    }

    open spec fn seq2_gap_open_spec(&self, pos: int) -> i64 {
        self.gap.seq2_gap_open_spec(pos)
    }

    open spec fn seq2_gap_extend_spec(&self, pos: int) -> i64 {
        self.gap.seq2_gap_extend_spec(pos)
    }

    fn seq1_gap_open(&self, pos: usize) -> (r: i64) {
        self.gap.seq1_gap_open(pos)
    }

    fn seq1_gap_extend(&self, pos: usize) -> (r: i64) {
        self.gap.seq1_gap_extend(pos)
    }

    fn seq2_gap_open(&self, pos: usize) -> (r: i64) {
        self.gap.seq2_gap_open(pos)
    }

    fn seq2_gap_extend(&self, pos: usize) -> (r: i64) {
        self.gap.seq2_gap_extend(pos)
    }
}

impl<G: GapScorer, S: Scorer> ScoringScheme for Delegate<G, S> {

}

} // verus!
