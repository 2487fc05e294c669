//! Alignment operations and run-length-encoded steps, the post-pass that
//! re-classifies ambiguous runs against the real sequences, and the compact
//! textual encoding of a step list.

use vstd::prelude::*;
use vstd::string::StringExecFns;

use crate::scoring::EquivClassifier;
use crate::scoring::EquivType;

verus! {

/// One class of alignment move: a gap in either sequence, or a diagonal move
/// that is a confirmed match, a confirmed mismatch, or an unresolved
/// equivalence.
#[derive(Copy, Clone, PartialEq, Eq, Structural, Debug, Hash)]
pub enum AlignmentOp {
    GapFirst,
    GapSecond,
    Equivalent,
    Match,
    Mismatch,
}

/// The character standing for an operation in the compact encoding.
pub open spec fn symbol_spec(op: AlignmentOp) -> char {
    match op {
        AlignmentOp::GapFirst => 'v',
        AlignmentOp::GapSecond => '^',
        AlignmentOp::Equivalent => '~',
        AlignmentOp::Match => '=',
        AlignmentOp::Mismatch => 'X',
    }
}

impl AlignmentOp {
    /// The character standing for this operation in the compact encoding.
    pub fn symbol(&self) -> (c: char)
        ensures
            c == symbol_spec(*self),
    {
        match self {
            AlignmentOp::GapFirst => 'v',
            AlignmentOp::GapSecond => '^',
            AlignmentOp::Equivalent => '~',
            AlignmentOp::Match => '=',
            AlignmentOp::Mismatch => 'X',
        }
    }
}

/// A run of identical alignment operations; the count never exceeds 255.
#[derive(Copy, Clone, PartialEq, Eq, Structural, Debug, Hash)]
pub struct AlignmentStep {
    pub op: AlignmentOp,
    pub len: u8,
}

/// `n` copies of one operation.
pub open spec fn repeat_op(op: AlignmentOp, n: int) -> Seq<AlignmentOp> {
    Seq::new(n as nat, |i: int| op)
}

/// Unit-by-unit expansion of a run-length-encoded step list.
pub open spec fn expand(steps: Seq<AlignmentStep>) -> Seq<AlignmentOp>
    decreases steps.len(),
{
    if steps.len() == 0 {
        Seq::empty()
    } else {
        expand(steps.drop_last()) + repeat_op(steps.last().op, steps.last().len as int)
    }
}

/// How far one operation advances the first sequence.
pub open spec fn adv1(op: AlignmentOp) -> int {
    if op == AlignmentOp::GapSecond {
        0
    } else {
        1
    }
}

/// How far one operation advances the second sequence.
pub open spec fn adv2(op: AlignmentOp) -> int {
    if op == AlignmentOp::GapFirst {
        0
    } else {
        1
    }
}

/// Total advance of the first sequence over a unit sequence.
pub open spec fn consumed1(ops: Seq<AlignmentOp>) -> int
    decreases ops.len(),
{
    if ops.len() == 0 {
        0
    } else {
        consumed1(ops.drop_last()) + adv1(ops.last())
    }
}

/// Total advance of the second sequence over a unit sequence.
pub open spec fn consumed2(ops: Seq<AlignmentOp>) -> int
    decreases ops.len(),
{
    if ops.len() == 0 {
        0
    } else {
        consumed2(ops.drop_last()) + adv2(ops.last())
    }
}

/// The operation an equivalence class settles to.
pub open spec fn op_of_equiv(e: EquivType) -> AlignmentOp {
    match e {
        EquivType::Match => AlignmentOp::Match,
        EquivType::Mismatch => AlignmentOp::Mismatch,
        EquivType::Equivalent => AlignmentOp::Equivalent,
    }
}

/// Turns an equivalence class into the operation it settles to.
pub fn op_from_equiv(e: EquivType) -> (r: AlignmentOp)
    ensures
        r == op_of_equiv(e),
{
    match e {
        EquivType::Match => AlignmentOp::Match,
        EquivType::Mismatch => AlignmentOp::Mismatch,
        EquivType::Equivalent => AlignmentOp::Equivalent,
    }
}

/// The resolved unit sequence: every `Equivalent` unit is re-classified
/// against the real symbols under it; all other units pass through. The
/// walk starts at positions `p1` and `p2` of the two sequences.
pub open spec fn disamb<S: EquivClassifier>(
    cls: &S,
    ops: Seq<AlignmentOp>,
    s1: Seq<u8>,
    p1: int,
    s2: Seq<u8>,
    p2: int,
) -> Seq<AlignmentOp>
    decreases ops.len(),
{
    if ops.len() == 0 {
        Seq::empty()
    } else {
        let op = ops[0];
        let mapped = if op == AlignmentOp::Equivalent {
            op_of_equiv(cls.classify_spec(s1[p1], s2[p2]))
        } else {
            op
        };
        seq![mapped] + disamb(cls, ops.drop_first(), s1, p1 + adv1(op), s2, p2 + adv2(op))
    }
}

/// Steps are maximally coalesced, with overlong runs split so that the
/// earlier of two equal-operation neighbours is a full chunk: every length is
/// at least one, and equal operations only meet after a length of 255.
#[verifier::opaque]
pub open spec fn steps_coalesced(ops: Seq<AlignmentStep>) -> bool {
    &&& forall|k: int| 0 <= k < ops.len() ==> (#[trigger] ops[k]).len >= 1
    &&& forall|k: int|
        #![trigger ops[k], ops[k + 1]]
        0 <= k < ops.len() - 1 ==> ops[k].op != ops[k + 1].op || ops[k].len == 255
}

/// Steps are maximally coalesced, with overlong runs split so that the later
/// of two equal-operation neighbours is a full chunk: every length is at
/// least one, and equal operations only meet before a length of 255.
#[verifier::opaque]
pub open spec fn steps_coalesced_rev(ops: Seq<AlignmentStep>) -> bool {
    &&& forall|k: int| 0 <= k < ops.len() ==> (#[trigger] ops[k]).len >= 1
    &&& forall|k: int|
        #![trigger ops[k], ops[k + 1]]
        0 <= k < ops.len() - 1 ==> ops[k].op != ops[k + 1].op || ops[k + 1].len == 255
}

/// A step list without steps is coalesced either way.
pub proof fn lemma_coalesced_empty()
    ensures
        steps_coalesced(Seq::<AlignmentStep>::empty()),
        steps_coalesced_rev(Seq::<AlignmentStep>::empty()),
{
    reveal(steps_coalesced);
    reveal(steps_coalesced_rev);
}

/// Appending a flushed run keeps a forward-coalesced list coalesced: within
/// the old list by assumption, and at the seam because the old back either
/// carries another operation or is a full chunk.
pub proof fn lemma_push_coalesced(result0: Seq<AlignmentStep>, step: AlignmentStep)
    requires
        steps_coalesced(result0),
        step.len >= 1,
        result0.len() > 0 ==> result0.last().op != step.op || result0.last().len == 255,
    ensures
        steps_coalesced(result0.push(step)),
{
    reveal(steps_coalesced);
    let out = result0.push(step);
    assert forall|k: int|
        #![trigger out[k], out[k + 1]]
        0 <= k < out.len() - 1 implies (out[k].op != out[k + 1].op || out[k].len == 255) by {
        if k == out.len() - 2 {
            assert(out[k] == result0.last());
            assert(out[k + 1] == step);
        } else {
            assert(out[k] == result0[k]);
            assert(out[k + 1] == result0[k + 1]);
        }
    }
    assert forall|k: int| 0 <= k < out.len() implies (#[trigger] out[k]).len >= 1 by {
        if k < out.len() - 1 {
            assert(out[k] == result0[k]);
        }
    }
}

/// Prepending a flushed run keeps a backward-coalesced list coalesced: within
/// the old list by assumption, and at the seam because the old front either
/// carries another operation or is a full chunk.
pub proof fn lemma_prepend_coalesced_rev(result0: Seq<AlignmentStep>, step: AlignmentStep)
    requires
        steps_coalesced_rev(result0),
        step.len >= 1,
        result0.len() > 0 ==> step.op != result0[0].op || result0[0].len == 255,
    ensures
        steps_coalesced_rev(seq![step] + result0),
{
    reveal(steps_coalesced_rev);
    let out = seq![step] + result0;
    assert forall|k: int|
        #![trigger out[k], out[k + 1]]
        0 <= k < out.len() - 1 implies (out[k].op != out[k + 1].op || out[k + 1].len == 255) by {
        if k == 0 {
            assert(result0.len() > 0);
            assert(out[0] == step);
            assert(out[1] == result0[0]);
            assert(step.op != result0[0].op || result0[0].len == 255);
        } else {
            let j = k - 1;
            assert(out[k] == result0[j]);
            assert(out[k + 1] == result0[j + 1]);
            assert(result0[j].op != result0[j + 1].op || result0[j + 1].len == 255);
        }
    }
    assert forall|k: int| 0 <= k < out.len() implies (#[trigger] out[k]).len >= 1 by {
        if k > 0 {
            assert(out[k] == result0[k - 1]);
        }
    }
}

/// Consumption counters are non-negative and bounded by the length.
pub proof fn lemma_consumed_bounds(ops: Seq<AlignmentOp>)
    ensures
        0 <= consumed1(ops) <= ops.len(),
        0 <= consumed2(ops) <= ops.len(),
    decreases ops.len(),
{
    if ops.len() > 0 {
        lemma_consumed_bounds(ops.drop_last());
    }
}

/// Consumption counters add over concatenation.
pub proof fn lemma_consumed_append(a: Seq<AlignmentOp>, b: Seq<AlignmentOp>)
    ensures
        consumed1(a + b) == consumed1(a) + consumed1(b),
        consumed2(a + b) == consumed2(a) + consumed2(b),
    decreases b.len(),
{
    if b.len() == 0 {
        assert(a + b =~= a);
    } else {
        lemma_consumed_append(a, b.drop_last());
        assert((a + b).drop_last() =~= a + b.drop_last());
        assert((a + b).last() == b.last());
    }
}

/// Expansion distributes over appending one step.
pub proof fn lemma_expand_push(steps: Seq<AlignmentStep>, s: AlignmentStep)
    ensures
        expand(steps.push(s)) == expand(steps) + repeat_op(s.op, s.len as int),
{
    assert(steps.push(s).drop_last() =~= steps);
    assert(steps.push(s).last() == s);
}

/// The resolved sequence distributes over concatenation, with the second
/// part resolved at the advanced positions.
pub proof fn lemma_disamb_append<S: EquivClassifier>(
    cls: &S,
    a: Seq<AlignmentOp>,
    b: Seq<AlignmentOp>,
    s1: Seq<u8>,
    p1: int,
    s2: Seq<u8>,
    p2: int,
)
    ensures
        disamb(cls, a + b, s1, p1, s2, p2) == disamb(cls, a, s1, p1, s2, p2) + disamb(
            cls,
            b,
            s1,
            p1 + consumed1(a),
            s2,
            p2 + consumed2(a),
        ),
    decreases a.len(),
{
    if a.len() == 0 {
        assert(a + b =~= b);
        assert(disamb(cls, a, s1, p1, s2, p2) + disamb(cls, b, s1, p1, s2, p2) =~= disamb(
            cls,
            b,
            s1,
            p1,
            s2,
            p2,
        ));
    } else {
        let op = a[0];
        assert((a + b)[0] == op);
        assert((a + b).drop_first() =~= a.drop_first() + b);
        lemma_disamb_append(cls, a.drop_first(), b, s1, p1 + adv1(op), s2, p2 + adv2(op));
        lemma_consumed_first(a);
        assert(seq![disamb(cls, a + b, s1, p1, s2, p2)[0]] + (disamb(
            cls,
            a.drop_first(),
            s1,
            p1 + adv1(op),
            s2,
            p2 + adv2(op),
        ) + disamb(cls, b, s1, p1 + consumed1(a), s2, p2 + consumed2(a))) =~= (seq![
            disamb(cls, a + b, s1, p1, s2, p2)[0],
        ] + disamb(cls, a.drop_first(), s1, p1 + adv1(op), s2, p2 + adv2(op))) + disamb(
            cls,
            b,
            s1,
            p1 + consumed1(a),
            s2,
            p2 + consumed2(a),
        ));
    }
}

/// Consumption equals the first unit's advance plus the rest.
pub proof fn lemma_consumed_first(ops: Seq<AlignmentOp>)
    requires
        ops.len() > 0,
    ensures
        consumed1(ops) == adv1(ops[0]) + consumed1(ops.drop_first()),
        consumed2(ops) == adv2(ops[0]) + consumed2(ops.drop_first()),
{
    assert(ops =~= seq![ops[0]] + ops.drop_first());
    lemma_consumed_append(seq![ops[0]], ops.drop_first());
    assert(seq![ops[0]].drop_last() =~= Seq::<AlignmentOp>::empty());
    assert(consumed1(Seq::<AlignmentOp>::empty()) == 0);
    assert(consumed2(Seq::<AlignmentOp>::empty()) == 0);
    assert(seq![ops[0]].last() == ops[0]);
    assert(consumed1(seq![ops[0]]) == adv1(ops[0]));
    assert(consumed2(seq![ops[0]]) == adv2(ops[0]));
}

/// A run of one operation resolves unit by unit; for a non-equivalent
/// operation it passes through unchanged.
pub proof fn lemma_disamb_plain_run<S: EquivClassifier>(
    cls: &S,
    op: AlignmentOp,
    n: int,
    s1: Seq<u8>,
    p1: int,
    s2: Seq<u8>,
    p2: int,
)
    requires
        op != AlignmentOp::Equivalent,
        n >= 0,
    ensures
        disamb(cls, repeat_op(op, n), s1, p1, s2, p2) == repeat_op(op, n),
    decreases n,
{
    if n > 0 {
        assert(repeat_op(op, n)[0] == op);
        assert(repeat_op(op, n).drop_first() =~= repeat_op(op, n - 1));
        lemma_disamb_plain_run(cls, op, n - 1, s1, p1 + adv1(op), s2, p2 + adv2(op));
        assert(seq![op] + repeat_op(op, n - 1) =~= repeat_op(op, n));
    }
}

/// One ambiguous unit resolves to the classification of the symbols under it.
pub proof fn lemma_disamb_equiv_unit<S: EquivClassifier>(
    cls: &S,
    s1: Seq<u8>,
    p1: int,
    s2: Seq<u8>,
    p2: int,
)
    ensures
        disamb(cls, seq![AlignmentOp::Equivalent], s1, p1, s2, p2) == seq![
            op_of_equiv(cls.classify_spec(s1[p1], s2[p2])),
        ],
{
    let ops = seq![AlignmentOp::Equivalent];
    assert(ops.drop_first() =~= Seq::<AlignmentOp>::empty());
    assert(ops[0] == AlignmentOp::Equivalent);
    assert(disamb(cls, Seq::<AlignmentOp>::empty(), s1, p1 + 1, s2, p2 + 1)
        == Seq::<AlignmentOp>::empty());
    assert(disamb(cls, ops, s1, p1, s2, p2) =~= seq![
        op_of_equiv(cls.classify_spec(s1[p1], s2[p2])),
    ]);
}

/// A single unit resolves to itself, except an ambiguous unit, which
/// resolves to the classification of the symbols under it.
pub proof fn lemma_disamb_unit<S: EquivClassifier>(
    cls: &S,
    op: AlignmentOp,
    s1: Seq<u8>,
    p1: int,
    s2: Seq<u8>,
    p2: int,
)
    ensures
        disamb(cls, seq![op], s1, p1, s2, p2) == seq![
            if op == AlignmentOp::Equivalent {
                op_of_equiv(cls.classify_spec(s1[p1], s2[p2]))
            } else {
                op
            },
        ],
{
    let ops = seq![op];
    assert(ops.drop_first() =~= Seq::<AlignmentOp>::empty());
    assert(ops[0] == op);
    assert(disamb(cls, Seq::<AlignmentOp>::empty(), s1, p1 + adv1(op), s2, p2 + adv2(op))
        == Seq::<AlignmentOp>::empty());
    assert(disamb(cls, ops, s1, p1, s2, p2) =~= seq![
        if op == AlignmentOp::Equivalent {
            op_of_equiv(cls.classify_spec(s1[p1], s2[p2]))
        } else {
            op
        },
    ]);
}

/// Re-walks a finished alignment unit by unit: every `Equivalent` unit is
/// re-classified against the real symbols under it, every other unit passes
/// through, and the resolved units come back maximally run-length coalesced,
/// with runs over 255 split into full chunks followed by the remainder.
/// `seq1offset` and `seq2offset` give where the alignment starts.
#[verifier::rlimit(100)]
#[verifier::spinoff_prover]
pub fn disambiguate<S: EquivClassifier>(
    ops: Vec<AlignmentStep>,
    scoring: &S,
    seq1: &Vec<u8>,
    seq1offset: usize,
    seq2: &Vec<u8>,
    seq2offset: usize,
) -> (r: Vec<AlignmentStep>)
    requires
        seq1offset + consumed1(expand(ops@)) <= seq1@.len(),
        seq2offset + consumed2(expand(ops@)) <= seq2@.len(),
        forall|i: int| 0 <= i < seq1@.len() ==> scoring.symbol_ok(#[trigger] seq1@[i]),
        forall|i: int| 0 <= i < seq2@.len() ==> scoring.symbol_ok(#[trigger] seq2@[i]),
    ensures
        expand(r@) == disamb(
            scoring,
            expand(ops@),
            seq1@,
            seq1offset as int,
            seq2@,
            seq2offset as int,
        ),
        steps_coalesced(r@),
{
    let ghost full = expand(ops@);
    let n1 = seq1.len();
    let n2 = seq2.len();
    let mut result: Vec<AlignmentStep> = Vec::new();
    let mut p1: usize = seq1offset;
    let mut p2: usize = seq2offset;
    let mut curop: AlignmentOp = AlignmentOp::Match;
    let mut curlen: u8 = 0;
    let mut i: usize = 0;
    proof {
        assert(ops@.take(0) =~= Seq::<AlignmentStep>::empty());
        assert(expand(Seq::<AlignmentStep>::empty()) == Seq::<AlignmentOp>::empty());
        assert(consumed1(Seq::<AlignmentOp>::empty()) == 0);
        assert(consumed2(Seq::<AlignmentOp>::empty()) == 0);
        assert(disamb(
            scoring,
            Seq::<AlignmentOp>::empty(),
            seq1@,
            seq1offset as int,
            seq2@,
            seq2offset as int,
        ) == Seq::<AlignmentOp>::empty());
        lemma_consumed_bounds(full);
        lemma_coalesced_empty();
        assert(repeat_op(curop, 0) =~= Seq::<AlignmentOp>::empty());
        assert(expand(result@) + repeat_op(curop, 0) =~= Seq::<AlignmentOp>::empty());
    }
    while i < ops.len()
        invariant
            i <= ops@.len(),
            full == expand(ops@),
            n1 == seq1@.len(),
            n2 == seq2@.len(),
            seq1offset + consumed1(full) <= n1,
            seq2offset + consumed2(full) <= n2,
            forall|k: int| 0 <= k < seq1@.len() ==> scoring.symbol_ok(#[trigger] seq1@[k]),
            forall|k: int| 0 <= k < seq2@.len() ==> scoring.symbol_ok(#[trigger] seq2@[k]),
            p1 == seq1offset + consumed1(expand(ops@.take(i as int))),
            p2 == seq2offset + consumed2(expand(ops@.take(i as int))),
            p1 <= n1,
            p2 <= n2,
            expand(result@) + repeat_op(curop, curlen as int) == disamb(
                scoring,
                expand(ops@.take(i as int)),
                seq1@,
                seq1offset as int,
                seq2@,
                seq2offset as int,
            ),
            curlen == 0 ==> result@.len() == 0,
            steps_coalesced(result@),
            curlen >= 1 && result@.len() > 0 ==> result@.last().op != curop || result@.last().len
                == 255,
        decreases ops@.len() - i,
    {
        let x = ops[i];
        let ghost prefix = expand(ops@.take(i as int));
        let ghost run = repeat_op(x.op, x.len as int);
        let ghost bp1 = p1 as int;
        let ghost bp2 = p2 as int;
        proof {
            assert(ops@.take(i + 1).drop_last() =~= ops@.take(i as int));
            assert(ops@.take(i + 1).last() == x);
            assert(expand(ops@.take(i + 1)) == prefix + run);
            lemma_consumed_append(prefix, run);
            lemma_consumed_repeat(x.op, x.len as int);
            lemma_consumed_bounds(run);
            assert(ops@ =~= ops@.take(i + 1) + ops@.skip(i + 1));
            lemma_expand_concat(ops@.take(i + 1), ops@.skip(i + 1));
            lemma_consumed_append(expand(ops@.take(i + 1)), expand(ops@.skip(i + 1)));
            lemma_consumed_bounds(expand(ops@.skip(i + 1)));
            lemma_consumed_bounds(prefix);
            assert((x.len as int) * 1 == x.len as int && (x.len as int) * 0 == 0)
                by (nonlinear_arith);
            assert(bp1 + (if x.op == AlignmentOp::GapSecond {
                0int
            } else {
                x.len as int
            }) <= n1);
            assert(bp2 + (if x.op == AlignmentOp::GapFirst {
                0int
            } else {
                x.len as int
            }) <= n2);
        }
        let mut t: u8 = 0;
        while t < x.len
            invariant
                t <= x.len,
                full == expand(ops@),
                n1 == seq1@.len(),
                n2 == seq2@.len(),
                forall|k: int| 0 <= k < seq1@.len() ==> scoring.symbol_ok(#[trigger] seq1@[k]),
                forall|k: int| 0 <= k < seq2@.len() ==> scoring.symbol_ok(#[trigger] seq2@[k]),
                p1 == bp1 + (if x.op == AlignmentOp::GapSecond {
                    0int
                } else {
                    t as int
                }),
                p2 == bp2 + (if x.op == AlignmentOp::GapFirst {
                    0int
                } else {
                    t as int
                }),
                bp1 + (if x.op == AlignmentOp::GapSecond {
                    0int
                } else {
                    x.len as int
                }) <= n1,
                bp2 + (if x.op == AlignmentOp::GapFirst {
                    0int
                } else {
                    x.len as int
                }) <= n2,
                prefix == expand(ops@.take(i as int)),
                bp1 == seq1offset + consumed1(prefix),
                bp2 == seq2offset + consumed2(prefix),
                expand(result@) + repeat_op(curop, curlen as int) == disamb(
                    scoring,
                    prefix + repeat_op(x.op, t as int),
                    seq1@,
                    seq1offset as int,
                    seq2@,
                    seq2offset as int,
                ),
                curlen == 0 ==> result@.len() == 0,
                steps_coalesced(result@),
                curlen >= 1 && result@.len() > 0 ==> result@.last().op != curop
                    || result@.last().len == 255,
            decreases x.len - t,
        {
            let mapped: AlignmentOp;
            match x.op {
                AlignmentOp::Equivalent => {
                    let u = scoring.classify(seq1[p1], seq2[p2]);
                    mapped = op_from_equiv(u);
                },
                _ => {
                    mapped = x.op;
                },
            }
            proof {
                lemma_disamb_append(
                    scoring,
                    prefix + repeat_op(x.op, t as int),
                    seq![x.op],
                    seq1@,
                    seq1offset as int,
                    seq2@,
                    seq2offset as int,
                );
                lemma_consumed_append(prefix, repeat_op(x.op, t as int));
                lemma_consumed_repeat(x.op, t as int);
                assert((t as int) * 1 == t as int && (t as int) * 0 == 0) by (nonlinear_arith);
                assert(seq1offset + consumed1(prefix + repeat_op(x.op, t as int)) == p1);
                assert(seq2offset + consumed2(prefix + repeat_op(x.op, t as int)) == p2);
                lemma_disamb_unit(scoring, x.op, seq1@, p1 as int, seq2@, p2 as int);
                assert((prefix + repeat_op(x.op, t as int)) + seq![x.op] =~= prefix + repeat_op(
                    x.op,
                    t + 1,
                ));
                assert(disamb(
                    scoring,
                    prefix + repeat_op(x.op, t + 1),
                    seq1@,
                    seq1offset as int,
                    seq2@,
                    seq2offset as int,
                ) == disamb(
                    scoring,
                    prefix + repeat_op(x.op, t as int),
                    seq1@,
                    seq1offset as int,
                    seq2@,
                    seq2offset as int,
                ) + seq![mapped]);
            }
            if curlen >= 1 && mapped == curop && curlen < 255 {
                curlen = curlen + 1;
                proof {
                    assert((expand(result@) + repeat_op(curop, curlen - 1)) + seq![mapped]
                        =~= expand(result@) + repeat_op(curop, curlen as int));
                }
            } else {
                let ghost oldop = curop;
                let ghost oldlen = curlen as int;
                let ghost result0 = result@;
                if curlen >= 1 {
                    let step = AlignmentStep { op: curop, len: curlen };
                    result.push(step);
                    proof {
                        lemma_expand_push(result0, step);
                        lemma_push_coalesced(result0, step);
                    }
                } else {
                    proof {
                        assert(repeat_op(oldop, 0) =~= Seq::<AlignmentOp>::empty());
                        assert(expand(result@) + repeat_op(oldop, 0) =~= expand(result@));
                    }
                }
                curop = mapped;
                curlen = 1;
                proof {
                    assert(repeat_op(mapped, 1) =~= seq![mapped]);
                    assert(expand(result@) =~= expand(result0) + repeat_op(oldop, oldlen));
                    assert(expand(result@) + repeat_op(mapped, 1) =~= (expand(result0)
                        + repeat_op(oldop, oldlen)) + seq![mapped]);
                }
            }
            match x.op {
                AlignmentOp::GapFirst => {
                    p1 = p1 + 1;
                },
                AlignmentOp::GapSecond => {
                    p2 = p2 + 1;
                },
                _ => {
                    p1 = p1 + 1;
                    p2 = p2 + 1;
                },
            }
            t = t + 1;
        }
        proof {
            if x.len == 0 {
                assert(repeat_op(x.op, 0) =~= Seq::<AlignmentOp>::empty());
                assert(prefix + repeat_op(x.op, 0) =~= prefix);
            }
            assert(prefix + repeat_op(x.op, x.len as int) == expand(ops@.take(i + 1)));
        }
        i = i + 1;
    }
    proof {
        assert(ops@.take(ops@.len() as int) =~= ops@);
    }
    if curlen >= 1 {
        let ghost resultpre = result@;
        let step = AlignmentStep { op: curop, len: curlen };
        result.push(step);
        proof {
            lemma_expand_push(resultpre, step);
            lemma_push_coalesced(resultpre, step);
        }
    } else {
        proof {
            assert(repeat_op(curop, 0) =~= Seq::<AlignmentOp>::empty());
            assert(expand(result@) + repeat_op(curop, 0) =~= expand(result@));
        }
    }
    result
}

/// Expansion distributes over concatenation.
pub proof fn lemma_expand_concat(a: Seq<AlignmentStep>, b: Seq<AlignmentStep>)
    ensures
        expand(a + b) == expand(a) + expand(b),
    decreases b.len(),
{
    if b.len() == 0 {
        assert(a + b =~= a);
        assert(expand(a) + expand(b) =~= expand(a));
    } else {
        assert((a + b).drop_last() =~= a + b.drop_last());
        assert((a + b).last() == b.last());
        lemma_expand_concat(a, b.drop_last());
        assert((expand(a) + expand(b.drop_last())) + repeat_op(b.last().op, b.last().len as int)
            =~= expand(a) + (expand(b.drop_last()) + repeat_op(b.last().op, b.last().len as int)));
    }
}

/// A run of `n` identical units consumes `n` of each advanced sequence.
pub proof fn lemma_consumed_repeat(op: AlignmentOp, n: int)
    requires
        n >= 0,
    ensures
        consumed1(repeat_op(op, n)) == n * adv1(op),
        consumed2(repeat_op(op, n)) == n * adv2(op),
    decreases n,
{
    if n > 0 {
        assert(repeat_op(op, n).drop_last() =~= repeat_op(op, n - 1));
        assert(repeat_op(op, n).last() == op);
        lemma_consumed_repeat(op, n - 1);
        assert((n - 1) * adv1(op) + adv1(op) == n * adv1(op)) by (nonlinear_arith);
        assert((n - 1) * adv2(op) + adv2(op) == n * adv2(op)) by (nonlinear_arith);
    } else {
        assert(repeat_op(op, 0) =~= Seq::<AlignmentOp>::empty());
        assert(consumed1(Seq::<AlignmentOp>::empty()) == 0);
        assert(consumed2(Seq::<AlignmentOp>::empty()) == 0);
        assert(0 * adv1(op) == 0) by (nonlinear_arith);
        assert(0 * adv2(op) == 0) by (nonlinear_arith);
    }
}

/// The character a decimal digit prints as.
pub open spec fn digit_char(d: int) -> char {
    if d == 0 {
        '0'
    } else if d == 1 {
        '1'
    } else if d == 2 {
        '2'
    } else if d == 3 {
        '3'
    } else if d == 4 {
        '4'
    } else if d == 5 {
        '5'
    } else if d == 6 {
        '6'
    } else if d == 7 {
        '7'
    } else if d == 8 {
        '8'
    } else {
        '9'
    }
}

/// Decimal representation of a non-negative number, most significant first.
pub open spec fn decimal_rep(n: int) -> Seq<char>
    decreases n,
{
    if n < 10 {
        seq![digit_char(n)]
    } else {
        decimal_rep(n / 10) + seq![digit_char(n % 10)]
    }
}

/// The compact encoding of a step list: each run's length in decimal followed
/// by the character of its operation.
pub open spec fn rle_spec(steps: Seq<AlignmentStep>) -> Seq<char>
    decreases steps.len(),
{
    if steps.len() == 0 {
        Seq::empty()
    } else {
        rle_spec(steps.drop_last()) + decimal_rep(steps.last().len as int) + seq![
            symbol_spec(steps.last().op),
        ]
    }
}

/// Appends one decimal digit.
fn push_digit(out: &mut String, d: u8)
    requires
        d < 10,
    ensures
        final(out)@ == old(out)@ + seq![digit_char(d as int)],
{
    match d {
        0 => {
            proof {
                reveal_strlit("0");
            }
            out.append("0");
        },
        1 => {
            proof {
                reveal_strlit("1");
            }
            out.append("1");
        },
        2 => {
            proof {
                reveal_strlit("2");
            }
            out.append("2");
        },
        3 => {
            proof {
                reveal_strlit("3");
            }
            out.append("3");
        },
        4 => {
            proof {
                reveal_strlit("4");
            }
            out.append("4");
        },
        5 => {
            proof {
                reveal_strlit("5");
            }
            out.append("5");
        },
        6 => {
            proof {
                reveal_strlit("6");
            }
            out.append("6");
        },
        7 => {
            proof {
                reveal_strlit("7");
            }
            out.append("7");
        },
        8 => {
            proof {
                reveal_strlit("8");
            }
            out.append("8");
        },
        _ => {
            proof {
                reveal_strlit("9");
            }
            out.append("9");
        },
    }
}

/// Appends the character of one operation.
fn push_symbol(out: &mut String, op: AlignmentOp)
    ensures
        final(out)@ == old(out)@ + seq![symbol_spec(op)],
{
    match op {
        AlignmentOp::GapFirst => {
            proof {
                reveal_strlit("v");
            }
            out.append("v");
        },
        AlignmentOp::GapSecond => {
            proof {
                reveal_strlit("^");
            }
            out.append("^");
        },
        AlignmentOp::Equivalent => {
            proof {
                reveal_strlit("~");
            }
            out.append("~");
        },
        AlignmentOp::Match => {
            proof {
                reveal_strlit("=");
            }
            out.append("=");
        },
        AlignmentOp::Mismatch => {
            proof {
                reveal_strlit("X");
            }
            out.append("X");
        },
    }
}

/// Appends a run length in decimal.
fn push_len(out: &mut String, n: u8)
    ensures
        final(out)@ == old(out)@ + decimal_rep(n as int),
{
    if n >= 100 {
        push_digit(out, n / 100);
        push_digit(out, (n / 10) % 10);
        push_digit(out, n % 10);
        proof {
            assert((n as int) / 10 / 10 == (n as int) / 100);
            assert(decimal_rep((n as int) / 100) == seq![digit_char((n as int) / 100)]);
            assert(decimal_rep((n as int) / 10) == decimal_rep((n as int) / 100) + seq![
                digit_char(((n as int) / 10) % 10),
            ]);
            assert(final(out)@ =~= old(out)@ + decimal_rep(n as int));
        }
    } else if n >= 10 {
        push_digit(out, n / 10);
        push_digit(out, n % 10);
        proof {
            assert(decimal_rep((n as int) / 10) == seq![digit_char((n as int) / 10)]);
            assert(final(out)@ =~= old(out)@ + decimal_rep(n as int));
        }
    } else {
        push_digit(out, n);
    }
}

/// Encodes a step list compactly: each run length in decimal followed by the
/// operation's character. The `len` hint only sizes the buffer.
pub fn rle(steps: &Vec<AlignmentStep>, len: usize) -> (r: String)
    ensures
        r@ == rle_spec(steps@),
{
    let _ = len;
    let mut out = String::new();
    let mut i: usize = 0;
    while i < steps.len()
        invariant
            i <= steps@.len(),
            out@ == rle_spec(steps@.take(i as int)),
        decreases steps@.len() - i,
    {
        let x = steps[i];
        push_len(&mut out, x.len);
        push_symbol(&mut out, x.op);
        proof {
            assert(steps@.take(i + 1).drop_last() =~= steps@.take(i as int));
            assert(steps@.take(i + 1).last() == x);
            assert(out@ =~= rle_spec(steps@.take(i + 1)));
        }
        i = i + 1;
    }
    proof {
        assert(steps@.take(steps@.len() as int) =~= steps@);
    }
    out
}

/// A scored local alignment: its run-length steps and the covered ranges on
/// both sequences.
pub struct Alignment {
    pub score: i64,
    pub steps: Vec<AlignmentStep>,
    pub seq1: std::ops::Range<usize>,
    pub seq2: std::ops::Range<usize>,
}

impl Alignment {
    /// Number of alignment units over all steps.
    pub fn len(&self) -> (r: usize)
        requires
            expand(self.steps@).len() <= usize::MAX,
        ensures
            r == expand(self.steps@).len(),
    {
        let mut total: usize = 0;
        let mut i: usize = 0;
        while i < self.steps.len()
            invariant
                i <= self.steps@.len(),
                total == expand(self.steps@.take(i as int)).len(),
                expand(self.steps@).len() <= usize::MAX,
            decreases self.steps@.len() - i,
        {
            proof {
                assert(self.steps@.take(i + 1).drop_last() =~= self.steps@.take(i as int));
                assert(self.steps@ =~= self.steps@.take(i + 1) + self.steps@.skip(i + 1));
                lemma_expand_concat(self.steps@.take(i + 1), self.steps@.skip(i + 1));
            }
            total = total + (self.steps[i].len as usize);
            i = i + 1;
        }
        proof {
            assert(self.steps@.take(self.steps@.len() as int) =~= self.steps@);
        }
        total
    }

    /// Renders this alignment over the pieces of the two sequences it
    /// covers, as three stacked lines of bytes.
    pub fn prettify(&self, seq1: &Vec<u8>, seq2: &Vec<u8>) -> (r: Vec<u8>)
        requires
            self.seq1.start <= self.seq1.end <= seq1@.len(),
            self.seq2.start <= self.seq2.end <= seq2@.len(),
            consumed1(expand(self.steps@)) <= self.seq1.end - self.seq1.start,
            consumed2(expand(self.steps@)) <= self.seq2.end - self.seq2.start,
            seq1@.len() <= 1_000_000,
            seq2@.len() <= 1_000_000,
            expand(self.steps@).len() <= 1_000_000,
        ensures
            ({
                let piece1 = seq1@.subrange(self.seq1.start as int, self.seq1.end as int);
                let piece2 = seq2@.subrange(self.seq2.start as int, self.seq2.end as int);
                r@ == top_line(expand(self.steps@), piece1, 0) + mid_line(expand(self.steps@))
                    + bot_line(expand(self.steps@), piece2, 0)
            }),
    {
        let piece1 = copy_piece(seq1, self.seq1.start, self.seq1.end);
        let piece2 = copy_piece(seq2, self.seq2.start, self.seq2.end);
        let total = self.len();
        prettify(&piece1, &piece2, &self.steps, total)
    }

    /// The compact encoding of this alignment's steps.
    pub fn rle(&self) -> (r: String)
        requires
            expand(self.steps@).len() <= usize::MAX,
        ensures
            r@ == rle_spec(self.steps@),
    {
        let total = self.len();
        rle(&self.steps, total)
    }
}

/// Expansion of a single step is its run.
pub proof fn lemma_expand_single(s: AlignmentStep)
    ensures
        expand(seq![s]) == repeat_op(s.op, s.len as int),
{
    assert(seq![s].drop_last() =~= Seq::<AlignmentStep>::empty());
    assert(expand(Seq::<AlignmentStep>::empty()) == Seq::<AlignmentOp>::empty());
    assert(seq![s].last() == s);
    assert(Seq::<AlignmentOp>::empty() + repeat_op(s.op, s.len as int) =~= repeat_op(
        s.op,
        s.len as int,
    ));
}

/// Consumption of a single unit is its advance.
pub proof fn lemma_consumed_single(op: AlignmentOp)
    ensures
        consumed1(seq![op]) == adv1(op),
        consumed2(seq![op]) == adv2(op),
{
    assert(seq![op].drop_last() =~= Seq::<AlignmentOp>::empty());
    assert(consumed1(Seq::<AlignmentOp>::empty()) == 0);
    assert(consumed2(Seq::<AlignmentOp>::empty()) == 0);
    assert(seq![op].last() == op);
}

/// Whether two closed straight segments, given by their endpoint coordinates
/// (first segment a0-a1, then b0-b1), share at least one point. Names the
/// result of geo's segment intersection test, which depends on the
/// coordinates alone.
pub uninterp spec fn segments_cross(
    ax0: int,
    ay0: int,
    ax1: int,
    ay1: int,
    bx0: int,
    by0: int,
    bx1: int,
    by1: int,
) -> bool;

/// Relies on geo's `Intersects` for `Line` over 64-bit coordinates: whether
/// two integer segments share a point, computed exactly by the simple
/// orientation kernel. The coordinate bound keeps the kernel's orientation
/// products inside 64 bits on every platform, so the call neither overflows
/// nor depends on the machine's word size.
#[verifier::external_body]
fn lines_intersect(
    ax0: i64,
    ay0: i64,
    ax1: i64,
    ay1: i64,
    bx0: i64,
    by0: i64,
    bx1: i64,
    by1: i64,
) -> (r: bool)
    requires
        -1_000_000 <= ax0 <= 1_000_000,
        -1_000_000 <= ay0 <= 1_000_000,
        -1_000_000 <= ax1 <= 1_000_000,
        -1_000_000 <= ay1 <= 1_000_000,
        -1_000_000 <= bx0 <= 1_000_000,
        -1_000_000 <= by0 <= 1_000_000,
        -1_000_000 <= bx1 <= 1_000_000,
        -1_000_000 <= by1 <= 1_000_000,
    ensures
        r == segments_cross(
            ax0 as int,
            ay0 as int,
            ax1 as int,
            ay1 as int,
            bx0 as int,
            by0 as int,
            bx1 as int,
            by1 as int,
        ),
{
    let a = geo::Line::new(geo::Coord { x: ax0, y: ay0 }, geo::Coord { x: ax1, y: ay1 });
    let b = geo::Line::new(geo::Coord { x: bx0, y: by0 }, geo::Coord { x: bx1, y: by1 });
    geo::Intersects::intersects(&a, &b)
}

/// The position reached on the first sequence after `j` steps of a path that
/// starts at `s`.
pub open spec fn path_x(s: (usize, usize), steps: Seq<AlignmentStep>, j: int) -> int {
    s.0 + consumed1(expand(steps.take(j)))
}

/// The position reached on the second sequence after `j` steps.
pub open spec fn path_y(s: (usize, usize), steps: Seq<AlignmentStep>, j: int) -> int {
    s.1 + consumed2(expand(steps.take(j)))
}

/// Two alignment paths cross: some straight segment of the first path (one
/// per run-length step, over sequence-position coordinates) shares a point
/// with some straight segment of the second.
pub open spec fn paths_cross(
    start1: (usize, usize),
    steps1: Seq<AlignmentStep>,
    start2: (usize, usize),
    steps2: Seq<AlignmentStep>,
) -> bool {
    exists|i: int, j: int|
        0 <= i < steps1.len() && 0 <= j < steps2.len() && #[trigger] segments_cross(
            path_x(start1, steps1, i),
            path_y(start1, steps1, i),
            path_x(start1, steps1, i + 1),
            path_y(start1, steps1, i + 1),
            path_x(start2, steps2, j),
            path_y(start2, steps2, j),
            path_x(start2, steps2, j + 1),
            path_y(start2, steps2, j + 1),
        )
}

/// Fills the per-step polyline corner points of one path.
fn path_points(start: (usize, usize), steps: &Vec<AlignmentStep>) -> (r: (Vec<i64>, Vec<i64>))
    requires
        start.0 + expand(steps@).len() <= 1_000_000,
        start.1 + expand(steps@).len() <= 1_000_000,
    ensures
        r.0@.len() == steps@.len() + 1,
        r.1@.len() == steps@.len() + 1,
        forall|j: int| 0 <= j <= steps@.len() ==> #[trigger] r.0@[j] == path_x(start, steps@, j),
        forall|j: int| 0 <= j <= steps@.len() ==> #[trigger] r.1@[j] == path_y(start, steps@, j),
        forall|j: int| 0 <= j <= steps@.len() ==> 0 <= #[trigger] r.0@[j] <= 1_000_000,
        forall|j: int| 0 <= j <= steps@.len() ==> 0 <= #[trigger] r.1@[j] <= 1_000_000,
{
    let ghost full = expand(steps@);
    let mut xs: Vec<i64> = Vec::new();
    let mut ys: Vec<i64> = Vec::new();
    let mut x: usize = start.0;
    let mut y: usize = start.1;
    proof {
        assert(steps@.take(0) =~= Seq::<AlignmentStep>::empty());
        assert(expand(Seq::<AlignmentStep>::empty()) == Seq::<AlignmentOp>::empty());
        assert(consumed1(Seq::<AlignmentOp>::empty()) == 0);
        assert(consumed2(Seq::<AlignmentOp>::empty()) == 0);
        lemma_consumed_bounds(full);
    }
    xs.push(x as i64);
    ys.push(y as i64);
    let mut i: usize = 0;
    while i < steps.len()
        invariant
            i <= steps@.len(),
            full == expand(steps@),
            start.0 + consumed1(full) <= 1_000_000,
            start.1 + consumed2(full) <= 1_000_000,
            start.0 + expand(steps@).len() <= 1_000_000,
            start.1 + expand(steps@).len() <= 1_000_000,
            x == path_x(start, steps@, i as int),
            y == path_y(start, steps@, i as int),
            x <= 1_000_000,
            y <= 1_000_000,
            xs@.len() == i + 1,
            ys@.len() == i + 1,
            forall|j: int| 0 <= j <= i ==> #[trigger] xs@[j] == path_x(start, steps@, j),
            forall|j: int| 0 <= j <= i ==> #[trigger] ys@[j] == path_y(start, steps@, j),
            forall|j: int| 0 <= j <= i ==> 0 <= #[trigger] xs@[j] <= 1_000_000,
            forall|j: int| 0 <= j <= i ==> 0 <= #[trigger] ys@[j] <= 1_000_000,
        decreases steps@.len() - i,
    {
        let s = steps[i];
        let ghost prefix = expand(steps@.take(i as int));
        let ghost run = repeat_op(s.op, s.len as int);
        proof {
            assert(steps@.take(i + 1).drop_last() =~= steps@.take(i as int));
            assert(steps@.take(i + 1).last() == s);
            assert(expand(steps@.take(i + 1)) == prefix + run);
            lemma_consumed_append(prefix, run);
            lemma_consumed_repeat(s.op, s.len as int);
            lemma_consumed_bounds(run);
            assert(steps@ =~= steps@.take(i + 1) + steps@.skip(i + 1));
            lemma_expand_concat(steps@.take(i + 1), steps@.skip(i + 1));
            lemma_consumed_append(expand(steps@.take(i + 1)), expand(steps@.skip(i + 1)));
            lemma_consumed_bounds(expand(steps@.skip(i + 1)));
            lemma_consumed_bounds(prefix);
            assert((s.len as int) * 1 == s.len as int && (s.len as int) * 0 == 0)
                by (nonlinear_arith);
        }
        match s.op {
            AlignmentOp::GapFirst => {
                x = x + (s.len as usize);
            },
            AlignmentOp::GapSecond => {
                y = y + (s.len as usize);
            },
            _ => {
                x = x + (s.len as usize);
                y = y + (s.len as usize);
            },
        }
        xs.push(x as i64);
        ys.push(y as i64);
        i = i + 1;
    }
    (xs, ys)
}

/// Whether two alignment paths occupy a common point of the position plane:
/// every run-length step is one straight segment, and every segment pair is
/// tested. Paths without steps cross nothing.
pub fn intersects(
    start1: (usize, usize),
    steps1: &Vec<AlignmentStep>,
    start2: (usize, usize),
    steps2: &Vec<AlignmentStep>,
) -> (r: bool)
    requires
        start1.0 + expand(steps1@).len() <= 1_000_000,
        start1.1 + expand(steps1@).len() <= 1_000_000,
        start2.0 + expand(steps2@).len() <= 1_000_000,
        start2.1 + expand(steps2@).len() <= 1_000_000,
    ensures
        r == paths_cross(start1, steps1@, start2, steps2@),
{
    let (xs1, ys1) = path_points(start1, steps1);
    let (xs2, ys2) = path_points(start2, steps2);
    let n1 = steps1.len();
    let n2 = steps2.len();
    let mut found = false;
    let mut i: usize = 0;
    while i < n1
        invariant
            i <= n1,
            n1 == steps1@.len(),
            n2 == steps2@.len(),
            xs1@.len() == n1 + 1,
            ys1@.len() == n1 + 1,
            xs2@.len() == n2 + 1,
            ys2@.len() == n2 + 1,
            forall|j: int| 0 <= j <= n1 ==> #[trigger] xs1@[j] == path_x(start1, steps1@, j),
            forall|j: int| 0 <= j <= n1 ==> #[trigger] ys1@[j] == path_y(start1, steps1@, j),
            forall|j: int| 0 <= j <= n2 ==> #[trigger] xs2@[j] == path_x(start2, steps2@, j),
            forall|j: int| 0 <= j <= n2 ==> #[trigger] ys2@[j] == path_y(start2, steps2@, j),
            forall|j: int| 0 <= j <= n1 ==> 0 <= #[trigger] xs1@[j] <= 1_000_000,
            forall|j: int| 0 <= j <= n1 ==> 0 <= #[trigger] ys1@[j] <= 1_000_000,
            forall|j: int| 0 <= j <= n2 ==> 0 <= #[trigger] xs2@[j] <= 1_000_000,
            forall|j: int| 0 <= j <= n2 ==> 0 <= #[trigger] ys2@[j] <= 1_000_000,
            found ==> paths_cross(start1, steps1@, start2, steps2@),
            !found ==> forall|i2: int, j2: int|
                0 <= i2 < i && 0 <= j2 < n2 ==> !(#[trigger] segments_cross(
                    path_x(start1, steps1@, i2),
                    path_y(start1, steps1@, i2),
                    path_x(start1, steps1@, i2 + 1),
                    path_y(start1, steps1@, i2 + 1),
                    path_x(start2, steps2@, j2),
                    path_y(start2, steps2@, j2),
                    path_x(start2, steps2@, j2 + 1),
                    path_y(start2, steps2@, j2 + 1),
                )),
        decreases n1 - i,
    {
        let mut j: usize = 0;
        while j < n2
            invariant
                i < n1,
                j <= n2,
                n1 == steps1@.len(),
                n2 == steps2@.len(),
                xs1@.len() == n1 + 1,
                ys1@.len() == n1 + 1,
                xs2@.len() == n2 + 1,
                ys2@.len() == n2 + 1,
                forall|q: int| 0 <= q <= n1 ==> #[trigger] xs1@[q] == path_x(start1, steps1@, q),
                forall|q: int| 0 <= q <= n1 ==> #[trigger] ys1@[q] == path_y(start1, steps1@, q),
                forall|q: int| 0 <= q <= n2 ==> #[trigger] xs2@[q] == path_x(start2, steps2@, q),
                forall|q: int| 0 <= q <= n2 ==> #[trigger] ys2@[q] == path_y(start2, steps2@, q),
                forall|q: int| 0 <= q <= n1 ==> 0 <= #[trigger] xs1@[q] <= 1_000_000,
                forall|q: int| 0 <= q <= n1 ==> 0 <= #[trigger] ys1@[q] <= 1_000_000,
                forall|q: int| 0 <= q <= n2 ==> 0 <= #[trigger] xs2@[q] <= 1_000_000,
                forall|q: int| 0 <= q <= n2 ==> 0 <= #[trigger] ys2@[q] <= 1_000_000,
                found ==> paths_cross(start1, steps1@, start2, steps2@),
                !found ==> forall|i2: int, j2: int|
                    0 <= i2 < i && 0 <= j2 < n2 ==> !(#[trigger] segments_cross(
                        path_x(start1, steps1@, i2),
                        path_y(start1, steps1@, i2),
                        path_x(start1, steps1@, i2 + 1),
                        path_y(start1, steps1@, i2 + 1),
                        path_x(start2, steps2@, j2),
                        path_y(start2, steps2@, j2),
                        path_x(start2, steps2@, j2 + 1),
                        path_y(start2, steps2@, j2 + 1),
                    )),
                !found ==> forall|j2: int|
                    0 <= j2 < j ==> !(#[trigger] segments_cross(
                        path_x(start1, steps1@, i as int),
                        path_y(start1, steps1@, i as int),
                        path_x(start1, steps1@, i + 1),
                        path_y(start1, steps1@, i + 1),
                        path_x(start2, steps2@, j2),
                        path_y(start2, steps2@, j2),
                        path_x(start2, steps2@, j2 + 1),
                        path_y(start2, steps2@, j2 + 1),
                    )),
            decreases n2 - j,
        {
            if !found {
                let hit = lines_intersect(
                    xs1[i],
                    ys1[i],
                    xs1[i + 1],
                    ys1[i + 1],
                    xs2[j],
                    ys2[j],
                    xs2[j + 1],
                    ys2[j + 1],
                );
                if hit {
                    found = true;
                }
            }
            j = j + 1;
        }
        i = i + 1;
    }
    found
}

/// Copies `v[start..end]` into a fresh vector.
fn copy_piece(v: &Vec<u8>, start: usize, end: usize) -> (r: Vec<u8>)
    requires
        start <= end <= v@.len(),
    ensures
        r@ == v@.subrange(start as int, end as int),
{
    let mut out: Vec<u8> = Vec::new();
    let mut i: usize = start;
    while i < end
        invariant
            start <= i <= end <= v@.len(),
            out@.len() == i - start,
            forall|j: int| 0 <= j < i - start ==> #[trigger] out@[j] == v@[start + j],
        decreases end - i,
    {
        out.push(v[i]);
        i = i + 1;
    }
    proof {
        assert(out@ =~= v@.subrange(start as int, end as int));
    }
    out
}

/// The top line of the pretty form: the first sequence's symbols, with a dash
/// under every unit that consumes only the second sequence.
pub open spec fn top_line(ops: Seq<AlignmentOp>, s1: Seq<u8>, p1: int) -> Seq<u8>
    decreases ops.len(),
{
    if ops.len() == 0 {
        Seq::empty()
    } else {
        top_line(ops.drop_last(), s1, p1) + (if ops.last() == AlignmentOp::GapSecond {
            seq![45u8]
        } else {
            seq![s1[p1 + consumed1(ops.drop_last())]]
        })
    }
}

/// The middle line: one marker per unit (space for gaps, bar for matches,
/// star for mismatches, tilde for unresolved equivalences).
pub open spec fn mid_line(ops: Seq<AlignmentOp>) -> Seq<u8>
    decreases ops.len(),
{
    if ops.len() == 0 {
        Seq::empty()
    } else {
        mid_line(ops.drop_last()) + seq![
            match ops.last() {
                AlignmentOp::GapFirst => 32u8,
                AlignmentOp::GapSecond => 32u8,
                AlignmentOp::Equivalent => 126u8,
                AlignmentOp::Match => 124u8,
                AlignmentOp::Mismatch => 42u8,
            },
        ]
    }
}

/// The bottom line: the second sequence's symbols, with a dash under every
/// unit that consumes only the first sequence.
pub open spec fn bot_line(ops: Seq<AlignmentOp>, s2: Seq<u8>, p2: int) -> Seq<u8>
    decreases ops.len(),
{
    if ops.len() == 0 {
        Seq::empty()
    } else {
        bot_line(ops.drop_last(), s2, p2) + (if ops.last() == AlignmentOp::GapFirst {
            seq![45u8]
        } else {
            seq![s2[p2 + consumed2(ops.drop_last())]]
        })
    }
}

/// Renders an alignment over the two covered sequence pieces as three stacked
/// lines (both sequences with dashes in their gaps, and a marker line
/// between), returned concatenated. The `total` hint only sizes the buffer.
pub fn prettify(
    seq1: &Vec<u8>,
    seq2: &Vec<u8>,
    steps: &Vec<AlignmentStep>,
    total: usize,
) -> (r: Vec<u8>)
    requires
        consumed1(expand(steps@)) <= seq1@.len(),
        consumed2(expand(steps@)) <= seq2@.len(),
        seq1@.len() <= 1_000_000,
        seq2@.len() <= 1_000_000,
        expand(steps@).len() <= 1_000_000,
    ensures
        r@ == top_line(expand(steps@), seq1@, 0) + mid_line(expand(steps@)) + bot_line(
            expand(steps@),
            seq2@,
            0,
        ),
{
    let _ = total;
    let ghost full = expand(steps@);
    // Unit-by-unit expansion of the steps.
    let mut units: Vec<AlignmentOp> = Vec::new();
    let mut i: usize = 0;
    proof {
        assert(steps@.take(0) =~= Seq::<AlignmentStep>::empty());
        assert(expand(Seq::<AlignmentStep>::empty()) == Seq::<AlignmentOp>::empty());
        lemma_consumed_bounds(full);
    }
    while i < steps.len()
        invariant
            i <= steps@.len(),
            full == expand(steps@),
            full.len() <= 1_000_000,
            units@ == expand(steps@.take(i as int)),
            units@.len() <= full.len(),
        decreases steps@.len() - i,
    {
        let x = steps[i];
        let ghost prefix = expand(steps@.take(i as int));
        proof {
            assert(steps@.take(i + 1).drop_last() =~= steps@.take(i as int));
            assert(steps@.take(i + 1).last() == x);
            assert(expand(steps@.take(i + 1)) == prefix + repeat_op(x.op, x.len as int));
            assert(steps@ =~= steps@.take(i + 1) + steps@.skip(i + 1));
            lemma_expand_concat(steps@.take(i + 1), steps@.skip(i + 1));
        }
        let mut t: u8 = 0;
        while t < x.len
            invariant
                t <= x.len,
                full == expand(steps@),
                full.len() <= 1_000_000,
                units@ == expand(steps@.take(i as int)) + repeat_op(x.op, t as int),
                expand(steps@.take(i as int)).len() + x.len <= full.len(),
            decreases x.len - t,
        {
            units.push(x.op);
            proof {
                assert(repeat_op(x.op, t as int).push(x.op) =~= repeat_op(x.op, t + 1));
                assert(expand(steps@.take(i as int)) + repeat_op(x.op, t + 1) =~= (expand(
                    steps@.take(i as int),
                ) + repeat_op(x.op, t as int)).push(x.op));
            }
            t = t + 1;
        }
        proof {
            if x.len == 0 {
                assert(repeat_op(x.op, 0) =~= Seq::<AlignmentOp>::empty());
            }
            assert(units@ =~= expand(steps@.take(i + 1)));
        }
        i = i + 1;
    }
    proof {
        assert(steps@.take(steps@.len() as int) =~= steps@);
    }

    // Render the three lines unit by unit.
    let n = units.len();
    let mut top: Vec<u8> = Vec::new();
    let mut mid: Vec<u8> = Vec::new();
    let mut bot: Vec<u8> = Vec::new();
    let mut p1: usize = 0;
    let mut p2: usize = 0;
    let mut u: usize = 0;
    proof {
        assert(units@.take(0) =~= Seq::<AlignmentOp>::empty());
        assert(consumed1(Seq::<AlignmentOp>::empty()) == 0);
        assert(consumed2(Seq::<AlignmentOp>::empty()) == 0);
    }
    while u < n
        invariant
            u <= n,
            n == units@.len(),
            units@ == full,
            full == expand(steps@),
            consumed1(full) <= seq1@.len(),
            consumed2(full) <= seq2@.len(),
            p1 == consumed1(units@.take(u as int)),
            p2 == consumed2(units@.take(u as int)),
            top@ == top_line(units@.take(u as int), seq1@, 0),
            mid@ == mid_line(units@.take(u as int)),
            bot@ == bot_line(units@.take(u as int), seq2@, 0),
        decreases n - u,
    {
        let op = units[u];
        proof {
            assert(units@.take(u + 1).drop_last() =~= units@.take(u as int));
            assert(units@.take(u + 1).last() == op);
            assert(units@ =~= units@.take(u as int) + units@.skip(u as int));
            lemma_consumed_append(units@.take(u as int), units@.skip(u as int));
            lemma_consumed_bounds(units@.skip(u as int));
            lemma_consumed_bounds(units@.take(u as int));
            if u < n {
                assert(units@.skip(u as int) =~= seq![units@[u as int]] + units@.skip(u + 1));
                lemma_consumed_append(seq![units@[u as int]], units@.skip(u + 1));
                lemma_consumed_single(units@[u as int]);
                lemma_consumed_bounds(units@.skip(u + 1));
            }
        }
        match op {
            AlignmentOp::GapFirst => {
                top.push(seq1[p1]);
                mid.push(32);
                bot.push(45);
                p1 = p1 + 1;
            },
            AlignmentOp::GapSecond => {
                top.push(45);
                mid.push(32);
                bot.push(seq2[p2]);
                p2 = p2 + 1;
            },
            AlignmentOp::Equivalent => {
                top.push(seq1[p1]);
                mid.push(126);
                bot.push(seq2[p2]);
                p1 = p1 + 1;
                p2 = p2 + 1;
            },
            AlignmentOp::Match => {
                top.push(seq1[p1]);
                mid.push(124);
                bot.push(seq2[p2]);
                p1 = p1 + 1;
                p2 = p2 + 1;
            },
            AlignmentOp::Mismatch => {
                top.push(seq1[p1]);
                mid.push(42);
                bot.push(seq2[p2]);
                p1 = p1 + 1;
                p2 = p2 + 1;
            },
        }
        proof {
            assert(top@ =~= top_line(units@.take(u + 1), seq1@, 0));
            assert(mid@ =~= mid_line(units@.take(u + 1)));
            assert(bot@ =~= bot_line(units@.take(u + 1), seq2@, 0));
        }
        u = u + 1;
    }
    proof {
        assert(units@.take(n as int) =~= units@);
    }
    let mut out = top;
    let mut k2: usize = 0;
    let ghost topv = out@;
    while k2 < mid.len()
        invariant
            k2 <= mid@.len(),
            out@ == topv + mid@.take(k2 as int),
        decreases mid@.len() - k2,
    {
        out.push(mid[k2]);
        proof {
            assert(topv + mid@.take(k2 + 1) =~= (topv + mid@.take(k2 as int)).push(
                mid@[k2 as int],
            ));
        }
        k2 = k2 + 1;
    }
    proof {
        assert(mid@.take(mid@.len() as int) =~= mid@);
    }
    let ghost topmid = out@;
    let mut k3: usize = 0;
    while k3 < bot.len()
        invariant
            k3 <= bot@.len(),
            out@ == topmid + bot@.take(k3 as int),
        decreases bot@.len() - k3,
    {
        out.push(bot[k3]);
        proof {
            assert(topmid + bot@.take(k3 + 1) =~= (topmid + bot@.take(k3 as int)).push(
                bot@[k3 as int],
            ));
        }
        k3 = k3 + 1;
    }
    proof {
        assert(bot@.take(bot@.len() as int) =~= bot@);
        assert(out@ =~= top_line(expand(steps@), seq1@, 0) + mid_line(expand(steps@)) + bot_line(
            expand(steps@),
            seq2@,
            0,
        ));
    }
    out
}

} // verus!
