use vstd::prelude::*;

use crate::pretty_print::{dec_digits, dec_string};
use crate::{
    group_count_ok, inst_view, insts_view, lemma_group_count_ok_index, spec_input_count,
    spec_output_count, count_ok, InstV, Instruction,
};
use vstd::string::StringExecFns;

verus! {

/// A non-fatal consistency finding over a sequence of rounds.
#[derive(Debug, PartialEq, Eq)]
pub enum Lint {
    MismatchedStitchCount {
        /// How many stitches the earlier round produces.
        a_out: u32,
        /// The earlier round's 1-based position.
        a_idx: usize,
        /// How many stitches the later round consumes.
        b_in: u32,
        /// The later round's 1-based position.
        b_idx: usize,
    },
    NonzeroFirstRoundInput {
        /// How many stitches the first round consumes, when it should
        /// consume none.
        actual_consumed: u32,
    },
}

/// The mathematical image of a finding.
#[verifier::ext_equal]
pub enum LintV {
    MismatchedStitchCount { a_out: int, a_idx: int, b_in: int, b_idx: int },
    NonzeroFirstRoundInput { actual_consumed: int },
}

impl View for Lint {
    type V = LintV;

    open spec fn view(&self) -> LintV {
        match self {
            Lint::MismatchedStitchCount { a_out, a_idx, b_in, b_idx } => {
                LintV::MismatchedStitchCount {
                    a_out: *a_out as int,
                    a_idx: *a_idx as int,
                    b_in: *b_in as int,
                    b_idx: *b_idx as int,
                }
            }
            Lint::NonzeroFirstRoundInput { actual_consumed } => {
                LintV::NonzeroFirstRoundInput { actual_consumed: *actual_consumed as int }
            }
        }
    }
}

/// The images of a sequence of findings, member by member.
pub open spec fn lints_view(s: Seq<Lint>) -> Seq<LintV> {
    Seq::new(s.len(), |k: int| s[k]@)
}

/// A round with no stitch effect at all, such as a bare comment: it neither
/// consumes nor produces.
pub open spec fn decorative(i: InstV) -> bool {
    spec_input_count(i) == 0 && spec_output_count(i) == 0
}

/// The first position at or after `j` holding a round with a stitch effect,
/// or the length when there is none.
pub open spec fn next_active(rs: Seq<InstV>, j: int) -> int
    decreases rs.len() - j,
{
    if j < 0 || j >= rs.len() {
        rs.len() as int
    } else if !decorative(rs[j]) {
        j
    } else {
        next_active(rs, j + 1)
    }
}

proof fn lemma_next_active_ge(rs: Seq<InstV>, j: int)
    requires
        j <= rs.len(),
    ensures
        next_active(rs, j) >= j,
        next_active(rs, j) <= rs.len(),
    decreases rs.len() - j,
{
    if 0 <= j < rs.len() && decorative(rs[j]) {
        lemma_next_active_ge(rs, j + 1);
    }
}

/// The mismatch findings from position `i` on: each round with a stitch
/// effect is compared to the next such round, skipping decorative rounds in
/// between; a differing pair is reported by both rounds' 1-based positions
/// and counts, and scanning stops when no successor with a stitch effect is
/// left.
pub open spec fn spec_mismatches(rs: Seq<InstV>, i: int) -> Seq<LintV>
    decreases rs.len() - i,
    via spec_mismatches_decreases
{
    if i < 0 || i >= rs.len() {
        Seq::empty()
    } else if decorative(rs[i]) {
        spec_mismatches(rs, i + 1)
    } else {
        let j = next_active(rs, i + 1);
        if j >= rs.len() {
            Seq::empty()
        } else {
            let rest = spec_mismatches(rs, j);
            if spec_output_count(rs[i]) != spec_input_count(rs[j]) {
                seq![
                    LintV::MismatchedStitchCount {
                        a_out: spec_output_count(rs[i]),
                        a_idx: i + 1,
                        b_in: spec_input_count(rs[j]),
                        b_idx: j + 1,
                    },
                ] + rest
            } else {
                rest
            }
        }
    }
}

#[via_fn]
proof fn spec_mismatches_decreases(rs: Seq<InstV>, i: int) {
    if 0 <= i < rs.len() && !decorative(rs[i]) {
        lemma_next_active_ge(rs, i + 1);
    }
}

/// The invalid-first-round finding: a pattern's first round must not consume
/// preexisting stitches.
pub open spec fn spec_first_round_lint(rs: Seq<InstV>) -> Seq<LintV> {
    if rs.len() > 0 && spec_input_count(rs[0]) != 0 {
        seq![LintV::NonzeroFirstRoundInput { actual_consumed: spec_input_count(rs[0]) }]
    } else {
        Seq::empty()
    }
}

/// All findings over a sequence of rounds: the mismatch findings in order,
/// then the first-round finding if any.
pub open spec fn spec_lints(rs: Seq<InstV>) -> Seq<LintV> {
    spec_mismatches(rs, 0) + spec_first_round_lint(rs)
}

fn decorative_at(rounds: &Vec<Instruction>, k: usize) -> (b: bool)
    requires
        k < rounds@.len(),
        group_count_ok(insts_view(rounds@), 0),
    ensures
        b == decorative(inst_view(rounds@[k as int])),
{
    proof {
        crate::lemma_insts_view_index(rounds@);
        lemma_group_count_ok_index(insts_view(rounds@), 0, k as int);
    }
    let i_in = rounds[k].input_count();
    let i_out = rounds[k].output_count();
    i_in == 0 && i_out == 0
}

/// Reports every adjacent pair of stitch-effect rounds whose produced and
/// consumed counts differ, skipping decorative rounds in between.
pub fn lint_mismatched_stitch_count(rounds: &Vec<Instruction>) -> (r: Vec<Lint>)
    requires
        group_count_ok(insts_view(rounds@), 0),
    ensures
        lints_view(r@) == spec_mismatches(insts_view(rounds@), 0),
{
    let ghost xs = insts_view(rounds@);
    proof {
        crate::lemma_insts_view_index(rounds@);
    }
    let mut ret: Vec<Lint> = Vec::new();
    let mut i: usize = 0;
    proof {
        assert(lints_view(ret@) + spec_mismatches(xs, 0) =~= spec_mismatches(xs, 0));
    }
    while i < rounds.len()
        invariant
            0 <= i <= rounds.len(),
            spec_mismatches(xs, 0) == lints_view(ret@) + spec_mismatches(xs, i as int),
        decreases rounds.len() - i,
    {
        proof {
            lemma_group_count_ok_index(xs, 0, i as int);
        }
        if decorative_at(rounds, i) {
            proof {
                assert(lints_view(ret@) + spec_mismatches(xs, i + 1 as int) =~= lints_view(ret@)
                    + spec_mismatches(xs, i as int));
            }
            i = i + 1;
        } else {
            let a_out = rounds[i].output_count();
            let mut j: usize = i + 1;
            while j < rounds.len() && decorative_at(rounds, j)
                invariant
                    i + 1 <= j <= rounds.len(),
                    next_active(xs, i + 1 as int) == next_active(xs, j as int),
                decreases rounds.len() - j,
            {
                proof {
                    lemma_group_count_ok_index(xs, 0, j as int);
                }
                j = j + 1;
            }
            if j == rounds.len() {
                proof {
                    assert(spec_mismatches(xs, i as int) =~= Seq::<LintV>::empty());
                    assert(lints_view(ret@) =~= spec_mismatches(xs, 0));
                }
                return ret;
            }
            proof {
                lemma_group_count_ok_index(xs, 0, j as int);
            }
            let b_in = rounds[j].input_count();
            if a_out != b_in {
                let ghost ret0 = ret@;
                ret.push(
                    Lint::MismatchedStitchCount { a_out, a_idx: i + 1, b_in, b_idx: j + 1 },
                );
                proof {
                    assert(lints_view(ret@) =~= lints_view(ret0) + seq![
                        LintV::MismatchedStitchCount {
                            a_out: a_out as int,
                            a_idx: i + 1 as int,
                            b_in: b_in as int,
                            b_idx: j + 1 as int,
                        },
                    ]);
                    assert(lints_view(ret0) + spec_mismatches(xs, i as int) =~= lints_view(ret@)
                        + spec_mismatches(xs, j as int));
                }
            } else {
                proof {
                    assert(lints_view(ret@) + spec_mismatches(xs, i as int) =~= lints_view(ret@)
                        + spec_mismatches(xs, j as int));
                }
            }
            i = j;
        }
    }
    proof {
        assert(lints_view(ret@) =~= spec_mismatches(xs, 0));
    }
    ret
}

/// Reports a first round that consumes stitches: a pattern must open with a
/// round consuming none, starting from a magic ring or from nothing.
pub fn lint_nonzero_first_round_input(rounds: &Vec<Instruction>) -> (r: Option<Lint>)
    requires
        group_count_ok(insts_view(rounds@), 0),
    ensures
        ({
            let fs = spec_first_round_lint(insts_view(rounds@));
            match r {
                Some(l) => fs.len() == 1 && l@ == fs[0],
                None => fs.len() == 0,
            }
        }),
{
    let ghost xs = insts_view(rounds@);
    proof {
        crate::lemma_insts_view_index(rounds@);
    }
    if rounds.len() == 0 {
        return None;
    }
    proof {
        lemma_group_count_ok_index(xs, 0, 0);
    }
    let cnt = rounds[0].input_count();
    if cnt != 0 {
        Some(Lint::NonzeroFirstRoundInput { actual_consumed: cnt })
    } else {
        None
    }
}

/// Walks the rounds once and reports every consistency finding, in order:
/// the mismatched-count findings, then the first-round finding if any.
pub fn lint_rounds(rounds: &Vec<Instruction>) -> (r: Vec<Lint>)
    requires
        group_count_ok(insts_view(rounds@), 0),
    ensures
        lints_view(r@) == spec_lints(insts_view(rounds@)),
{
    let ghost xs = insts_view(rounds@);
    let mut lints = lint_mismatched_stitch_count(rounds);
    let ghost ls0 = lints@;
    match lint_nonzero_first_round_input(rounds) {
        Some(l) => {
            lints.push(l);
            proof {
                assert(lints_view(lints@) =~= lints_view(ls0) + spec_first_round_lint(xs));
            }
        }
        None => {
            proof {
                assert(lints_view(lints@) =~= lints_view(ls0) + spec_first_round_lint(xs));
            }
        }
    }
    lints
}

/// The singular or plural noun for a stitch count.
pub open spec fn spec_pluralstitch(n: int) -> Seq<char> {
    if n == 1 {
        "stitch"@
    } else {
        "stitches"@
    }
}

/// Picks the singular or plural noun for a stitch count.
pub fn pluralstitch(n: u32) -> (s: &'static str)
    ensures
        s@ == spec_pluralstitch(n as int),
{
    if n == 1 {
        "stitch"
    } else {
        "stitches"
    }
}

/// The message text of a finding.
pub open spec fn spec_lint_message(l: LintV) -> Seq<char> {
    match l {
        LintV::MismatchedStitchCount { a_out, a_idx, b_in, b_idx } => "round "@ + dec_digits(a_idx)
            + " produces "@ + dec_digits(a_out) + " "@ + spec_pluralstitch(a_out) + " but round "@
            + dec_digits(b_idx) + " consumes "@ + dec_digits(b_in) + " "@ + spec_pluralstitch(b_in),
        LintV::NonzeroFirstRoundInput { actual_consumed } => "round 1 consumes "@ + dec_digits(
            actual_consumed,
        ) + " "@ + spec_pluralstitch(actual_consumed)
            + " but the first round shouldn't consume any stitches"@,
    }
}

impl Lint {
    /// The finding formatted for display.
    pub fn message(&self) -> (s: String)
        ensures
            s@ == spec_lint_message(self@),
    {
        match self {
            Lint::MismatchedStitchCount { a_out, a_idx, b_in, b_idx } => {
                let mut s = String::from_str("round ");
                let d1 = dec_string(*a_idx as u64);
                s.append(d1.as_str());
                s.append(" produces ");
                let d2 = dec_string(*a_out as u64);
                s.append(d2.as_str());
                s.append(" ");
                s.append(pluralstitch(*a_out));
                s.append(" but round ");
                let d3 = dec_string(*b_idx as u64);
                s.append(d3.as_str());
                s.append(" consumes ");
                let d4 = dec_string(*b_in as u64);
                s.append(d4.as_str());
                s.append(" ");
                s.append(pluralstitch(*b_in));
                s
            }
            Lint::NonzeroFirstRoundInput { actual_consumed } => {
                let mut s = String::from_str("round 1 consumes ");
                let d1 = dec_string(*actual_consumed as u64);
                s.append(d1.as_str());
                s.append(" ");
                s.append(pluralstitch(*actual_consumed));
                s.append(" but the first round shouldn't consume any stitches");
                s
            }
        }
    }
}

/// A lone decorative round between two stitch-effect rounds whose counts
/// agree raises no mismatch finding.
pub proof fn lemma_decorative_round_skipped(a: InstV, c: InstV, b: InstV)
    requires
        !decorative(a),
        decorative(c),
        !decorative(b),
        spec_output_count(a) == spec_input_count(b),
    ensures
        spec_mismatches(seq![a, c, b], 0).len() == 0,
{
    let rs = seq![a, c, b];
    reveal_with_fuel(next_active, 4);
    reveal_with_fuel(spec_mismatches, 3);
    assert(next_active(rs, 1) == 2);
    assert(next_active(rs, 3) == 3);
    assert(spec_mismatches(rs, 2) =~= Seq::<LintV>::empty());
    assert(spec_mismatches(rs, 0) =~= Seq::<LintV>::empty());
}

} // verus!
