use vstd::prelude::*;

use crate::lex::push_char;
use crate::{
    group_count_ok, inst_view, insts_view, lemma_counts_nonneg, lemma_group_count_ok_index,
    lemma_sums_nonneg, spec_output_count, InstV, Instruction,
};
use vstd::string::StringExecFns;

verus! {

/// The character of one decimal digit.
pub open spec fn digit_char(d: int) -> char {
    if d == 0 {
        '0'
    } else if d == 1 {
        '1'
    } else if d == 2 {
        '2'
    } else if d == 3 {
        '3'
    } else if d == 4 {
        '4'
    } else if d == 5 {
        '5'
    } else if d == 6 {
        '6'
    } else if d == 7 {
        '7'
    } else if d == 8 {
        '8'
    } else {
        '9'
    }
}

/// The decimal text of a non-negative integer, most significant digit first.
pub open spec fn dec_digits(n: int) -> Seq<char>
    decreases n,
{
    if n < 0 {
        Seq::empty()
    } else if n < 10 {
        seq![digit_char(n)]
    } else {
        dec_digits(n / 10) + seq![digit_char(n % 10)]
    }
}

fn digit_char_of(d: u64) -> (c: char)
    requires
        d < 10,
    ensures
        c == digit_char(d as int),
{
    if d == 0 {
        '0'
    } else if d == 1 {
        '1'
    } else if d == 2 {
        '2'
    } else if d == 3 {
        '3'
    } else if d == 4 {
        '4'
    } else if d == 5 {
        '5'
    } else if d == 6 {
        '6'
    } else if d == 7 {
        '7'
    } else if d == 8 {
        '8'
    } else {
        '9'
    }
}

/// The decimal text of `n`.
pub fn dec_string(n: u64) -> (s: String)
    ensures
        s@ == dec_digits(n as int),
    decreases n,
{
    let c = digit_char_of(n % 10);
    if n < 10 {
        let mut s = String::new();
        push_char(&mut s, c);
        proof {
            assert(s@ =~= dec_digits(n as int));
        }
        s
    } else {
        let mut s = dec_string(n / 10);
        push_char(&mut s, c);
        proof {
            assert(s@ =~= dec_digits(n as int));
        }
        s
    }
}

/// The canonical text of one instruction: the same surface syntax the parser
/// accepts. A group is bracketed exactly when it carries a trailing suffix,
/// so that re-parsing rendered text rebuilds the tree that renders the same
/// way.
pub open spec fn render_inst(i: InstV) -> Seq<char>
    decreases i, 0int,
{
    match i {
        InstV::Ch => "ch"@,
        InstV::Sc => "sc"@,
        InstV::Fpsc => "fpsc"@,
        InstV::Bpsc => "bpsc"@,
        InstV::Blsc => "blsc"@,
        InstV::Inc => "inc"@,
        InstV::Flinc => "flinc"@,
        InstV::Blinc => "blinc"@,
        InstV::Dec => "dec"@,
        InstV::Skip(n) => "skip "@ + dec_digits(n as int),
        InstV::IntoMagicRing(b) => (if *b is Group {
            "["@ + render_inst(*b) + "] in mr"@
        } else {
            render_inst(*b) + " in mr"@
        }),
        InstV::Repeat(b, n) => (if *b is Group {
            "["@ + render_inst(*b) + "] "@ + dec_digits(n as int)
        } else {
            render_inst(*b) + " "@ + dec_digits(n as int)
        }),
        InstV::Group(xs) => render_members(xs, 0),
        InstV::Comment(s) => "% "@ + s + " %"@,
    }
}

/// The members of a group from position `k` on, comma-separated.
pub open spec fn render_members(xs: Seq<InstV>, k: int) -> Seq<char>
    decreases xs, xs.len() - k,
{
    if k < 0 || k >= xs.len() {
        Seq::empty()
    } else {
        (if k > 0 {
            ", "@
        } else {
            Seq::empty()
        }) + render_inst(xs[k]) + render_members(xs, k + 1)
    }
}

impl Instruction {
    /// The canonical text of this instruction.
    pub fn render(&self) -> (s: String)
        ensures
            s@ == render_inst(self@),
        decreases self, 0int,
    {
        match self {
            Instruction::Ch => String::from_str("ch"),
            Instruction::Sc => String::from_str("sc"),
            Instruction::Fpsc => String::from_str("fpsc"),
            Instruction::Bpsc => String::from_str("bpsc"),
            Instruction::Blsc => String::from_str("blsc"),
            Instruction::Inc => String::from_str("inc"),
            Instruction::Flinc => String::from_str("flinc"),
            Instruction::Blinc => String::from_str("blinc"),
            Instruction::Dec => String::from_str("dec"),
            Instruction::Skip(n) => {
                let mut s = String::from_str("skip ");
                let d = dec_string(*n as u64);
                s.append(d.as_str());
                s
            }
            Instruction::IntoMagicRing(b) => {
                if matches!(**b, Instruction::Group(_)) {
                    let mut s = String::from_str("[");
                    let inner = b.render();
                    s.append(inner.as_str());
                    s.append("] in mr");
                    s
                } else {
                    let mut s = b.render();
                    s.append(" in mr");
                    s
                }
            }
            Instruction::Repeat(b, n) => {
                let d = dec_string(*n as u64);
                if matches!(**b, Instruction::Group(_)) {
                    let mut s = String::from_str("[");
                    let inner = b.render();
                    s.append(inner.as_str());
                    s.append("] ");
                    s.append(d.as_str());
                    s
                } else {
                    let mut s = b.render();
                    s.append(" ");
                    s.append(d.as_str());
                    s
                }
            }
            Instruction::Group(insts) => {
                let ghost xs = insts_view(insts@);
                proof {
                    assert(self@ == InstV::Group(xs));
                    crate::lemma_insts_view_index(insts@);
                }
                let mut s = String::new();
                let mut j: usize = 0;
                proof {
                    assert(s@ + render_members(xs, 0) =~= render_members(xs, 0));
                }
                while j < insts.len()
                    invariant
                        0 <= j <= insts.len(),
                        xs == insts_view(insts@),
                        xs.len() == insts@.len(),
                        forall|k: int| 0 <= k < insts@.len() ==> xs[k] == inst_view(
                            #[trigger] insts@[k],
                        ),
                        render_members(xs, 0) == s@ + render_members(xs, j as int),
                    decreases insts.len() - j,
                {
                    proof {
                        let slf = *self;
                        assert(decreases_to!(slf => slf->Group_0));
                        assert(decreases_to!(slf->Group_0 => slf->Group_0@));
                        assert(decreases_to!(slf->Group_0@ => slf->Group_0@[j as int]));
                        assert(decreases_to!(*self => insts@[j as int]));
                    }
                    if j > 0 {
                        s.append(", ");
                    }
                    let piece = insts[j].render();
                    s.append(piece.as_str());
                    proof {
                        assert(render_members(xs, 0) =~= s@ + render_members(xs, j + 1 as int));
                    }
                    j = j + 1;
                }
                s
            }
            Instruction::Comment(text) => {
                let mut s = String::from_str("% ");
                s.append(text.as_str());
                s.append(" %");
                s
            }
        }
    }
}

/// The canonical serialization of a whole pattern: the rounds' canonical
/// texts from position `k` on, joined by newlines.
pub open spec fn render_rounds(rs: Seq<InstV>, k: int) -> Seq<char>
    decreases rs.len() - k,
{
    if k < 0 || k >= rs.len() {
        Seq::empty()
    } else {
        (if k > 0 {
            seq!['\n']
        } else {
            Seq::empty()
        }) + render_inst(rs[k]) + render_rounds(rs, k + 1)
    }
}

/// The published report: one line per round, `Round {1-based index}:
/// {canonical text} ({output count})`, joined by newlines without a trailing
/// one.
pub open spec fn spec_pretty(rs: Seq<InstV>, k: int) -> Seq<char>
    decreases rs.len() - k,
{
    if k < 0 || k >= rs.len() {
        Seq::empty()
    } else {
        (if k > 0 {
            "\n"@
        } else {
            Seq::empty()
        }) + "Round "@ + dec_digits(k + 1) + ": "@ + render_inst(rs[k]) + " ("@ + dec_digits(
            spec_output_count(rs[k]),
        ) + ")"@ + spec_pretty(rs, k + 1)
    }
}

/// Formats rounds into a report suitable for publishing.
pub fn pretty_format(rounds: &Vec<Instruction>) -> (s: String)
    requires
        group_count_ok(insts_view(rounds@), 0),
    ensures
        s@ == spec_pretty(insts_view(rounds@), 0),
{
    let ghost xs = insts_view(rounds@);
    proof {
        crate::lemma_insts_view_index(rounds@);
    }
    let mut s = String::new();
    let mut j: usize = 0;
    proof {
        assert(s@ + spec_pretty(xs, 0) =~= spec_pretty(xs, 0));
    }
    while j < rounds.len()
        invariant
            0 <= j <= rounds.len(),
            spec_pretty(xs, 0) == s@ + spec_pretty(xs, j as int),
        decreases rounds.len() - j,
    {
        proof {
            lemma_group_count_ok_index(xs, 0, j as int);
        }
        if j > 0 {
            s.append("\n");
        }
        s.append("Round ");
        let idx = dec_string(j as u64 + 1);
        s.append(idx.as_str());
        s.append(": ");
        let piece = rounds[j].render();
        s.append(piece.as_str());
        s.append(" (");
        let cnt = rounds[j].output_count();
        let cs = dec_string(cnt as u64);
        s.append(cs.as_str());
        s.append(")");
        proof {
            assert(spec_pretty(xs, 0) =~= s@ + spec_pretty(xs, j + 1 as int));
        }
        j = j + 1;
    }
    s
}

} // verus!
