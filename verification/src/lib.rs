#![verifier::loop_isolation(false)]

use vstd::prelude::*;

pub mod lex;
pub mod lint;
pub mod parse;
pub mod pretty_print;
pub mod roundtrip;

pub use lint::{lint_rounds, Lint};
pub use pretty_print::pretty_format;

verus! {

/// One node of the instruction tree that a parsed pattern is made of.
///
/// A round of a pattern is one `Instruction`, normally a `Group` holding the
/// comma-separated instructions of that line.
#[derive(Debug, PartialEq, Eq)]
pub enum Instruction {
    Ch,
    Sc,
    Fpsc,
    Bpsc,
    Blsc,
    Inc,
    Flinc,
    Blinc,
    Dec,
    /// Skip the given number of stitches of the previous round without working into them.
    Skip(u32),
    /// Do the given instruction into a magic ring, which has no prior stitches to consume.
    IntoMagicRing(Box<Instruction>),
    /// An ordered sequence of sibling instructions within one round.
    Group(Vec<Instruction>),
    /// The given instruction performed the given number of times.
    Repeat(Box<Instruction>, u32),
    /// Documentation carried along in the pattern; no stitch effect.
    Comment(String),
}

/// The mathematical image of an instruction tree: multiplicities as
/// unbounded naturals, comment text as a character sequence.
#[verifier::ext_equal]
pub enum InstV {
    Ch,
    Sc,
    Fpsc,
    Bpsc,
    Blsc,
    Inc,
    Flinc,
    Blinc,
    Dec,
    Skip(nat),
    IntoMagicRing(Box<InstV>),
    Group(Seq<InstV>),
    Repeat(Box<InstV>, nat),
    Comment(Seq<char>),
}

/// The mathematical image of one instruction tree.
pub open spec fn inst_view(i: Instruction) -> InstV
    decreases i, 0int,
    via inst_view_decreases
{
    match i {
        Instruction::Ch => InstV::Ch,
        Instruction::Sc => InstV::Sc,
        Instruction::Fpsc => InstV::Fpsc,
        Instruction::Bpsc => InstV::Bpsc,
        Instruction::Blsc => InstV::Blsc,
        Instruction::Inc => InstV::Inc,
        Instruction::Flinc => InstV::Flinc,
        Instruction::Blinc => InstV::Blinc,
        Instruction::Dec => InstV::Dec,
        Instruction::Skip(n) => InstV::Skip(n as nat),
        Instruction::IntoMagicRing(b) => InstV::IntoMagicRing(Box::new(inst_view(*b))),
        Instruction::Group(v) => InstV::Group(insts_view(v@)),
        Instruction::Repeat(b, n) => InstV::Repeat(Box::new(inst_view(*b)), n as nat),
        Instruction::Comment(s) => InstV::Comment(s@),
    }
}

/// The mathematical image of a sequence of instruction trees, member by
/// member.
pub open spec fn insts_view(s: Seq<Instruction>) -> Seq<InstV>
    decreases s, 1int,
{
    if s.len() == 0 {
        Seq::empty()
    } else {
        insts_view(s.drop_last()).push(inst_view(s.last()))
    }
}

#[via_fn]
proof fn inst_view_decreases(i: Instruction) {
    match i {
        Instruction::Group(v) => {
            assert(decreases_to!(i => i->Group_0));
            assert(decreases_to!(i->Group_0 => i->Group_0@));
        }
        _ => {}
    }
}

/// Members of the image correspond to images of the members.
pub proof fn lemma_insts_view_index(s: Seq<Instruction>)
    ensures
        insts_view(s).len() == s.len(),
        forall|k: int| 0 <= k < s.len() ==> insts_view(s)[k] == inst_view(#[trigger] s[k]),
    decreases s.len(),
{
    if s.len() > 0 {
        lemma_insts_view_index(s.drop_last());
        assert forall|k: int| 0 <= k < s.len() implies insts_view(s)[k] == inst_view(s[k]) by {
            if k < s.len() - 1 {
                assert(s.drop_last()[k] == s[k]);
                assert(insts_view(s)[k] == insts_view(s.drop_last())[k]);
            } else {
                assert(insts_view(s)[k] == inst_view(s.last()));
            }
        }
    }
}

/// The image of a sequence extended by one member.
pub proof fn lemma_insts_view_push(s: Seq<Instruction>, x: Instruction)
    ensures
        insts_view(s.push(x)) == insts_view(s).push(inst_view(x)),
{
    assert(s.push(x).drop_last() =~= s);
    assert(s.push(x).last() == x);
    assert(insts_view(s.push(x)) == insts_view(s).push(inst_view(x)));
}

impl View for Instruction {
    type V = InstV;

    open spec fn view(&self) -> InstV {
        inst_view(*self)
    }
}

/// How many stitches of the previous round an instruction consumes.
pub open spec fn spec_input_count(i: InstV) -> int
    decreases i, 0int,
{
    match i {
        InstV::Ch => 0,
        InstV::Sc | InstV::Fpsc | InstV::Bpsc | InstV::Blsc => 1,
        InstV::Inc | InstV::Flinc | InstV::Blinc => 1,
        InstV::Dec => 2,
        InstV::Skip(n) => n as int,
        InstV::IntoMagicRing(_) => 0,
        InstV::Group(xs) => sum_input(xs, 0),
        InstV::Repeat(b, times) => spec_input_count(*b) * times,
        InstV::Comment(_) => 0,
    }
}

/// The summed input counts of the members of `xs` from position `k` on.
pub open spec fn sum_input(xs: Seq<InstV>, k: int) -> int
    decreases xs, xs.len() - k,
{
    if k < 0 || k >= xs.len() {
        0
    } else {
        spec_input_count(xs[k]) + sum_input(xs, k + 1)
    }
}

/// How many stitches an instruction produces for the next round.
pub open spec fn spec_output_count(i: InstV) -> int
    decreases i, 0int,
{
    match i {
        InstV::Ch => 1,
        InstV::Sc | InstV::Fpsc | InstV::Bpsc | InstV::Blsc => 1,
        InstV::Inc | InstV::Flinc | InstV::Blinc => 2,
        InstV::Dec => 1,
        InstV::Skip(_) => 0,
        InstV::IntoMagicRing(b) => spec_output_count(*b),
        InstV::Group(xs) => sum_output(xs, 0),
        InstV::Repeat(b, times) => spec_output_count(*b) * times,
        InstV::Comment(_) => 0,
    }
}

/// The summed output counts of the members of `xs` from position `k` on.
pub open spec fn sum_output(xs: Seq<InstV>, k: int) -> int
    decreases xs, xs.len() - k,
{
    if k < 0 || k >= xs.len() {
        0
    } else {
        spec_output_count(xs[k]) + sum_output(xs, k + 1)
    }
}

/// Counts are non-negative throughout a tree.
pub proof fn lemma_counts_nonneg(i: InstV)
    ensures
        spec_input_count(i) >= 0,
        spec_output_count(i) >= 0,
    decreases i, 0int,
{
    match i {
        InstV::IntoMagicRing(b) => {
            lemma_counts_nonneg(*b);
        }
        InstV::Group(xs) => {
            lemma_sums_nonneg(xs, 0);
        }
        InstV::Repeat(b, times) => {
            lemma_counts_nonneg(*b);
            vstd::arithmetic::mul::lemma_mul_nonnegative(spec_input_count(*b), times as int);
            vstd::arithmetic::mul::lemma_mul_nonnegative(spec_output_count(*b), times as int);
        }
        _ => {}
    }
}

/// Partial sums of counts are non-negative.
pub proof fn lemma_sums_nonneg(xs: Seq<InstV>, k: int)
    ensures
        sum_input(xs, k) >= 0,
        sum_output(xs, k) >= 0,
    decreases xs, xs.len() - k,
{
    if 0 <= k < xs.len() {
        lemma_counts_nonneg(xs[k]);
        lemma_sums_nonneg(xs, k + 1);
    }
}

/// Every count that an evaluation of the tree computes fits in a `u32`.
///
/// This is the machine-width condition under which the executable count
/// functions are defined; a tree read from a pattern can exceed it only by
/// nesting large repeat multipliers.
pub open spec fn count_ok(i: InstV) -> bool
    decreases i, 0int,
{
    &&& spec_input_count(i) <= u32::MAX
    &&& spec_output_count(i) <= u32::MAX
    &&& match i {
        InstV::IntoMagicRing(b) => count_ok(*b),
        InstV::Repeat(b, _) => count_ok(*b),
        InstV::Group(xs) => group_count_ok(xs, 0),
        _ => true,
    }
}

/// All members of `xs` from position `k` on satisfy `count_ok`.
pub open spec fn group_count_ok(xs: Seq<InstV>, k: int) -> bool
    decreases xs, xs.len() - k,
{
    if k < 0 || k >= xs.len() {
        true
    } else {
        count_ok(xs[k]) && group_count_ok(xs, k + 1)
    }
}

pub proof fn lemma_group_count_ok_index(xs: Seq<InstV>, k: int, j: int)
    requires
        group_count_ok(xs, k),
        0 <= k <= j < xs.len(),
    ensures
        count_ok(xs[j]),
    decreases j - k,
{
    if k < j {
        lemma_group_count_ok_index(xs, k + 1, j);
    }
}

impl Instruction {
    /// How many stitches this instruction consumes from the previous round.
    pub fn input_count(&self) -> (r: u32)
        requires
            count_ok(self@),
        ensures
            r == spec_input_count(self@),
        decreases self, 0int,
    {
        match self {
            Instruction::Ch => 0,
            Instruction::Sc | Instruction::Fpsc | Instruction::Bpsc | Instruction::Blsc => 1,
            Instruction::Inc | Instruction::Flinc | Instruction::Blinc => 1,
            Instruction::Dec => 2,
            Instruction::Skip(n) => *n,
            Instruction::IntoMagicRing(_) => 0,
            Instruction::Group(insts) => {
                let ghost xs = insts_view(insts@);
                proof {
                    assert(self@ == InstV::Group(xs));
                    lemma_insts_view_index(insts@);
                    lemma_sums_nonneg(xs, 0);
                }
                let mut acc: u32 = 0;
                let mut j: usize = 0;
                while j < insts.len()
                    invariant
                        0 <= j <= insts.len(),
                        xs == insts_view(insts@),
                        xs.len() == insts@.len(),
                        forall|k: int| 0 <= k < insts@.len() ==> xs[k] == inst_view(#[trigger] insts@[k]),
                        group_count_ok(xs, 0),
                        sum_input(xs, 0) <= u32::MAX,
                        acc + sum_input(xs, j as int) == sum_input(xs, 0),
                    decreases insts.len() - j,
                {
                    proof {
                        lemma_group_count_ok_index(xs, 0, j as int);
                        lemma_sums_nonneg(xs, j as int + 1);
                        let slf = *self;
                        assert(decreases_to!(slf => slf->Group_0));
                        assert(decreases_to!(slf->Group_0 => slf->Group_0@));
                        assert(decreases_to!(slf->Group_0@ => slf->Group_0@[j as int]));
                        assert(decreases_to!(*self => insts@[j as int]));
                    }
                    let c = insts[j].input_count();
                    acc = acc + c;
                    j = j + 1;
                }
                acc
            }
            Instruction::Repeat(inst, times) => {
                let inner = inst.input_count();
                inner * *times
            }
            Instruction::Comment(_) => 0,
        }
    }

    /// How many stitches this instruction produces for the next round.
    pub fn output_count(&self) -> (r: u32)
        requires
            count_ok(self@),
        ensures
            r == spec_output_count(self@),
        decreases self, 0int,
    {
        match self {
            Instruction::Ch => 1,
            Instruction::Sc | Instruction::Fpsc | Instruction::Bpsc | Instruction::Blsc => 1,
            Instruction::Inc | Instruction::Flinc | Instruction::Blinc => 2,
            Instruction::Dec => 1,
            Instruction::Skip(_) => 0,
            Instruction::IntoMagicRing(inst) => inst.output_count(),
            Instruction::Group(insts) => {
                let ghost xs = insts_view(insts@);
                proof {
                    assert(self@ == InstV::Group(xs));
                    lemma_insts_view_index(insts@);
                    lemma_sums_nonneg(xs, 0);
                }
                let mut acc: u32 = 0;
                let mut j: usize = 0;
                while j < insts.len()
                    invariant
                        0 <= j <= insts.len(),
                        xs == insts_view(insts@),
                        xs.len() == insts@.len(),
                        forall|k: int| 0 <= k < insts@.len() ==> xs[k] == inst_view(#[trigger] insts@[k]),
                        group_count_ok(xs, 0),
                        sum_output(xs, 0) <= u32::MAX,
                        acc + sum_output(xs, j as int) == sum_output(xs, 0),
                    decreases insts.len() - j,
                {
                    proof {
                        lemma_group_count_ok_index(xs, 0, j as int);
                        lemma_sums_nonneg(xs, j as int + 1);
                        let slf = *self;
                        assert(decreases_to!(slf => slf->Group_0));
                        assert(decreases_to!(slf->Group_0 => slf->Group_0@));
                        assert(decreases_to!(slf->Group_0@ => slf->Group_0@[j as int]));
                        assert(decreases_to!(*self => insts@[j as int]));
                    }
                    let c = insts[j].output_count();
                    acc = acc + c;
                    j = j + 1;
                }
                acc
            }
            Instruction::Repeat(inst, times) => {
                let inner = inst.output_count();
                inner * *times
            }
            Instruction::Comment(_) => 0,
        }
    }
}

/// A repeated instruction consumes and produces its inner counts multiplied
/// by the repeat multiplier.
pub proof fn lemma_repeat_counts(i: InstV, n: nat)
    ensures
        spec_input_count(InstV::Repeat(Box::new(i), n)) == n * spec_input_count(i),
        spec_output_count(InstV::Repeat(Box::new(i), n)) == n * spec_output_count(i),
{
    vstd::arithmetic::mul::lemma_mul_is_commutative(spec_input_count(i), n as int);
    vstd::arithmetic::mul::lemma_mul_is_commutative(spec_output_count(i), n as int);
}

/// A group consumes and produces the sums of what its members consume and
/// produce.
pub proof fn lemma_group_counts(xs: Seq<InstV>)
    ensures
        spec_input_count(InstV::Group(xs)) == sum_input(xs, 0),
        spec_output_count(InstV::Group(xs)) == sum_output(xs, 0),
{
}

/// Working an instruction into a magic ring consumes nothing, whatever the
/// inner instruction would have consumed, and produces what the inner
/// instruction produces.
pub proof fn lemma_magic_ring_counts(i: InstV)
    ensures
        spec_input_count(InstV::IntoMagicRing(Box::new(i))) == 0,
        spec_output_count(InstV::IntoMagicRing(Box::new(i))) == spec_output_count(i),
{
}

proof fn lemma_group_count_ok_all(xs: Seq<InstV>, k: int)
    requires
        forall|j: int| k <= j < xs.len() ==> count_ok(#[trigger] xs[j]),
    ensures
        group_count_ok(xs, k),
    decreases xs.len() - k,
{
    if 0 <= k < xs.len() {
        lemma_group_count_ok_all(xs, k + 1);
    }
}

impl Instruction {
    /// The consumed and produced counts of this tree, or nothing when some
    /// count within it does not fit in a `u32`.
    pub fn try_counts(&self) -> (r: Option<(u32, u32)>)
        ensures
            r is Some <==> count_ok(self@),
            r matches Some((i, o)) ==> i == spec_input_count(self@) && o == spec_output_count(
                self@,
            ),
        decreases self, 0int,
    {
        match self {
            Instruction::Ch => Some((0, 1)),
            Instruction::Sc | Instruction::Fpsc | Instruction::Bpsc | Instruction::Blsc => Some(
                (1, 1),
            ),
            Instruction::Inc | Instruction::Flinc | Instruction::Blinc => Some((1, 2)),
            Instruction::Dec => Some((2, 1)),
            Instruction::Skip(n) => Some((*n, 0)),
            Instruction::Comment(_) => Some((0, 0)),
            Instruction::IntoMagicRing(b) => {
                match b.try_counts() {
                    Some((_, o)) => Some((0, o)),
                    None => None,
                }
            }
            Instruction::Repeat(b, times) => {
                match b.try_counts() {
                    Some((bi, bo)) => {
                        proof {
                            vstd::arithmetic::mul::lemma_mul_upper_bound(
                                bi as int,
                                u32::MAX as int,
                                *times as int,
                                u32::MAX as int,
                            );
                            vstd::arithmetic::mul::lemma_mul_upper_bound(
                                bo as int,
                                u32::MAX as int,
                                *times as int,
                                u32::MAX as int,
                            );
                        }
                        let p_in = bi as u64 * *times as u64;
                        let p_out = bo as u64 * *times as u64;
                        if p_in > u32::MAX as u64 || p_out > u32::MAX as u64 {
                            None
                        } else {
                            Some((p_in as u32, p_out as u32))
                        }
                    }
                    None => None,
                }
            }
            Instruction::Group(insts) => {
                let ghost xs = insts_view(insts@);
                proof {
                    assert(self@ == InstV::Group(xs));
                    lemma_insts_view_index(insts@);
                }
                let mut acc_in: u32 = 0;
                let mut acc_out: u32 = 0;
                let mut j: usize = 0;
                while j < insts.len()
                    invariant
                        0 <= j <= insts.len(),
                        xs == insts_view(insts@),
                        xs.len() == insts@.len(),
                        forall|k: int| 0 <= k < insts@.len() ==> xs[k] == inst_view(
                            #[trigger] insts@[k],
                        ),
                        forall|k: int| 0 <= k < j ==> count_ok(#[trigger] xs[k]),
                        acc_in + sum_input(xs, j as int) == sum_input(xs, 0),
                        acc_out + sum_output(xs, j as int) == sum_output(xs, 0),
                    decreases insts.len() - j,
                {
                    proof {
                        let slf = *self;
                        assert(decreases_to!(slf => slf->Group_0));
                        assert(decreases_to!(slf->Group_0 => slf->Group_0@));
                        assert(decreases_to!(slf->Group_0@ => slf->Group_0@[j as int]));
                        assert(decreases_to!(*self => insts@[j as int]));
                        lemma_counts_nonneg(xs[j as int]);
                        lemma_sums_nonneg(xs, j as int + 1);
                    }
                    let c = match insts[j].try_counts() {
                        Some(c) => c,
                        None => {
                            proof {
                                if group_count_ok(xs, 0) {
                                    lemma_group_count_ok_index(xs, 0, j as int);
                                }
                            }
                            return None;
                        }
                    };
                    if c.0 > u32::MAX - acc_in || c.1 > u32::MAX - acc_out {
                        return None;
                    }
                    acc_in = acc_in + c.0;
                    acc_out = acc_out + c.1;
                    j = j + 1;
                }
                proof {
                    lemma_group_count_ok_all(xs, 0);
                }
                Some((acc_in, acc_out))
            }
        }
    }

    /// Whether every count within this tree fits in a `u32`, so that
    /// `input_count` and `output_count` are defined on it.
    pub fn counts_ok(&self) -> (b: bool)
        ensures
            b == count_ok(self@),
    {
        self.try_counts().is_some()
    }
}

/// Whether every count within every round fits in a `u32`: the condition
/// under which the lint pass and the report formatter are defined. A caller
/// holding rounds from an untrusted source establishes it with this check.
pub fn rounds_counts_ok(rounds: &Vec<Instruction>) -> (b: bool)
    ensures
        b == group_count_ok(insts_view(rounds@), 0),
{
    let ghost xs = insts_view(rounds@);
    proof {
        lemma_insts_view_index(rounds@);
    }
    let mut j: usize = 0;
    while j < rounds.len()
        invariant
            0 <= j <= rounds.len(),
            forall|k: int| 0 <= k < j ==> count_ok(#[trigger] xs[k]),
        decreases rounds.len() - j,
    {
        if !rounds[j].counts_ok() {
            proof {
                assert(!count_ok(xs[j as int]));
                if group_count_ok(xs, 0) {
                    lemma_group_count_ok_index(xs, 0, j as int);
                }
            }
            return false;
        }
        j = j + 1;
    }
    proof {
        lemma_group_count_ok_all(xs, 0);
    }
    true
}

/// What parsing a whole source text yields: the token stream is read from
/// the text with its trailing whitespace removed, the rounds are parsed, and
/// input that the grammar did not consume turns a successful parse into an
/// error at the remaining position.
pub open spec fn spec_parse_rounds(s: Seq<char>) -> Result<Seq<InstV>, (int, int)> {
    let sc0 = crate::lex::ScanV { rest: crate::lex::trim_back(s), line: 1, col: 1 };
    let m0 = crate::lex::StreamV { scan: sc0, peeked: None };
    let ts = crate::parse::stream_tokens(m0);
    match crate::parse::spec_parse(ts) {
        Err(e) => Err(e),
        Ok((rs, f)) => if f.toks.len() == 0 && f.end.rest.len() == 0 {
            Ok(rs)
        } else {
            Err((f.end.line, f.end.col))
        },
    }
}

/// Parses a pattern text into its rounds: the sole parsing entry point.
///
/// Internally tokenizes, parses, and verifies that the whole text was
/// consumed. Every failure carries the 1-based `(line, column)` of the
/// offending character. The character count must leave room for position
/// arithmetic in the address space; a text held in memory always does.
pub fn parse_rounds(source: &str) -> (r: Result<Vec<Instruction>, (usize, usize)>)
    requires
        source@.len() < usize::MAX,
    ensures
        ({
            match spec_parse_rounds(source@) {
                Ok(rs) => r matches Ok(v) && insts_view(v@) == rs,
                Err((l, c)) => r matches Err(e) && e.0 as int == l && e.1 as int == c,
            }
        }),
{
    let mut ts = crate::lex::tokenize(source);
    let res = crate::parse::parse(&mut ts);
    match res {
        Ok(rounds) => {
            if ts.is_empty() {
                Ok(rounds)
            } else {
                Err(ts.current_loc())
            }
        }
        Err(e) => Err(e),
    }
}

} // verus!
