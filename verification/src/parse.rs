use vstd::prelude::*;

use crate::lex::{
    scan_all, scan_token, skip_blanks, stream_loc, stream_next, stream_peek, ScanV, StreamV,
    TokenKind, TokenKindV, TokenStream, TokenV,
};
use crate::{insts_view, inst_view, lemma_insts_view_push, InstV, Instruction};

verus! {

/// The token-level image of a stream: the tokens still to come, and the scan
/// position where reading them stops, either the end of the text or the
/// first position where no rule matches.
#[verifier::ext_equal]
pub struct TokensV {
    pub toks: Seq<TokenV>,
    pub end: ScanV,
}

/// The token-level image of a stream state.
pub open spec fn stream_tokens(m: StreamV) -> TokensV {
    let r = scan_all(m.scan);
    TokensV {
        toks: (match m.peeked {
            Some(t) => seq![t] + r.0,
            None => r.0,
        }),
        end: r.1,
    }
}

/// The position that an error raised at the head of `ts` points at.
pub open spec fn tokens_loc(ts: TokensV) -> (int, int) {
    if ts.toks.len() > 0 {
        (ts.toks[0].line, ts.toks[0].col)
    } else {
        (ts.end.line, ts.end.col)
    }
}

/// `ts` with its first token consumed.
pub open spec fn tokens_pop(ts: TokensV) -> TokensV {
    TokensV { toks: ts.toks.skip(1), end: ts.end }
}

proof fn lemma_skip_blanks_idem(sc: ScanV)
    ensures
        skip_blanks(skip_blanks(sc)) == skip_blanks(sc),
    decreases sc.rest.len(),
{
    if sc.rest.len() > 0 && crate::lex::is_blank(sc.rest[0]) {
        lemma_skip_blanks_idem(crate::lex::advance1(sc));
    }
}

/// How `next` acts on the token-level image: it pops the first token, or,
/// when no token is left, leaves the image unchanged and the stream at the
/// stop position.
pub proof fn lemma_stream_next(m: StreamV)
    ensures
        ({
            let ts = stream_tokens(m);
            let r = stream_next(m).0;
            let m2 = stream_next(m).1;
            &&& (r is Some <==> ts.toks.len() > 0)
            &&& (r matches Some(t) ==> t == ts.toks[0] && stream_tokens(m2) == tokens_pop(ts))
            &&& (r is None ==> stream_tokens(m2) == ts && m2.peeked is None && m2.scan == ts.end)
        }),
{
    let ts = stream_tokens(m);
    match m.peeked {
        Some(t) => {
            assert(stream_tokens(stream_next(m).1) =~= tokens_pop(ts));
        }
        None => {
            match scan_token(m.scan) {
                Some((t, sc2)) => {
                    assert(stream_tokens(stream_next(m).1) =~= tokens_pop(ts));
                }
                None => {
                    lemma_skip_blanks_idem(m.scan);
                    assert(scan_token(skip_blanks(m.scan)) is None);
                    assert(stream_tokens(stream_next(m).1) =~= ts);
                }
            }
        }
    }
}

/// How `peek` acts on the token-level image: it leaves the image unchanged,
/// yields the first token if one is left, and buffers it.
pub proof fn lemma_stream_peek(m: StreamV)
    ensures
        ({
            let ts = stream_tokens(m);
            let r = stream_peek(m).0;
            let m2 = stream_peek(m).1;
            &&& (r is Some <==> ts.toks.len() > 0)
            &&& (r matches Some(t) ==> t == ts.toks[0])
            &&& stream_tokens(m2) == ts
            &&& m2.peeked == (if ts.toks.len() > 0 {
                Some(ts.toks[0])
            } else {
                None::<TokenV>
            })
            &&& (r is None ==> m2.peeked is None && m2.scan == ts.end)
            &&& stream_loc(m2) == tokens_loc(ts)
        }),
{
    let ts = stream_tokens(m);
    match m.peeked {
        Some(t) => {
        }
        None => {
            match scan_token(m.scan) {
                Some((t, sc2)) => {
                    assert(stream_tokens(stream_peek(m).1) =~= ts);
                }
                None => {
                    lemma_skip_blanks_idem(m.scan);
                    assert(scan_token(skip_blanks(m.scan)) is None);
                    assert(stream_tokens(stream_peek(m).1) =~= ts);
                }
            }
        }
    }
}

/// The optional suffix after an instruction: a repeat multiplier first, a
/// magic-ring marker second. Applying them in the other order is not part of
/// the grammar.
pub open spec fn spec_parse_suffix(i: InstV, ts: TokensV) -> (InstV, TokensV) {
    let step1 = if ts.toks.len() > 0 && ts.toks[0].kind is Number {
        (InstV::Repeat(Box::new(i), ts.toks[0].kind->Number_0), tokens_pop(ts))
    } else {
        (i, ts)
    };
    let i1 = step1.0;
    let ts1 = step1.1;
    if ts1.toks.len() > 0 && ts1.toks[0].kind is InMr {
        (InstV::IntoMagicRing(Box::new(i1)), tokens_pop(ts1))
    } else {
        (i1, ts1)
    }
}

/// One instruction of the grammar: a stitch keyword with an optional suffix,
/// `skip` with its mandatory count, a comment, or a bracketed group with an
/// optional suffix. The lexer's `tch` token has no production, so it is
/// rejected here as an unexpected token, as are structural tokens out of
/// place. Every error carries the position of the offending token, or the
/// stop position when the input ends too early.
pub open spec fn spec_parse_inst(ts: TokensV) -> Result<(InstV, TokensV), (int, int)>
    decreases ts.toks.len(), 0int,
{
    if ts.toks.len() == 0 {
        Err((ts.end.line, ts.end.col))
    } else {
        let t = ts.toks[0];
        let ts1 = tokens_pop(ts);
        match t.kind {
            TokenKindV::Ch => Ok(spec_parse_suffix(InstV::Ch, ts1)),
            TokenKindV::Sc => Ok(spec_parse_suffix(InstV::Sc, ts1)),
            TokenKindV::Fpsc => Ok(spec_parse_suffix(InstV::Fpsc, ts1)),
            TokenKindV::Bpsc => Ok(spec_parse_suffix(InstV::Bpsc, ts1)),
            TokenKindV::Blsc => Ok(spec_parse_suffix(InstV::Blsc, ts1)),
            TokenKindV::Inc => Ok(spec_parse_suffix(InstV::Inc, ts1)),
            TokenKindV::Flinc => Ok(spec_parse_suffix(InstV::Flinc, ts1)),
            TokenKindV::Blinc => Ok(spec_parse_suffix(InstV::Blinc, ts1)),
            TokenKindV::Dec => Ok(spec_parse_suffix(InstV::Dec, ts1)),
            TokenKindV::LBracket => match spec_parse_group(ts1) {
                Err(e) => Err(e),
                Ok((g, ts2)) => if ts2.toks.len() > 0 {
                    if ts2.toks[0].kind is RBracket {
                        Ok(spec_parse_suffix(InstV::Group(g), tokens_pop(ts2)))
                    } else {
                        Err((ts2.toks[0].line, ts2.toks[0].col))
                    }
                } else {
                    Err((ts2.end.line, ts2.end.col))
                },
            },
            TokenKindV::Comment(s) => Ok((InstV::Comment(s), ts1)),
            TokenKindV::Skip => if ts1.toks.len() > 0 {
                match ts1.toks[0].kind {
                    TokenKindV::Number(n) => Ok((InstV::Skip(n), tokens_pop(ts1))),
                    _ => Err((ts1.toks[0].line, ts1.toks[0].col)),
                }
            } else {
                Err((ts1.end.line, ts1.end.col))
            },
            _ => Err((t.line, t.col)),
        }
    }
}

/// As many comma-separated instructions as can be read: the members of one
/// group. At least one instruction is required.
///
/// The guard comparing token counts always holds, since reading an
/// instruction consumes at least one token; it keeps the recursion visibly
/// decreasing.
pub open spec fn spec_parse_group(ts: TokensV) -> Result<(Seq<InstV>, TokensV), (int, int)>
    decreases ts.toks.len(), 1int,
{
    match spec_parse_inst(ts) {
        Err(e) => Err(e),
        Ok((i, ts1)) => if ts1.toks.len() > 0 && ts1.toks[0].kind is Comma {
            if ts1.toks.len() < ts.toks.len() {
                match spec_parse_group(tokens_pop(ts1)) {
                    Err(e) => Err(e),
                    Ok((rest, ts2)) => Ok((seq![i] + rest, ts2)),
                }
            } else {
                Ok((seq![i], ts1))
            }
        } else {
            Ok((seq![i], ts1))
        },
    }
}

/// The newline tokens at the head of `ts` consumed.
pub open spec fn skip_newlines(ts: TokensV) -> TokensV
    decreases ts.toks.len(),
{
    if ts.toks.len() > 0 && ts.toks[0].kind is Newline {
        skip_newlines(tokens_pop(ts))
    } else {
        ts
    }
}

/// The rounds read from `ts`: each round is one group, which must be
/// followed by a newline or by the fully consumed text; any other token
/// there is an error at that token's position, and a stop before the end of
/// the text is an error at the stop position.
///
/// The guard comparing token counts always holds; see `spec_parse_group`.
pub open spec fn spec_parse_rounds_from(ts: TokensV) -> Result<(Seq<InstV>, TokensV), (int, int)>
    decreases ts.toks.len(), 2int,
{
    if ts.toks.len() == 0 {
        Ok((Seq::empty(), ts))
    } else {
        match spec_parse_group(ts) {
            Err(e) => Err(e),
            Ok((g, ts1)) => {
                let round = InstV::Group(g);
                if ts1.toks.len() > 0 {
                    if ts1.toks[0].kind is Newline {
                        let ts2 = skip_newlines(ts1);
                        if ts2.toks.len() < ts.toks.len() {
                            match spec_parse_rounds_from(ts2) {
                                Err(e) => Err(e),
                                Ok((rest, tsf)) => Ok((seq![round] + rest, tsf)),
                            }
                        } else {
                            Ok((seq![round], ts2))
                        }
                    } else {
                        Err((ts1.toks[0].line, ts1.toks[0].col))
                    }
                } else if ts1.end.rest.len() == 0 {
                    Ok((seq![round], ts1))
                } else {
                    Err((ts1.end.line, ts1.end.col))
                }
            }
        }
    }
}

/// A whole pattern: leading newlines, then the rounds.
pub open spec fn spec_parse(ts: TokensV) -> Result<(Seq<InstV>, TokensV), (int, int)> {
    spec_parse_rounds_from(skip_newlines(ts))
}

/// Reading one instruction consumes at least one token and leaves the stop
/// position alone.
pub proof fn lemma_parse_inst_consumes(ts: TokensV)
    ensures
        spec_parse_inst(ts) matches Ok((i, ts1)) ==> ts1.toks.len() < ts.toks.len() && ts1.end
            == ts.end,
    decreases ts.toks.len(), 0int,
{
    if ts.toks.len() > 0 {
        let ts1 = tokens_pop(ts);
        if ts.toks[0].kind is LBracket {
            lemma_parse_group_consumes(ts1);
        }
    }
}

/// Reading a group consumes at least one token and leaves the stop position
/// alone.
pub proof fn lemma_parse_group_consumes(ts: TokensV)
    ensures
        spec_parse_group(ts) matches Ok((g, ts1)) ==> ts1.toks.len() < ts.toks.len() && ts1.end
            == ts.end,
    decreases ts.toks.len(), 1int,
{
    lemma_parse_inst_consumes(ts);
    match spec_parse_inst(ts) {
        Err(_) => {}
        Ok((i, ts1)) => {
            if ts1.toks.len() > 0 && ts1.toks[0].kind is Comma {
                if ts1.toks.len() < ts.toks.len() {
                    lemma_parse_group_consumes(tokens_pop(ts1));
                }
            }
        }
    }
}

/// The canonical token kinds of one instruction, as the serializer lays them
/// out: a bare group stands as its members, comma-separated, while a
/// suffixed group is bracketed.
pub open spec fn inst_toks(i: InstV) -> Seq<TokenKindV>
    decreases i, 0int,
{
    match i {
        InstV::Ch => seq![TokenKindV::Ch],
        InstV::Sc => seq![TokenKindV::Sc],
        InstV::Fpsc => seq![TokenKindV::Fpsc],
        InstV::Bpsc => seq![TokenKindV::Bpsc],
        InstV::Blsc => seq![TokenKindV::Blsc],
        InstV::Inc => seq![TokenKindV::Inc],
        InstV::Flinc => seq![TokenKindV::Flinc],
        InstV::Blinc => seq![TokenKindV::Blinc],
        InstV::Dec => seq![TokenKindV::Dec],
        InstV::Skip(n) => seq![TokenKindV::Skip, TokenKindV::Number(n)],
        InstV::Comment(s) => seq![TokenKindV::Comment(s)],
        InstV::Repeat(b, n) => base_toks(*b) + seq![TokenKindV::Number(n)],
        InstV::IntoMagicRing(b) => (match *b {
            InstV::Repeat(b2, n) => base_toks(*b2) + seq![TokenKindV::Number(n)],
            _ => base_toks(*b),
        }) + seq![TokenKindV::InMr],
        InstV::Group(xs) => members_toks(xs, 0),
    }
}

/// The canonical token kinds of the base an instruction suffix applies to: a
/// stitch keyword, or a bracketed group.
pub open spec fn base_toks(b: InstV) -> Seq<TokenKindV>
    decreases b, 1int,
{
    match b {
        InstV::Group(xs) => seq![TokenKindV::LBracket] + members_toks(xs, 0) + seq![
            TokenKindV::RBracket,
        ],
        _ => inst_toks(b),
    }
}

/// The canonical token kinds of a group's members from position `k` on,
/// comma-separated.
pub open spec fn members_toks(xs: Seq<InstV>, k: int) -> Seq<TokenKindV>
    decreases xs, xs.len() - k,
{
    if k < 0 || k >= xs.len() {
        Seq::empty()
    } else {
        (if k > 0 {
            seq![TokenKindV::Comma]
        } else {
            Seq::empty()
        }) + inst_toks(xs[k]) + members_toks(xs, k + 1)
    }
}

/// The canonical token kinds of a round list from position `k` on, separated
/// by newlines.
pub open spec fn rounds_toks(rs: Seq<InstV>, k: int) -> Seq<TokenKindV>
    decreases rs.len() - k,
{
    if k < 0 || k >= rs.len() {
        Seq::empty()
    } else {
        (if k > 0 {
            seq![TokenKindV::Newline]
        } else {
            Seq::empty()
        }) + inst_toks(rs[k]) + rounds_toks(rs, k + 1)
    }
}

/// A group member in the normal form that re-parsing canonical text
/// produces: no bare group stands as a member (the serializer would drop its
/// brackets), a suffix hangs only on a stitch keyword or a bracketed group,
/// a repeat multiplier is applied before a magic-ring marker, and every
/// literal fits in a `u32`.
pub open spec fn nf_member(i: InstV) -> bool
    decreases i, 0int,
{
    match i {
        InstV::Group(_) => false,
        InstV::Skip(n) => n <= u32::MAX,
        InstV::Comment(s) => crate::lex::comment_ok(s),
        InstV::Repeat(b, n) => n <= u32::MAX && nf_base(*b),
        InstV::IntoMagicRing(b) => (match *b {
            InstV::Repeat(b2, n) => n <= u32::MAX && nf_base(*b2),
            _ => nf_base(*b),
        }),
        _ => true,
    }
}

/// The base a suffix may hang on: a stitch keyword, or a group of at least
/// one normal-form member.
pub open spec fn nf_base(b: InstV) -> bool
    decreases b, 1int,
{
    match b {
        InstV::Group(xs) => xs.len() >= 1 && nf_members(xs, 0),
        InstV::Skip(_) | InstV::Comment(_) | InstV::Repeat(_, _) | InstV::IntoMagicRing(_) => false,
        _ => true,
    }
}

/// All members from position `k` on are in normal form.
pub open spec fn nf_members(xs: Seq<InstV>, k: int) -> bool
    decreases xs, xs.len() - k,
{
    if k < 0 || k >= xs.len() {
        true
    } else {
        nf_member(xs[k]) && nf_members(xs, k + 1)
    }
}

/// A round list in normal form: each round a group of at least one
/// normal-form member.
pub open spec fn nf_rounds(rs: Seq<InstV>, k: int) -> bool
    decreases rs.len() - k,
{
    if k < 0 || k >= rs.len() {
        true
    } else {
        (rs[k] matches InstV::Group(xs) && xs.len() >= 1 && nf_members(xs, 0)) && nf_rounds(
            rs,
            k + 1,
        )
    }
}

/// The kinds of a token sequence, member by member.
pub open spec fn kinds_of(toks: Seq<TokenV>) -> Seq<TokenKindV> {
    Seq::new(toks.len(), |k: int| toks[k].kind)
}

/// The token kinds that may follow one group member without being drawn
/// into it as a suffix.
pub open spec fn member_follow(ts: TokensV) -> bool {
    ts.toks.len() > 0 ==> (ts.toks[0].kind is Comma || ts.toks[0].kind is Newline
        || ts.toks[0].kind is RBracket)
}

/// The token kinds that may follow a whole group without extending it.
pub open spec fn group_follow(ts: TokensV) -> bool {
    ts.toks.len() > 0 ==> (ts.toks[0].kind is Newline || ts.toks[0].kind is RBracket)
}

/// A normal-form member's canonical tokens open with a token that starts an
/// instruction.
pub(crate) proof fn lemma_inst_toks_head(i: InstV)
    requires
        nf_member(i),
    ensures
        inst_toks(i).len() >= 1,
        !(inst_toks(i)[0] is Newline),
        !(inst_toks(i)[0] is Comma),
{
    match i {
        InstV::Repeat(b, n) => {
            assert(inst_toks(i)[0] == base_toks(*b)[0]);
        }
        InstV::IntoMagicRing(b) => {
            match *b {
                InstV::Repeat(b2, n) => {
                    assert(inst_toks(i)[0] == base_toks(*b2)[0]);
                }
                _ => {
                    assert(inst_toks(i)[0] == base_toks(*b)[0]);
                }
            }
        }
        _ => {}
    }
}

/// The token kind of a bare stitch keyword.
pub open spec fn prim_kind(b: InstV) -> TokenKindV {
    match b {
        InstV::Ch => TokenKindV::Ch,
        InstV::Sc => TokenKindV::Sc,
        InstV::Fpsc => TokenKindV::Fpsc,
        InstV::Bpsc => TokenKindV::Bpsc,
        InstV::Blsc => TokenKindV::Blsc,
        InstV::Inc => TokenKindV::Inc,
        InstV::Flinc => TokenKindV::Flinc,
        InstV::Blinc => TokenKindV::Blinc,
        _ => TokenKindV::Dec,
    }
}

pub(crate) proof fn lemma_prim_toks(b: InstV)
    requires
        nf_base(b),
        !(b is Group),
    ensures
        inst_toks(b) =~= seq![prim_kind(b)],
        base_toks(b) == inst_toks(b),
{
}

pub(crate) proof fn lemma_group_base_toks(xs: Seq<InstV>)
    ensures
        base_toks(InstV::Group(xs)) =~= seq![TokenKindV::LBracket] + members_toks(xs, 0) + seq![
            TokenKindV::RBracket,
        ],
{
}

/// All tokens still to come carry what the lexer guarantees.
pub open spec fn wf_tokens(ts: TokensV) -> bool {
    forall|k: int| 0 <= k < ts.toks.len() ==> crate::lex::wf_token(#[trigger] ts.toks[k])
}

proof fn lemma_wf_tokens_pop(ts: TokensV)
    requires
        wf_tokens(ts),
        ts.toks.len() > 0,
    ensures
        wf_tokens(tokens_pop(ts)),
{
    assert(forall|k: int| 0 <= k < tokens_pop(ts).toks.len() ==> #[trigger] tokens_pop(
        ts,
    ).toks[k] == ts.toks[k + 1]);
}

/// The shape of every member a parse yields: as the normal form, except
/// that a group without a suffix may itself stand as a member.
pub open spec fn parsed_member(i: InstV) -> bool
    decreases i, 0int,
{
    match i {
        InstV::Group(xs) => xs.len() >= 1 && parsed_members(xs, 0),
        InstV::Skip(n) => n <= u32::MAX,
        InstV::Comment(s) => crate::lex::comment_ok(s),
        InstV::Repeat(b, n) => n <= u32::MAX && parsed_base(*b),
        InstV::IntoMagicRing(b) => (match *b {
            InstV::Repeat(b2, n) => n <= u32::MAX && parsed_base(*b2),
            _ => parsed_base(*b),
        }),
        _ => true,
    }
}

/// The base a parsed suffix hangs on: a stitch keyword or a bracketed
/// group.
pub open spec fn parsed_base(b: InstV) -> bool
    decreases b, 1int,
{
    match b {
        InstV::Group(xs) => xs.len() >= 1 && parsed_members(xs, 0),
        InstV::Skip(_) | InstV::Comment(_) | InstV::Repeat(_, _) | InstV::IntoMagicRing(_) => false,
        _ => true,
    }
}

/// All members from position `k` on have the parsed shape.
pub open spec fn parsed_members(xs: Seq<InstV>, k: int) -> bool
    decreases xs, xs.len() - k,
{
    if k < 0 || k >= xs.len() {
        true
    } else {
        parsed_member(xs[k]) && parsed_members(xs, k + 1)
    }
}

/// All rounds from position `k` on have the parsed shape.
pub open spec fn parsed_rounds(rs: Seq<InstV>, k: int) -> bool
    decreases rs.len() - k,
{
    if k < 0 || k >= rs.len() {
        true
    } else {
        (rs[k] matches InstV::Group(xs) && xs.len() >= 1 && parsed_members(xs, 0))
            && parsed_rounds(rs, k + 1)
    }
}

proof fn lemma_parse_suffix_shape(i: InstV, ts: TokensV)
    requires
        wf_tokens(ts),
        parsed_base(i),
    ensures
        parsed_member(spec_parse_suffix(i, ts).0),
        wf_tokens(spec_parse_suffix(i, ts).1),
{
    if ts.toks.len() > 0 && ts.toks[0].kind is Number {
        lemma_wf_tokens_pop(ts);
        let ts1 = tokens_pop(ts);
        if ts1.toks.len() > 0 && ts1.toks[0].kind is InMr {
            lemma_wf_tokens_pop(ts1);
        }
    } else {
        if ts.toks.len() > 0 && ts.toks[0].kind is InMr {
            lemma_wf_tokens_pop(ts);
        }
    }
}

/// Whatever instruction a parse yields has the parsed shape, and the
/// remaining tokens keep the lexer's guarantees.
proof fn lemma_parse_inst_shape(ts: TokensV)
    requires
        wf_tokens(ts),
    ensures
        spec_parse_inst(ts) matches Ok((i, ts1)) ==> parsed_member(i) && wf_tokens(ts1),
    decreases ts.toks.len(), 0int,
{
    if ts.toks.len() > 0 {
        let t = ts.toks[0];
        let ts1 = tokens_pop(ts);
        lemma_wf_tokens_pop(ts);
        match t.kind {
            TokenKindV::LBracket => {
                lemma_parse_group_shape(ts1);
                match spec_parse_group(ts1) {
                    Err(_) => {}
                    Ok((g, ts2)) => {
                        if ts2.toks.len() > 0 && ts2.toks[0].kind is RBracket {
                            lemma_wf_tokens_pop(ts2);
                            lemma_parse_suffix_shape(InstV::Group(g), tokens_pop(ts2));
                        }
                    }
                }
            }
            TokenKindV::Skip => {
                if ts1.toks.len() > 0 {
                    lemma_wf_tokens_pop(ts1);
                }
            }
            _ => {
                lemma_parse_suffix_shape(InstV::Ch, ts1);
                lemma_parse_suffix_shape(InstV::Sc, ts1);
                lemma_parse_suffix_shape(InstV::Fpsc, ts1);
                lemma_parse_suffix_shape(InstV::Bpsc, ts1);
                lemma_parse_suffix_shape(InstV::Blsc, ts1);
                lemma_parse_suffix_shape(InstV::Inc, ts1);
                lemma_parse_suffix_shape(InstV::Flinc, ts1);
                lemma_parse_suffix_shape(InstV::Blinc, ts1);
                lemma_parse_suffix_shape(InstV::Dec, ts1);
            }
        }
    }
}

/// Whatever group a parse yields holds parsed-shape members only, and the
/// remaining tokens keep the lexer's guarantees.
proof fn lemma_parse_group_shape(ts: TokensV)
    requires
        wf_tokens(ts),
    ensures
        spec_parse_group(ts) matches Ok((g, ts1)) ==> g.len() >= 1 && parsed_members(g, 0)
            && wf_tokens(ts1),
    decreases ts.toks.len(), 1int,
{
    lemma_parse_inst_shape(ts);
    lemma_parse_inst_consumes(ts);
    match spec_parse_inst(ts) {
        Err(_) => {}
        Ok((i, ts1)) => {
            if ts1.toks.len() > 0 && ts1.toks[0].kind is Comma {
                if ts1.toks.len() < ts.toks.len() {
                    lemma_wf_tokens_pop(ts1);
                    lemma_parse_group_shape(tokens_pop(ts1));
                    match spec_parse_group(tokens_pop(ts1)) {
                        Err(_) => {}
                        Ok((rest, ts2)) => {
                            lemma_parsed_members_cons(i, rest);
                        }
                    }
                }
            } else {
                assert(parsed_members(seq![i], 1));
                assert(parsed_members(seq![i], 0));
            }
        }
    }
}

proof fn lemma_parsed_members_cons(i: InstV, rest: Seq<InstV>)
    requires
        parsed_member(i),
        parsed_members(rest, 0),
    ensures
        parsed_members(seq![i] + rest, 0),
    decreases rest.len(),
{
    lemma_parsed_members_shift(seq![i] + rest, rest, 1);
}

proof fn lemma_parsed_members_shift(xs: Seq<InstV>, rest: Seq<InstV>, off: int)
    requires
        off >= 0,
        xs.len() == rest.len() + off,
        forall|k: int| 0 <= k < rest.len() ==> xs[k + off] == rest[k],
        parsed_members(rest, 0),
        forall|k: int| 0 <= k < off ==> parsed_member(#[trigger] xs[k]),
    ensures
        parsed_members(xs, 0),
{
    lemma_parsed_members_all(rest, 0);
    assert forall|k: int| 0 <= k < xs.len() implies parsed_member(xs[k]) by {
        if k >= off {
            assert(xs[(k - off) + off] == rest[k - off]);
        }
    }
    lemma_all_parsed_members(xs, 0);
}

pub(crate) proof fn lemma_parsed_members_all(xs: Seq<InstV>, k: int)
    requires
        parsed_members(xs, k),
        0 <= k,
    ensures
        forall|j: int| k <= j < xs.len() ==> parsed_member(#[trigger] xs[j]),
    decreases xs.len() - k,
{
    if k < xs.len() {
        lemma_parsed_members_all(xs, k + 1);
    }
}

pub(crate) proof fn lemma_all_parsed_members(xs: Seq<InstV>, k: int)
    requires
        0 <= k,
        forall|j: int| k <= j < xs.len() ==> parsed_member(#[trigger] xs[j]),
    ensures
        parsed_members(xs, k),
    decreases xs.len() - k,
{
    if k < xs.len() {
        lemma_all_parsed_members(xs, k + 1);
    }
}

proof fn lemma_skip_newlines_wf(ts: TokensV)
    requires
        wf_tokens(ts),
    ensures
        wf_tokens(skip_newlines(ts)),
    decreases ts.toks.len(),
{
    if ts.toks.len() > 0 && ts.toks[0].kind is Newline {
        lemma_wf_tokens_pop(ts);
        lemma_skip_newlines_wf(tokens_pop(ts));
    }
}

/// Whatever round list a parse yields has the parsed shape.
pub proof fn lemma_parse_shape(ts: TokensV)
    requires
        wf_tokens(ts),
    ensures
        spec_parse(ts) matches Ok((rs, f)) ==> parsed_rounds(rs, 0),
{
    lemma_skip_newlines_wf(ts);
    lemma_parse_rounds_from_shape(skip_newlines(ts));
}

proof fn lemma_parse_rounds_from_shape(ts: TokensV)
    requires
        wf_tokens(ts),
    ensures
        spec_parse_rounds_from(ts) matches Ok((rs, f)) ==> parsed_rounds(rs, 0),
    decreases ts.toks.len(), 2int,
{
    if ts.toks.len() > 0 {
        lemma_parse_group_shape(ts);
        lemma_parse_group_consumes(ts);
        match spec_parse_group(ts) {
            Err(_) => {}
            Ok((g, ts1)) => {
                let round = InstV::Group(g);
                if ts1.toks.len() > 0 && ts1.toks[0].kind is Newline {
                    let ts2 = skip_newlines(ts1);
                    lemma_skip_newlines_wf(ts1);
                    if ts2.toks.len() < ts.toks.len() {
                        lemma_parse_rounds_from_shape(ts2);
                        match spec_parse_rounds_from(ts2) {
                            Err(_) => {}
                            Ok((rest, f)) => {
                                lemma_parsed_rounds_cons(round, rest);
                            }
                        }
                    } else {
                        assert(parsed_rounds(seq![round], 1));
                        assert(parsed_rounds(seq![round], 0));
                    }
                } else {
                    assert(parsed_rounds(seq![round], 1));
                    assert(parsed_rounds(seq![round], 0));
                }
            }
        }
    }
}

proof fn lemma_parsed_rounds_cons(r: InstV, rest: Seq<InstV>)
    requires
        (r matches InstV::Group(xs) && xs.len() >= 1 && parsed_members(xs, 0)),
        parsed_rounds(rest, 0),
    ensures
        parsed_rounds(seq![r] + rest, 0),
{
    lemma_parsed_rounds_all(rest, 0);
    lemma_all_parsed_rounds(seq![r] + rest, 0);
}

pub(crate) proof fn lemma_parsed_rounds_all(rs: Seq<InstV>, k: int)
    requires
        parsed_rounds(rs, k),
        0 <= k,
    ensures
        forall|j: int| k <= j < rs.len() ==> ((#[trigger] rs[j]) matches InstV::Group(xs)
            && xs.len() >= 1 && parsed_members(xs, 0)),
    decreases rs.len() - k,
{
    if k < rs.len() {
        lemma_parsed_rounds_all(rs, k + 1);
    }
}

pub(crate) proof fn lemma_all_parsed_rounds(rs: Seq<InstV>, k: int)
    requires
        0 <= k,
        forall|j: int| k <= j < rs.len() ==> ((#[trigger] rs[j]) matches InstV::Group(xs)
            && xs.len() >= 1 && parsed_members(xs, 0)),
    ensures
        parsed_rounds(rs, k),
    decreases rs.len() - k,
{
    if k < rs.len() {
        lemma_all_parsed_rounds(rs, k + 1);
    }
}

/// Parsing the canonical tokens of one normal-form member, with tokens that
/// cannot extend it following, yields that member and leaves the following
/// tokens alone.
#[verifier::rlimit(100)]
proof fn lemma_member_parses(i: InstV, pre: Seq<TokenV>, ts: TokensV)
    requires
        nf_member(i),
        kinds_of(pre) == inst_toks(i),
        member_follow(ts),
    ensures
        spec_parse_inst(TokensV { toks: pre + ts.toks, end: ts.end }) == Ok::<
            (InstV, TokensV),
            (int, int),
        >((i, ts)),
    decreases i, 2int,
{
    let all = TokensV { toks: pre + ts.toks, end: ts.end };
    assert(forall|j: int| 0 <= j < pre.len() ==> (#[trigger] pre[j]).kind == inst_toks(i)[j])
        by {
        assert(forall|j: int| 0 <= j < pre.len() ==> kinds_of(pre)[j] == (#[trigger] pre[j]).kind);
    }
    match i {
        InstV::Ch | InstV::Sc | InstV::Fpsc | InstV::Bpsc | InstV::Blsc | InstV::Inc
            | InstV::Flinc | InstV::Blinc | InstV::Dec => {
            lemma_prim_toks(i);
            assert(pre.len() == 1);
            assert(all.toks[0] == pre[0]);
            assert(tokens_pop(all).toks =~= ts.toks);
            assert(tokens_pop(all) =~= ts);
        }
        InstV::Skip(n) => {
            assert(inst_toks(i) =~= seq![TokenKindV::Skip, TokenKindV::Number(n)]);
            assert(pre.len() == 2);
            assert(all.toks[0] == pre[0]);
            assert(all.toks[1] == pre[1]);
            assert(tokens_pop(all).toks =~= seq![pre[1]] + ts.toks);
            assert(tokens_pop(tokens_pop(all)).toks =~= ts.toks);
            assert(tokens_pop(tokens_pop(all)) =~= ts);
        }
        InstV::Comment(s) => {
            assert(inst_toks(i) =~= seq![TokenKindV::Comment(s)]);
            assert(pre.len() == 1);
            assert(all.toks[0] == pre[0]);
            assert(tokens_pop(all).toks =~= ts.toks);
            assert(tokens_pop(all) =~= ts);
        }
        InstV::Repeat(b, n) => {
            assert(inst_toks(i) =~= base_toks(*b) + seq![TokenKindV::Number(n)]);
            match *b {
                InstV::Group(xs) => {
                    lemma_group_base_toks(xs);
                    let m = members_toks(xs, 0).len() as int;
                    assert(pre.len() == m + 3);
                    assert(all.toks[0] == pre[0]);
                    assert(pre[0].kind is LBracket);
                    let pre_g = pre.subrange(1, m + 1);
                    let mid = TokensV { toks: pre.skip(m + 1) + ts.toks, end: ts.end };
                    assert(kinds_of(pre_g) =~= members_toks(xs, 0)) by {
                        assert(forall|j: int| 0 <= j < m ==> inst_toks(i)[j + 1]
                            == members_toks(xs, 0)[j]);
                    }
                    assert(mid.toks[0] == pre[m + 1]);
                    assert(pre[m + 1].kind is RBracket);
                    assert(decreases_to!(i => i->Repeat_0));
                    assert(i->Repeat_0 == *b);
                    assert(decreases_to!(*b => (*b)->Group_0));
                    lemma_members_parse(xs, 0, pre_g, mid);
                    assert(xs.skip(0) =~= xs);
                    assert(tokens_pop(all).toks =~= pre_g + mid.toks);
                    assert(tokens_pop(all) =~= TokensV { toks: pre_g + mid.toks, end: ts.end });
                    assert(tokens_pop(mid).toks =~= seq![pre[m + 2]] + ts.toks);
                    assert(pre[m + 2].kind == TokenKindV::Number(n));
                    assert(tokens_pop(tokens_pop(mid)).toks =~= ts.toks);
                    assert(tokens_pop(tokens_pop(mid)) =~= ts);
                }
                _ => {
                    lemma_prim_toks(*b);
                    assert(pre.len() == 2);
                    assert(all.toks[0] == pre[0]);
                    assert(all.toks[1] == pre[1]);
                    assert(pre[0].kind == prim_kind(*b));
                    assert(pre[1].kind == TokenKindV::Number(n));
                    assert(tokens_pop(all).toks =~= seq![pre[1]] + ts.toks);
                    assert(tokens_pop(tokens_pop(all)).toks =~= ts.toks);
                    assert(tokens_pop(tokens_pop(all)) =~= ts);
                }
            }
        }
        InstV::IntoMagicRing(b) => {
            match *b {
                InstV::Repeat(b2, n) => {
                    assert(inst_toks(i) =~= (base_toks(*b2) + seq![TokenKindV::Number(n)])
                        + seq![TokenKindV::InMr]);
                    match *b2 {
                        InstV::Group(xs) => {
                            lemma_group_base_toks(xs);
                            let m = members_toks(xs, 0).len() as int;
                            assert(pre.len() == m + 4);
                            assert(all.toks[0] == pre[0]);
                            assert(pre[0].kind is LBracket);
                            let pre_g = pre.subrange(1, m + 1);
                            let mid = TokensV { toks: pre.skip(m + 1) + ts.toks, end: ts.end };
                            assert(kinds_of(pre_g) =~= members_toks(xs, 0)) by {
                                assert(forall|j: int| 0 <= j < m ==> inst_toks(i)[j + 1]
                                    == members_toks(xs, 0)[j]);
                            }
                            assert(mid.toks[0] == pre[m + 1]);
                            assert(pre[m + 1].kind is RBracket);
                            assert(decreases_to!(i => i->IntoMagicRing_0));
                            assert(i->IntoMagicRing_0 == *b);
                            assert(decreases_to!(*b => (*b)->Repeat_0));
                            assert((*b)->Repeat_0 == *b2);
                            assert(decreases_to!(*b2 => (*b2)->Group_0));
                            lemma_members_parse(xs, 0, pre_g, mid);
                            assert(xs.skip(0) =~= xs);
                            assert(tokens_pop(all).toks =~= pre_g + mid.toks);
                            assert(tokens_pop(all) =~= TokensV {
                                toks: pre_g + mid.toks,
                                end: ts.end,
                            });
                            assert(tokens_pop(mid).toks =~= seq![pre[m + 2], pre[m + 3]]
                                + ts.toks);
                            assert(pre[m + 2].kind == TokenKindV::Number(n));
                            assert(pre[m + 3].kind is InMr);
                            assert(tokens_pop(mid).toks[1] == pre[m + 3]);
                            assert(tokens_pop(tokens_pop(mid)).toks =~= seq![pre[m + 3]]
                                + ts.toks);
                            assert(tokens_pop(tokens_pop(tokens_pop(mid))).toks =~= ts.toks);
                            assert(tokens_pop(tokens_pop(tokens_pop(mid))) =~= ts);
                        }
                        _ => {
                            lemma_prim_toks(*b2);
                            assert(pre.len() == 3);
                            assert(all.toks[0] == pre[0]);
                            assert(all.toks[1] == pre[1]);
                            assert(all.toks[2] == pre[2]);
                            assert(pre[0].kind == prim_kind(*b2));
                            assert(pre[1].kind == TokenKindV::Number(n));
                            assert(pre[2].kind is InMr);
                            assert(tokens_pop(all).toks =~= seq![pre[1], pre[2]] + ts.toks);
                            assert(tokens_pop(tokens_pop(all)).toks =~= seq![pre[2]] + ts.toks);
                            assert(tokens_pop(tokens_pop(tokens_pop(all))).toks =~= ts.toks);
                            assert(tokens_pop(tokens_pop(tokens_pop(all))) =~= ts);
                        }
                    }
                }
                _ => {
                    assert(inst_toks(i) =~= base_toks(*b) + seq![TokenKindV::InMr]);
                    match *b {
                        InstV::Group(xs) => {
                            lemma_group_base_toks(xs);
                            let m = members_toks(xs, 0).len() as int;
                            assert(pre.len() == m + 3);
                            assert(all.toks[0] == pre[0]);
                            assert(pre[0].kind is LBracket);
                            let pre_g = pre.subrange(1, m + 1);
                            let mid = TokensV { toks: pre.skip(m + 1) + ts.toks, end: ts.end };
                            assert(kinds_of(pre_g) =~= members_toks(xs, 0)) by {
                                assert(forall|j: int| 0 <= j < m ==> inst_toks(i)[j + 1]
                                    == members_toks(xs, 0)[j]);
                            }
                            assert(mid.toks[0] == pre[m + 1]);
                            assert(pre[m + 1].kind is RBracket);
                            assert(decreases_to!(i => i->IntoMagicRing_0));
                            assert(i->IntoMagicRing_0 == *b);
                            assert(decreases_to!(*b => (*b)->Group_0));
                            lemma_members_parse(xs, 0, pre_g, mid);
                            assert(xs.skip(0) =~= xs);
                            assert(tokens_pop(all).toks =~= pre_g + mid.toks);
                            assert(tokens_pop(all) =~= TokensV {
                                toks: pre_g + mid.toks,
                                end: ts.end,
                            });
                            assert(tokens_pop(mid).toks =~= seq![pre[m + 2]] + ts.toks);
                            assert(pre[m + 2].kind is InMr);
                            assert(tokens_pop(tokens_pop(mid)).toks =~= ts.toks);
                            assert(tokens_pop(tokens_pop(mid)) =~= ts);
                        }
                        _ => {
                            lemma_prim_toks(*b);
                            assert(pre.len() == 2);
                            assert(all.toks[0] == pre[0]);
                            assert(all.toks[1] == pre[1]);
                            assert(pre[0].kind == prim_kind(*b));
                            assert(pre[1].kind is InMr);
                            assert(tokens_pop(all).toks =~= seq![pre[1]] + ts.toks);
                            assert(tokens_pop(tokens_pop(all)).toks =~= ts.toks);
                            assert(tokens_pop(tokens_pop(all)) =~= ts);
                        }
                    }
                }
            }
        }
        InstV::Group(_) => {
            assert(false);
        }
    }
}

/// Parsing the canonical tokens of the members of a normal-form group from
/// position `k` on, with tokens that cannot extend the group following,
/// yields exactly those members.
#[verifier::rlimit(100)]
proof fn lemma_members_parse(xs: Seq<InstV>, k: int, pre: Seq<TokenV>, ts: TokensV)
    requires
        0 <= k < xs.len(),
        nf_members(xs, k),
        kinds_of(pre) == inst_toks(xs[k]) + members_toks(xs, k + 1),
        group_follow(ts),
    ensures
        spec_parse_group(TokensV { toks: pre + ts.toks, end: ts.end }) == Ok::<
            (Seq<InstV>, TokensV),
            (int, int),
        >((xs.skip(k), ts)),
    decreases xs, xs.len() - k,
{
    let all = TokensV { toks: pre + ts.toks, end: ts.end };
    let n0 = inst_toks(xs[k]).len() as int;
    lemma_inst_toks_head(xs[k]);
    assert(forall|j: int| 0 <= j < pre.len() ==> (#[trigger] pre[j]).kind == (inst_toks(xs[k])
        + members_toks(xs, k + 1))[j]) by {
        assert(forall|j: int| 0 <= j < pre.len() ==> kinds_of(pre)[j] == (#[trigger] pre[j]).kind);
    }
    if k == xs.len() - 1 {
        assert(members_toks(xs, k + 1) =~= Seq::empty());
        assert(pre.len() == n0);
        assert(kinds_of(pre) =~= inst_toks(xs[k]));
        lemma_member_parses(xs[k], pre, ts);
        assert(xs.skip(k) =~= seq![xs[k]]);
    } else {
        assert(kinds_of(pre).len() == pre.len());
        assert(pre.len() == n0 + members_toks(xs, k + 1).len());
        assert(members_toks(xs, k + 1).len() >= 1) by {
            assert(members_toks(xs, k + 1) =~= seq![TokenKindV::Comma] + inst_toks(xs[k + 1])
                + members_toks(xs, k + 2));
        }
        let pre0 = pre.take(n0);
        let mid = TokensV { toks: pre.skip(n0) + ts.toks, end: ts.end };
        assert(kinds_of(pre0) =~= inst_toks(xs[k])) by {
            assert(forall|j: int| 0 <= j < n0 ==> (#[trigger] pre0[j]) == pre[j]);
        }
        assert(members_toks(xs, k + 1) =~= seq![TokenKindV::Comma] + inst_toks(xs[k + 1])
            + members_toks(xs, k + 2));
        assert(mid.toks[0] == pre[n0]);
        assert(pre[n0].kind is Comma);
        lemma_member_parses(xs[k], pre0, mid);
        assert(pre0 + mid.toks =~= all.toks);
        assert(TokensV { toks: pre0 + mid.toks, end: ts.end } =~= all);
        let pre_rest = pre.skip(n0 + 1);
        assert(kinds_of(pre_rest) =~= inst_toks(xs[k + 1]) + members_toks(xs, k + 2)) by {
            assert(forall|j: int| 0 <= j < pre_rest.len() ==> (#[trigger] pre_rest[j]) == pre[j + n0
                + 1]);
            assert(forall|j: int| 0 <= j < pre_rest.len() ==> (#[trigger] pre[j + n0 + 1]).kind
                == members_toks(xs, k + 1)[j + 1]);
        }
        assert(tokens_pop(mid).toks =~= pre_rest + ts.toks);
        lemma_members_parse(xs, k + 1, pre_rest, ts);
        assert(tokens_pop(mid) =~= TokensV { toks: pre_rest + ts.toks, end: ts.end });
        assert(seq![xs[k]] + xs.skip(k + 1) =~= xs.skip(k));
    }
}

proof fn lemma_rounds_parse_from(rs: Seq<InstV>, k: int, pre: Seq<TokenV>, endsc: ScanV)
    requires
        0 <= k < rs.len(),
        nf_rounds(rs, k),
        kinds_of(pre) == inst_toks(rs[k]) + rounds_toks(rs, k + 1),
        endsc.rest.len() == 0,
    ensures
        spec_parse_rounds_from(TokensV { toks: pre, end: endsc }) == Ok::<
            (Seq<InstV>, TokensV),
            (int, int),
        >((rs.skip(k), TokensV { toks: Seq::empty(), end: endsc })),
    decreases rs.len() - k,
{
    let ts = TokensV { toks: pre, end: endsc };
    let xs = rs[k]->Group_0;
    let m = members_toks(xs, 0).len() as int;
    assert(inst_toks(rs[k]) =~= members_toks(xs, 0));
    assert(members_toks(xs, 0) =~= inst_toks(xs[0]) + members_toks(xs, 1));
    lemma_inst_toks_head(xs[0]);
    assert(kinds_of(pre).len() == pre.len());
    assert(forall|j: int| 0 <= j < pre.len() ==> (#[trigger] pre[j]).kind == (inst_toks(rs[k])
        + rounds_toks(rs, k + 1))[j]) by {
        assert(forall|j: int| 0 <= j < pre.len() ==> kinds_of(pre)[j] == (#[trigger] pre[j]).kind);
    }
    assert(pre.len() == m + rounds_toks(rs, k + 1).len());
    let pre_g = pre.take(m);
    let follow = TokensV { toks: pre.skip(m), end: endsc };
    assert(kinds_of(pre_g) =~= members_toks(xs, 0)) by {
        assert(forall|j: int| 0 <= j < m ==> (#[trigger] pre_g[j]) == pre[j]);
    }
    assert(pre_g + follow.toks =~= pre);
    if k == rs.len() - 1 {
        assert(rounds_toks(rs, k + 1) =~= Seq::empty());
        assert(follow.toks =~= Seq::empty());
        lemma_members_parse(xs, 0, pre_g, follow);
        assert(xs.skip(0) =~= xs);
        assert(TokensV { toks: pre_g + follow.toks, end: endsc } =~= ts);
        assert(rs.skip(k) =~= seq![rs[k]]);
        assert(follow =~= (TokensV { toks: Seq::empty(), end: endsc }));
    } else {
        assert(rounds_toks(rs, k + 1) =~= seq![TokenKindV::Newline] + inst_toks(rs[k + 1])
            + rounds_toks(rs, k + 2));
        assert(follow.toks[0] == pre[m]);
        assert(pre[m].kind is Newline);
        lemma_members_parse(xs, 0, pre_g, follow);
        assert(xs.skip(0) =~= xs);
        assert(TokensV { toks: pre_g + follow.toks, end: endsc } =~= ts);
        let pre_rest = pre.skip(m + 1);
        assert(kinds_of(pre_rest) =~= inst_toks(rs[k + 1]) + rounds_toks(rs, k + 2)) by {
            assert(forall|j: int| 0 <= j < pre_rest.len() ==> (#[trigger] pre_rest[j]) == pre[j + m
                + 1]);
            assert(forall|j: int| 0 <= j < pre_rest.len() ==> (#[trigger] pre[j + m + 1]).kind
                == rounds_toks(rs, k + 1)[j + 1]);
        }
        let xs2 = rs[k + 1]->Group_0;
        assert(nf_rounds(rs, k + 1));
        assert(rs[k + 1] is Group && xs2.len() >= 1 && nf_members(xs2, 0));
        assert(nf_member(xs2[0]));
        assert(inst_toks(rs[k + 1]) =~= members_toks(xs2, 0));
        assert(members_toks(xs2, 0) =~= inst_toks(xs2[0]) + members_toks(xs2, 1));
        lemma_inst_toks_head(xs2[0]);
        assert(tokens_pop(follow).toks =~= pre_rest);
        assert(tokens_pop(follow) =~= (TokensV { toks: pre_rest, end: endsc }));
        assert(pre_rest.len() > 0);
        assert(!(pre_rest[0].kind is Newline));
        assert(skip_newlines(tokens_pop(follow)) == tokens_pop(follow));
        assert(skip_newlines(follow) == tokens_pop(follow));
        lemma_rounds_parse_from(rs, k + 1, pre_rest, endsc);
        assert(seq![rs[k]] + rs.skip(k + 1) =~= rs.skip(k));
    }
}

/// The round-trip law, on the parser's side: a round list in the normal
/// form that canonical text denotes is parsed back exactly from its
/// canonical token sequence, whatever positions the tokens carry, with
/// nothing left over. The serializer lays out exactly these tokens as text;
/// reading that text back into tokens is the lexer's side and is not stated
/// here.
pub proof fn lemma_canonical_tokens_reparse(rs: Seq<InstV>, pre: Seq<TokenV>, endsc: ScanV)
    requires
        nf_rounds(rs, 0),
        kinds_of(pre) == rounds_toks(rs, 0),
        endsc.rest.len() == 0,
    ensures
        spec_parse(TokensV { toks: pre, end: endsc }) == Ok::<(Seq<InstV>, TokensV), (int, int)>(
            (rs, TokensV { toks: Seq::empty(), end: endsc }),
        ),
{
    let ts = TokensV { toks: pre, end: endsc };
    if rs.len() == 0 {
        assert(rounds_toks(rs, 0) =~= Seq::empty());
        assert(pre.len() == 0) by {
            assert(kinds_of(pre).len() == pre.len());
        }
        assert(skip_newlines(ts) == ts);
        assert(rs =~= Seq::<InstV>::empty());
        assert(ts =~= (TokensV { toks: Seq::empty(), end: endsc }));
    } else {
        assert(rounds_toks(rs, 0) =~= inst_toks(rs[0]) + rounds_toks(rs, 1));
        let xs = rs[0]->Group_0;
        assert(inst_toks(rs[0]) =~= members_toks(xs, 0));
        assert(members_toks(xs, 0) =~= inst_toks(xs[0]) + members_toks(xs, 1));
        lemma_inst_toks_head(xs[0]);
        assert(kinds_of(pre).len() == pre.len());
        assert(pre.len() > 0);
        assert(pre[0].kind == rounds_toks(rs, 0)[0]) by {
            assert(kinds_of(pre)[0] == pre[0].kind);
        }
        assert(!(pre[0].kind is Newline));
        assert(skip_newlines(ts) == ts);
        lemma_rounds_parse_from(rs, 0, pre, endsc);
        assert(rs.skip(0) =~= rs);
    }
}

/// Skipping newline tokens never adds tokens and leaves the stop position
/// alone.
proof fn lemma_skip_newlines_le(ts: TokensV)
    ensures
        skip_newlines(ts).toks.len() <= ts.toks.len(),
        skip_newlines(ts).end == ts.end,
    decreases ts.toks.len(),
{
    if ts.toks.len() > 0 && ts.toks[0].kind is Newline {
        lemma_skip_newlines_le(tokens_pop(ts));
    }
}

/// Reads the optional suffix after `inst`: a repeat multiplier wraps it in
/// `Repeat`, a following `in mr` marker then wraps it in `IntoMagicRing`.
fn maybe_parse_suffix(ts: &mut TokenStream, inst: Instruction) -> (r: Instruction)
    requires
        old(ts).wf(),
    ensures
        final(ts).wf(),
        r@ == spec_parse_suffix(inst@, stream_tokens(old(ts)@)).0,
        stream_tokens(final(ts)@) == spec_parse_suffix(inst@, stream_tokens(old(ts)@)).1,
{
    let ghost ts0 = stream_tokens(ts@);
    proof {
        lemma_stream_peek(ts@);
    }
    let k = ts.peek_kind();
    let inst2 = match k {
        Some(TokenKind::Number(n)) => {
            proof {
                assert(ts0.toks.len() > 0 && ts0.toks[0].kind is Number);
                lemma_stream_next(ts@);
            }
            let _ = ts.next();
            proof {
                assert(stream_tokens(ts@) == tokens_pop(ts0));
            }
            Instruction::Repeat(Box::new(inst), n)
        }
        _ => {
            proof {
                assert(!(ts0.toks.len() > 0 && ts0.toks[0].kind is Number));
            }
            inst
        }
    };
    let ghost i1 = spec_parse_suffix(inst@, ts0).0;
    let ghost ts1 = spec_parse_suffix(inst@, ts0).1;
    proof {
        assert(inst2@ == (if ts0.toks.len() > 0 && ts0.toks[0].kind is Number {
            InstV::Repeat(Box::new(inst@), ts0.toks[0].kind->Number_0)
        } else {
            inst@
        }));
        assert(stream_tokens(ts@) == (if ts0.toks.len() > 0 && ts0.toks[0].kind is Number {
            tokens_pop(ts0)
        } else {
            ts0
        }));
    }
    proof {
        lemma_stream_peek(ts@);
    }
    let k2 = ts.peek_kind();
    match k2 {
        Some(TokenKind::InMr) => {
            proof {
                lemma_stream_next(ts@);
            }
            let _ = ts.next();
            proof {
                assert(i1 == InstV::IntoMagicRing(Box::new(inst2@)));
                assert(stream_tokens(ts@) == ts1);
            }
            Instruction::IntoMagicRing(Box::new(inst2))
        }
        _ => {
            proof {
                assert(i1 == inst2@);
                assert(stream_tokens(ts@) == ts1);
            }
            inst2
        }
    }
}

/// Reads one instruction, consuming its tokens. An empty stream, or a token
/// that opens no instruction, is an error at the current position.
pub fn parse_inst(ts: &mut TokenStream) -> (r: Result<Instruction, (usize, usize)>)
    requires
        old(ts).wf(),
    ensures
        final(ts).wf(),
        ({
            match spec_parse_inst(stream_tokens(old(ts)@)) {
                Ok((iv, ts2)) => r matches Ok(i) && i@ == iv && stream_tokens(final(ts)@) == ts2,
                Err((l, c)) => r matches Err(e) && e.0 as int == l && e.1 as int == c,
            }
        }),
    decreases stream_tokens(ts@).toks.len(), 0int,
{
    proof {
        lemma_stream_next(ts@);
    }
    let t = match ts.next() {
        Some(t) => t,
        None => {
            return Err(ts.current_loc());
        }
    };
    let tline = t.line;
    let tcol = t.col;
    match t.kind {
        TokenKind::Ch => Ok(maybe_parse_suffix(ts, Instruction::Ch)),
        TokenKind::Sc => Ok(maybe_parse_suffix(ts, Instruction::Sc)),
        TokenKind::Fpsc => Ok(maybe_parse_suffix(ts, Instruction::Fpsc)),
        TokenKind::Bpsc => Ok(maybe_parse_suffix(ts, Instruction::Bpsc)),
        TokenKind::Blsc => Ok(maybe_parse_suffix(ts, Instruction::Blsc)),
        TokenKind::Inc => Ok(maybe_parse_suffix(ts, Instruction::Inc)),
        TokenKind::Flinc => Ok(maybe_parse_suffix(ts, Instruction::Flinc)),
        TokenKind::Blinc => Ok(maybe_parse_suffix(ts, Instruction::Blinc)),
        TokenKind::Dec => Ok(maybe_parse_suffix(ts, Instruction::Dec)),
        TokenKind::LBracket => {
            proof {
                lemma_parse_group_consumes(stream_tokens(ts@));
            }
            let g = match parse_group(ts) {
                Ok(g) => g,
                Err(e) => {
                    return Err(e);
                }
            };
            proof {
                lemma_stream_next(ts@);
            }
            match ts.next() {
                Some(t2) => {
                    let t2line = t2.line;
                    let t2col = t2.col;
                    match t2.kind {
                        TokenKind::RBracket => Ok(maybe_parse_suffix(ts, g)),
                        _ => Err((t2line, t2col)),
                    }
                }
                None => Err(ts.current_loc()),
            }
        }
        TokenKind::Comment(s) => Ok(Instruction::Comment(s)),
        TokenKind::Skip => {
            proof {
                lemma_stream_next(ts@);
            }
            match ts.next() {
                Some(t2) => {
                    let t2line = t2.line;
                    let t2col = t2.col;
                    match t2.kind {
                        TokenKind::Number(n) => Ok(Instruction::Skip(n)),
                        _ => Err((t2line, t2col)),
                    }
                }
                None => Err(ts.current_loc()),
            }
        }
        TokenKind::Tch | TokenKind::InMr | TokenKind::Number(_) | TokenKind::Newline
            | TokenKind::RBracket | TokenKind::Comma => Err((tline, tcol)),
    }
}

/// Reads as many comma-separated instructions as possible into one `Group`;
/// at least one instruction is required.
fn parse_group(ts: &mut TokenStream) -> (r: Result<Instruction, (usize, usize)>)
    requires
        old(ts).wf(),
    ensures
        final(ts).wf(),
        ({
            match spec_parse_group(stream_tokens(old(ts)@)) {
                Ok((gs, ts2)) => r matches Ok(i) && i@ == InstV::Group(gs) && stream_tokens(
                    final(ts)@,
                ) == ts2,
                Err((l, c)) => r matches Err(e) && e.0 as int == l && e.1 as int == c,
            }
        }),
    decreases stream_tokens(ts@).toks.len(), 1int,
{
    let ghost ts0 = stream_tokens(ts@);
    let mut insts: Vec<Instruction> = Vec::new();
    proof {
        assert(insts_view(insts@) + Seq::<InstV>::empty() =~= insts_view(insts@));
    }
    loop
        invariant
            ts.wf(),
            stream_tokens(ts@).toks.len() <= stream_tokens(old(ts)@).toks.len(),
            ({
                match spec_parse_group(stream_tokens(ts@)) {
                    Ok((gs, ts2)) => spec_parse_group(ts0) matches Ok((gs0, ts20)) && gs0
                        == insts_view(insts@) + gs && ts20 == ts2,
                    Err(e) => spec_parse_group(ts0) == Err::<(Seq<InstV>, TokensV), (int, int)>(e),
                }
            }),
        decreases stream_tokens(ts@).toks.len(), 1int,
    {
        let ghost cur = stream_tokens(ts@);
        let ghost insts0 = insts@;
        proof {
            lemma_parse_inst_consumes(cur);
        }
        let i = match parse_inst(ts) {
            Ok(i) => i,
            Err(e) => {
                return Err(e);
            }
        };
        proof {
            lemma_insts_view_push(insts0, i);
            assert(insts_view(insts0).push(i@) =~= insts_view(insts0) + seq![i@]);
        }
        insts.push(i);
        let ghost ts1c = stream_tokens(ts@);
        proof {
            lemma_stream_peek(ts@);
        }
        let k = ts.peek_kind();
        match k {
            Some(TokenKind::Comma) => {
                proof {
                    lemma_stream_next(ts@);
                }
                let _ = ts.next();
                proof {
                    assert(stream_tokens(ts@) == tokens_pop(ts1c));
                    match spec_parse_group(tokens_pop(ts1c)) {
                        Ok((gs2, f2)) => {
                            assert((insts_view(insts0) + seq![i@]) + gs2 =~= insts_view(insts0) + (
                            seq![i@] + gs2));
                        }
                        Err(_) => {}
                    }
                }
            }
            _ => {
                return Ok(Instruction::Group(insts));
            }
        }
    }
}

fn newline_ahead(ts: &mut TokenStream) -> (b: bool)
    requires
        old(ts).wf(),
    ensures
        final(ts).wf(),
        stream_tokens(final(ts)@) == stream_tokens(old(ts)@),
        b == ({
            let tk = stream_tokens(old(ts)@);
            tk.toks.len() > 0 && tk.toks[0].kind is Newline
        }),
{
    proof {
        lemma_stream_peek(ts@);
    }
    match ts.peek_kind() {
        Some(TokenKind::Newline) => true,
        _ => false,
    }
}

fn token_ahead(ts: &mut TokenStream) -> (b: bool)
    requires
        old(ts).wf(),
    ensures
        final(ts).wf(),
        stream_tokens(final(ts)@) == stream_tokens(old(ts)@),
        b == (stream_tokens(old(ts)@).toks.len() > 0),
        !b ==> final(ts)@.peeked is None && final(ts)@.scan == stream_tokens(old(ts)@).end,
{
    proof {
        lemma_stream_peek(ts@);
    }
    let p = ts.peek();
    p.is_some()
}

/// Reads a whole pattern as a list of rounds: leading blank lines are
/// allowed, each round is one group, and every round but the last must be
/// followed by a newline. A token that fits no round is an error at its
/// position; input that stops before the end of the text is an error at the
/// stop position.
pub fn parse(ts: &mut TokenStream) -> (r: Result<Vec<Instruction>, (usize, usize)>)
    requires
        old(ts).wf(),
    ensures
        final(ts).wf(),
        ({
            match spec_parse(stream_tokens(old(ts)@)) {
                Ok((rs, tsf)) => r matches Ok(v) && insts_view(v@) == rs && stream_tokens(
                    final(ts)@,
                ) == tsf && final(ts)@.peeked is None && final(ts)@.scan == tsf.end
                    && tsf.toks.len() == 0,
                Err((l, c)) => r matches Err(e) && e.0 as int == l && e.1 as int == c,
            }
        }),
{
    let ghost ts_a = stream_tokens(ts@);
    while newline_ahead(ts)
        invariant
            ts.wf(),
            skip_newlines(stream_tokens(ts@)) == skip_newlines(ts_a),
        decreases stream_tokens(ts@).toks.len(),
    {
        proof {
            lemma_stream_next(ts@);
        }
        let _ = ts.next();
    }
    let ghost ts_b = skip_newlines(ts_a);
    proof {
        assert(stream_tokens(ts@) == ts_b);
    }
    let mut rounds: Vec<Instruction> = Vec::new();
    proof {
        assert(insts_view(rounds@) + Seq::<InstV>::empty() =~= insts_view(rounds@));
    }
    while token_ahead(ts)
        invariant
            ts.wf(),
            ({
                match spec_parse_rounds_from(stream_tokens(ts@)) {
                    Ok((rs, f)) => spec_parse_rounds_from(ts_b) matches Ok((rs0, f0)) && rs0
                        == insts_view(rounds@) + rs && f0 == f,
                    Err(e) => spec_parse_rounds_from(ts_b) == Err::<
                        (Seq<InstV>, TokensV),
                        (int, int),
                    >(e),
                }
            }),
        decreases stream_tokens(ts@).toks.len(), 2int,
    {
        let ghost cur = stream_tokens(ts@);
        proof {
            lemma_parse_group_consumes(cur);
        }
        let g = match parse_group(ts) {
            Ok(g) => g,
            Err(e) => {
                return Err(e);
            }
        };
        proof {
            lemma_insts_view_push(rounds@, g);
            assert(insts_view(rounds@).push(g@) =~= insts_view(rounds@) + seq![g@]);
        }
        rounds.push(g);
        proof {
            lemma_stream_peek(ts@);
        }
        let k = ts.peek_kind();
        let is_nl = match k {
            Some(TokenKind::Newline) => true,
            _ => false,
        };
        if !is_nl {
            if !ts.is_empty() {
                return Err(ts.current_loc());
            }
        }
        let ghost after_group = stream_tokens(ts@);
        while newline_ahead(ts)
            invariant
                ts.wf(),
                skip_newlines(stream_tokens(ts@)) == skip_newlines(after_group),
            decreases stream_tokens(ts@).toks.len(),
        {
            proof {
                lemma_stream_next(ts@);
            }
            let _ = ts.next();
        }
        proof {
            lemma_skip_newlines_le(after_group);
            match spec_parse_rounds_from(cur) {
                Ok((rs_c, f_c)) => {
                    match spec_parse_rounds_from(stream_tokens(ts@)) {
                        Ok((rs_n, f_n)) => {
                            assert((insts_view(rounds@.drop_last()) + seq![g@]) + rs_n
                                =~= insts_view(rounds@.drop_last()) + (seq![g@] + rs_n));
                        }
                        Err(_) => {}
                    }
                }
                Err(_) => {}
            }
        }
    }
    proof {
        assert(insts_view(rounds@) + Seq::<InstV>::empty() =~= insts_view(rounds@));
    }
    Ok(rounds)
}

} // verus!
