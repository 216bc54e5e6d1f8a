use vstd::prelude::*;

use crate::lex::{
    advance, advance1, is_digit, is_kw_kind, is_space, kw_text, lemma_advance_add,
    lemma_advance_rest, lemma_dec_digits_value, lemma_scan_all_blank, lemma_scan_all_step,
    lemma_scan_comment_text, lemma_scan_keyword_text, lemma_scan_number_text,
    lemma_scan_symbol_text, reveal_keywords, scan_all, scan_token, trim_back, ScanV, StreamV,
    TokenKindV, TokenV,
};
use crate::parse::{
    base_toks, inst_toks, kinds_of, lemma_all_parsed_members, lemma_canonical_tokens_reparse,
    lemma_parse_shape, lemma_parsed_members_all, lemma_parsed_rounds_all, lemma_prim_toks,
    members_toks, nf_base, nf_member, nf_members, nf_rounds, parsed_base, parsed_member,
    parsed_members, parsed_rounds, prim_kind, rounds_toks, stream_tokens, wf_tokens, TokensV,
};
use crate::pretty_print::{dec_digits, render_inst, render_members, render_rounds};
use crate::InstV;

verus! {

/// The text does not open with a digit, so a literal just before it is read
/// whole.
pub open spec fn nondigit_start(t: Seq<char>) -> bool {
    t.len() == 0 || !is_digit(t[0])
}

proof fn reveal_render_lits()
    ensures
        "skip "@ =~= "skip"@ + seq![' '],
        "["@ =~= seq!['['],
        "] in mr"@ =~= seq![']', ' '] + "in mr"@,
        " in mr"@ =~= seq![' '] + "in mr"@,
        "] "@ =~= seq![']', ' '],
        " "@ =~= seq![' '],
        ", "@ =~= seq![',', ' '],
        "% "@ =~= seq!['%', ' '],
        " %"@ =~= seq![' ', '%'],
{
    reveal_keywords();
    reveal_strlit("skip ");
    reveal_strlit("[");
    reveal_strlit("] in mr");
    reveal_strlit(" in mr");
    reveal_strlit("] ");
    reveal_strlit(" ");
    reveal_strlit(", ");
    reveal_strlit("% ");
    reveal_strlit(" %");
}

/// Reading one token prepends its kind to what the rest of the text reads
/// as.
proof fn lemma_one_token(sc: ScanV, t: TokenV, sc2: ScanV)
    requires
        scan_token(sc) == Some((t, sc2)),
    ensures
        kinds_of(scan_all(sc).0) == seq![t.kind] + kinds_of(scan_all(sc2).0),
        scan_all(sc).1 == scan_all(sc2).1,
{
    lemma_scan_all_step(sc, t, sc2);
    assert(kinds_of(seq![t] + scan_all(sc2).0) =~= seq![t.kind] + kinds_of(scan_all(sc2).0));
}

/// A bare stitch keyword renders as its keyword text and stands for one
/// keyword token.
proof fn lemma_prim_render(b: InstV)
    requires
        nf_base(b),
        !(b is Group),
    ensures
        render_inst(b) == kw_text(prim_kind(b)),
        inst_toks(b) =~= seq![prim_kind(b)],
        is_kw_kind(prim_kind(b)),
{
    lemma_prim_toks(b);
}

/// Lexing the canonical text of one normal-form member reads exactly its
/// canonical tokens and goes on with what follows.
proof fn lemma_member_text(i: InstV, sc: ScanV, tail: Seq<char>)
    requires
        nf_member(i),
        sc.rest == render_inst(i) + tail,
        nondigit_start(tail),
    ensures
        ({
            let sc2 = advance(sc, render_inst(i).len() as int);
            &&& sc2.rest == tail
            &&& kinds_of(scan_all(sc).0) == inst_toks(i) + kinds_of(scan_all(sc2).0)
            &&& scan_all(sc).1 == scan_all(sc2).1
        }),
    decreases i, 3int,
{
    match i {
        InstV::Ch | InstV::Sc | InstV::Fpsc | InstV::Bpsc | InstV::Blsc | InstV::Inc
            | InstV::Flinc | InstV::Blinc | InstV::Dec => {
            lemma_member_text_prim(i, sc, tail);
        }
        InstV::Skip(n) => {
            lemma_member_text_skip(i, sc, tail);
        }
        InstV::Comment(s) => {
            lemma_member_text_comment(i, sc, tail);
        }
        InstV::Repeat(b, n) => {
            lemma_member_text_repeat(i, sc, tail);
        }
        InstV::IntoMagicRing(b) => {
            lemma_member_text_mr(i, sc, tail);
        }
        InstV::Group(_) => {
            assert(false);
        }
    }
}

#[verifier::rlimit(100)]
proof fn lemma_member_text_prim(i: InstV, sc: ScanV, tail: Seq<char>)
    requires
        nf_member(i),
        (!(i is Group) && !(i is Skip) && !(i is Comment) && !(i is Repeat) && !(i is IntoMagicRing)),
        sc.rest == render_inst(i) + tail,
        nondigit_start(tail),
    ensures
        ({
            let sc2 = advance(sc, render_inst(i).len() as int);
            &&& sc2.rest == tail
            &&& kinds_of(scan_all(sc).0) == inst_toks(i) + kinds_of(scan_all(sc2).0)
            &&& scan_all(sc).1 == scan_all(sc2).1
        }),
    decreases i, 2int,
{
    reveal_render_lits();
    reveal_keywords();
    let text = render_inst(i);
    let sc2 = advance(sc, text.len() as int);
    lemma_advance_rest(sc, text.len() as int);
    assert(sc.rest.skip(text.len() as int) =~= tail);
            lemma_prim_render(i);
            lemma_scan_keyword_text(sc, prim_kind(i), tail);
            lemma_one_token(
                sc,
                TokenV { kind: prim_kind(i), line: sc.line, col: sc.col },
                advance(sc, text.len() as int),
            );
            assert(inst_toks(i) + kinds_of(scan_all(sc2).0) =~= seq![prim_kind(i)] + kinds_of(
                scan_all(sc2).0,
            ));
}

#[verifier::rlimit(100)]
proof fn lemma_member_text_skip(i: InstV, sc: ScanV, tail: Seq<char>)
    requires
        nf_member(i),
        (i is Skip),
        sc.rest == render_inst(i) + tail,
        nondigit_start(tail),
    ensures
        ({
            let sc2 = advance(sc, render_inst(i).len() as int);
            &&& sc2.rest == tail
            &&& kinds_of(scan_all(sc).0) == inst_toks(i) + kinds_of(scan_all(sc2).0)
            &&& scan_all(sc).1 == scan_all(sc2).1
        }),
    decreases i, 2int,
{
    reveal_render_lits();
    reveal_keywords();
    let text = render_inst(i);
    let sc2 = advance(sc, text.len() as int);
    lemma_advance_rest(sc, text.len() as int);
    assert(sc.rest.skip(text.len() as int) =~= tail);
    let n = i->Skip_0;
            assert(text =~= "skip"@ + (seq![' '] + dec_digits(n as int)));
            assert(sc.rest =~= "skip"@ + (seq![' '] + dec_digits(n as int) + tail));
            lemma_scan_keyword_text(sc, TokenKindV::Skip, seq![' '] + dec_digits(n as int) + tail);
            let sc_a = advance(sc, 4);
            assert(kw_text(TokenKindV::Skip).len() == 4);
            lemma_one_token(sc, TokenV { kind: TokenKindV::Skip, line: sc.line, col: sc.col }, sc_a);
            lemma_advance_rest(sc, 4);
            assert(sc_a.rest =~= seq![' '] + dec_digits(n as int) + tail);
            lemma_scan_all_blank(sc_a);
            let sc_b = advance1(sc_a);
            assert(sc_b.rest =~= dec_digits(n as int) + tail);
            lemma_scan_number_text(sc_b, n as int, tail);
            lemma_dec_digits_value(n as int);
            let m = dec_digits(n as int).len() as int;
            lemma_one_token(
                sc_b,
                TokenV { kind: TokenKindV::Number(n), line: sc_b.line, col: sc_b.col },
                advance(sc_b, m),
            );
            assert(advance(sc_a, 1) == sc_b) by {
                reveal_with_fuel(advance, 2);
            }
            lemma_advance_add(sc, 4, 1);
            lemma_advance_add(sc, 5, m);
            assert(advance(sc_b, m) == sc2);
            assert(inst_toks(i) =~= seq![TokenKindV::Skip, TokenKindV::Number(n)]);
            assert(kinds_of(scan_all(sc).0) =~= inst_toks(i) + kinds_of(scan_all(sc2).0));
}

#[verifier::rlimit(100)]
proof fn lemma_member_text_comment(i: InstV, sc: ScanV, tail: Seq<char>)
    requires
        nf_member(i),
        (i is Comment),
        sc.rest == render_inst(i) + tail,
        nondigit_start(tail),
    ensures
        ({
            let sc2 = advance(sc, render_inst(i).len() as int);
            &&& sc2.rest == tail
            &&& kinds_of(scan_all(sc).0) == inst_toks(i) + kinds_of(scan_all(sc2).0)
            &&& scan_all(sc).1 == scan_all(sc2).1
        }),
    decreases i, 2int,
{
    reveal_render_lits();
    reveal_keywords();
    let text = render_inst(i);
    let sc2 = advance(sc, text.len() as int);
    lemma_advance_rest(sc, text.len() as int);
    assert(sc.rest.skip(text.len() as int) =~= tail);
    let s = i->Comment_0;
            assert(text =~= seq!['%', ' '] + s + seq![' ', '%']);
            assert(sc.rest =~= seq!['%', ' '] + s + seq![' ', '%'] + tail);
            lemma_scan_comment_text(sc, s, tail);
            lemma_one_token(
                sc,
                TokenV { kind: TokenKindV::Comment(s), line: sc.line, col: sc.col },
                advance(sc, s.len() as int + 4),
            );
            assert(text.len() == s.len() + 4);
            assert(inst_toks(i) =~= seq![TokenKindV::Comment(s)]);
            assert(kinds_of(scan_all(sc).0) =~= inst_toks(i) + kinds_of(scan_all(sc2).0));
}

#[verifier::rlimit(100)]
proof fn lemma_member_text_repeat(i: InstV, sc: ScanV, tail: Seq<char>)
    requires
        nf_member(i),
        (i is Repeat),
        sc.rest == render_inst(i) + tail,
        nondigit_start(tail),
    ensures
        ({
            let sc2 = advance(sc, render_inst(i).len() as int);
            &&& sc2.rest == tail
            &&& kinds_of(scan_all(sc).0) == inst_toks(i) + kinds_of(scan_all(sc2).0)
            &&& scan_all(sc).1 == scan_all(sc2).1
        }),
    decreases i, 2int,
{
    let b = i->Repeat_0;
    if *b is Group {
        lemma_member_text_repeat_group(i, sc, tail);
    } else {
        lemma_member_text_repeat_prim(i, sc, tail);
    }
}

/// Lexing a bracketed group reads the bracket tokens around its members'
/// canonical tokens.
#[verifier::rlimit(100)]
proof fn lemma_group_base_text(xs: Seq<InstV>, sc: ScanV, tail2: Seq<char>)
    requires
        xs.len() >= 1,
        nf_members(xs, 0),
        sc.rest == seq!['['] + render_members(xs, 0) + seq![']'] + tail2,
        nondigit_start(tail2),
    ensures
        ({
            let sc2 = advance(sc, render_members(xs, 0).len() as int + 2);
            &&& sc2.rest == tail2
            &&& kinds_of(scan_all(sc).0) == (seq![TokenKindV::LBracket] + members_toks(xs, 0)
                + seq![TokenKindV::RBracket]) + kinds_of(scan_all(sc2).0)
            &&& scan_all(sc).1 == scan_all(sc2).1
        }),
    decreases xs, xs.len() + 1,
{
    reveal_render_lits();
    let inner = render_members(xs, 0);
    let li = inner.len() as int;
    let sc2 = advance(sc, li + 2);
    lemma_advance_rest(sc, li + 2);
    assert(sc.rest.skip(li + 2) =~= tail2);
    assert(sc.rest[0] == '[');
    lemma_scan_symbol_text(sc);
    let sc_a = advance1(sc);
    assert(sc_a.rest =~= inner + (seq![']'] + tail2));
    lemma_one_token(sc, TokenV { kind: TokenKindV::LBracket, line: sc.line, col: sc.col }, sc_a);
    assert(inner =~= render_inst(xs[0]) + render_members(xs, 1));
    assert(sc_a.rest == render_inst(xs[0]) + render_members(xs, 1) + (seq![']'] + tail2)) by {
        assert(inner + (seq![']'] + tail2) =~= render_inst(xs[0]) + render_members(xs, 1) + (seq![
            ']',
        ] + tail2));
    }
    lemma_members_text(xs, 0, sc_a, seq![']'] + tail2);
    let sc_c = advance(sc_a, (render_inst(xs[0]) + render_members(xs, 1)).len() as int);
    assert(sc_c.rest =~= seq![']'] + tail2);
    assert(sc_c.rest[0] == ']');
    lemma_scan_symbol_text(sc_c);
    let sc_d = advance1(sc_c);
    lemma_one_token(
        sc_c,
        TokenV { kind: TokenKindV::RBracket, line: sc_c.line, col: sc_c.col },
        sc_d,
    );
    assert(sc_d.rest =~= tail2);
    assert(advance(sc, 1) == sc_a) by {
        reveal_with_fuel(advance, 2);
    }
    assert(advance(sc_c, 1) == sc_d) by {
        reveal_with_fuel(advance, 2);
    }
    lemma_advance_add(sc, 1, li);
    lemma_advance_add(sc, 1 + li, 1);
    assert(sc_d == sc2);
    assert(kinds_of(scan_all(sc).0) =~= (seq![TokenKindV::LBracket] + members_toks(xs, 0) + seq![
        TokenKindV::RBracket,
    ]) + kinds_of(scan_all(sc2).0));
}

#[verifier::rlimit(100)]
proof fn lemma_member_text_repeat_group(i: InstV, sc: ScanV, tail: Seq<char>)
    requires
        nf_member(i),
        (i is Repeat),
        ((*i->Repeat_0) is Group),
        sc.rest == render_inst(i) + tail,
        nondigit_start(tail),
    ensures
        ({
            let sc2 = advance(sc, render_inst(i).len() as int);
            &&& sc2.rest == tail
            &&& kinds_of(scan_all(sc).0) == inst_toks(i) + kinds_of(scan_all(sc2).0)
            &&& scan_all(sc).1 == scan_all(sc2).1
        }),
    decreases i, 1int,
{
    reveal_render_lits();
    let text = render_inst(i);
    let sc2 = advance(sc, text.len() as int);
    lemma_advance_rest(sc, text.len() as int);
    assert(sc.rest.skip(text.len() as int) =~= tail);
    let b = i->Repeat_0;
    let n = i->Repeat_1;
    lemma_dec_digits_value(n as int);
    let d = dec_digits(n as int);
    let m = d.len() as int;
    let xs = (*b)->Group_0;
    let inner = render_members(xs, 0);
    let li = inner.len() as int;
    assert(render_inst(*b) == inner);
    assert(sc.rest == seq!['['] + inner + seq![']'] + (seq![' '] + (d + tail))) by {
        assert(text =~= seq!['['] + inner + seq![']', ' '] + d);
        assert(text + tail =~= seq!['['] + inner + seq![']'] + (seq![' '] + (d + tail)));
    }
    assert(decreases_to!(i => i->Repeat_0));
    assert(i->Repeat_0 == *b);
    assert(decreases_to!(*b => (*b)->Group_0));
    assert(xs.len() >= 1 && nf_members(xs, 0));
    lemma_group_base_text(xs, sc, seq![' '] + (d + tail));
    let sc_d = advance(sc, li + 2);
    assert(sc_d.rest == seq![' '] + (d + tail));
    lemma_scan_all_blank(sc_d);
    let sc_e = advance1(sc_d);
    assert(sc_e.rest =~= d + tail);
    lemma_scan_number_text(sc_e, n as int, tail);
    lemma_one_token(
        sc_e,
        TokenV { kind: TokenKindV::Number(n), line: sc_e.line, col: sc_e.col },
        advance(sc_e, m),
    );
    assert(advance(sc_d, 1) == sc_e) by {
        reveal_with_fuel(advance, 2);
    }
    lemma_advance_add(sc, li + 2, 1);
    lemma_advance_add(sc, li + 3, m);
    assert(text.len() == li + 3 + m);
    assert(advance(sc_e, m) == sc2);
    assert(inst_toks(i) =~= (seq![TokenKindV::LBracket] + members_toks(xs, 0) + seq![
        TokenKindV::RBracket,
    ]) + seq![TokenKindV::Number(n)]);
    assert(kinds_of(scan_all(sc).0) =~= inst_toks(i) + kinds_of(scan_all(sc2).0));
}

#[verifier::rlimit(100)]
proof fn lemma_member_text_repeat_prim(i: InstV, sc: ScanV, tail: Seq<char>)
    requires
        nf_member(i),
        (i is Repeat),
        (!((*i->Repeat_0) is Group)),
        sc.rest == render_inst(i) + tail,
        nondigit_start(tail),
    ensures
        ({
            let sc2 = advance(sc, render_inst(i).len() as int);
            &&& sc2.rest == tail
            &&& kinds_of(scan_all(sc).0) == inst_toks(i) + kinds_of(scan_all(sc2).0)
            &&& scan_all(sc).1 == scan_all(sc2).1
        }),
    decreases i, 1int,
{
    reveal_render_lits();
    reveal_keywords();
    let text = render_inst(i);
    let sc2 = advance(sc, text.len() as int);
    lemma_advance_rest(sc, text.len() as int);
    assert(sc.rest.skip(text.len() as int) =~= tail);
    let b = i->Repeat_0;
    let n = i->Repeat_1;
    lemma_dec_digits_value(n as int);
    let d = dec_digits(n as int);
    let m = d.len() as int;
    lemma_prim_render(*b);
    let bt = render_inst(*b);
    assert(text =~= bt + (seq![' '] + d));
    assert(sc.rest =~= bt + (seq![' '] + (d + tail)));
    lemma_scan_keyword_text(sc, prim_kind(*b), seq![' '] + (d + tail));
    let lb = bt.len() as int;
    let sc_a = advance(sc, lb);
    lemma_one_token(sc, TokenV { kind: prim_kind(*b), line: sc.line, col: sc.col }, sc_a);
    lemma_advance_rest(sc, lb);
    assert(sc_a.rest =~= seq![' '] + (d + tail));
    lemma_scan_all_blank(sc_a);
    let sc_b = advance1(sc_a);
    assert(sc_b.rest =~= d + tail);
    lemma_scan_number_text(sc_b, n as int, tail);
    lemma_one_token(
        sc_b,
        TokenV { kind: TokenKindV::Number(n), line: sc_b.line, col: sc_b.col },
        advance(sc_b, m),
    );
    assert(advance(sc_a, 1) == sc_b) by {
        reveal_with_fuel(advance, 2);
    }
    lemma_advance_add(sc, lb, 1);
    lemma_advance_add(sc, lb + 1, m);
    assert(text.len() == lb + 1 + m);
    assert(advance(sc_b, m) == sc2);
    assert(inst_toks(i) =~= seq![prim_kind(*b)] + seq![TokenKindV::Number(n)]);
    assert(kinds_of(scan_all(sc).0) =~= inst_toks(i) + kinds_of(scan_all(sc2).0));
}

#[verifier::rlimit(100)]
proof fn lemma_member_text_mr(i: InstV, sc: ScanV, tail: Seq<char>)
    requires
        nf_member(i),
        (i is IntoMagicRing),
        sc.rest == render_inst(i) + tail,
        nondigit_start(tail),
    ensures
        ({
            let sc2 = advance(sc, render_inst(i).len() as int);
            &&& sc2.rest == tail
            &&& kinds_of(scan_all(sc).0) == inst_toks(i) + kinds_of(scan_all(sc2).0)
            &&& scan_all(sc).1 == scan_all(sc2).1
        }),
    decreases i, 2int,
{
    let b = i->IntoMagicRing_0;
    if *b is Group {
        lemma_member_text_mr_group(i, sc, tail);
    } else {
        lemma_member_text_mr_other(i, sc, tail);
    }
}

#[verifier::rlimit(100)]
proof fn lemma_member_text_mr_group(i: InstV, sc: ScanV, tail: Seq<char>)
    requires
        nf_member(i),
        (i is IntoMagicRing),
        ((*i->IntoMagicRing_0) is Group),
        sc.rest == render_inst(i) + tail,
        nondigit_start(tail),
    ensures
        ({
            let sc2 = advance(sc, render_inst(i).len() as int);
            &&& sc2.rest == tail
            &&& kinds_of(scan_all(sc).0) == inst_toks(i) + kinds_of(scan_all(sc2).0)
            &&& scan_all(sc).1 == scan_all(sc2).1
        }),
    decreases i, 1int,
{
    reveal_render_lits();
    reveal_keywords();
    let text = render_inst(i);
    let sc2 = advance(sc, text.len() as int);
    lemma_advance_rest(sc, text.len() as int);
    assert(sc.rest.skip(text.len() as int) =~= tail);
    let b = i->IntoMagicRing_0;
    let xs = (*b)->Group_0;
    let inner = render_members(xs, 0);
    let li = inner.len() as int;
    assert(render_inst(*b) == inner);
    assert(sc.rest == seq!['['] + inner + seq![']'] + (seq![' '] + ("in mr"@ + tail))) by {
        assert(text =~= seq!['['] + inner + (seq![']', ' '] + "in mr"@));
        assert(text + tail =~= seq!['['] + inner + seq![']'] + (seq![' '] + ("in mr"@ + tail)));
    }
    assert(decreases_to!(i => i->IntoMagicRing_0));
    assert(i->IntoMagicRing_0 == *b);
    assert(decreases_to!(*b => (*b)->Group_0));
    assert(xs.len() >= 1 && nf_members(xs, 0));
    lemma_group_base_text(xs, sc, seq![' '] + ("in mr"@ + tail));
    let sc_d = advance(sc, li + 2);
    assert(sc_d.rest == seq![' '] + ("in mr"@ + tail));
    lemma_scan_all_blank(sc_d);
    let sc_e = advance1(sc_d);
    assert(sc_e.rest =~= "in mr"@ + tail);
    lemma_scan_keyword_text(sc_e, TokenKindV::InMr, tail);
    assert(kw_text(TokenKindV::InMr).len() == 5);
    lemma_one_token(
        sc_e,
        TokenV { kind: TokenKindV::InMr, line: sc_e.line, col: sc_e.col },
        advance(sc_e, 5),
    );
    assert(advance(sc_d, 1) == sc_e) by {
        reveal_with_fuel(advance, 2);
    }
    lemma_advance_add(sc, li + 2, 1);
    lemma_advance_add(sc, li + 3, 5);
    assert(text.len() == li + 8);
    assert(advance(sc_e, 5) == sc2);
    assert(inst_toks(i) =~= (seq![TokenKindV::LBracket] + members_toks(xs, 0) + seq![
        TokenKindV::RBracket,
    ]) + seq![TokenKindV::InMr]);
    assert(kinds_of(scan_all(sc).0) =~= inst_toks(i) + kinds_of(scan_all(sc2).0));
}

#[verifier::rlimit(100)]
proof fn lemma_member_text_mr_other(i: InstV, sc: ScanV, tail: Seq<char>)
    requires
        nf_member(i),
        (i is IntoMagicRing),
        (!((*i->IntoMagicRing_0) is Group)),
        sc.rest == render_inst(i) + tail,
        nondigit_start(tail),
    ensures
        ({
            let sc2 = advance(sc, render_inst(i).len() as int);
            &&& sc2.rest == tail
            &&& kinds_of(scan_all(sc).0) == inst_toks(i) + kinds_of(scan_all(sc2).0)
            &&& scan_all(sc).1 == scan_all(sc2).1
        }),
    decreases i, 1int,
{
    reveal_render_lits();
    reveal_keywords();
    let text = render_inst(i);
    let sc2 = advance(sc, text.len() as int);
    lemma_advance_rest(sc, text.len() as int);
    assert(sc.rest.skip(text.len() as int) =~= tail);
    let b = i->IntoMagicRing_0;
    assert(nf_member(*b)) by {
        match *b {
            InstV::Repeat(b2, n2) => {}
            _ => {
                assert(nf_base(*b));
            }
        }
    }
    let bt = render_inst(*b);
    assert(text =~= bt + (seq![' '] + "in mr"@));
    assert(sc.rest =~= bt + (seq![' '] + ("in mr"@ + tail)));
    assert(decreases_to!(i => i->IntoMagicRing_0));
    assert(i->IntoMagicRing_0 == *b);
    lemma_member_text(*b, sc, seq![' '] + ("in mr"@ + tail));
    let lb = bt.len() as int;
    let sc_a = advance(sc, lb);
    assert(sc_a.rest == seq![' '] + ("in mr"@ + tail));
    lemma_scan_all_blank(sc_a);
    let sc_b = advance1(sc_a);
    assert(sc_b.rest =~= "in mr"@ + tail);
    lemma_scan_keyword_text(sc_b, TokenKindV::InMr, tail);
    assert(kw_text(TokenKindV::InMr).len() == 5);
    lemma_one_token(
        sc_b,
        TokenV { kind: TokenKindV::InMr, line: sc_b.line, col: sc_b.col },
        advance(sc_b, 5),
    );
    assert(advance(sc_a, 1) == sc_b) by {
        reveal_with_fuel(advance, 2);
    }
    lemma_advance_add(sc, lb, 1);
    lemma_advance_add(sc, lb + 1, 5);
    assert(text.len() == lb + 6);
    assert(advance(sc_b, 5) == sc2);
    assert(inst_toks(i) =~= inst_toks(*b) + seq![TokenKindV::InMr]) by {
        match *b {
            InstV::Repeat(b2, n2) => {
                assert(inst_toks(*b) =~= base_toks(*b2) + seq![TokenKindV::Number(n2)]);
            }
            _ => {
                lemma_prim_toks(*b);
            }
        }
    }
    assert(kinds_of(scan_all(sc).0) =~= inst_toks(i) + kinds_of(scan_all(sc2).0));
}

/// Lexing the canonical text of a normal-form group's members from position
/// `k` on reads exactly their canonical tokens.
#[verifier::rlimit(100)]
proof fn lemma_members_text(xs: Seq<InstV>, k: int, sc: ScanV, tail: Seq<char>)
    requires
        0 <= k < xs.len(),
        nf_members(xs, k),
        sc.rest == render_inst(xs[k]) + render_members(xs, k + 1) + tail,
        nondigit_start(tail),
    ensures
        ({
            let sc2 = advance(sc, (render_inst(xs[k]) + render_members(xs, k + 1)).len() as int);
            &&& sc2.rest == tail
            &&& kinds_of(scan_all(sc).0) == (inst_toks(xs[k]) + members_toks(xs, k + 1))
                + kinds_of(scan_all(sc2).0)
            &&& scan_all(sc).1 == scan_all(sc2).1
        }),
    decreases xs, xs.len() - k,
{
    reveal_render_lits();
    reveal_keywords();
    let text = render_inst(xs[k]) + render_members(xs, k + 1);
    let sc2 = advance(sc, text.len() as int);
    lemma_advance_rest(sc, text.len() as int);
    assert(sc.rest.skip(text.len() as int) =~= tail);
    let l0 = render_inst(xs[k]).len() as int;
    if k == xs.len() - 1 {
        assert(render_members(xs, k + 1) =~= Seq::empty());
        assert(text =~= render_inst(xs[k]));
        assert(sc.rest =~= render_inst(xs[k]) + tail);
        lemma_member_text(xs[k], sc, tail);
        assert(members_toks(xs, k + 1) =~= Seq::empty());
        assert(inst_toks(xs[k]) + members_toks(xs, k + 1) =~= inst_toks(xs[k]));
    } else {
        let restpart = render_inst(xs[k + 1]) + render_members(xs, k + 2);
        assert(render_members(xs, k + 1) =~= seq![',', ' '] + restpart);
        assert(sc.rest =~= render_inst(xs[k]) + (seq![',', ' '] + restpart + tail));
        lemma_member_text(xs[k], sc, seq![',', ' '] + restpart + tail);
        let sc_a = advance(sc, l0);
        assert(sc_a.rest == seq![',', ' '] + restpart + tail);
        assert(sc_a.rest[0] == ',');
        lemma_scan_symbol_text(sc_a);
        let sc_b = advance1(sc_a);
        lemma_one_token(
            sc_a,
            TokenV { kind: TokenKindV::Comma, line: sc_a.line, col: sc_a.col },
            sc_b,
        );
        assert(sc_b.rest =~= seq![' '] + (restpart + tail));
        lemma_scan_all_blank(sc_b);
        let sc_c = advance1(sc_b);
        assert(sc_c.rest =~= restpart + tail);
        lemma_members_text(xs, k + 1, sc_c, tail);
        let lr = restpart.len() as int;
        assert(advance(sc_a, 1) == sc_b) by {
            reveal_with_fuel(advance, 2);
        }
        assert(advance(sc_b, 1) == sc_c) by {
            reveal_with_fuel(advance, 2);
        }
        lemma_advance_add(sc, l0, 1);
        lemma_advance_add(sc, l0 + 1, 1);
        lemma_advance_add(sc, l0 + 2, lr);
        assert(text.len() == l0 + 2 + lr);
        assert(advance(sc_c, lr) == sc2);
        assert(members_toks(xs, k + 1) =~= seq![TokenKindV::Comma] + (inst_toks(xs[k + 1])
            + members_toks(xs, k + 2)));
        assert(kinds_of(scan_all(sc).0) =~= (inst_toks(xs[k]) + members_toks(xs, k + 1))
            + kinds_of(scan_all(sc2).0));
    }
}

/// Nothing is read at the end of the text.
proof fn lemma_scan_all_empty(sc: ScanV)
    requires
        sc.rest.len() == 0,
    ensures
        scan_all(sc).0 =~= Seq::<TokenV>::empty(),
        scan_all(sc).1 == sc,
{
    reveal_keywords();
    assert(crate::lex::skip_blanks(sc) == sc);
    assert(scan_token(sc) is None);
}

/// Canonical member text neither is empty nor ends in whitespace.
proof fn lemma_member_text_last(i: InstV)
    requires
        nf_member(i),
    ensures
        render_inst(i).len() >= 1,
        !is_space(render_inst(i).last()),
    decreases i, 2int,
{
    reveal_render_lits();
    reveal_keywords();
    match i {
        InstV::Skip(n) => {
            lemma_dec_digits_value(n as int);
            assert(render_inst(i).last() == dec_digits(n as int).last());
            assert(is_digit(dec_digits(n as int).last()));
        }
        InstV::Comment(s) => {
            assert(render_inst(i).last() == '%');
        }
        InstV::Repeat(b, n) => {
            lemma_dec_digits_value(n as int);
            assert(render_inst(i).last() == dec_digits(n as int).last());
            assert(is_digit(dec_digits(n as int).last()));
        }
        InstV::IntoMagicRing(b) => {
            assert(render_inst(i).last() == 'r');
        }
        InstV::Group(_) => {
            assert(false);
        }
        _ => {
            lemma_prim_render(i);
        }
    }
}

/// Canonical member-list text neither is empty nor ends in whitespace.
proof fn lemma_members_text_last(xs: Seq<InstV>, k: int)
    requires
        0 <= k < xs.len(),
        nf_members(xs, k),
    ensures
        (render_inst(xs[k]) + render_members(xs, k + 1)).len() >= 1,
        !is_space((render_inst(xs[k]) + render_members(xs, k + 1)).last()),
    decreases xs.len() - k,
{
    lemma_member_text_last(xs[k]);
    if k == xs.len() - 1 {
        assert(render_members(xs, k + 1) =~= Seq::empty());
        assert((render_inst(xs[k]) + render_members(xs, k + 1)).last() == render_inst(
            xs[k],
        ).last());
    } else {
        lemma_members_text_last(xs, k + 1);
        reveal_render_lits();
        assert(render_members(xs, k + 1) =~= seq![',', ' '] + (render_inst(xs[k + 1])
            + render_members(xs, k + 2)));
        assert((render_inst(xs[k]) + render_members(xs, k + 1)).last() == (render_inst(xs[k + 1])
            + render_members(xs, k + 2)).last());
    }
}

/// Canonical pattern text from a round on neither is empty nor ends in
/// whitespace.
proof fn lemma_rounds_text_last(rs: Seq<InstV>, k: int)
    requires
        0 <= k < rs.len(),
        nf_rounds(rs, k),
    ensures
        (render_inst(rs[k]) + render_rounds(rs, k + 1)).len() >= 1,
        !is_space((render_inst(rs[k]) + render_rounds(rs, k + 1)).last()),
    decreases rs.len() - k,
{
    let xs = rs[k]->Group_0;
    assert(render_inst(rs[k]) == render_members(xs, 0));
    lemma_members_text_last(xs, 0);
    assert(render_members(xs, 0) =~= render_inst(xs[0]) + render_members(xs, 1));
    if k == rs.len() - 1 {
        assert(render_rounds(rs, k + 1) =~= Seq::empty());
        assert((render_inst(rs[k]) + render_rounds(rs, k + 1)).last() == render_members(
            xs,
            0,
        ).last());
    } else {
        lemma_rounds_text_last(rs, k + 1);
        assert(render_rounds(rs, k + 1) =~= seq!['\n'] + (render_inst(rs[k + 1]) + render_rounds(
            rs,
            k + 2,
        )));
        assert((render_inst(rs[k]) + render_rounds(rs, k + 1)).last() == (render_inst(rs[k + 1])
            + render_rounds(rs, k + 2)).last());
    }
}

/// Lexing the canonical text of a normal-form pattern from round `k` on
/// reads exactly its canonical tokens, consuming the whole text.
#[verifier::rlimit(100)]
proof fn lemma_rounds_text(rs: Seq<InstV>, k: int, sc: ScanV)
    requires
        0 <= k < rs.len(),
        nf_rounds(rs, k),
        sc.rest == render_inst(rs[k]) + render_rounds(rs, k + 1),
    ensures
        kinds_of(scan_all(sc).0) == inst_toks(rs[k]) + rounds_toks(rs, k + 1),
        scan_all(sc).1.rest.len() == 0,
    decreases rs.len() - k,
{
    reveal_render_lits();
    let xs = rs[k]->Group_0;
    assert(render_inst(rs[k]) == render_members(xs, 0));
    assert(render_members(xs, 0) =~= render_inst(xs[0]) + render_members(xs, 1));
    assert(inst_toks(rs[k]) =~= members_toks(xs, 0));
    assert(members_toks(xs, 0) =~= inst_toks(xs[0]) + members_toks(xs, 1));
    let tail = render_rounds(rs, k + 1);
    assert(sc.rest =~= (render_inst(xs[0]) + render_members(xs, 1)) + tail);
    if k == rs.len() - 1 {
        assert(tail =~= Seq::empty());
        lemma_members_text(xs, 0, sc, tail);
        let sc2 = advance(sc, (render_inst(xs[0]) + render_members(xs, 1)).len() as int);
        lemma_scan_all_empty(sc2);
        assert(rounds_toks(rs, k + 1) =~= Seq::empty());
        assert(kinds_of(scan_all(sc2).0) =~= Seq::empty());
        assert(kinds_of(scan_all(sc).0) =~= inst_toks(rs[k]) + rounds_toks(rs, k + 1));
    } else {
        assert(tail =~= seq!['\n'] + (render_inst(rs[k + 1]) + render_rounds(rs, k + 2)));
        lemma_members_text(xs, 0, sc, tail);
        let sc2 = advance(sc, (render_inst(xs[0]) + render_members(xs, 1)).len() as int);
        assert(sc2.rest[0] == '\n');
        lemma_scan_symbol_text(sc2);
        let sc3 = advance1(sc2);
        lemma_one_token(
            sc2,
            TokenV { kind: TokenKindV::Newline, line: sc2.line, col: sc2.col },
            sc3,
        );
        assert(sc3.rest =~= render_inst(rs[k + 1]) + render_rounds(rs, k + 2));
        assert(nf_rounds(rs, k + 1));
        lemma_rounds_text(rs, k + 1, sc3);
        assert(rounds_toks(rs, k + 1) =~= seq![TokenKindV::Newline] + (inst_toks(rs[k + 1])
            + rounds_toks(rs, k + 2)));
        assert(kinds_of(scan_all(sc).0) =~= inst_toks(rs[k]) + rounds_toks(rs, k + 1));
    }
}

/// The round-trip law over text: a pattern in the normal form that
/// canonical text denotes is parsed back exactly from its own rendering.
///
/// Together with the serializer's contracts this says that rendering such
/// rounds and parsing the rendered text yields the same rounds again, so a
/// second rendering is character-for-character the first. A parse result
/// can also hold a group without suffix as a member of another group, whose
/// brackets the serializer drops; such a member re-parses spliced into its
/// parent, which this law does not cover.
pub proof fn lemma_render_reparse(rs: Seq<InstV>)
    requires
        nf_rounds(rs, 0),
    ensures
        crate::spec_parse_rounds(render_rounds(rs, 0)) == Ok::<Seq<InstV>, (int, int)>(rs),
{
    let text = render_rounds(rs, 0);
    if rs.len() == 0 {
        assert(text =~= Seq::empty());
        assert(trim_back(text) == text);
        let sc0 = ScanV { rest: trim_back(text), line: 1, col: 1 };
        lemma_scan_all_empty(sc0);
        let m0 = StreamV { scan: sc0, peeked: None };
        assert(stream_tokens(m0).toks =~= Seq::empty());
        assert(kinds_of(stream_tokens(m0).toks) =~= rounds_toks(rs, 0));
        lemma_canonical_tokens_reparse(rs, stream_tokens(m0).toks, stream_tokens(m0).end);
        assert(stream_tokens(m0) =~= (TokensV { toks: stream_tokens(m0).toks, end: stream_tokens(m0).end }));
    } else {
        assert(text =~= render_inst(rs[0]) + render_rounds(rs, 1));
        lemma_rounds_text_last(rs, 0);
        assert(!is_space(text.last()));
        assert(trim_back(text) == text);
        let sc0 = ScanV { rest: trim_back(text), line: 1, col: 1 };
        assert(sc0.rest == render_inst(rs[0]) + render_rounds(rs, 1));
        lemma_rounds_text(rs, 0, sc0);
        assert(kinds_of(scan_all(sc0).0) =~= rounds_toks(rs, 0));
        let m0 = StreamV { scan: sc0, peeked: None };
        assert(stream_tokens(m0).toks == scan_all(sc0).0);
        assert(stream_tokens(m0).end == scan_all(sc0).1);
        lemma_canonical_tokens_reparse(rs, stream_tokens(m0).toks, stream_tokens(m0).end);
        assert(stream_tokens(m0) =~= (TokensV { toks: stream_tokens(m0).toks, end: stream_tokens(m0).end }));
    }
}

/// No group without a suffix stands as a member anywhere in the tree.
///
/// The serializer drops the brackets of such a member, so its text
/// re-parses spliced into the surrounding group.
pub open spec fn no_bare_member(i: InstV) -> bool
    decreases i, 0int,
{
    match i {
        InstV::Group(_) => false,
        InstV::Repeat(b, _) => no_bare_base(*b),
        InstV::IntoMagicRing(b) => (match *b {
            InstV::Repeat(b2, _) => no_bare_base(*b2),
            _ => no_bare_base(*b),
        }),
        _ => true,
    }
}

/// As `no_bare_member`, for the base a suffix hangs on.
pub open spec fn no_bare_base(b: InstV) -> bool
    decreases b, 1int,
{
    match b {
        InstV::Group(xs) => no_bare_members(xs, 0),
        _ => true,
    }
}

/// As `no_bare_member`, for all members from position `k` on.
pub open spec fn no_bare_members(xs: Seq<InstV>, k: int) -> bool
    decreases xs, xs.len() - k,
{
    if k < 0 || k >= xs.len() {
        true
    } else {
        no_bare_member(xs[k]) && no_bare_members(xs, k + 1)
    }
}

/// As `no_bare_member`, for all rounds from position `k` on; a round is
/// itself a group, which is its natural place.
pub open spec fn no_bare_rounds(rs: Seq<InstV>, k: int) -> bool
    decreases rs.len() - k,
{
    if k < 0 || k >= rs.len() {
        true
    } else {
        (match rs[k] {
            InstV::Group(xs) => no_bare_members(xs, 0),
            _ => true,
        }) && no_bare_rounds(rs, k + 1)
    }
}

proof fn lemma_parsed_no_bare_nf(i: InstV)
    requires
        parsed_member(i),
        no_bare_member(i),
    ensures
        nf_member(i),
    decreases i, 2int,
{
    match i {
        InstV::Repeat(b, _) => {
            lemma_parsed_no_bare_nf_base(*b);
        }
        InstV::IntoMagicRing(b) => {
            match *b {
                InstV::Repeat(b2, _) => {
                    lemma_parsed_no_bare_nf_base(*b2);
                }
                _ => {
                    lemma_parsed_no_bare_nf_base(*b);
                }
            }
        }
        _ => {}
    }
}

proof fn lemma_parsed_no_bare_nf_base(b: InstV)
    requires
        parsed_base(b),
        no_bare_base(b),
    ensures
        nf_base(b),
    decreases b, 1int,
{
    match b {
        InstV::Group(xs) => {
            lemma_parsed_no_bare_nf_members(xs, 0);
        }
        _ => {}
    }
}

proof fn lemma_parsed_no_bare_nf_members(xs: Seq<InstV>, k: int)
    requires
        parsed_members(xs, k),
        no_bare_members(xs, k),
    ensures
        nf_members(xs, k),
    decreases xs, xs.len() - k,
{
    if 0 <= k < xs.len() {
        lemma_parsed_no_bare_nf(xs[k]);
        lemma_parsed_no_bare_nf_members(xs, k + 1);
    }
}

proof fn lemma_parsed_no_bare_nf_rounds(rs: Seq<InstV>, k: int)
    requires
        parsed_rounds(rs, k),
        no_bare_rounds(rs, k),
    ensures
        nf_rounds(rs, k),
    decreases rs.len() - k,
{
    if 0 <= k < rs.len() {
        let xs = rs[k]->Group_0;
        lemma_parsed_no_bare_nf_members(xs, 0);
        lemma_parsed_no_bare_nf_rounds(rs, k + 1);
    }
}

/// The members of a group rendered as a comma-separated list, head first.
pub open spec fn render_list(ys: Seq<InstV>) -> Seq<char>
    decreases ys.len(),
{
    if ys.len() == 0 {
        Seq::empty()
    } else if ys.len() == 1 {
        render_inst(ys[0])
    } else {
        render_inst(ys[0]) + ", "@ + render_list(ys.skip(1))
    }
}

proof fn lemma_render_list_members(xs: Seq<InstV>, k: int)
    requires
        0 <= k < xs.len(),
    ensures
        render_inst(xs[k]) + render_members(xs, k + 1) == render_list(xs.skip(k)),
    decreases xs.len() - k,
{
    if k == xs.len() - 1 {
        assert(render_members(xs, k + 1) =~= Seq::empty());
        assert(xs.skip(k) =~= seq![xs[k]]);
        assert(render_inst(xs[k]) + render_members(xs, k + 1) =~= render_inst(xs.skip(k)[0]));
    } else {
        lemma_render_list_members(xs, k + 1);
        assert(render_members(xs, k + 1) =~= ", "@ + (render_inst(xs[k + 1]) + render_members(
            xs,
            k + 2,
        )));
        assert(xs.skip(k).len() > 1);
        assert(xs.skip(k)[0] == xs[k]);
        assert(xs.skip(k).skip(1) =~= xs.skip(k + 1));
        assert(render_inst(xs[k]) + render_members(xs, k + 1) =~= render_inst(xs.skip(k)[0])
            + ", "@ + render_list(xs.skip(k).skip(1)));
    }
}

proof fn lemma_render_list_concat(a: Seq<InstV>, b: Seq<InstV>)
    requires
        a.len() > 0,
        b.len() > 0,
    ensures
        render_list(a + b) == render_list(a) + ", "@ + render_list(b),
    decreases a.len(),
{
    if a.len() == 1 {
        assert((a + b).len() > 1);
        assert((a + b)[0] == a[0]);
        assert((a + b).skip(1) =~= b);
        assert(render_list(a + b) =~= render_inst(a[0]) + ", "@ + render_list(b));
    } else {
        lemma_render_list_concat(a.skip(1), b);
        assert((a + b)[0] == a[0]);
        assert((a + b).skip(1) =~= a.skip(1) + b);
        assert(render_list(a) =~= render_inst(a[0]) + ", "@ + render_list(a.skip(1)));
        assert(render_list(a + b) =~= render_inst(a[0]) + ", "@ + (render_list(a.skip(1)) + ", "@
            + render_list(b)));
        assert(render_inst(a[0]) + ", "@ + (render_list(a.skip(1)) + ", "@ + render_list(b))
            =~= (render_inst(a[0]) + ", "@ + render_list(a.skip(1))) + ", "@ + render_list(b));
    }
}

/// A member list with every bare group spliced into its parent, as
/// re-parsing the rendered text produces it.
pub open spec fn flatten_members(xs: Seq<InstV>) -> Seq<InstV>
    decreases xs, 0int,
{
    if xs.len() == 0 {
        Seq::empty()
    } else {
        (match xs[0] {
            InstV::Group(g) => flatten_members(g),
            _ => seq![flatten_inst(xs[0])],
        }) + flatten_members(xs.skip(1))
    }
}

/// A member that is no bare group, its inner groups flattened.
pub open spec fn flatten_inst(i: InstV) -> InstV
    decreases i, 1int,
{
    match i {
        InstV::Repeat(b, n) => InstV::Repeat(Box::new(flatten_base(*b)), n),
        InstV::IntoMagicRing(b) => InstV::IntoMagicRing(
            Box::new(
                match *b {
                    InstV::Repeat(b2, n2) => InstV::Repeat(Box::new(flatten_base(*b2)), n2),
                    _ => flatten_base(*b),
                },
            ),
        ),
        InstV::Group(xs) => InstV::Group(flatten_members(xs)),
        _ => i,
    }
}

/// A suffix base, its inner groups flattened.
pub open spec fn flatten_base(b: InstV) -> InstV
    decreases b, 2int,
{
    match b {
        InstV::Group(xs) => InstV::Group(flatten_members(xs)),
        _ => b,
    }
}

/// A round list with every bare group member spliced into its round.
pub open spec fn flatten_rounds(rs: Seq<InstV>) -> Seq<InstV>
    decreases rs.len(),
{
    if rs.len() == 0 {
        Seq::empty()
    } else {
        seq![
            match rs[0] {
                InstV::Group(xs) => InstV::Group(flatten_members(xs)),
                _ => rs[0],
            },
        ] + flatten_rounds(rs.skip(1))
    }
}

/// The round-trip law for parse results: whenever a parse succeeds and no
/// group of the result holds a bare group as a member, the result is parsed
/// back exactly from its own canonical rendering, so a second rendering is
/// character-for-character the first.
///
/// A bare group member does arise, from a bracketed group without a suffix
/// such as the round `[sc]`; rendering drops its brackets and re-parsing
/// splices its members into the surrounding group, which this law does not
/// cover.
pub proof fn lemma_parse_render_roundtrip(s: Seq<char>, rs: Seq<InstV>)
    requires
        crate::spec_parse_rounds(s) == Ok::<Seq<InstV>, (int, int)>(rs),
        no_bare_rounds(rs, 0),
    ensures
        crate::spec_parse_rounds(render_rounds(rs, 0)) == Ok::<Seq<InstV>, (int, int)>(rs),
{
    let sc0 = ScanV { rest: trim_back(s), line: 1, col: 1 };
    let m0 = StreamV { scan: sc0, peeked: None };
    let ts0 = stream_tokens(m0);
    crate::lex::lemma_scan_all_wf(sc0);
    assert(wf_tokens(ts0));
    lemma_parse_shape(ts0);
    match crate::parse::spec_parse(ts0) {
        Err(e) => {
            assert(false);
        }
        Ok((rs2, f)) => {
            assert(rs2 == rs);
            assert(parsed_rounds(rs, 0));
        }
    }
    lemma_parsed_no_bare_nf_rounds(rs, 0);
    lemma_render_reparse(rs);
}

proof fn lemma_nf_members_all(xs: Seq<InstV>, k: int)
    requires
        nf_members(xs, k),
        0 <= k,
    ensures
        forall|j: int| k <= j < xs.len() ==> nf_member(#[trigger] xs[j]),
    decreases xs.len() - k,
{
    if k < xs.len() {
        lemma_nf_members_all(xs, k + 1);
    }
}

proof fn lemma_all_nf_members(xs: Seq<InstV>, k: int)
    requires
        0 <= k,
        forall|j: int| k <= j < xs.len() ==> nf_member(#[trigger] xs[j]),
    ensures
        nf_members(xs, k),
    decreases xs.len() - k,
{
    if k < xs.len() {
        lemma_all_nf_members(xs, k + 1);
    }
}

proof fn lemma_nf_members_concat(a: Seq<InstV>, b: Seq<InstV>)
    requires
        nf_members(a, 0),
        nf_members(b, 0),
    ensures
        nf_members(a + b, 0),
{
    lemma_nf_members_all(a, 0);
    lemma_nf_members_all(b, 0);
    assert forall|j: int| 0 <= j < (a + b).len() implies nf_member((a + b)[j]) by {
        if j < a.len() {
            assert((a + b)[j] == a[j]);
        } else {
            assert((a + b)[j] == b[j - a.len()]);
        }
    }
    lemma_all_nf_members(a + b, 0);
}

/// A parsed member list splices, under flattening, into a non-empty
/// normal-form list.
proof fn lemma_flatten_members_nf(xs: Seq<InstV>)
    requires
        parsed_members(xs, 0),
    ensures
        nf_members(flatten_members(xs), 0),
        flatten_members(xs).len() >= xs.len(),
    decreases xs, 0int,
{
    if xs.len() > 0 {
        lemma_parsed_members_all(xs, 0);
        assert(parsed_member(xs[0]));
        assert forall|j: int| 0 <= j < xs.skip(1).len() implies parsed_member(
            xs.skip(1)[j],
        ) by {
            assert(xs.skip(1)[j] == xs[j + 1]);
        }
        lemma_all_parsed_members(xs.skip(1), 0);
        lemma_flatten_members_nf(xs.skip(1));
        match xs[0] {
            InstV::Group(g) => {
                assert(decreases_to!(xs => xs[0]));
                assert(decreases_to!(xs[0] => xs[0]->Group_0));
                lemma_flatten_members_nf(g);
                lemma_nf_members_concat(flatten_members(g), flatten_members(xs.skip(1)));
            }
            _ => {
                lemma_flatten_inst_nf(xs[0]);
                assert(nf_members(seq![flatten_inst(xs[0])], 1));
                assert(nf_members(seq![flatten_inst(xs[0])], 0));
                lemma_nf_members_concat(
                    seq![flatten_inst(xs[0])],
                    flatten_members(xs.skip(1)),
                );
            }
        }
    }
}

proof fn lemma_flatten_inst_nf(i: InstV)
    requires
        parsed_member(i),
        !(i is Group),
    ensures
        nf_member(flatten_inst(i)),
    decreases i, 1int,
{
    match i {
        InstV::Repeat(b, n) => {
            lemma_flatten_base_nf(*b);
        }
        InstV::IntoMagicRing(b) => {
            match *b {
                InstV::Repeat(b2, n2) => {
                    lemma_flatten_base_nf(*b2);
                }
                _ => {
                    lemma_flatten_base_nf(*b);
                }
            }
        }
        _ => {
            assert(nf_members(seq![flatten_inst(i)], 1));
        }
    }
}

proof fn lemma_flatten_base_nf(b: InstV)
    requires
        parsed_base(b),
    ensures
        nf_base(flatten_base(b)),
    decreases b, 2int,
{
    match b {
        InstV::Group(xs) => {
            lemma_flatten_members_nf(xs);
        }
        _ => {}
    }
}

/// Flattening leaves the rendered text of a parsed member list alone.
proof fn lemma_flatten_members_render(xs: Seq<InstV>)
    requires
        parsed_members(xs, 0),
    ensures
        render_list(flatten_members(xs)) == render_list(xs),
    decreases xs, 0int,
{
    if xs.len() > 0 {
        lemma_parsed_members_all(xs, 0);
        assert forall|j: int| 0 <= j < xs.skip(1).len() implies parsed_member(
            xs.skip(1)[j],
        ) by {
            assert(xs.skip(1)[j] == xs[j + 1]);
        }
        lemma_all_parsed_members(xs.skip(1), 0);
        lemma_flatten_members_render(xs.skip(1));
        lemma_flatten_members_nf(xs.skip(1));
        let rest = xs.skip(1);
        match xs[0] {
            InstV::Group(g) => {
                assert(decreases_to!(xs => xs[0]));
                assert(decreases_to!(xs[0] => xs[0]->Group_0));
                lemma_flatten_members_render(g);
                lemma_flatten_members_nf(g);
                assert(render_inst(xs[0]) == render_members(g, 0));
                assert(render_members(g, 0) == render_list(g)) by {
                    assert(render_members(g, 0) =~= render_inst(g[0]) + render_members(g, 1));
                    lemma_render_list_members(g, 0);
                    assert(g.skip(0) =~= g);
                }
                if rest.len() == 0 {
                    assert(flatten_members(rest) =~= Seq::<InstV>::empty());
                    assert(flatten_members(g) + flatten_members(rest) =~= flatten_members(g));
                    assert(xs =~= seq![xs[0]]);
                } else {
                    lemma_render_list_concat(flatten_members(g), flatten_members(rest));
                    assert(render_list(xs) =~= render_inst(xs[0]) + ", "@ + render_list(rest));
                }
            }
            _ => {
                lemma_flatten_inst_render(xs[0]);
                let f0 = flatten_inst(xs[0]);
                if rest.len() == 0 {
                    assert(flatten_members(rest) =~= Seq::<InstV>::empty());
                    assert(seq![f0] + flatten_members(rest) =~= seq![f0]);
                    assert(xs =~= seq![xs[0]]);
                } else {
                    if flatten_members(rest).len() > 0 {
                        lemma_render_list_concat(seq![f0], flatten_members(rest));
                    }
                    assert(render_list(xs) =~= render_inst(xs[0]) + ", "@ + render_list(rest));
                    assert(render_list(seq![f0]) == render_inst(f0));
                }
            }
        }
    }
}

proof fn lemma_flatten_inst_render(i: InstV)
    requires
        parsed_member(i),
        !(i is Group),
    ensures
        render_inst(flatten_inst(i)) == render_inst(i),
    decreases i, 1int,
{
    match i {
        InstV::Repeat(b, n) => {
            lemma_flatten_base_render(*b);
            assert(render_inst(InstV::Repeat(Box::new(flatten_base(*b)), n)) == render_inst(i));
        }
        InstV::IntoMagicRing(b) => {
            match *b {
                InstV::Repeat(b2, n2) => {
                    lemma_flatten_base_render(*b2);
                    let inner = InstV::Repeat(Box::new(flatten_base(*b2)), n2);
                    assert(render_inst(inner) == render_inst(*b));
                    assert(!(inner is Group));
                    assert(render_inst(InstV::IntoMagicRing(Box::new(inner))) == render_inst(
                        inner,
                    ) + " in mr"@);
                    assert(render_inst(i) == render_inst(*b) + " in mr"@);
                }
                _ => {
                    lemma_flatten_base_render(*b);
                    let inner = flatten_base(*b);
                    if inner is Group {
                        assert(render_inst(InstV::IntoMagicRing(Box::new(inner))) == "["@
                            + render_inst(inner) + "] in mr"@);
                        assert(render_inst(i) == "["@ + render_inst(*b) + "] in mr"@);
                    } else {
                        assert(render_inst(InstV::IntoMagicRing(Box::new(inner))) == render_inst(
                            inner,
                        ) + " in mr"@);
                        assert(render_inst(i) == render_inst(*b) + " in mr"@);
                    }
                }
            }
        }
        _ => {}
    }
}

proof fn lemma_flatten_base_render(b: InstV)
    requires
        parsed_base(b),
    ensures
        render_inst(flatten_base(b)) == render_inst(b),
        flatten_base(b) is Group <==> b is Group,
    decreases b, 2int,
{
    match b {
        InstV::Group(xs) => {
            lemma_flatten_members_render(xs);
            lemma_flatten_members_nf(xs);
            let fxs = flatten_members(xs);
            assert(render_inst(flatten_base(b)) == render_members(fxs, 0));
            assert(render_members(fxs, 0) == render_list(fxs)) by {
                assert(render_members(fxs, 0) =~= render_inst(fxs[0]) + render_members(fxs, 1));
                lemma_render_list_members(fxs, 0);
                assert(fxs.skip(0) =~= fxs);
            }
            assert(render_inst(b) == render_members(xs, 0));
            assert(render_members(xs, 0) == render_list(xs)) by {
                assert(render_members(xs, 0) =~= render_inst(xs[0]) + render_members(xs, 1));
                lemma_render_list_members(xs, 0);
                assert(xs.skip(0) =~= xs);
            }
        }
        _ => {}
    }
}

/// Rounds rendered as a newline-separated report, head first.
pub open spec fn render_round_list(ys: Seq<InstV>) -> Seq<char>
    decreases ys.len(),
{
    if ys.len() == 0 {
        Seq::empty()
    } else if ys.len() == 1 {
        render_inst(ys[0])
    } else {
        render_inst(ys[0]) + seq!['\n'] + render_round_list(ys.skip(1))
    }
}

proof fn lemma_render_round_list(rs: Seq<InstV>, k: int)
    requires
        0 <= k < rs.len(),
    ensures
        render_inst(rs[k]) + render_rounds(rs, k + 1) == render_round_list(rs.skip(k)),
    decreases rs.len() - k,
{
    if k == rs.len() - 1 {
        assert(render_rounds(rs, k + 1) =~= Seq::empty());
        assert(rs.skip(k) =~= seq![rs[k]]);
        assert(render_inst(rs[k]) + render_rounds(rs, k + 1) =~= render_inst(rs.skip(k)[0]));
    } else {
        lemma_render_round_list(rs, k + 1);
        assert(render_rounds(rs, k + 1) =~= seq!['\n'] + (render_inst(rs[k + 1]) + render_rounds(
            rs,
            k + 2,
        )));
        assert(rs.skip(k).len() > 1);
        assert(rs.skip(k)[0] == rs[k]);
        assert(rs.skip(k).skip(1) =~= rs.skip(k + 1));
        assert(render_inst(rs[k]) + render_rounds(rs, k + 1) =~= render_inst(rs.skip(k)[0])
            + seq!['\n'] + render_round_list(rs.skip(k).skip(1)));
    }
}

proof fn lemma_nf_rounds_all(rs: Seq<InstV>, k: int)
    requires
        nf_rounds(rs, k),
        0 <= k,
    ensures
        forall|j: int| k <= j < rs.len() ==> ((#[trigger] rs[j]) matches InstV::Group(xs)
            && xs.len() >= 1 && nf_members(xs, 0)),
    decreases rs.len() - k,
{
    if k < rs.len() {
        lemma_nf_rounds_all(rs, k + 1);
    }
}

proof fn lemma_all_nf_rounds(rs: Seq<InstV>, k: int)
    requires
        0 <= k,
        forall|j: int| k <= j < rs.len() ==> ((#[trigger] rs[j]) matches InstV::Group(xs)
            && xs.len() >= 1 && nf_members(xs, 0)),
    ensures
        nf_rounds(rs, k),
    decreases rs.len() - k,
{
    if k < rs.len() {
        lemma_all_nf_rounds(rs, k + 1);
    }
}

/// Flattening a parsed round list gives normal-form rounds with the same
/// rendered text.
proof fn lemma_flatten_rounds_props(rs: Seq<InstV>)
    requires
        parsed_rounds(rs, 0),
    ensures
        flatten_rounds(rs).len() == rs.len(),
        nf_rounds(flatten_rounds(rs), 0),
        render_round_list(flatten_rounds(rs)) == render_round_list(rs),
    decreases rs.len(),
{
    if rs.len() > 0 {
        lemma_parsed_rounds_all(rs, 0);
        let xs = rs[0]->Group_0;
        assert forall|j: int| 0 <= j < rs.skip(1).len() implies ((#[trigger] rs.skip(1)[j])
            matches InstV::Group(ys) && ys.len() >= 1 && parsed_members(ys, 0)) by {
            assert(rs.skip(1)[j] == rs[j + 1]);
        }
        crate::parse::lemma_all_parsed_rounds(rs.skip(1), 0);
        lemma_flatten_rounds_props(rs.skip(1));
        lemma_flatten_members_nf(xs);
        lemma_flatten_members_render(xs);
        let r0 = InstV::Group(flatten_members(xs));
        let fr = flatten_rounds(rs);
        assert(fr == seq![r0] + flatten_rounds(rs.skip(1)));
        assert(fr.len() == rs.len());
        assert(fr[0] == r0);
        assert forall|j: int| 1 <= j < fr.len() implies fr[j] == flatten_rounds(rs.skip(1))[j
            - 1] by {
        }
        lemma_nf_rounds_all(flatten_rounds(rs.skip(1)), 0);
        lemma_all_nf_rounds(fr, 0);
        lemma_flatten_base_render(InstV::Group(xs));
        assert(flatten_base(InstV::Group(xs)) == r0);
        assert(render_inst(r0) == render_inst(rs[0]));
        if rs.len() == 1 {
            assert(fr =~= seq![r0]);
            assert(render_round_list(fr) == render_inst(r0));
        } else {
            assert(fr.skip(1) =~= flatten_rounds(rs.skip(1)));
            assert(fr.len() > 1);
            assert(render_round_list(fr) =~= render_inst(r0) + seq!['\n'] + render_round_list(
                fr.skip(1),
            ));
            assert(render_round_list(rs) =~= render_inst(rs[0]) + seq!['\n']
                + render_round_list(rs.skip(1)));
        }
    }
}

/// The round-trip law, in full: re-parsing the canonical rendering of any
/// rounds that a successful parse yields succeeds, and what it yields
/// renders character-for-character as the same text. The re-parsed rounds
/// are the original ones with every bare group member spliced into its
/// surrounding group; a further round trip returns them unchanged.
pub proof fn lemma_round_trip(s: Seq<char>, rs: Seq<InstV>)
    requires
        crate::spec_parse_rounds(s) == Ok::<Seq<InstV>, (int, int)>(rs),
    ensures
        crate::spec_parse_rounds(render_rounds(rs, 0)) == Ok::<Seq<InstV>, (int, int)>(
            flatten_rounds(rs),
        ),
        render_rounds(flatten_rounds(rs), 0) == render_rounds(rs, 0),
{
    let sc0 = ScanV { rest: trim_back(s), line: 1, col: 1 };
    let m0 = StreamV { scan: sc0, peeked: None };
    let ts0 = stream_tokens(m0);
    crate::lex::lemma_scan_all_wf(sc0);
    assert(wf_tokens(ts0));
    lemma_parse_shape(ts0);
    match crate::parse::spec_parse(ts0) {
        Err(e) => {
            assert(false);
        }
        Ok((rs2, f)) => {
            assert(rs2 == rs);
            assert(parsed_rounds(rs, 0));
        }
    }
    lemma_flatten_rounds_props(rs);
    let fr = flatten_rounds(rs);
    assert(render_rounds(fr, 0) == render_rounds(rs, 0)) by {
        if rs.len() == 0 {
            assert(fr.len() == 0);
            assert(render_rounds(fr, 0) =~= Seq::<char>::empty());
            assert(render_rounds(rs, 0) =~= Seq::<char>::empty());
        } else {
            assert(render_rounds(rs, 0) =~= render_inst(rs[0]) + render_rounds(rs, 1));
            lemma_render_round_list(rs, 0);
            assert(rs.skip(0) =~= rs);
            assert(render_rounds(fr, 0) =~= render_inst(fr[0]) + render_rounds(fr, 1));
            lemma_render_round_list(fr, 0);
            assert(fr.skip(0) =~= fr);
        }
    }
    lemma_render_reparse(fr);
}

} // verus!
