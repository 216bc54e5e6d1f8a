use crochet::lex::tokenize;
use crochet::parse::{parse, parse_inst};
use crochet::Instruction;
use crochet::Instruction::{Group, Inc, IntoMagicRing, Repeat, Sc, Skip};

#[test]
fn test_group() {
    let mut ts = tokenize("[sc, inc, dec]");
    let ast = Instruction::Group(vec![Instruction::Sc, Instruction::Inc, Instruction::Dec]);
    assert_eq!(parse_inst(&mut ts), Ok(ast));
}

#[test]
fn test_repeated_group() {
    let mut ts = tokenize("[inc 2, sc] 3");
    let ast = Repeat(Group(vec![Repeat(Inc.into(), 2), Sc]).into(), 3);
    assert_eq!(parse_inst(&mut ts), Ok(ast));
}

#[test]
fn test_simple_rounds() {
    let mut ts = tokenize("sc\nsc 2, inc");
    let rounds = vec![Group(vec![Sc]), Group(vec![Repeat(Sc.into(), 2), Inc])];
    assert_eq!(parse(&mut ts), Ok(rounds));
}

#[test]
fn test_empty_line_round() {
    let mut ts = tokenize("\n\n\nsc 2\ninc\n\nsc 123");
    let rounds = vec![
        Group(vec![Repeat(Sc.into(), 2)]),
        Group(vec![Inc]),
        Group(vec![Repeat(Sc.into(), 123)]),
    ];
    assert_eq!(parse(&mut ts), Ok(rounds));
}

#[test]
fn test_unexpected_token() {
    let mut ts = tokenize("\nsc 2, ]");
    assert_eq!(parse(&mut ts), Err((2, 7)));
}

#[test]
fn test_skip_must_have_count() {
    let mut ts = tokenize("sc, skip, sc");
    assert_eq!(parse(&mut ts), Err((1, 9)));
}

#[test]
fn test_skip_parses_with_count() {
    let mut ts = tokenize("sc, skip 3, sc");
    let rounds = vec![Group(vec![Sc, Skip(3), Sc])];
    assert_eq!(parse(&mut ts), Ok(rounds));
}

#[test]
fn test_suffix_order_is_fixed() {
    // The repeat count comes first, the magic-ring marker second.
    let mut ts = tokenize("sc 4 in mr");
    let ast = IntoMagicRing(Box::new(Repeat(Sc.into(), 4)));
    assert_eq!(parse_inst(&mut ts), Ok(ast));
}

#[test]
fn test_tch_has_no_production() {
    // The lexer knows `tch`, but no grammar rule consumes it: it is an
    // unexpected token at its own position.
    let mut ts = tokenize("tch 3");
    assert_eq!(parse(&mut ts), Err((1, 1)));
}

#[test]
fn test_unclosed_bracket() {
    let mut ts = tokenize("[sc");
    assert_eq!(parse(&mut ts), Err((1, 4)));
}

#[test]
fn test_dangling_skip_at_end() {
    let mut ts = tokenize("skip");
    assert_eq!(parse(&mut ts), Err((1, 5)));
}
