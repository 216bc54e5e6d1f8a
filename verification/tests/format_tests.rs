use crochet::{parse_rounds, pretty_format, Instruction};

fn assert_derser(source: &str, displayed: &str) {
    let rounds = parse_rounds(source).unwrap();
    let mut s = String::new();
    for r in rounds.iter() {
        s.push_str(&r.render());
    }
    assert_eq!(s, displayed);
}

#[test]
fn test_instruction_display() {
    // These sources render back to their own text.
    let sources = [
        "sc 4 in mr, inc, [sc, % hi im a comment %, inc] 2",
        "% hi again %, sc, inc, sc 2\n[inc, sc] 3",
        "[sc, inc 2] in mr",
    ];

    for s in sources {
        let rounds = parse_rounds(s).unwrap();
        let mut s2 = String::new();
        for r in rounds.iter() {
            s2.push('\n');
            s2.push_str(&r.render());
        }
        assert_eq!(&s2[1..], s);
    }

    assert_derser("sc 1", "sc 1");
    assert_derser("[ch 1] 1", "[ch 1] 1");
    assert_derser("[sc 3 in mr]", "sc 3 in mr");
    assert_derser("[sc 6] in mr", "[sc 6] in mr");
}

#[test]
fn test_unexpected_at_end_of_input() {
    assert_eq!(crochet::parse_rounds("sc 3, % foobar"), Err((1, 7)));
    assert_eq!(crochet::parse_rounds("% foobar"), Err((1, 1)));
}

#[test]
fn test_parse_error_locality() {
    assert_eq!(crochet::parse_rounds("\nsc 2, ]"), Err((2, 7)));
}

#[test]
fn test_overflowing_literal_is_a_parse_error() {
    // An integer literal beyond u32 is rejected at the literal's start, not
    // silently wrapped.
    assert_eq!(crochet::parse_rounds("sc 99999999999"), Err((1, 4)));
}

#[test]
fn test_skip_round_trips() {
    assert_derser("skip 3, sc", "skip 3, sc");
}

#[test]
fn test_pretty_format_report() {
    let expected = "Round 1: sc 6 in mr (6)\nRound 2: inc 6 (12)\nRound 3: [inc, sc] 6 (18)";

    let src = "
        sc6in mr
        inc 6
        [inc,sc] 6
    ";

    assert_eq!(pretty_format(&parse_rounds(src).unwrap()), expected);
}

#[test]
fn test_pretty_format_empty() {
    assert_eq!(pretty_format(&Vec::new()), "");
}

#[test]
fn test_round_trip_idempotent() {
    // Re-parsing a rendered pattern renders identically, also where a
    // bracketed group without a suffix loses its brackets.
    let sources = ["[sc]", "[sc, inc] 2, [ch]", "% note %, skip 2\nsc 2 in mr"];
    for s in sources {
        let r1 = parse_rounds(s).unwrap();
        let t1: Vec<String> = r1.iter().map(|r| r.render()).collect();
        let joined1 = t1.join("\n");
        let r2 = parse_rounds(&joined1).unwrap();
        let t2: Vec<String> = r2.iter().map(|r| r.render()).collect();
        let joined2 = t2.join("\n");
        assert_eq!(joined1, joined2);
    }
}

#[test]
fn test_counts_exact() {
    // Dec consumes two stitches and produces one.
    assert_eq!(Instruction::Dec.input_count(), 2);
    assert_eq!(Instruction::Dec.output_count(), 1);
    // Skip consumes its operand and produces nothing.
    assert_eq!(Instruction::Skip(5).input_count(), 5);
    assert_eq!(Instruction::Skip(5).output_count(), 0);
    // A repeated group multiplies its members' sums.
    let rounds = parse_rounds("[inc, sc] 6 in mr").unwrap();
    assert_eq!(rounds[0].input_count(), 0);
    assert_eq!(rounds[0].output_count(), 18);
    let inner = Instruction::Repeat(
        Box::new(Instruction::Group(vec![Instruction::Inc, Instruction::Sc])),
        6,
    );
    assert_eq!(inner.input_count(), 12);
    assert_eq!(inner.output_count(), 18);
}

#[test]
fn test_counts_ok_detects_overflow() {
    let rounds = parse_rounds("[sc 100000] 100000").unwrap();
    assert!(!crochet::rounds_counts_ok(&rounds));
    assert!(rounds[0].try_counts().is_none());

    let rounds = parse_rounds("[sc 2] 3").unwrap();
    assert!(crochet::rounds_counts_ok(&rounds));
    assert_eq!(rounds[0].try_counts(), Some((6, 6)));
}
