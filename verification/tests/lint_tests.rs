use crochet::{lint_rounds, parse_rounds, Lint};

fn assert_produces_lint(src: &str, lint: &Lint) {
    let rounds = parse_rounds(src).unwrap();
    let lints = lint_rounds(&rounds);

    assert!(lints.contains(lint));
}

#[test]
fn test_lint_nonzero_first_round_input() {
    assert_produces_lint("sc 3", &Lint::NonzeroFirstRoundInput { actual_consumed: 3 });
}

#[test]
fn test_lint_mismatched_stitch_counts() {
    assert_produces_lint(
        "sc 3\n[inc, sc] 2",
        &Lint::MismatchedStitchCount {
            a_out: 3,
            b_in: 4,
            a_idx: 1,
            b_idx: 2,
        },
    );
}

#[test]
fn test_lint_display() {
    let s = Lint::MismatchedStitchCount {
        a_out: 1,
        b_in: 3,
        a_idx: 1,
        b_idx: 2,
    }
    .message();
    assert_eq!(
        &s,
        "round 1 produces 1 stitch but round 2 consumes 3 stitches"
    );

    let s = Lint::NonzeroFirstRoundInput { actual_consumed: 4 }.message();
    assert_eq!(
        &s,
        "round 1 consumes 4 stitches but the first round shouldn't consume any stitches"
    );
}

fn no_lints(src: &str) {
    let rounds = parse_rounds(src).unwrap();
    let lints = lint_rounds(&rounds);
    assert_eq!(lints, Vec::new());
}

#[test]
fn test_no_false_positives_in_lints() {
    no_lints(
        "
            ch 3
            sc, inc, sc
            [inc, sc] 2
            ",
    );
}

#[test]
fn test_decorative_round_is_skipped() {
    // A lone comment round between two rounds with matching counts raises
    // no mismatch.
    no_lints("ch 3\n% three to start %\nsc, sc, sc");
}

#[test]
fn test_mismatch_reported_across_decorative_round() {
    assert_produces_lint(
        "ch 3\n% note %\nsc, sc",
        &Lint::MismatchedStitchCount {
            a_out: 3,
            b_in: 2,
            a_idx: 1,
            b_idx: 3,
        },
    );
}

#[test]
fn test_both_lints_in_order() {
    let rounds = parse_rounds("sc 3\nsc 2").unwrap();
    let lints = lint_rounds(&rounds);
    assert_eq!(
        lints,
        vec![
            Lint::MismatchedStitchCount { a_out: 3, b_in: 2, a_idx: 1, b_idx: 2 },
            Lint::NonzeroFirstRoundInput { actual_consumed: 3 },
        ]
    );
}
