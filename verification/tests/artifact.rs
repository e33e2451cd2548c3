//! Text of spans, and the order of records.

use vikt::artifact::{span_text, Coverage, FunctionRecord, Sidecar, TierCounts};

#[test]
fn single_line_span_is_right_trimmed() {
    let lines = ["fn hub(x) {   ", "    x + 1", "}"];
    assert_eq!(
        span_text(&lines, 1, 1).as_deref(),
        Some("fn hub(x) {"),
        "trailing whitespace on the covered line must not survive into `text`"
    );
}

#[test]
fn multi_line_span_is_newline_joined_and_each_line_right_trimmed() {
    let lines = ["fn hub(x) {  ", "    x + 1   ", "}"];
    assert_eq!(
        span_text(&lines, 1, 3).as_deref(),
        Some("fn hub(x) {\n    x + 1\n}"),
        "every covered line must be right-trimmed on its own, then newline-joined"
    );
}

#[test]
fn span_past_the_end_of_the_file_is_none_not_fabricated() {
    let lines = ["only line"];
    assert_eq!(
        span_text(&lines, 1, 2),
        None,
        "a span whose end line doesn't exist must not fabricate partial text"
    );
    assert_eq!(span_text(&lines, 5, 5), None);
}

#[test]
fn zero_line_is_none() {
    // 1-based lines: `start: 0` cannot occur from a real lowering, but
    // must not underflow or panic if it somehow did.
    let lines = ["a"];
    assert_eq!(span_text(&lines, 0, 0), None);
}

/// A span that ends before it starts lies nowhere.
#[test]
fn a_backward_span_is_none() {
    let lines = ["a", "b"];
    assert_eq!(span_text(&lines, 2, 1), None);
    assert_eq!(span_text(&["a"], 2, 1), None);
}

fn record(name: &str, file: &str, signature: &str, decl_line: Option<u32>) -> FunctionRecord {
    FunctionRecord {
        file: file.to_owned(),
        name: name.to_owned(),
        signature: signature.to_owned(),
        decl_line,
        coverage: Coverage { instructions: 1, with_line: 1 },
        summary: TierCounts::default(),
        spans: vec![],
    }
}

/// Whatever order functions were pushed in, the artifact is one.
#[test]
fn finishing_forgets_the_order() {
    let all = [
        record("b", "x", "", Some(2)),
        record("a", "y", "", Some(2)),
        record("a", "x", "(I)", Some(2)),
        record("a", "x", "(D)", Some(2)),
        record("z", "x", "", None),
        record("c", "x", "", Some(1)),
    ];
    let built = |order: &[usize]| {
        let mut s = Sidecar::new("x", "test");
        s.functions = order.iter().map(|&i| all[i].clone()).collect();
        s.finish();
        s
    };
    let one = built(&[0, 1, 2, 3, 4, 5]);
    assert_eq!(one, built(&[5, 4, 3, 2, 1, 0]));
    assert_eq!(one, built(&[3, 0, 5, 1, 4, 2]));
    let expected: Vec<FunctionRecord> = [4, 5, 3, 2, 1, 0].iter().map(|&i| all[i].clone()).collect();
    assert_eq!(one.functions, expected);
}
