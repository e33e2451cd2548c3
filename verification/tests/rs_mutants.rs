//! Mutants of Rust source.

use vikt::mutant::MutantSet;
use vikt::rs::calibrate::mutants_for;

fn mutants_of(src: &str, spans: &[(u32, u32)]) -> MutantSet {
    mutants_for(src, spans, usize::MAX)
}

/// Operators inside strings and comments are never mutation sites; the
/// same operator in code on the same line is.
#[test]
fn strings_and_comments_are_masked() {
    let set = mutants_of(
        "fn f(a: i64) -> i64 {\n    let s = \"a + b < c\"; // x + y\n    a + 2\n}\n",
        &[(1, 4)],
    );
    assert!(
        set.mutants.iter().all(|m| m.line == 3),
        "only the code `+` and the literal on line 3 may mutate, got lines {:?}",
        set.mutants.iter().map(|m| m.line).collect::<Vec<_>>()
    );
    assert!(set.mutants.iter().any(|m| m.kind == "bin"));
    assert!(set.mutants.iter().any(|m| m.kind == "const"));
}

/// Two `+` on one line become two distinct single-edit mutants, each
/// leaving the other occurrence untouched.
#[test]
fn one_occurrence_per_mutant() {
    let set = mutants_of(
        "fn f(a: i64, b: i64) -> i64 {\n    a + b + 1\n}\n",
        &[(1, 3)],
    );
    let plus: Vec<_> = set.mutants.iter().filter(|m| m.kind == "bin").collect();
    assert_eq!(plus.len(), 2);
    for m in &plus {
        assert_eq!(m.source.matches(" - ").count(), 1);
        assert_eq!(m.source.matches(" + ").count(), 1);
    }
}

/// Lifetimes are code, not char literals: the mask must not swallow the
/// rest of the file after `'a`, and `->` / `=>` are never comparison
/// sites.
#[test]
fn lifetimes_arrows_and_fat_arrows_survive() {
    let set = mutants_of(
        "fn f<'a>(x: &'a i64) -> i64 {\n    match *x { 0 => 7, n => n - 3 }\n}\n",
        &[(1, 3)],
    );
    assert!(set.mutants.iter().any(|m| m.detail == "- -> +"));
    assert!(
        set.mutants
            .iter()
            .any(|m| m.kind == "const" && m.detail == "0 -> 1")
    );
    // No mutant may have corrupted the arrow tokens.
    for m in &set.mutants {
        assert!(
            m.source.contains("->") && m.source.contains("=>"),
            "arrow tokens must survive every mutant: {}",
            m.detail
        );
    }
}

/// A multi-byte escape body (`\u{...}`) inside a char literal is masked
/// in full, not just its first byte: the digits and braces inside it
/// must never surface as (invalid) mutation sites.
#[test]
fn unicode_escape_char_literal_is_fully_masked() {
    let set = mutants_of(
        "fn f(a: i64) -> i64 {\n    let c = '\\u{2764}';\n    a + 1\n}\n",
        &[(1, 4)],
    );
    assert!(
        set.mutants.iter().all(|m| m.line == 3),
        "only line 3's code may mutate; the char literal on line 2 must stay untouched, got lines {:?}",
        set.mutants.iter().map(|m| m.line).collect::<Vec<_>>()
    );
}

/// A digit run right after a non-ASCII identifier byte (a UTF-8
/// continuation byte, always >= 0x80) belongs to the identifier, not a
/// standalone integer literal — `café2` must not be spliced into
/// `café3`.
#[test]
fn digit_after_non_ascii_identifier_is_not_mutated() {
    let set = mutants_of(
        "fn f(caf\u{e9}2: i64) -> i64 {\n    caf\u{e9}2 + 1\n}\n",
        &[(1, 3)],
    );
    let consts: Vec<_> = set.mutants.iter().filter(|m| m.kind == "const").collect();
    assert!(
        consts.iter().all(|m| m.detail == "1 -> 0"),
        "only the standalone `1` literal may mutate, got {:?}",
        consts.iter().map(|m| &m.detail).collect::<Vec<_>>()
    );
    for m in &set.mutants {
        assert!(
            m.source.matches("caf\u{e9}2").count() == 2,
            "both occurrences of the identifier must survive every mutant: {}",
            m.detail
        );
    }
}

/// Spans restrict sites: a line outside every span contributes nothing.
#[test]
fn spans_bound_the_sites() {
    let set = mutants_of(
        "fn f(a: i64) -> i64 {\n    a + 1\n}\nfn g(b: i64) -> i64 {\n    b * 2\n}\n",
        &[(4, 6)],
    );
    assert!(set.mutants.iter().all(|m| m.line >= 4));
    assert!(set.total_sites >= 2);
}

/// The budget caps emitted mutants while `total_sites` still reports the
/// uncapped count, so the caller can announce the truncation.
#[test]
fn budget_truncation_is_visible() {
    let set = mutants_for("fn f(a: i64) -> i64 {\n    a + 1 + 2 + 3 + 4\n}\n", &[(1, 3)], 2);
    assert_eq!(set.mutants.len(), 2);
    assert!(set.total_sites > 2);
}

/// The mutants are those of the textual engine with Rust's lexicon.
#[test]
fn the_engine_with_the_lexicon_makes_the_same() {
    let src = "fn f<'a>(x: &'a i64) -> bool {\n    *x < r#\"1 + 1\"#.len() as i64 || *x == 7\n}\n";
    for limit in [0, 2, usize::MAX] {
        let here = mutants_for(src, &[(1, 3)], limit);
        let there = vikt::textmut::mutants_for(src, &[(1, 3)], limit, &vikt::textmut::rust());
        assert_eq!(here.total_sites, there.total_sites);
        assert_eq!(here.invalid_discarded, there.invalid_discarded);
        let sources = |s: &MutantSet| -> Vec<String> {
            s.mutants.iter().map(|m| m.source.clone()).collect()
        };
        assert_eq!(sources(&here), sources(&there));
    }
}
