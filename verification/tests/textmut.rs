//! Masking and mutation sites, per language.

use vikt::mutant::MutantSet;
use vikt::textmut::{go, java, kotlin, mutants_for, rust, CharLiteralRule, LanguageSyntax};

fn mutants_of(src: &str, spans: &[(u32, u32)], syntax: &LanguageSyntax, _ext: &str) -> MutantSet {
    mutants_for(src, spans, usize::MAX, syntax)
}

/// Java's block comments do not nest: `/* /* */ x */` ends at the
/// first `*/`, leaving ` x */` as live code — so the stray `*/` there
/// is code the mask must not swallow, and a `+` inside it is a real
/// mutation site.
#[test]
fn java_block_comments_do_not_nest() {
    let set = mutants_of(
        "class C {\n  int f() {\n    /* /* nested */ return 1 + 1; */\n  }\n}\n",
        &[(1, 5)],
        &java(),
        "java",
    );
    // Nothing after the real closing `*/` on line 3 is code in this
    // fixture (`*/` at the end closes nothing further), so no `+`
    // mutant should ever appear: the whole line reads as one comment
    // from Java's non-nesting rule, `/* /* nested */` opens and the
    // *first* `*/` ends it, then ` return 1 + 1; */` is live code, and
    // that trailing `*/` is a syntax error a Java parser would reject
    // (out of scope for this masking test — the mask only needs to
    // agree with the language on where the comment itself ends).
    assert!(
        set.mutants.iter().any(|m| m.kind == "bin"),
        "the `+` after Java's non-nesting close must be a live mutation site: {:?}",
        set.mutants.iter().map(|m| &m.detail).collect::<Vec<_>>()
    );
}

/// Kotlin's block comments nest: the same source that ends a Java
/// comment early keeps masking through to the *matching* close, so the
/// `+` inside the nested comment is never a mutation site.
#[test]
fn kotlin_block_comments_nest() {
    let set = mutants_of(
        "fun f(): Int {\n  /* outer /* inner 1 + 1 */ still comment */\n  return 2 + 2\n}\n",
        &[(1, 4)],
        &kotlin(),
        "kt",
    );
    assert!(
        set.mutants.iter().all(|m| m.line == 3),
        "nothing inside the nested comment may mutate, got lines {:?}",
        set.mutants.iter().map(|m| m.line).collect::<Vec<_>>()
    );
    assert!(set.mutants.iter().any(|m| m.kind == "bin" && m.line == 3));
}

/// Kotlin's triple-quoted strings are raw: a `+` or `<` inside one is
/// never a mutation site, even though it looks exactly like the
/// operator this engine otherwise mutates.
#[test]
fn kotlin_triple_quoted_strings_are_masked() {
    let set = mutants_of(
        "fun f(): Int {\n  val s = \"\"\"a + b < c\"\"\"\n  return 1 + 1\n}\n",
        &[(1, 4)],
        &kotlin(),
        "kt",
    );
    assert!(
        set.mutants.iter().all(|m| m.line == 3),
        "only the code on line 3 may mutate; the triple-quoted string on line 2 must stay untouched, got lines {:?}",
        set.mutants.iter().map(|m| m.line).collect::<Vec<_>>()
    );
}

/// Go's backtick strings are raw, same treatment as Kotlin's triple
/// quotes: content inside is never a mutation site.
#[test]
fn go_backtick_strings_are_masked() {
    let set = mutants_of(
        "func f() int {\n\tvar s = `a + b < c`\n\treturn 1 + 1\n}\n",
        &[(1, 4)],
        &go(),
        "go",
    );
    assert!(
        set.mutants.iter().all(|m| m.line == 3),
        "only line 3's code may mutate; the backtick string on line 2 must stay untouched, got lines {:?}",
        set.mutants.iter().map(|m| m.line).collect::<Vec<_>>()
    );
}

/// Java and Kotlin both read `'` as an unconditional char literal — no
/// lifetime ambiguity to resolve — so its contents are always masked.
#[test]
fn always_char_literal_rule_masks_unconditionally() {
    for (syntax, ext) in [(&java(), "java"), (&kotlin(), "kt")] {
        let set = mutants_of(
            "x() {\n  char c = '+';\n  return 1 + 1;\n}\n",
            &[(1, 4)],
            syntax,
            ext,
        );
        assert!(
            set.mutants.iter().all(|m| m.line == 3),
            "the `+` inside the char literal on line 2 must not mutate ({ext}), got lines {:?}",
            set.mutants.iter().map(|m| m.line).collect::<Vec<_>>()
        );
    }
}

/// Every language's line comments are masked identically to Rust's.
#[test]
fn line_comments_are_masked_for_every_language() {
    for (syntax, ext) in [(&java(), "java"), (&kotlin(), "kt"), (&go(), "go")] {
        let set = mutants_of(
            "x() {\n  // a + b\n  return 1 + 1;\n}\n",
            &[(1, 4)],
            syntax,
            ext,
        );
        assert!(
            set.mutants.iter().all(|m| m.line == 3),
            "the `+` inside the line comment on line 2 must not mutate ({ext}), got lines {:?}",
            set.mutants.iter().map(|m| m.line).collect::<Vec<_>>()
        );
    }
}

/// Two lexicons that spell everything alike give the same mutants.
#[test]
fn mutants_follow_the_spelling() {
    let src = "fn f(a: u8) -> u8 {\n    let s = r#\"1 + 1\"#; /* /* 2 */ 3 */\n    a + 4\n}\n";
    let by_hand = LanguageSyntax {
        line_comment: Some("//"),
        block_comment: Some(("/*", "*/")),
        block_comment_nests: true,
        raw_quote_strings: &[],
        quote: '"',
        rust_raw_strings: true,
        char_literal: CharLiteralRule::LifetimeAmbiguous,
    };
    let all = |set: MutantSet| {
        let texts: Vec<(u32, String)> = set.mutants.into_iter().map(|m| (m.line, m.source)).collect();
        (set.total_sites, texts)
    };
    let expected = all(mutants_of(src, &[(1, 4)], &rust(), "rs"));
    assert_eq!(all(mutants_of(src, &[(1, 4)], &by_hand, "rs")), expected);
    assert_eq!(all(vikt::rs::calibrate::mutants_for(src, &[(1, 4)], usize::MAX)), expected);
    assert_eq!(expected.0, 2);
    assert!(expected.1.iter().all(|(line, _)| *line == 3));
}

/// A lower limit keeps the first mutants and counts the same candidates.
#[test]
fn a_lower_limit_keeps_the_first() {
    let src = "fn f(a: i64) -> bool {\n    a + 2 <= 3 && a - 1 == 0\n}\n";
    let whole = mutants_for(src, &[(1, 3)], usize::MAX, &rust());
    assert!(whole.mutants.len() > 3);
    for limit in 0..whole.mutants.len() + 2 {
        let some = mutants_for(src, &[(1, 3)], limit, &rust());
        assert_eq!(some.total_sites, whole.total_sites);
        assert_eq!(some.mutants.len(), limit.min(whole.mutants.len()));
        for (a, b) in some.mutants.iter().zip(&whole.mutants) {
            assert_eq!((a.line, &a.source), (b.line, &b.source));
        }
    }
}

/// An edit replaces whole operators and numbers, and all of it is code.
#[test]
fn an_edit_is_code_throughout() {
    let src = "let s = \"<= 10\"; x <= 1_000 // <= 10\n";
    let set = mutants_of(src, &[(1, 1)], &rust(), "rs");
    let mut details: Vec<&str> = set.mutants.iter().map(|m| m.detail.as_str()).collect();
    details.sort_unstable();
    assert_eq!(details, ["1000 -> 1001", "<= -> >"]);
    assert!(set.mutants.iter().all(|m| m.source.contains("\"<= 10\"")));
    assert!(set.mutants.iter().all(|m| m.source.contains("// <= 10")));
}
