//! The SMAP parser on a real attribute and on malformed text.

use vikt::jvm::smap::{parse_line_mapping, LineMapping, Resolution, SourceMap};

/// The exact attribute `kotlinc 2.1.20` emitted for the demo fixture. Every
/// number here was read out of a real class file.
const REAL: &str = "SMAP\n\
Orders.kt\n\
Kotlin\n\
*S Kotlin\n\
*F\n\
+ 1 Orders.kt\n\
demo/Processor\n\
+ 2 Orders.kt\n\
demo/OrdersKt\n\
+ 3 _Collections.kt\n\
kotlin/collections/CollectionsKt___CollectionsKt\n\
*L\n\
1#1,81:1\n\
9#2,4:82\n\
1563#3:86\n\
1634#3,3:87\n\
*S KotlinDebug\n\
*F\n\
+ 1 Orders.kt\n\
demo/Processor\n\
*L\n\
56#1:82,4\n\
79#1:86\n\
79#1:87,3\n\
*E\n";

#[test]
fn prefers_the_kotlin_debug_stratum() {
    let map = SourceMap::parse(REAL).expect("parses");
    assert_eq!(map.stratum(), "KotlinDebug");
}

/// The headline fix: the four impossible lines an 80-line file reported
/// all collapse onto the call site.
#[test]
fn inlined_body_collapses_onto_the_call_site() {
    let map = SourceMap::parse(REAL).expect("parses");
    for output in 82..=85 {
        assert_eq!(
            map.resolve(output),
            Resolution::Resolved(56),
            "output line {output} should resolve to the call site on line 56"
        );
    }
}

/// A second inline call site, and one whose inlined code comes from the
/// standard library rather than this file.
#[test]
fn stdlib_inlining_also_collapses_onto_its_call_site() {
    let map = SourceMap::parse(REAL).expect("parses");
    for output in 86..=89 {
        assert_eq!(map.resolve(output), Resolution::Resolved(79));
    }
}

/// Ordinary lines are untouched.
#[test]
fn ordinary_lines_map_to_themselves() {
    let map = SourceMap::parse(REAL).expect("parses");
    for output in [1, 19, 24, 56, 79, 81] {
        assert_eq!(map.resolve(output), Resolution::Resolved(output));
    }
}

/// Without the `KotlinDebug` stratum, output 82 belongs to file 2 and must
/// be reported as foreign rather than claimed as a line of this file.
#[test]
fn foreign_files_are_reported_when_no_call_site_mapping_exists() {
    let only_kotlin = REAL.split("*S KotlinDebug").next().unwrap().to_owned() + "*E\n";
    let map = SourceMap::parse(&only_kotlin).expect("parses");
    assert_eq!(map.stratum(), "Kotlin");
    match map.resolve(86) {
        Resolution::Foreign { file } => assert_eq!(file, "_Collections.kt"),
        other @ Resolution::Resolved(_) => panic!("expected a foreign file, got {other:?}"),
    }
    // File 1's own range is still identity.
    assert_eq!(map.resolve(40), Resolution::Resolved(40));
}

#[test]
fn mapping_grammar_defaults() {
    // No repeat, no increment.
    assert_eq!(
        parse_line_mapping("79#1:86"),
        Some(LineMapping {
            input_start: 79,
            file_id: 1,
            repeat: 1,
            output_start: 86,
            output_increment: 1
        })
    );
    // No file id at all.
    assert_eq!(
        parse_line_mapping("5,3:10,2"),
        Some(LineMapping {
            input_start: 5,
            file_id: 1,
            repeat: 3,
            output_start: 10,
            output_increment: 2
        })
    );
    assert_eq!(parse_line_mapping("nonsense"), None);
}

#[test]
fn rejects_non_smap_text() {
    assert!(SourceMap::parse("").is_none());
    assert!(SourceMap::parse("not an smap").is_none());
    // Well-formed header but no mappings is not usable.
    assert!(SourceMap::parse("SMAP\nA.kt\nKotlin\n*E\n").is_none());
}

/// The highest covered line, not the one behind it.
#[test]
fn the_highest_covered_line_is_the_last_of_a_run() {
    let text = "SMAP\nOrders.kt\nKotlin\n*S KotlinDebug\n*F\n+ 1 Orders.kt\ndemo/Processor\n*L\n56#1:82,4\n79#1:86\n79#1:87,3\n*E\n";
    let map = SourceMap::parse(text).expect("a map");
    assert_eq!(map.max_output_line(), 89);
}

/// A malformed entry is skipped, wherever in a line section it stands.
#[test]
fn a_malformed_entry_changes_nothing() {
    let whole = SourceMap::parse(REAL).expect("parses");
    for bad in ["nonsense", "", "  ", "1#x:2", "1,:2", ":", "4294967296:1", "1#1,2"] {
        for behind in ["*L\n", "1#1,81:1\n", "79#1:87,3\n"] {
            let text = REAL.replace(behind, &format!("{behind}{bad}\n"));
            let map = SourceMap::parse(&text).expect("parses");
            assert_eq!(map.stratum(), whole.stratum());
            for line in 0..100 {
                assert_eq!(map.resolve(line), whole.resolve(line), "{bad:?} {line}");
            }
        }
    }
}

/// A printed entry parses back, each part but the start lines there or not.
#[test]
fn a_printed_entry_parses_back() {
    for a in [0, 7, 4_294_967_295] {
        for bits in 0..8 {
            let part = |bit: u32, mark: &str, n: u32| {
                if bits & bit == 0 {
                    (String::new(), 1)
                } else {
                    (format!("{mark}{n}"), n)
                }
            };
            let (file, file_id) = part(1, "#", 30);
            let (times, repeat) = part(2, ",", 412);
            let (step, output_increment) = part(4, ",", 5);
            assert_eq!(
                parse_line_mapping(&format!("{a}{file}{times}:96{step}")),
                Some(LineMapping {
                    input_start: a,
                    file_id,
                    repeat,
                    output_start: 96,
                    output_increment,
                })
            );
        }
    }
}
