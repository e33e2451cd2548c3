//! Mutants of Rust source: the textual engine with Rust's lexicon.

use vstd::prelude::*;

use crate::mutant::{Mutant, MutantSet};
use crate::text::{bytes_of, newlines};
use crate::textmut::{
    self, is_mutant_set, sites, sites_follow_the_spelling, LanguageSyntax,
};

verus! {

/// Whether a lexicon is Rust's: nesting block comments, prefix-triggered raw
/// strings, lifetimes told apart from char literals.
pub open spec fn is_rust(s: LanguageSyntax) -> bool {
    &&& s.line_comment matches Some(m) && m@ == "//"@
    &&& s.block_comment matches Some(m) && m.0@ == "/*"@ && m.1@ == "*/"@
    &&& s.block_comment_nests
    &&& s.raw_quote_strings@.len() == 0
    &&& s.quote == '"'
    &&& s.rust_raw_strings
    &&& s.char_literal is LifetimeAmbiguous
}

/// Whether the set holds what the textual engine makes of the text with Rust's
/// lexicon.
pub open spec fn is_rust_set(
    r: MutantSet,
    src: Seq<char>,
    spans: Seq<(u32, u32)>,
    limit: usize,
) -> bool {
    forall|syntax: LanguageSyntax| #[trigger]
        is_rust(syntax) ==> is_mutant_set(r, src, spans, syntax, limit)
}

/// The mutants of Rust source are those that the textual engine makes of it
/// with Rust's lexicon.
pub proof fn rust_mutants_are_those_of_the_lexicon(
    a: MutantSet,
    b: MutantSet,
    src: Seq<char>,
    spans: Seq<(u32, u32)>,
    syntax: LanguageSyntax,
    limit: usize,
)
    requires
        is_rust(syntax),
        is_rust_set(a, src, spans, limit),
        is_mutant_set(b, src, spans, syntax, limit),
    ensures
        a.total_sites == b.total_sites,
        a.invalid_discarded == b.invalid_discarded,
        a.mutants@.map_values(|m: Mutant| m@) == b.mutants@.map_values(|m: Mutant| m@),
{
}

/// Line-targeted mutants for one source text, restricted to the scored
/// `spans` (inclusive line ranges), at most `limit` of them, sorted by line.
/// `total_sites` counts every candidate found so the caller can announce
/// budget truncation; `invalid_discarded` is always zero here.
pub fn mutants_for(source: &str, spans: &[(u32, u32)], limit: usize) -> (r: MutantSet)
    requires
        newlines(bytes_of(source@)) < u32::MAX,
    ensures
        is_rust_set(r, source@, spans@, limit),
{
    let syntax = textmut::rust();
    proof {
        assert forall|other: LanguageSyntax| #[trigger] is_rust(other) implies sites(
            source@,
            spans@,
            other,
        ) == sites(source@, spans@, syntax) by {
            sites_follow_the_spelling(source@, spans@, other, syntax);
        }
    }
    textmut::mutants_for(source, spans, limit, &syntax)
}

} // verus!
