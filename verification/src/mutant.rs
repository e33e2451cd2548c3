//! The shape every mutation engine emits.

use vstd::prelude::*;

verus! {

/// One line-targeted mutant: the whole file with a single edit applied.
#[derive(Debug, Clone)]
pub struct Mutant {
    /// Line of the edit in the *original* source, the line the panel scored.
    pub line: u32,
    /// Operator family: `cmp`, `bin`, `bool`, `const`.
    pub kind: String,
    /// Human-readable edit, e.g. `>= -> <`.
    pub detail: String,
    /// Full mutated file content, ready to write over the copy.
    pub source: String,
}

/// What a mutation engine found and what it emitted for one file.
#[derive(Debug, Clone)]
pub struct MutantSet {
    /// Sites found inside the requested spans, before the cap. When this
    /// exceeds `mutants.len() + invalid_discarded`, the caller ran out of
    /// budget before reaching every site and must say so.
    pub total_sites: usize,
    /// At most the requested number of mutants, sorted by line.
    pub mutants: Vec<Mutant>,
    /// Sites whose edit the frontend's own parser rejected: neither a
    /// survivor nor a kill.
    pub invalid_discarded: usize,
}

/// A mutant as plain text.
#[verifier::ext_equal]
pub struct MutantView {
    pub line: u32,
    pub kind: Seq<char>,
    pub detail: Seq<char>,
    pub source: Seq<char>,
}

impl View for Mutant {
    type V = MutantView;

    open spec fn view(&self) -> MutantView {
        MutantView {
            line: self.line,
            kind: self.kind@,
            detail: self.detail@,
            source: self.source@,
        }
    }
}

} // verus!
