//! Generic tree-sitter frontend.
//!
//! One walker drives every language, table-selected by [`Language`]: a
//! per-language [`grammar::GrammarTable`] maps node kinds and field names onto
//! the lowering vocabulary (function definitions, bindings, assignments,
//! calls, branches, loops, returns and throws, state writes). Every lowering
//! is statement-granular.

use vstd::prelude::*;

use crate::ir::{function_views, FunctionIr, FunctionView};
use crate::text::same;
use crate::ts::grammar::{
    go_grammar, go_table, java_grammar, java_table, kotlin_grammar, kotlin_table, python_grammar,
    python_table, rust_grammar, rust_table, Grammar, GrammarTable,
};
use crate::ts::model::DiagnosticView;
use crate::ts::module::{error_counts, error_stats, lower_module, module_lowered};
use crate::ts::state::diagnostic_views;
use crate::ts::tree::{tree_view, SyntaxNode, SyntaxView, SyntaxTree};

pub use crate::ts::state::Diagnostic;

pub mod arms;
pub mod branches;
pub mod constructs;
pub mod grammar;
pub mod laws;
pub mod model;
pub mod module;
pub mod names;
pub mod others;
pub mod shapes;
pub mod sources;
pub mod spelling;
pub mod state;
pub mod statements;
pub mod tree;
pub mod variables;
pub(crate) mod walk;

verus! {

/// A source language this frontend can be asked to lower.
#[derive(Debug, Clone, Copy, PartialEq, Eq, Hash)]
pub enum Language {
    Rust,
    Python,
    Java,
    Kotlin,
    Go,
}

impl Language {
    /// The language of a file extension (no leading dot).
    pub open spec fn of_extension(ext: Seq<char>) -> Option<Language> {
        if ext == "rs"@ {
            Some(Language::Rust)
        } else if ext == "py"@ {
            Some(Language::Python)
        } else if ext == "java"@ {
            Some(Language::Java)
        } else if ext == "kt"@ || ext == "kts"@ {
            Some(Language::Kotlin)
        } else if ext == "go"@ {
            Some(Language::Go)
        } else {
            None
        }
    }

    /// The vocabulary of a language.
    pub open spec fn grammar(self) -> Grammar {
        match self {
            Language::Rust => rust_grammar(),
            Language::Python => python_grammar(),
            Language::Java => java_grammar(),
            Language::Kotlin => kotlin_grammar(),
            Language::Go => go_grammar(),
        }
    }

    /// Infers a language from a file extension (no leading dot).
    #[must_use]
    pub fn from_extension(ext: &str) -> (r: Option<Self>)
        ensures
            r == Language::of_extension(ext@),
    {
        if same(ext, "rs") {
            Some(Language::Rust)
        } else if same(ext, "py") {
            Some(Language::Python)
        } else if same(ext, "java") {
            Some(Language::Java)
        } else if same(ext, "kt") || same(ext, "kts") {
            Some(Language::Kotlin)
        } else if same(ext, "go") {
            Some(Language::Go)
        } else {
            None
        }
    }

    /// The vocabulary of the language.
    pub fn table(self) -> (r: GrammarTable)
        ensures
            r@ == self.grammar(),
    {
        match self {
            Language::Rust => rust_table(),
            Language::Python => python_table(),
            Language::Java => java_table(),
            Language::Kotlin => kotlin_table(),
            Language::Go => go_table(),
        }
    }
}

/// Failure to lower a source text.
#[derive(Debug, Clone)]
pub enum TsError {
    /// The extension names no known language.
    UnsupportedExtension {
        /// Offending path.
        path: String,
        /// The extension that didn't match anything.
        ext: String,
    },
    /// The grammar's ABI didn't match the linked tree-sitter runtime.
    Grammar {
        /// Offending path.
        path: String,
    },
    /// The parser returned nothing at all.
    ParseFailed {
        /// Offending path.
        path: String,
    },
    /// Parse errors dominate the tree: lowering would produce more noise than
    /// signal, so this refuses rather than guess.
    Syntax {
        /// Offending path.
        path: String,
        /// How many nodes are errors or missing.
        bad: usize,
        /// How many nodes there are.
        total: usize,
    },
}

/// A failure as plain text.
pub enum TsErrorView {
    UnsupportedExtension { path: Seq<char>, ext: Seq<char> },
    Grammar { path: Seq<char> },
    ParseFailed { path: Seq<char> },
    Syntax { path: Seq<char>, bad: nat, total: nat },
}

impl View for TsError {
    type V = TsErrorView;

    open spec fn view(&self) -> TsErrorView {
        match *self {
            TsError::UnsupportedExtension { path, ext } => TsErrorView::UnsupportedExtension {
                path: path@,
                ext: ext@,
            },
            TsError::Grammar { path } => TsErrorView::Grammar { path: path@ },
            TsError::ParseFailed { path } => TsErrorView::ParseFailed { path: path@ },
            TsError::Syntax { path, bad, total } => TsErrorView::Syntax {
                path: path@,
                bad: bad as nat,
                total: total as nat,
            },
        }
    }
}

/// A lowered module: one function per function of the source plus a
/// `<module>` wrapper for top-level code.
#[derive(Debug)]
pub struct LoweredModule {
    /// Source path as given.
    pub file: String,
    /// Every lowered function, `<module>` first.
    pub functions: Vec<FunctionIr>,
    /// Functions degraded by a parse error.
    pub diagnostics: Vec<Diagnostic>,
    /// Which grammar produced this module.
    pub generator: &'static str,
}

/// A lowered module as plain values.
#[verifier::ext_equal]
pub struct ModuleView {
    pub file: Seq<char>,
    pub functions: Seq<FunctionView>,
    pub diagnostics: Seq<DiagnosticView>,
    pub generator: Seq<char>,
}

impl View for LoweredModule {
    type V = ModuleView;

    open spec fn view(&self) -> ModuleView {
        ModuleView {
            file: self.file@,
            functions: function_views(self.functions@),
            diagnostics: diagnostic_views(self.diagnostics@),
            generator: self.generator@,
        }
    }
}

/// A tree of tree-sitter: opaque here but for the nodes it holds.
#[verifier::external_type_specification]
#[verifier::external_body]
pub struct ExTree(tree_sitter::Tree);

/// The reason for which a parser refuses a grammar: opaque.
#[verifier::external_type_specification]
#[verifier::external_body]
pub struct ExLanguageError(tree_sitter::LanguageError);

/// The nodes of a tree in document order, the root first, each with its depth
/// below the root.
pub uninterp spec fn tree_nodes(tree: tree_sitter::Tree) -> Seq<SyntaxView>;

/// Whether `Parser::set_language` accepts the grammar of a language.
pub uninterp spec fn grammar_loads(language: Language) -> bool;

/// The nodes of the tree that `Parser::parse` makes of a source text, if it
/// makes one.
pub uninterp spec fn parsed(language: Language, source: Seq<char>) -> Option<Seq<SyntaxView>>;

/// `tree_sitter::Parser::set_language` and `tree_sitter::Parser::parse` with a
/// new parser: whether the grammar loads is fixed by the language, and the
/// tree by the language and the text.
#[verifier::external_body]
fn parse_source(language: Language, source: &str) -> (r: Result<
    Option<tree_sitter::Tree>,
    tree_sitter::LanguageError,
>)
    ensures
        match r {
            Err(_) => !grammar_loads(language),
            Ok(None) => grammar_loads(language) && parsed(language, source@) is None,
            Ok(Some(tree)) => grammar_loads(language) && parsed(language, source@) == Some(
                tree_nodes(tree),
            ),
        },
{
    let grammar: tree_sitter::Language = match language {
        Language::Rust => tree_sitter_rust::LANGUAGE.into(),
        Language::Python => tree_sitter_python::LANGUAGE.into(),
        Language::Java => tree_sitter_java::LANGUAGE.into(),
        Language::Kotlin => tree_sitter_kotlin_ng::LANGUAGE.into(),
        Language::Go => tree_sitter_go::LANGUAGE.into(),
    };
    let mut parser = tree_sitter::Parser::new();
    parser.set_language(&grammar)?;
    Ok(parser.parse(source, None))
}

/// `tree_sitter::Node::descendant_count` of the root: how many nodes the tree
/// holds, the root included.
#[verifier::external_body]
fn node_count(tree: &tree_sitter::Tree) -> (r: usize)
    ensures
        r == tree_nodes(*tree).len(),
{
    tree.root_node().descendant_count()
}

/// `tree_sitter::TreeCursor::goto_descendant` from the root: the node at an
/// index in document order, with the cursor's field name and depth for it.
#[verifier::external_body]
fn node_at(tree: &tree_sitter::Tree, i: usize) -> (r: SyntaxNode)
    requires
        i < tree_nodes(*tree).len(),
    ensures
        r@ == tree_nodes(*tree)[i as int],
{
    let mut cursor = tree.walk();
    cursor.goto_descendant(i);
    let n = cursor.node();
    let kind = n.kind().to_owned();
    let field = cursor.field_name().map(str::to_owned);
    let (named, error, missing) = (n.is_named(), n.is_error(), n.is_missing());
    let (start, end, row) = (n.start_byte(), n.end_byte(), n.start_position().row);
    let (has_error, depth) = (n.has_error(), cursor.depth());
    SyntaxNode { kind, field, named, error, missing, has_error, start, end, row, depth }
}

fn list_nodes(tree: &tree_sitter::Tree) -> (r: Vec<SyntaxNode>)
    ensures
        tree_view(r@) == tree_nodes(*tree),
{
    let n: usize = node_count(tree);
    let mut out: Vec<SyntaxNode> = Vec::new();
    let mut i: usize = 0;
    while i < n
        invariant
            i <= n,
            n == tree_nodes(*tree).len(),
            out@.len() == i,
            forall|k: int| 0 <= k < i ==> (#[trigger] out@[k])@ == tree_nodes(*tree)[k],
        decreases n - i,
    {
        out.push(node_at(tree, i));
        i += 1;
    }
    assert(tree_view(out@) =~= tree_nodes(*tree));
    out
}

pub open spec fn clamped(n: nat) -> nat {
    if n > u32::MAX {
        u32::MAX as nat
    } else {
        n
    }
}

/// How many of the nodes of a tree are errors or missing, and how many there
/// are.
pub open spec fn broken(t: SyntaxTree) -> (nat, nat) {
    if t.len() == 0 {
        (0, 0)
    } else {
        (clamped(error_counts(t, 0).1), clamped(error_counts(t, 0).0))
    }
}

/// What a tree is lowered to: refused when more than a quarter of its nodes
/// are errors or missing.
pub open spec fn tree_lowered(
    language: Language,
    t: SyntaxTree,
    source: Seq<char>,
    file: Seq<char>,
) -> Result<ModuleView, TsErrorView> {
    let (bad, total) = broken(t);
    if 4 * bad > total {
        Err(TsErrorView::Syntax { path: file, bad, total })
    } else {
        let (functions, diagnostics) = module_lowered(language.grammar(), t, source, file);
        Ok(
            ModuleView {
                file,
                functions,
                diagnostics,
                generator: language.grammar().generator,
            },
        )
    }
}

/// What a source text is lowered to.
pub open spec fn source_lowered(language: Language, source: Seq<char>, file: Seq<char>) -> Result<
    ModuleView,
    TsErrorView,
> {
    if !grammar_loads(language) {
        Err(TsErrorView::Grammar { path: file })
    } else {
        match parsed(language, source) {
            None => Err(TsErrorView::ParseFailed { path: file }),
            Some(t) => tree_lowered(language, t, source, file),
        }
    }
}

/// Whether a result is the one that is meant.
pub open spec fn result_is(
    r: Result<LoweredModule, TsError>,
    meant: Result<ModuleView, TsErrorView>,
) -> bool {
    match r {
        Ok(m) => meant == Ok::<ModuleView, TsErrorView>(m@),
        Err(e) => meant == Err::<ModuleView, TsErrorView>(e@),
    }
}

/// Whether every function of a lowered module is a consistent graph.
pub open spec fn all_valid(r: Result<LoweredModule, TsError>) -> bool {
    r matches Ok(m) ==> forall|k: int|
        0 <= k < m.functions@.len() ==> (#[trigger] m.functions@[k])@.valid()
}

/// The language of the file at a path, by its extension (no leading dot).
///
/// # Errors
///
/// `UnsupportedExtension` when the extension names no known language.
pub fn language_of(path: &str, ext: &str) -> (r: Result<Language, TsError>)
    ensures
        match Language::of_extension(ext@) {
            Some(l) => r == Ok::<Language, TsError>(l),
            None => r matches Err(e) && e@ == (TsErrorView::UnsupportedExtension {
                path: path@,
                ext: ext@,
            }),
        },
{
    match Language::from_extension(ext) {
        Some(l) => Ok(l),
        None => Err(TsError::UnsupportedExtension { path: path.to_owned(), ext: ext.to_owned() }),
    }
}

/// Lowers a parsed tree.
///
/// A parse error inside one function degrades only that function, but a file
/// that is mostly noise isn't worth lowering at all.
///
/// # Errors
///
/// `Syntax` when more than a quarter of the nodes are errors or missing.
pub fn lower_tree(
    language: Language,
    nodes: &[SyntaxNode],
    source: &str,
    file: &str,
) -> (r: Result<LoweredModule, TsError>)
    ensures
        result_is(r, tree_lowered(language, tree_view(nodes@), source@, file@)),
        all_valid(r),
{
    let table = language.table();
    let (total, bad) = error_stats(nodes);
    let limit: usize = 0xffff_ffff;
    let bad: usize = if bad > limit {
        limit
    } else {
        bad
    };
    let total: usize = if total > limit {
        limit
    } else {
        total
    };
    if 4 * bad as u64 > total as u64 {
        return Err(TsError::Syntax { path: file.to_owned(), bad, total });
    }
    let (functions, diagnostics) = lower_module(&table, nodes, source, file);
    Ok(
        LoweredModule {
            file: file.to_owned(),
            functions,
            diagnostics,
            generator: table.generator,
        },
    )
}

/// Lowers source text for a given [`Language`].
///
/// # Errors
///
/// See [`TsError`].
pub fn lower_source(language: Language, source: &str, file: &str) -> (r: Result<
    LoweredModule,
    TsError,
>)
    ensures
        result_is(r, source_lowered(language, source@, file@)),
        all_valid(r),
{
    match parse_source(language, source) {
        Err(_) => Err(TsError::Grammar { path: file.to_owned() }),
        Ok(None) => Err(TsError::ParseFailed { path: file.to_owned() }),
        Ok(Some(tree)) => {
            let nodes = list_nodes(&tree);
            lower_tree(language, nodes.as_slice(), source, file)
        },
    }
}

} // verus!
