//! JavaScript and TypeScript frontend: lowers a parsed, name-resolved syntax
//! tree.
//!
//! # Granularity
//!
//! One node per statement (one per declarator for multi-declarations), plus
//! one node per call expression, extracted in evaluation order ahead of the
//! unit that contains it: the call is its own node with its own callee name,
//! and its result is a synthetic temporary.
//!
//! Reads and writes come from the resolver, not from name matching: every
//! identifier reference is attributed to the innermost enclosing unit,
//! write-only references count as definitions rather than uses, and unresolved
//! names get a variable each.
//!
//! # Function naming
//!
//! A named function keeps its own name. Anything else borrows one from its
//! immediate syntactic context when the context provides one: a `const` or
//! `let` target, an assignment target, an object property, or a class field or
//! method. Failing that, it is qualified by its nearest named enclosing
//! function (`outer.<anon@LINE>`); an anonymous function of the module keeps
//! the bare `<fn@LINE>` form.
//!
//! # Closure captures
//!
//! A unit whose span contains a nested function gains, as uses, every symbol
//! that function references but does not itself bind.

use vstd::prelude::*;

use oxc_allocator::Allocator;
use oxc_ast::AstKind;
use oxc_parser::Parser;
use oxc_semantic::{Semantic, SemanticBuilder};
use oxc_span::{GetSpan, SourceType};
use oxc_syntax::node::NodeId;

use crate::ir::{function_views, FunctionIr, FunctionView};
use crate::js::facts::facts_of;
use crate::js::lower::JsLowerer;
use crate::js::model::{functions_lowered, module_lowered, Env};
use crate::js::source::{
    build_tree, js_views, opt_text, opt_texts, source_of, spans_fit, JsFacts, JsNode, JsNodeView,
    JsSource, NodeTable, Parts, Reference,
};
use crate::ts::tree::Nodes;

pub mod constructs;
pub mod facts;
pub mod laws;
pub(crate) mod lower;
pub mod model;
pub mod names;
pub mod programs;
pub mod source;
pub mod state;

verus! {

/// Failure to lower a source text.
#[derive(Debug, Clone)]
pub enum JsError {
    /// The parser gave up entirely.
    Syntax {
        /// Offending path.
        path: String,
        /// First error, for the human.
        first: String,
    },
}

/// A failure as plain text.
pub enum JsErrorView {
    Syntax { path: Seq<char>, first: Seq<char> },
}

impl View for JsError {
    type V = JsErrorView;

    open spec fn view(&self) -> JsErrorView {
        match *self {
            JsError::Syntax { path, first } => JsErrorView::Syntax { path: path@, first: first@ },
        }
    }
}

/// A lowered module: one function per function of the source plus one for
/// top-level code.
#[derive(Debug)]
pub struct LoweredModule {
    /// Source path as given.
    pub file: String,
    /// Every lowered function, module body first.
    pub functions: Vec<FunctionIr>,
}

/// A lowered module as plain values.
#[verifier::ext_equal]
pub struct ModuleView {
    pub file: Seq<char>,
    pub functions: Seq<FunctionView>,
}

impl View for LoweredModule {
    type V = ModuleView;

    open spec fn view(&self) -> ModuleView {
        ModuleView { file: self.file@, functions: function_views(self.functions@) }
    }
}

/// The memory that a parsed program is held in: opaque.
#[verifier::external_type_specification]
#[verifier::external_body]
pub struct ExAllocator(oxc_allocator::Allocator);

/// A parsed program with its names resolved: opaque here but for the nodes it
/// holds.
#[verifier::external_type_specification]
#[verifier::external_body]
pub struct ExSemantic<'a>(oxc_semantic::Semantic<'a>);

/// The node table of an analysed program, with what is known of each node. The
/// nodes come in the order in which the program is visited, the program first.
pub uninterp spec fn table_of(program: Semantic<'_>) -> JsFacts;

/// Which dialect a source text is read in.
#[derive(Debug, Clone, Copy)]
pub enum Dialect<'a> {
    /// The one that a file's extension names.
    OfFile(&'a str),
    /// A plain module.
    Module,
}

/// A choice of dialect as plain text.
pub enum DialectView {
    OfFile(Seq<char>),
    Module,
}

impl<'a> View for Dialect<'a> {
    type V = DialectView;

    open spec fn view(&self) -> DialectView {
        match *self {
            Dialect::OfFile(file) => DialectView::OfFile(file@),
            Dialect::Module => DialectView::Module,
        }
    }
}

/// Why a source text is not analysed.
#[derive(Debug, Clone)]
pub enum Refusal {
    /// The file's extension names no dialect.
    Extension,
    /// The parser gave up: the first of its diagnostics, if there is one.
    Parser(Option<String>),
}

/// A refusal as plain text.
pub enum RefusalView {
    Extension,
    Parser(Option<Seq<char>>),
}

impl View for Refusal {
    type V = RefusalView;

    open spec fn view(&self) -> RefusalView {
        match *self {
            Refusal::Extension => RefusalView::Extension,
            Refusal::Parser(first) => RefusalView::Parser(opt_text(first)),
        }
    }
}

/// The node table of the program that the parser and the resolver make of a
/// source text in a dialect, or why there is none. It names three outside
/// functions at once, each of which works on what the one before gives: the
/// source type of the dialect, the parser, and the resolver of names.
pub uninterp spec fn analysed(source: Seq<char>, dialect: DialectView) -> Result<
    JsFacts,
    RefusalView,
>;

/// `oxc_allocator::Allocator::default`: an empty allocator.
#[verifier::external_body]
fn new_allocator() -> Allocator {
    Allocator::default()
}

/// `oxc_parser::Parser::parse` and `oxc_semantic::SemanticBuilder::build` with
/// the node table enabled, in the dialect of the file's extension
/// (`oxc_span::SourceType::from_path`) or that of a module
/// (`oxc_span::SourceType::mjs`): what comes out is fixed by the text and the
/// dialect.
#[verifier::external_body]
fn analyse<'a>(allocator: &'a Allocator, source: &'a str, dialect: Dialect<'_>) -> (r: Result<
    Semantic<'a>,
    Refusal,
>)
    ensures
        match r {
            Ok(program) => analysed(source@, dialect@) == Ok::<JsFacts, RefusalView>(
                table_of(program),
            ),
            Err(why) => analysed(source@, dialect@) == Err::<JsFacts, RefusalView>(why@),
        },
{
    let dialect = match dialect {
        Dialect::OfFile(file) => SourceType::from_path(file).map_err(|_| Refusal::Extension)?,
        Dialect::Module => SourceType::mjs(),
    };
    let parsed = Parser::new(allocator, source, dialect).parse();
    if parsed.panicked {
        return Err(Refusal::Parser(parsed.diagnostics.first().map(ToString::to_string)));
    }
    let program = allocator.alloc(parsed.program);
    Ok(SemanticBuilder::new().with_build_nodes(true).build(program).semantic)
}

/// `oxc_semantic::AstNodes::len`: how many nodes the table holds.
#[verifier::external_body]
fn node_count(program: &Semantic<'_>) -> (r: usize)
    ensures
        r == table_of(*program).nodes.len(),
        r == table_of(*program).bindings.len(),
        r == table_of(*program).references.len(),
        r == table_of(*program).keys.len(),
        r == table_of(*program).parts.len(),
{
    program.nodes().len()
}

/// `oxc_semantic::AstNodes::kind` and `parent_id`: the kind, span and parent of
/// a node, with the name of an identifier (`AstKind::identifier_name`).
#[verifier::external_body]
fn node_at(program: &Semantic<'_>, i: usize) -> (r: JsNode)
    requires
        i < table_of(*program).nodes.len(),
    ensures
        r@ == table_of(*program).nodes[i as int],
{
    let id = NodeId::new(i);
    let n = program.nodes().kind(id);
    let parent = program.nodes().parent_id(id).index();
    let name = n.identifier_name().map(|x| x.to_string());
    JsNode { kind: format!("{:?}", n.ty()), start: n.span().start, end: n.span().end, parent, name }
}

/// The symbol of a binding identifier, as `oxc_ast::ast::BindingIdentifier`
/// holds it once names are resolved.
#[verifier::external_body]
fn binding_at(program: &Semantic<'_>, i: usize) -> (r: Option<u32>)
    requires
        i < table_of(*program).nodes.len(),
    ensures
        r == table_of(*program).bindings[i as int],
{
    match program.nodes().kind(NodeId::new(i)) {
        AstKind::BindingIdentifier(b) => b.symbol_id.get().map(|s| s.index() as u32),
        _ => None,
    }
}

/// `oxc_semantic::Scoping::get_reference` of an identifier reference: its
/// symbol, and whether the value is read and written.
#[verifier::external_body]
fn reference_at(program: &Semantic<'_>, i: usize) -> (r: Option<Reference>)
    requires
        i < table_of(*program).nodes.len(),
    ensures
        r == table_of(*program).references[i as int],
{
    match program.nodes().kind(NodeId::new(i)) {
        AstKind::IdentifierReference(id) => {
            let r = program.scoping().get_reference(id.reference_id());
            let symbol = r.symbol_id().map(|s| s.index() as u32);
            Some(Reference { symbol, read: r.flags().is_read(), write: r.flags().is_write() })
        },
        _ => None,
    }
}

/// `oxc_ast::ast::PropertyKey::static_name` of the key of an object property,
/// a class field or a method.
#[verifier::external_body]
fn key_at(program: &Semantic<'_>, i: usize) -> (r: Option<String>)
    requires
        i < table_of(*program).nodes.len(),
    ensures
        opt_text(r) == table_of(*program).keys[i as int],
{
    match program.nodes().kind(NodeId::new(i)) {
        AstKind::ObjectProperty(p) => p.key.static_name().map(String::from),
        AstKind::PropertyDefinition(p) => p.key.static_name().map(String::from),
        AstKind::MethodDefinition(p) => p.key.static_name().map(String::from),
        _ => None,
    }
}

/// Which of its optional parts a `for` statement (`oxc_ast::ast::ForStatement`)
/// or a `switch` case (`oxc_ast::ast::SwitchCase`) has.
#[verifier::external_body]
fn parts_at(program: &Semantic<'_>, i: usize) -> (r: Parts)
    requires
        i < table_of(*program).nodes.len(),
    ensures
        r == table_of(*program).parts[i as int],
{
    let (init, test, update) = match program.nodes().kind(NodeId::new(i)) {
        AstKind::ForStatement(f) => (f.init.is_some(), f.test.is_some(), f.update.is_some()),
        AstKind::SwitchCase(c) => (false, c.test.is_some(), false),
        _ => (false, false, false),
    };
    Parts { init, test, update }
}

/// Reads the node table of an analysed program.
fn list_nodes(program: &Semantic<'_>) -> (r: NodeTable)
    ensures
        r@ == table_of(*program),
{
    let ghost t = table_of(*program);
    let n: usize = node_count(program);
    let mut nodes: Vec<JsNode> = Vec::new();
    let mut bindings: Vec<Option<u32>> = Vec::new();
    let mut references: Vec<Option<Reference>> = Vec::new();
    let mut keys: Vec<Option<String>> = Vec::new();
    let mut parts: Vec<Parts> = Vec::new();
    let mut i: usize = 0;
    while i < n
        invariant
            i <= n,
            t == table_of(*program),
            n == t.nodes.len(),
            n == t.bindings.len(),
            n == t.references.len(),
            n == t.keys.len(),
            n == t.parts.len(),
            nodes@.len() == i,
            bindings@ =~= t.bindings.take(i as int),
            references@ =~= t.references.take(i as int),
            keys@.len() == i,
            parts@ =~= t.parts.take(i as int),
            forall|k: int| 0 <= k < i ==> (#[trigger] nodes@[k])@ == t.nodes[k],
            forall|k: int| 0 <= k < i ==> opt_text(#[trigger] keys@[k]) == t.keys[k],
        decreases n - i,
    {
        nodes.push(node_at(program, i));
        bindings.push(binding_at(program, i));
        references.push(reference_at(program, i));
        keys.push(key_at(program, i));
        parts.push(parts_at(program, i));
        i += 1;
    }
    let r = NodeTable { nodes, bindings, references, keys, parts };
    proof {
        assert(js_views(r.nodes@) =~= t.nodes);
        assert(opt_texts(r.keys@) =~= t.keys);
        assert(r@ =~= t);
    }
    r
}

/// What a node table is lowered to.
pub open spec fn table_lowered(t: JsFacts, source: Seq<char>, file: Seq<char>) -> ModuleView {
    ModuleView { file, functions: module_lowered(source_of(t, source), file) }
}

/// What becomes of an analysis.
pub open spec fn analysis_lowered(
    a: Result<JsFacts, RefusalView>,
    source: Seq<char>,
    file: Seq<char>,
) -> Result<ModuleView, JsErrorView> {
    match a {
        Ok(t) => Ok(table_lowered(t, source, file)),
        Err(RefusalView::Parser(Some(first))) => Err(JsErrorView::Syntax { path: file, first }),
        Err(_) => Err(JsErrorView::Syntax { path: file, first: "parser panicked"@ }),
    }
}

/// What a source text is lowered to: in the dialect of its file's extension,
/// and as a module where that names none.
pub open spec fn source_lowered(source: Seq<char>, file: Seq<char>) -> Result<
    ModuleView,
    JsErrorView,
> {
    let named = analysed(source, DialectView::OfFile(file));
    let a = if named == Err::<JsFacts, RefusalView>(RefusalView::Extension) {
        analysed(source, DialectView::Module)
    } else {
        named
    };
    analysis_lowered(a, source, file)
}

/// Whether every function of a lowered module is a consistent graph.
pub open spec fn all_valid(m: LoweredModule) -> bool {
    forall|k: int| 0 <= k < m.functions@.len() ==> (#[trigger] m.functions@[k])@.valid()
}

fn list_names(nodes: &Vec<JsNode>) -> (r: Vec<Option<String>>)
    ensures
        opt_texts(r@) == js_views(nodes@).map_values(|n: JsNodeView| n.name),
{
    let mut out: Vec<Option<String>> = Vec::new();
    let mut i: usize = 0;
    while i < nodes.len()
        invariant
            i <= nodes.len(),
            out@.len() == i,
            forall|k: int| 0 <= k < i ==> opt_text(#[trigger] out@[k]) == nodes@[k]@.name,
        decreases nodes.len() - i,
    {
        let name = match &nodes[i].name {
            Some(n) => Some(n.clone()),
            None => None,
        };
        out.push(name);
        i += 1;
    }
    assert(opt_texts(out@) =~= js_views(nodes@).map_values(|n: JsNodeView| n.name));
    out
}

/// Lowers a node table: the module body first, then every function in the
/// table's order.
pub fn lower_table(table: &NodeTable, source: &str, file: &str) -> (r: LoweredModule)
    ensures
        r@ == table_lowered(table@, source@, file@),
        all_valid(r),
{
    let tree = build_tree(&table.nodes);
    let names = list_names(&table.nodes);
    let s = JsSource {
        tree: Nodes { nodes: tree.as_slice(), source },
        names: &names,
        bindings: &table.bindings,
        references: &table.references,
        keys: &table.keys,
        parts: &table.parts,
    };
    let ghost src = source_of(table@, source@);
    assert(s.s() == src);
    assert(spans_fit(src.t));
    let f = s.collect();
    let l = JsLowerer { s, f: &f };
    let ghost e = Env { s: src, f: facts_of(src) };
    assert(l.e() == e);
    let mut functions: Vec<FunctionIr> = Vec::new();
    let top = l.lower_top(file);
    let ghost first = top@;
    functions.push(top);
    let mut k: usize = 0;
    assert(function_views(functions@) =~= seq![first] + functions_lowered(e, file@, 0));
    while k < f.functions.len()
        invariant
            k <= f.functions.len(),
            l.f == &f,
            l.e() == e,
            l.ok(),
            e.f.functions.len() == f.functions@.len(),
            forall|j: int| 0 <= j < f.functions@.len() ==> l.s.has(#[trigger] f.functions@[j].body as int),
            function_views(functions@) == seq![first] + functions_lowered(e, file@, k as int),
            forall|j: int| 0 <= j < functions@.len() ==> (#[trigger] functions@[j])@.valid(),
        decreases f.functions.len() - k,
    {
        let fact = &f.functions[k];
        assert(e.f.functions[k as int] == fact@);
        let one = l.lower_function(file, fact);
        let ghost before = functions@;
        functions.push(one);
        assert(function_views(functions@) =~= function_views(before).push(one@));
        assert(function_views(functions@) =~= seq![first] + functions_lowered(
            e,
            file@,
            k + 1,
        ));
        k += 1;
    }
    LoweredModule { file: file.to_owned(), functions }
}

/// Lowers source text. `file` decides the dialect by extension and is recorded
/// in every function id.
///
/// # Errors
///
/// `Syntax` when the parser gives up.
pub fn lower_source(source: &str, file: &str) -> (r: Result<LoweredModule, JsError>)
    ensures
        match r {
            Ok(m) => source_lowered(source@, file@) == Ok::<ModuleView, JsErrorView>(m@)
                && all_valid(m),
            Err(e) => source_lowered(source@, file@) == Err::<ModuleView, JsErrorView>(e@),
        },
{
    let allocator = new_allocator();
    let program = match analyse(&allocator, source, Dialect::OfFile(file)) {
        Err(Refusal::Extension) => analyse(&allocator, source, Dialect::Module),
        named => named,
    };
    match program {
        Ok(program) => {
            let table = list_nodes(&program);
            Ok(lower_table(&table, source, file))
        },
        Err(Refusal::Parser(Some(first))) => Err(JsError::Syntax { path: file.to_owned(), first }),
        Err(_) => Err(
            JsError::Syntax { path: file.to_owned(), first: "parser panicked".to_owned() },
        ),
    }
}

} // verus!
