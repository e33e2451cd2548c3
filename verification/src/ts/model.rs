//! What the walker lowers a syntax tree to.
//!
//! Lowering threads a state (the nodes made so far, the variables in scope,
//! the loops that are open) through the statements of a function. Each
//! function here says what one construct does to that state, and which nodes
//! control leaves it from.

use vstd::prelude::*;

use crate::ir::{CallOpacity, KindView, NodeView, VarId};
use crate::text::{joined_with, snippet_of};
use crate::ts::grammar::Grammar;
use crate::ts::tree::{
    below, child_by_field, child_of_kind, field_or_kind, field_or_last, field_or_nth, first, kids,
    last, lemma_below, lemma_kid, line_at, size, text_at, Pick, SyntaxTree,
};

verus! {

/// What a lowering reads and never changes: the vocabulary, the tree, its
/// source text and the name of the function.
pub struct Env {
    pub g: Grammar,
    pub t: SyntaxTree,
    pub src: Seq<char>,
    pub name: Seq<char>,
}

/// A loop that is open: where `continue` goes, and the nodes that `break`.
#[verifier::ext_equal]
pub struct LoopView {
    pub continue_target: usize,
    pub breaks: Seq<usize>,
}

/// A report that something was not lowered as written.
#[verifier::ext_equal]
pub struct DiagnosticView {
    pub function: Seq<char>,
    pub message: Seq<char>,
}

/// The state of a lowering.
#[verifier::ext_equal]
pub struct Walk {
    pub nodes: Seq<NodeView>,
    pub scopes: Seq<Map<Seq<char>, VarId>>,
    pub globals: Map<Seq<char>, VarId>,
    pub next_var: VarId,
    /// Whether the numbers of variables have been used up, so that they start
    /// from zero again.
    pub spent: bool,
    pub loops: Seq<LoopView>,
    pub diagnostics: Seq<DiagnosticView>,
}

/// The state before anything is lowered: one empty scope.
pub open spec fn fresh() -> Walk {
    Walk {
        nodes: Seq::empty(),
        scopes: seq![Map::empty()],
        globals: Map::empty(),
        next_var: 0,
        spent: false,
        loops: Seq::empty(),
        diagnostics: Seq::empty(),
    }
}

/// The id of the next node.
pub open spec fn next_node(w: Walk) -> usize {
    w.nodes.len() as usize
}

pub open spec fn pushed(w: Walk, n: NodeView) -> Walk {
    Walk { nodes: w.nodes.push(n), ..w }
}

/// A node without successors.
pub open spec fn bare_node(
    line: u32,
    kind: KindView,
    defs: Seq<VarId>,
    uses: Seq<VarId>,
    label: Seq<char>,
) -> NodeView {
    NodeView { line: Some(line), kind, defs, uses, succs: Seq::empty(), label }
}

/// One edge more, unless it is there.
pub open spec fn edge(w: Walk, from: usize, to: usize) -> Walk {
    let n = w.nodes[from as int];
    if n.succs.contains(to) {
        w
    } else {
        Walk {
            nodes: w.nodes.update(
                from as int,
                NodeView { succs: n.succs.push(to), ..n },
            ),
            ..w
        }
    }
}

/// Edges from the nodes at `k` and behind it to `to`.
pub open spec fn link_from(w: Walk, from: Seq<usize>, k: int, to: usize) -> Walk
    decreases from.len() - k,
{
    if k < 0 || k >= from.len() {
        w
    } else {
        link_from(edge(w, from[k], to), from, k + 1, to)
    }
}

/// Edges from every node of `from` to `to`.
pub open spec fn link(w: Walk, from: Seq<usize>, to: usize) -> Walk {
    link_from(w, from, 0, to)
}

/// Edges from each node to the next one, from the `k`-th pair on.
pub open spec fn chain_from(w: Walk, ids: Seq<usize>, k: int) -> Walk
    decreases ids.len() - k,
{
    if k < 0 || k + 1 >= ids.len() {
        w
    } else {
        chain_from(edge(w, ids[k], ids[k + 1]), ids, k + 1)
    }
}

pub open spec fn scope_pushed(w: Walk) -> Walk {
    Walk { scopes: w.scopes.push(Map::empty()), ..w }
}

pub open spec fn scope_popped(w: Walk) -> Walk {
    Walk { scopes: w.scopes.drop_last(), ..w }
}

/// A scope more where blocks are scopes.
pub open spec fn block_entered(e: Env, w: Walk) -> Walk {
    if e.g.block_scoped {
        scope_pushed(w)
    } else {
        w
    }
}

/// A scope less where blocks are scopes.
pub open spec fn block_left(e: Env, w: Walk) -> Walk {
    if e.g.block_scoped {
        scope_popped(w)
    } else {
        w
    }
}

/// A variable that no name has yet.
pub open spec fn allocated(w: Walk) -> (Walk, VarId) {
    let last = w.next_var == u32::MAX;
    (
        Walk {
            next_var: if last {
                0
            } else {
                (w.next_var + 1) as u32
            },
            spent: w.spent || last,
            ..w
        },
        w.next_var,
    )
}

/// Binds a name in the innermost scope. Where blocks are scopes the variable
/// is always new; elsewhere a name keeps the variable it has.
pub open spec fn declared(e: Env, w: Walk, name: Seq<char>) -> (Walk, VarId) {
    let inner = w.scopes.last();
    if !e.g.block_scoped && inner.contains_key(name) {
        (w, inner[name])
    } else {
        let (w1, v) = allocated(w);
        (
            Walk {
                scopes: w1.scopes.update(w1.scopes.len() - 1, inner.insert(name, v)),
                ..w1
            },
            v,
        )
    }
}

/// The variable that the innermost of the first `k` scopes gives a name.
pub open spec fn in_scopes(scopes: Seq<Map<Seq<char>, VarId>>, k: int, name: Seq<char>) -> Option<
    VarId,
>
    decreases k,
{
    if k <= 0 || k > scopes.len() {
        None
    } else if scopes[k - 1].contains_key(name) {
        Some(scopes[k - 1][name])
    } else {
        in_scopes(scopes, k - 1, name)
    }
}

/// The variable of a name: the innermost binding, or else one that the whole
/// function shares for the name.
pub open spec fn resolved(w: Walk, name: Seq<char>) -> (Walk, VarId) {
    match in_scopes(w.scopes, w.scopes.len() as int, name) {
        Some(v) => (w, v),
        None => if w.globals.contains_key(name) {
            (w, w.globals[name])
        } else {
            let (w1, v) = allocated(w);
            (Walk { globals: w1.globals.insert(name, v), ..w1 }, v)
        },
    }
}

/// `v` added to the list unless it is there.
pub open spec fn with_var(list: Seq<VarId>, v: VarId) -> Seq<VarId> {
    if list.contains(v) {
        list
    } else {
        list.push(v)
    }
}

/// The variables of the names from the `k`-th on, resolved in order and
/// added to `out`.
pub open spec fn resolved_all(w: Walk, names: Seq<Seq<char>>, k: int, out: Seq<VarId>) -> (
    Walk,
    Seq<VarId>,
)
    decreases names.len() - k,
{
    if k < 0 || k >= names.len() {
        (w, out)
    } else {
        let (w1, v) = resolved(w, names[k]);
        resolved_all(w1, names, k + 1, with_var(out, v))
    }
}

/// The variables of the names from the `k`-th on, declared in order and
/// added to `out`.
pub open spec fn declared_all(
    e: Env,
    w: Walk,
    names: Seq<Seq<char>>,
    k: int,
    out: Seq<VarId>,
) -> (Walk, Seq<VarId>)
    decreases names.len() - k,
{
    if k < 0 || k >= names.len() {
        (w, out)
    } else {
        let (w1, v) = declared(e, w, names[k]);
        declared_all(e, w1, names, k + 1, with_var(out, v))
    }
}

/// The text of a node, or nothing.
pub open spec fn text_or_empty(e: Env, i: int) -> Seq<char> {
    match text_at(e.t, e.src, i) {
        Some(s) => s,
        None => Seq::empty(),
    }
}

pub open spec fn snippet_at(e: Env, i: int) -> Seq<char> {
    snippet_of(text_or_empty(e, i))
}

/// Whether a kind is that of a function or a closure.
pub open spec fn function_like(g: Grammar, kind: Seq<char>) -> bool {
    g.function_kinds.contains(kind) || g.closure_kinds.contains(kind)
}

/// The object and the property of a member access: by field where both have
/// one, else the first and the last named child.
pub open spec fn member_parts(e: Env, i: int) -> (Option<int>, Option<int>) {
    let object = child_by_field(e.t, i, e.g.member_object_field);
    let property = child_by_field(e.t, i, e.g.member_property_field);
    if object is Some && property is Some {
        (object, property)
    } else {
        (first(kids(e.t, i, Pick::Named)), last(kids(e.t, i, Pick::Named)))
    }
}

/// The names of a member chain, and whether it starts at an identifier.
pub open spec fn callee_chain(e: Env, i: int) -> (Seq<Seq<char>>, bool)
    decreases size(e.t, i),
    via callee_chain_decreases
{
    if e.g.identifier_kinds.contains(e.t[i].kind) {
        (seq![text_or_empty(e, i)], true)
    } else if e.g.member_access_kinds.contains(e.t[i].kind) {
        let (object, property) = member_parts(e, i);
        let (parts, ok) = match object {
            Some(o) => callee_chain(e, o),
            None => (Seq::empty(), false),
        };
        (
            match property {
                Some(p) => parts.push(text_or_empty(e, p)),
                None => parts,
            },
            ok,
        )
    } else {
        (Seq::empty(), false)
    }
}

#[via_fn]
proof fn callee_chain_decreases(e: Env, i: int) {
    broadcast use lemma_kid;

}

/// Dotted callee text: `helper`, `obj.compute`; a snippet for a callee that
/// is neither a name nor a member chain.
pub open spec fn callee_text(e: Env, i: int) -> Seq<char> {
    let (parts, ok) = callee_chain(e, i);
    if ok && parts.len() > 0 {
        joined_with(parts, "."@)
    } else {
        snippet_at(e, i)
    }
}

/// The callee of a call: receiver and method by their fields where the
/// grammar has them, else one callee node.
pub open spec fn call_callee(e: Env, i: int) -> Seq<char> {
    if e.g.call_object_field.len() > 0 || e.g.call_name_field.len() > 0 {
        let name = match child_by_field(e.t, i, e.g.call_name_field) {
            Some(n) => match text_at(e.t, e.src, n) {
                Some(s) => s,
                None => "<dynamic>"@,
            },
            None => "<dynamic>"@,
        };
        match child_by_field(e.t, i, e.g.call_object_field) {
            Some(o) => callee_text(e, o) + "."@ + name,
            None => name,
        }
    } else {
        let callee = if e.g.call_callee_field.len() == 0 {
            first(kids(e.t, i, Pick::Named))
        } else {
            child_by_field(e.t, i, e.g.call_callee_field)
        };
        match callee {
            Some(c) => callee_text(e, c),
            None => "<dynamic>"@,
        }
    }
}

/// Whether an assignment's operator makes it compound.
pub open spec fn compound_assign(e: Env, i: int) -> bool {
    match child_by_field(e.t, i, e.g.assign_operator_field) {
        Some(n) => match text_at(e.t, e.src, n) {
            Some(s) => s != "="@,
            None => false,
        },
        None => false,
    }
}

/// Whether a node is an identifier that spells one of the words.
pub open spec fn is_word(e: Env, i: int, words: Seq<Seq<char>>) -> bool {
    e.g.identifier_kinds.contains(e.t[i].kind) && match text_at(e.t, e.src, i) {
        Some(s) => words.contains(s),
        None => false,
    }
}

/// The calls at and below a node, innermost first, outside nested functions.
pub open spec fn calls_in(e: Env, i: int) -> Seq<int>
    decreases size(e.t, i), 1int, 0int,
    via calls_in_decreases
{
    if function_like(e.g, e.t[i].kind) {
        Seq::empty()
    } else {
        let inner = calls_below(e, i, 0);
        if e.g.call_kinds.contains(e.t[i].kind) {
            inner.push(i)
        } else {
            inner
        }
    }
}

#[via_fn]
proof fn calls_in_decreases(e: Env, i: int) {
    broadcast use lemma_kid;

}

/// The calls at and below the named children of a node, from the `k`-th on.
pub open spec fn calls_below(e: Env, i: int, k: int) -> Seq<int>
    decreases size(e.t, i), 0int, kids(e.t, i, Pick::Named).len() - k,
    via calls_below_decreases
{
    if k < 0 || k >= kids(e.t, i, Pick::Named).len() {
        Seq::empty()
    } else {
        calls_in(e, kids(e.t, i, Pick::Named)[k]) + calls_below(e, i, k + 1)
    }
}

#[via_fn]
proof fn calls_below_decreases(e: Env, i: int, k: int) {
    broadcast use lemma_kid;

}

/// The identifiers at and below a node, outside member names, nested
/// functions and the node `skip`.
pub open spec fn identifiers_in(e: Env, i: int, skip: Option<int>) -> Seq<Seq<char>>
    decreases size(e.t, i), 1int, 0int,
    via identifiers_in_decreases
{
    if skip == Some(i) {
        Seq::empty()
    } else if e.g.identifier_kinds.contains(e.t[i].kind) {
        match text_at(e.t, e.src, i) {
            Some(s) => seq![s],
            None => Seq::empty(),
        }
    } else if function_like(e.g, e.t[i].kind) {
        Seq::empty()
    } else {
        let property = if e.g.member_access_kinds.contains(e.t[i].kind) {
            member_parts(e, i).1
        } else {
            None
        };
        identifiers_below(e, i, skip, property, 0)
    }
}

#[via_fn]
proof fn identifiers_in_decreases(e: Env, i: int, skip: Option<int>) {
    broadcast use lemma_kid;

}

/// The identifiers at and below the named children of a node, from the
/// `k`-th on.
pub open spec fn identifiers_below(
    e: Env,
    i: int,
    skip: Option<int>,
    property: Option<int>,
    k: int,
) -> Seq<Seq<char>>
    decreases size(e.t, i), 0int, kids(e.t, i, Pick::Named).len() - k,
    via identifiers_below_decreases
{
    if k < 0 || k >= kids(e.t, i, Pick::Named).len() {
        Seq::empty()
    } else {
        let c = kids(e.t, i, Pick::Named)[k];
        let here = if property == Some(c) || skip == Some(c) {
            Seq::empty()
        } else {
            identifiers_in(e, c, skip)
        };
        here + identifiers_below(e, i, skip, property, k + 1)
    }
}

#[via_fn]
proof fn identifiers_below_decreases(
    e: Env,
    i: int,
    skip: Option<int>,
    property: Option<int>,
    k: int,
) {
    broadcast use lemma_kid;

}

/// The pattern and the value of a binding without declarators.
pub open spec fn binding_parts(e: Env, i: int) -> (Option<int>, Option<int>) {
    if e.g.binding_kinds2.contains(e.t[i].kind) {
        (
            child_by_field(e.t, i, e.g.binding_pattern_field2),
            child_by_field(e.t, i, e.g.binding_value_field2),
        )
    } else if e.g.binding_pattern_field.len() > 0 || e.g.binding_value_field.len() > 0 {
        (
            child_by_field(e.t, i, e.g.binding_pattern_field),
            child_by_field(e.t, i, e.g.binding_value_field),
        )
    } else {
        let pattern = child_of_kind(e.t, i, e.g.binding_pattern_kind);
        let end = last(kids(e.t, i, Pick::Named));
        (pattern, if pattern == end {
            None
        } else {
            end
        })
    }
}

/// The names that the declarators of a binding declare, from the `k`-th on.
pub open spec fn declarator_names(e: Env, i: int, k: int) -> Seq<Seq<char>>
    decreases kids(e.t, i, Pick::Field(e.g.binding_declarator_field)).len() - k,
{
    let all = kids(e.t, i, Pick::Field(e.g.binding_declarator_field));
    if k < 0 || k >= all.len() {
        Seq::empty()
    } else {
        (match child_by_field(e.t, all[k], e.g.binding_declarator_name_field) {
            Some(n) => identifiers_in(e, n, None),
            None => Seq::empty(),
        }) + declarator_names(e, i, k + 1)
    }
}

/// The names that a binding declares.
pub open spec fn binding_names(e: Env, i: int) -> Seq<Seq<char>> {
    if !e.g.binding_kinds.contains(e.t[i].kind) {
        Seq::empty()
    } else if e.g.binding_declarator_field.len() == 0 {
        match binding_parts(e, i).0 {
            Some(p) => identifiers_in(e, p, None),
            None => Seq::empty(),
        }
    } else {
        declarator_names(e, i, 0)
    }
}

/// The names that bindings at and below a node declare, outside nested
/// functions.
pub open spec fn bound_in(e: Env, i: int) -> Seq<Seq<char>>
    decreases size(e.t, i), 1int, 0int,
    via bound_in_decreases
{
    if function_like(e.g, e.t[i].kind) {
        Seq::empty()
    } else {
        binding_names(e, i) + bound_below(e, i, 0)
    }
}

#[via_fn]
proof fn bound_in_decreases(e: Env, i: int) {
    broadcast use lemma_kid;

}

/// The names that bindings at and below the named children declare, from the
/// `k`-th on.
pub open spec fn bound_below(e: Env, i: int, k: int) -> Seq<Seq<char>>
    decreases size(e.t, i), 0int, kids(e.t, i, Pick::Named).len() - k,
    via bound_below_decreases
{
    if k < 0 || k >= kids(e.t, i, Pick::Named).len() {
        Seq::empty()
    } else {
        bound_in(e, kids(e.t, i, Pick::Named)[k]) + bound_below(e, i, k + 1)
    }
}

#[via_fn]
proof fn bound_below_decreases(e: Env, i: int, k: int) {
    broadcast use lemma_kid;

}

/// The variables that a node reads, added to `out`.
pub open spec fn uses_scanned(e: Env, w: Walk, i: int, out: Seq<VarId>) -> (Walk, Seq<VarId>) {
    resolved_all(w, identifiers_in(e, i, None), 0, out)
}

/// The variables that an optional node reads.
pub open spec fn uses_of(e: Env, w: Walk, i: Option<int>) -> (Walk, Seq<VarId>) {
    match i {
        Some(n) => uses_scanned(e, w, n, Seq::empty()),
        None => (w, Seq::empty()),
    }
}

/// The variables that a pattern binds, or resolves when it does not declare.
pub open spec fn defs_scanned(
    e: Env,
    w: Walk,
    i: int,
    declare: bool,
    out: Seq<VarId>,
) -> (Walk, Seq<VarId>) {
    if declare {
        declared_all(e, w, identifiers_in(e, i, None), 0, out)
    } else {
        resolved_all(w, identifiers_in(e, i, None), 0, out)
    }
}

/// One call as a node of its own: it reads its identifiers and defines a
/// variable for its result.
pub open spec fn call_pushed(e: Env, w: Walk, c: int) -> Walk {
    let callee = call_callee(e, c);
    let (w1, uses) = uses_scanned(e, w, c, Seq::empty());
    let (w2, v) = allocated(w1);
    pushed(
        w2,
        bare_node(
            line_at(e.t, c),
            KindView::Call { callee, opacity: CallOpacity::Opaque },
            seq![v],
            uses,
            callee,
        ),
    )
}

/// The calls from the `k`-th on as nodes; their ids are added to `ids`.
pub open spec fn calls_pushed(e: Env, w: Walk, cs: Seq<int>, k: int, ids: Seq<usize>) -> (
    Walk,
    Seq<usize>,
)
    decreases cs.len() - k,
{
    if k < 0 || k >= cs.len() {
        (w, ids)
    } else {
        calls_pushed(e, call_pushed(e, w, cs[k]), cs, k + 1, ids.push(next_node(w)))
    }
}

/// Every call at and below a node as a chain of nodes.
pub open spec fn calls_extracted(e: Env, w: Walk, i: int) -> (Walk, Seq<usize>) {
    let (w1, ids) = calls_pushed(e, w, calls_in(e, i), 0, Seq::empty());
    (chain_from(w1, ids, 0), ids)
}

/// The calls of an optional node.
pub open spec fn calls_of(e: Env, w: Walk, i: Option<int>) -> (Walk, Seq<usize>) {
    match i {
        Some(n) => calls_extracted(e, w, n),
        None => (w, Seq::empty()),
    }
}

/// The node `id` behind a chain of calls, and the node that control enters.
pub open spec fn behind(w: Walk, calls: Seq<usize>, id: usize) -> (Walk, usize) {
    if calls.len() > 0 {
        (edge(w, calls.last(), id), calls[0])
    } else {
        (w, id)
    }
}

/// A node behind its calls, entered from `open`; the node's id.
pub open spec fn entered(w: Walk, calls: Seq<usize>, n: NodeView, open: Seq<usize>) -> (
    Walk,
    usize,
) {
    let id = next_node(w);
    let (w1, entry) = behind(pushed(w, n), calls, id);
    (link(w1, open, entry), id)
}

/// One unit: the calls of a node, then the node with what it reads. Control
/// enters at the first id and leaves at the second.
pub open spec fn unit(e: Env, w: Walk, i: int, kind: KindView, defs: Seq<VarId>) -> (
    Walk,
    usize,
    usize,
) {
    let (w1, calls) = calls_extracted(e, w, i);
    let (w2, uses) = uses_scanned(e, w1, i, Seq::empty());
    let id = next_node(w2);
    let (w3, entry) = behind(
        pushed(w2, bare_node(line_at(e.t, i), kind, defs, uses, snippet_at(e, i))),
        calls,
        id,
    );
    (w3, entry, id)
}

/// A unit that `open` leads into; control leaves at the returned node.
pub open spec fn unit_after(e: Env, w: Walk, i: int, kind: KindView, open: Seq<usize>) -> (
    Walk,
    usize,
) {
    let (w1, entry, exit) = unit(e, w, i, kind, Seq::empty());
    (link(w1, open, entry), exit)
}

/// A unit as a plain statement.
pub open spec fn plain(e: Env, w: Walk, i: int, open: Seq<usize>) -> (Walk, Seq<usize>) {
    let (w1, exit) = unit_after(e, w, i, KindView::Pure, open);
    (w1, seq![exit])
}

/// The node that a wrapper stands for: its `body` field, or its last named
/// child, as often as that is a wrapper too.
pub open spec fn unwrapped(g: Grammar, t: SyntaxTree, i: int) -> int
    decreases size(t, i),
    via unwrapped_decreases
{
    if g.wrapper_kinds.contains(t[i].kind) {
        match field_or_last(t, i, "body"@) {
            Some(n) => unwrapped(g, t, n),
            None => i,
        }
    } else {
        i
    }
}

#[via_fn]
proof fn unwrapped_decreases(g: Grammar, t: SyntaxTree, i: int) {
    broadcast use lemma_kid;

}

/// A wrapper stands for itself or for a node below it.
pub broadcast proof fn lemma_unwrapped(g: Grammar, t: SyntaxTree, i: int)
    ensures
        #[trigger] unwrapped(g, t, i) == i || below(t, i, unwrapped(g, t, i)),
    decreases size(t, i),
{
    broadcast use {lemma_kid, lemma_below};

    if g.wrapper_kinds.contains(t[i].kind) {
        if let Some(n) = field_or_last(t, i, "body"@) {
            lemma_unwrapped(g, t, n);
            if unwrapped(g, t, n) != n {
                crate::ts::tree::lemma_below_trans(t, i, n, unwrapped(g, t, n));
            }
        }
    }
}

/// The entry node of a function, which defines its parameters.
pub open spec fn params_lowered(e: Env, w: Walk, params: Option<int>, line: u32) -> Walk {
    let (w1, defs) = match params {
        Some(p) => defs_scanned(e, w, p, true, Seq::empty()),
        None => (w, Seq::empty()),
    };
    pushed(w1, bare_node(line, KindView::Pure, defs, Seq::empty(), "<params>"@))
}

/// Marks a node as leaving the innermost loop.
pub open spec fn break_taken(w: Walk, node: usize) -> Walk {
    if w.loops.len() == 0 {
        w
    } else {
        let l = w.loops.last();
        Walk {
            loops: w.loops.update(
                w.loops.len() - 1,
                LoopView { breaks: l.breaks.push(node), ..l },
            ),
            ..w
        }
    }
}

/// Links a node to where the innermost loop goes on.
pub open spec fn continue_taken(w: Walk, node: usize) -> Walk {
    if w.loops.len() == 0 {
        w
    } else {
        edge(w, node, w.loops.last().continue_target)
    }
}

/// The statements among the named children of `i`, from the `k`-th on.
pub open spec fn seq_lowered(e: Env, w: Walk, i: int, p: Pick, k: int, open: Seq<usize>) -> (
    Walk,
    Seq<usize>,
)
    decreases size(e.t, i), 1int, kids(e.t, i, p).len() - k,
    via seq_lowered_decreases
{
    if k < 0 || k >= kids(e.t, i, p).len() {
        (w, open)
    } else {
        let (w1, exits) = stmt_lowered(e, w, kids(e.t, i, p)[k], open);
        seq_lowered(e, w1, i, p, k + 1, exits)
    }
}

#[via_fn]
proof fn seq_lowered_decreases(e: Env, w: Walk, i: int, p: Pick, k: int, open: Seq<usize>) {
    broadcast use lemma_kid;

}

/// A block: its statements, in a scope of their own where blocks are scopes.
pub open spec fn block_lowered(e: Env, w: Walk, i: int, open: Seq<usize>) -> (Walk, Seq<usize>)
    decreases size(e.t, i), 2int, 0int,
{
    let (w1, exits) = seq_lowered(e, block_entered(e, w), i, Pick::Named, 0, open);
    (block_left(e, w1), exits)
}

/// A class: the statements of its body, in the scope around it.
pub open spec fn class_lowered(e: Env, w: Walk, i: int, open: Seq<usize>) -> (Walk, Seq<usize>)
    decreases size(e.t, i), 4int, 0int,
    via class_lowered_decreases
{
    match field_or_kind(e.t, i, e.g.class_body_field, e.g.class_body_kind) {
        Some(body) => seq_lowered(e, w, body, Pick::Named, 0, open),
        None => (w, open),
    }
}

#[via_fn]
proof fn class_lowered_decreases(e: Env, w: Walk, i: int, open: Seq<usize>) {
    broadcast use lemma_kid;

}

/// The name of a function, from its name field.
pub open spec fn bare_name(e: Env, i: int) -> Seq<char> {
    match child_by_field(e.t, i, e.g.function_name_field) {
        Some(n) => match text_at(e.t, e.src, n) {
            Some(s) => s,
            None => "<anon>"@,
        },
        None => "<anon>"@,
    }
}

/// A nested function: a node that defines its name.
pub open spec fn fn_decl_lowered(e: Env, w: Walk, i: int, open: Seq<usize>) -> (
    Walk,
    Seq<usize>,
) {
    let (w1, v) = declared(e, w, bare_name(e, i));
    let id = next_node(w1);
    let w2 = pushed(
        w1,
        bare_node(line_at(e.t, i), KindView::Pure, seq![v], Seq::empty(), "<fndecl>"@),
    );
    (link(w2, open, id), seq![id])
}

/// One binding: what the value reads is resolved before the pattern's names
/// are declared. The node's id.
pub open spec fn one_binding_lowered(
    e: Env,
    w: Walk,
    span: int,
    pattern: Option<int>,
    value: Option<int>,
    kind: KindView,
    open: Seq<usize>,
) -> (Walk, usize) {
    let (w1, calls) = calls_of(e, w, value);
    let (w2, uses) = uses_of(e, w1, value);
    let (w3, defs) = match pattern {
        Some(p) => defs_scanned(e, w2, p, true, Seq::empty()),
        None => (w2, Seq::empty()),
    };
    entered(w3, calls, bare_node(line_at(e.t, span), kind, defs, uses, snippet_at(e, span)), open)
}

/// The declarators of a binding from the `k`-th on, one node each.
pub open spec fn declarators_lowered(e: Env, w: Walk, i: int, k: int, open: Seq<usize>) -> (
    Walk,
    Seq<usize>,
)
    decreases kids(e.t, i, Pick::Field(e.g.binding_declarator_field)).len() - k,
{
    let all = kids(e.t, i, Pick::Field(e.g.binding_declarator_field));
    if k < 0 || k >= all.len() {
        (w, open)
    } else {
        let (w1, id) = one_binding_lowered(
            e,
            w,
            all[k],
            child_by_field(e.t, all[k], e.g.binding_declarator_name_field),
            child_by_field(e.t, all[k], e.g.binding_declarator_value_field),
            KindView::Pure,
            open,
        );
        declarators_lowered(e, w1, i, k + 1, seq![id])
    }
}

/// A binding. One with an else-block is a branch: control leaves it from the
/// binding itself and from that block.
pub open spec fn binding_lowered(e: Env, w: Walk, i: int, open: Seq<usize>) -> (Walk, Seq<usize>)
    decreases size(e.t, i), 4int, 0int,
    via binding_lowered_decreases
{
    if e.g.binding_declarator_field.len() > 0 {
        declarators_lowered(e, w, i, 0, open)
    } else {
        let (pattern, value) = binding_parts(e, i);
        match child_by_field(e.t, i, e.g.binding_alt_field) {
            Some(alt) => {
                let (w1, id) = one_binding_lowered(
                    e,
                    w,
                    i,
                    pattern,
                    value,
                    KindView::Branch,
                    open,
                );
                let (w2, exits) = stmt_lowered(e, w1, alt, seq![id]);
                (w2, seq![id] + exits)
            },
            None => {
                let (w1, id) = one_binding_lowered(e, w, i, pattern, value, KindView::Pure, open);
                (w1, seq![id])
            },
        }
    }
}

#[via_fn]
proof fn binding_lowered_decreases(e: Env, w: Walk, i: int, open: Seq<usize>) {
    broadcast use lemma_kid;

}

/// The variables of `more`, from the `k`-th on, added to `list`.
pub open spec fn with_vars(list: Seq<VarId>, more: Seq<VarId>, k: int) -> Seq<VarId>
    decreases more.len() - k,
{
    if k < 0 || k >= more.len() {
        list
    } else {
        with_vars(with_var(list, more[k]), more, k + 1)
    }
}

/// The node that a list stands for: its only item, where it has one.
pub open spec fn sole_item(e: Env, i: int) -> int {
    let items = kids(e.t, i, Pick::Named);
    if e.g.list_kind.len() > 0 && e.t[i].kind == e.g.list_kind && items.len() == 1 {
        items[0]
    } else {
        i
    }
}

/// The target of an assignment.
pub open spec fn assign_target(e: Env, i: int) -> Option<int> {
    match child_by_field(e.t, i, e.g.assign_left_field) {
        Some(left) => Some(sole_item(e, left)),
        None => None,
    }
}

/// An assignment: a state write through a member access, whose object it
/// reads; else a definition, which a compound one reads as well.
pub open spec fn assign_lowered(e: Env, w: Walk, i: int, open: Seq<usize>, compound: bool) -> (
    Walk,
    Seq<usize>,
) {
    match assign_target(e, i) {
        None => plain(e, w, i, open),
        Some(left) => {
            let right = child_by_field(e.t, i, e.g.assign_right_field);
            let (w1, calls) = calls_of(e, w, right);
            let (w2, uses) = uses_of(e, w1, right);
            let (w3, n) = if e.g.member_access_kinds.contains(e.t[left].kind) {
                let (w3, all) = uses_scanned(e, w2, left, uses);
                (
                    w3,
                    bare_node(
                        line_at(e.t, i),
                        KindView::StateWrite { target: snippet_at(e, left) },
                        Seq::empty(),
                        all,
                        snippet_at(e, i),
                    ),
                )
            } else {
                let (w3, defs) = defs_scanned(e, w2, left, e.g.assign_declares, Seq::empty());
                let all = if compound {
                    with_vars(uses, defs, 0)
                } else {
                    uses
                };
                (
                    w3,
                    bare_node(line_at(e.t, i), KindView::Pure, defs, all, snippet_at(e, i)),
                )
            };
            let (w4, id) = entered(w3, calls, n, open);
            (w4, seq![id])
        },
    }
}

/// A call as a statement: its calls, then a node that discards the result.
pub open spec fn call_stmt_lowered(e: Env, w: Walk, i: int, open: Seq<usize>) -> (
    Walk,
    Seq<usize>,
) {
    let (w1, calls) = calls_extracted(e, w, i);
    let (w2, uses) = uses_scanned(e, w1, i, Seq::empty());
    let (w3, id) = entered(
        w2,
        calls,
        bare_node(line_at(e.t, i), KindView::Pure, Seq::empty(), uses, "<discard>"@),
        open,
    );
    (w3, seq![id])
}

/// The `else` and `elif` parts of an `if`.
pub open spec fn if_alts(e: Env, i: int) -> Seq<int> {
    if e.g.if_alt_field.len() == 0 {
        match field_or_nth(e.t, i, Seq::empty(), 2) {
            Some(n) => seq![n],
            None => Seq::empty(),
        }
    } else {
        kids(e.t, i, Pick::Field(e.g.if_alt_field))
    }
}

/// An `if`.
pub open spec fn if_lowered(e: Env, w: Walk, i: int, open: Seq<usize>) -> (Walk, Seq<usize>)
    decreases size(e.t, i), 4int, 0int,
{
    match (
        field_or_nth(e.t, i, e.g.if_cond_field, 0),
        field_or_nth(e.t, i, e.g.if_then_field, 1),
    ) {
        (Some(cond), Some(then_)) => if_chain_lowered(
            e,
            w,
            i,
            cond,
            then_,
            if_alts(e, i),
            0,
            open,
        ),
        _ => plain(e, w, i, open),
    }
}

/// A condition, what follows when it holds, and the alternatives of the `if`
/// at `top` from the `k`-th on, of which each `elif` takes the rest along.
pub open spec fn if_chain_lowered(
    e: Env,
    w: Walk,
    top: int,
    cond: int,
    then_: int,
    alts: Seq<int>,
    k: int,
    open: Seq<usize>,
) -> (Walk, Seq<usize>)
    decreases size(e.t, top), 3int, alts.len() - k,
    via if_chain_lowered_decreases
{
    let (w1, branch) = unit_after(e, w, cond, KindView::Branch, open);
    if !below(e.t, top, then_) {
        (w1, seq![branch])
    } else {
        let (w2, exits) = stmt_lowered(e, w1, then_, seq![branch]);
        if k < 0 || k >= alts.len() || !below(e.t, top, alts[k]) {
            (w2, exits.push(branch))
        } else {
            let alt = unwrapped(e.g, e.t, alts[k]);
            if e.g.elif_kind == Some(e.t[alt].kind) {
                match (
                    child_by_field(e.t, alt, e.g.if_cond_field),
                    child_by_field(e.t, alt, e.g.if_then_field),
                ) {
                    (Some(c2), Some(t2)) => {
                        let (w3, more) = if_chain_lowered(
                            e,
                            w2,
                            top,
                            c2,
                            t2,
                            alts,
                            k + 1,
                            seq![branch],
                        );
                        (w3, exits + more)
                    },
                    _ => (w2, exits.push(branch)),
                }
            } else {
                let (w3, more) = stmt_lowered(e, w2, alt, seq![branch]);
                (w3, exits + more)
            }
        }
    }
}

#[via_fn]
proof fn if_chain_lowered_decreases(
    e: Env,
    w: Walk,
    top: int,
    cond: int,
    then_: int,
    alts: Seq<int>,
    k: int,
    open: Seq<usize>,
) {
    broadcast use {lemma_kid, lemma_below, lemma_unwrapped};

}

pub open spec fn loop_opened(w: Walk, target: usize) -> Walk {
    Walk { loops: w.loops.push(LoopView { continue_target: target, breaks: Seq::empty() }), ..w }
}

/// Closes the innermost loop, whose head is `head`: the ends of its body lead
/// back to the head, and control leaves it from the head and its breaks.
pub open spec fn loop_closed(w: Walk, body_exits: Seq<usize>, head: usize) -> (
    Walk,
    Seq<usize>,
) {
    let w1 = link(w, body_exits, head);
    (
        Walk { loops: w1.loops.drop_last(), ..w1 },
        seq![head] + w1.loops.last().breaks,
    )
}

/// A loop with a condition.
pub open spec fn while_lowered(e: Env, w: Walk, i: int, open: Seq<usize>) -> (Walk, Seq<usize>)
    decreases size(e.t, i), 4int, 0int,
    via while_lowered_decreases
{
    match (
        field_or_nth(e.t, i, e.g.while_cond_field, 0),
        field_or_last(e.t, i, e.g.while_body_field),
    ) {
        (Some(cond), Some(body)) => {
            let (w1, head) = unit_after(e, w, cond, KindView::Branch, open);
            let (w2, exits) = stmt_lowered(e, loop_opened(w1, head), body, seq![head]);
            loop_closed(w2, exits, head)
        },
        _ => plain(e, w, i, open),
    }
}

#[via_fn]
proof fn while_lowered_decreases(e: Env, w: Walk, i: int, open: Seq<usize>) {
    broadcast use lemma_kid;

}

/// A loop without a condition.
pub open spec fn loop_lowered(e: Env, w: Walk, i: int, open: Seq<usize>) -> (Walk, Seq<usize>)
    decreases size(e.t, i), 4int, 0int,
    via loop_lowered_decreases
{
    match field_or_kind(e.t, i, e.g.loop_body_field, Seq::empty()) {
        Some(body) => {
            let head = next_node(w);
            let w1 = link(
                pushed(
                    w,
                    bare_node(
                        line_at(e.t, i),
                        KindView::Branch,
                        Seq::empty(),
                        Seq::empty(),
                        snippet_at(e, i),
                    ),
                ),
                open,
                head,
            );
            let (w2, exits) = stmt_lowered(e, loop_opened(w1, head), body, seq![head]);
            loop_closed(w2, exits, head)
        },
        None => plain(e, w, i, open),
    }
}

#[via_fn]
proof fn loop_lowered_decreases(e: Env, w: Walk, i: int, open: Seq<usize>) {
    broadcast use lemma_kid;

}

/// Which loop a statement of a kind that covers several is.
pub enum ForShape {
    /// Over the items of a value.
    Each,
    /// With a counter.
    Counted,
    /// While a condition holds.
    While,
    /// Without a condition.
    Endless,
}

/// Which loop a `for` is: its clause tells, and where there is none, whether
/// anything stands before the body.
pub open spec fn for_shape(e: Env, i: int) -> ForShape {
    if e.g.for_range_kind.len() == 0 || child_of_kind(e.t, i, e.g.for_range_kind) is Some {
        ForShape::Each
    } else if child_of_kind(e.t, i, e.g.for_clause_kind) is Some {
        ForShape::Counted
    } else if first(kids(e.t, i, Pick::Named)) is Some && first(kids(e.t, i, Pick::Named))
        != child_by_field(e.t, i, e.g.while_body_field) {
        ForShape::While
    } else {
        ForShape::Endless
    }
}

/// The node that holds the pattern and the value of a for-each loop.
pub open spec fn for_clause(e: Env, i: int) -> int {
    match child_of_kind(e.t, i, e.g.for_range_kind) {
        Some(c) => c,
        None => i,
    }
}

/// The pattern of a for-each loop; where a clause holds it, there may be none.
pub open spec fn for_pattern(e: Env, i: int) -> Option<int> {
    if e.g.for_range_kind.len() == 0 {
        field_or_nth(e.t, i, e.g.for_pattern_field, 0)
    } else {
        child_by_field(e.t, for_clause(e, i), e.g.for_pattern_field)
    }
}

/// A for-each loop: its head defines the pattern and reads the iterated
/// value; pattern and body share a scope.
pub open spec fn for_lowered(e: Env, w: Walk, i: int, open: Seq<usize>) -> (Walk, Seq<usize>)
    decreases size(e.t, i), 4int, 0int,
    via for_lowered_decreases
{
    let pattern = for_pattern(e, i);
    match (
        field_or_nth(e.t, for_clause(e, i), e.g.for_value_field, 1),
        field_or_last(e.t, i, e.g.for_body_field),
    ) {
        (Some(value), Some(body)) => if pattern is None && e.g.for_range_kind.len() == 0 {
            plain(e, w, i, open)
        } else {
            let (w1, calls) = calls_extracted(e, w, value);
            let (w2, uses) = uses_scanned(e, w1, value, Seq::empty());
            let (w3, defs) = match pattern {
                Some(p) => defs_scanned(e, block_entered(e, w2), p, true, Seq::empty()),
                None => (block_entered(e, w2), Seq::empty()),
            };
            let (w4, head) = entered(
                w3,
                calls,
                bare_node(line_at(e.t, i), KindView::Branch, defs, uses, snippet_at(e, i)),
                open,
            );
            let (w5, exits) = stmt_lowered(e, loop_opened(w4, head), body, seq![head]);
            let (w6, out) = loop_closed(w5, exits, head);
            (block_left(e, w6), out)
        },
        _ => plain(e, w, i, open),
    }
}

#[via_fn]
proof fn for_lowered_decreases(e: Env, w: Walk, i: int, open: Seq<usize>) {
    broadcast use lemma_kid;

}

/// The labels of a match arm.
pub open spec fn arm_labels(e: Env, arm: int) -> Seq<int> {
    if e.g.match_arm_pattern_multi {
        kids(e.t, arm, Pick::Field(e.g.match_arm_pattern_field))
    } else {
        match field_or_kind(e.t, arm, e.g.match_arm_pattern_field, e.g.match_arm_pattern_kind) {
            Some(n) => seq![n],
            None => Seq::empty(),
        }
    }
}

/// Whether every label of an arm is a wildcard.
pub open spec fn arm_is_default(e: Env, labels: Seq<int>) -> bool {
    forall|k: int|
        0 <= k < labels.len() ==> snippet_at(e, #[trigger] labels[k]) == "_"@ || snippet_at(
            e,
            labels[k],
        ) == "default"@
}

/// One label: its names are declared, but for those of a guard inside it, or
/// read; then the guard is read. What it defines and reads is added to the
/// two lists.
pub open spec fn label_scanned(
    e: Env,
    w: Walk,
    label: int,
    defs: Seq<VarId>,
    uses: Seq<VarId>,
) -> (Walk, Seq<VarId>, Seq<VarId>) {
    let guard = child_by_field(e.t, label, e.g.match_pattern_guard_field);
    let (w1, d, u) = if e.g.match_arm_pattern_declares {
        let (w1, d) = declared_all(e, w, identifiers_in(e, label, guard), 0, defs);
        (w1, d, uses)
    } else {
        let (w1, u) = uses_scanned(e, w, label, uses);
        (w1, defs, u)
    };
    match guard {
        Some(g) => {
            let (w2, u2) = uses_scanned(e, w1, g, u);
            (w2, d, u2)
        },
        None => (w1, d, u),
    }
}

/// The labels from the `k`-th on.
pub open spec fn labels_scanned(
    e: Env,
    w: Walk,
    labels: Seq<int>,
    k: int,
    defs: Seq<VarId>,
    uses: Seq<VarId>,
) -> (Walk, Seq<VarId>, Seq<VarId>)
    decreases labels.len() - k,
{
    if k < 0 || k >= labels.len() {
        (w, defs, uses)
    } else {
        let (w1, d, u) = label_scanned(e, w, labels[k], defs, uses);
        labels_scanned(e, w1, labels, k + 1, d, u)
    }
}

/// The nodes of an arm that are not part of its body: labels and guard.
pub open spec fn arm_head_nodes(e: Env, arm: int) -> Seq<usize> {
    let labels = arm_labels(e, arm).map_values(|x: int| x as usize);
    match child_by_field(e.t, arm, e.g.match_arm_guard_field) {
        Some(g) => labels.push(g as usize),
        None => labels,
    }
}

/// One match arm, entered from the discriminant: a head that defines what the
/// pattern binds and reads the guards, then the statements of the arm. The
/// pattern's names are visible in the arm only.
pub open spec fn arm_lowered(e: Env, w: Walk, arm: int, disc: usize) -> (Walk, Seq<usize>)
    decreases size(e.t, arm), 3int, 0int,
{
    let labels = arm_labels(e, arm);
    let (w1, defs, uses) = labels_scanned(
        e,
        block_entered(e, w),
        labels,
        0,
        Seq::empty(),
        Seq::empty(),
    );
    let (w2, all) = match child_by_field(e.t, arm, e.g.match_arm_guard_field) {
        Some(g) => uses_scanned(e, w1, g, uses),
        None => (w1, uses),
    };
    let head = next_node(w2);
    let w3 = edge(
        pushed(w2, bare_node(line_at(e.t, arm), KindView::Pure, defs, all, snippet_at(e, arm))),
        disc,
        head,
    );
    let (w4, exits) = seq_lowered(e, w3, arm, Pick::Except(arm_head_nodes(e, arm)), 0, seq![head]);
    (block_left(e, w4), exits)
}

/// The arms of a match from the `k`-th on, and whether one of them is the
/// default.
pub open spec fn arms_lowered(
    e: Env,
    w: Walk,
    container: int,
    k: int,
    disc: usize,
    exits: Seq<usize>,
    default: bool,
) -> (Walk, Seq<usize>, bool)
    decreases size(e.t, container), 2int,
        kids(e.t, container, Pick::Kinds(e.g.match_arm_kinds)).len() - k,
    via arms_lowered_decreases
{
    let arms = kids(e.t, container, Pick::Kinds(e.g.match_arm_kinds));
    if k < 0 || k >= arms.len() {
        (w, exits, default)
    } else {
        let (w1, more) = arm_lowered(e, w, arms[k], disc);
        arms_lowered(
            e,
            w1,
            container,
            k + 1,
            disc,
            exits + more,
            default || arm_is_default(e, arm_labels(e, arms[k])),
        )
    }
}

#[via_fn]
proof fn arms_lowered_decreases(
    e: Env,
    w: Walk,
    container: int,
    k: int,
    disc: usize,
    exits: Seq<usize>,
    default: bool,
) {
    broadcast use lemma_kid;

}

/// A match: the discriminant branches to every arm. Without a default arm
/// control may also leave from the discriminant.
pub open spec fn match_lowered(e: Env, w: Walk, i: int, open: Seq<usize>) -> (Walk, Seq<usize>)
    decreases size(e.t, i), 4int, 0int,
    via match_lowered_decreases
{
    let subject = field_or_kind(e.t, i, e.g.match_subject_field, e.g.match_subject_kind);
    let (w1, calls) = calls_of(e, w, subject);
    let (w2, uses) = uses_of(e, w1, subject);
    let (w3, disc) = entered(
        w2,
        calls,
        bare_node(line_at(e.t, i), KindView::Branch, Seq::empty(), uses, snippet_at(e, i)),
        open,
    );
    let container = match field_or_kind(e.t, i, e.g.match_body_field, e.g.match_body_kind) {
        Some(c) => c,
        None => i,
    };
    let (w4, exits, default) = arms_lowered(e, w3, container, 0, disc, Seq::empty(), false);
    (w4, if default {
        exits
    } else {
        exits.push(disc)
    })
}

#[via_fn]
proof fn match_lowered_decreases(e: Env, w: Walk, i: int, open: Seq<usize>) {
    broadcast use lemma_kid;

}

/// Where a handler binds its exception.
pub open spec fn catch_param(e: Env, i: int) -> Option<int> {
    if e.g.catch_param_kind.len() > 0 {
        match child_of_kind(e.t, i, e.g.catch_param_kind) {
            Some(found) => if e.g.catch_param_name_field.len() == 0 {
                Some(found)
            } else {
                child_by_field(e.t, found, e.g.catch_param_name_field)
            },
            None => None,
        }
    } else {
        match child_by_field(e.t, i, e.g.catch_param_as_field) {
            Some(value) => if e.t[value].kind == e.g.catch_param_as_pattern_kind {
                child_by_field(e.t, value, e.g.catch_param_alias_field)
            } else {
                None
            },
            None => None,
        }
    }
}

/// One handler: lowered behind a node of its own that nothing leads to.
pub open spec fn catch_lowered(e: Env, w: Walk, i: int) -> Walk
    decreases size(e.t, i), 3int, 0int,
    via catch_lowered_decreases
{
    match field_or_kind(e.t, i, e.g.catch_body_field, e.g.catch_body_kind) {
        None => w,
        Some(body) => {
            let (w1, defs) = match catch_param(e, i) {
                Some(p) => declared_all(
                    e,
                    block_entered(e, w),
                    identifiers_in(e, p, None),
                    0,
                    Seq::empty(),
                ),
                None => (block_entered(e, w), Seq::empty()),
            };
            let entry = next_node(w1);
            let w2 = pushed(
                w1,
                bare_node(line_at(e.t, i), KindView::Pure, defs, Seq::empty(), "<catch>"@),
            );
            block_left(e, block_lowered(e, w2, body, seq![entry]).0)
        },
    }
}

#[via_fn]
proof fn catch_lowered_decreases(e: Env, w: Walk, i: int) {
    broadcast use lemma_kid;

}

/// The handlers of a `try` from the `k`-th on.
pub open spec fn catches_lowered(e: Env, w: Walk, i: int, k: int) -> Walk
    decreases size(e.t, i), 3int, kids(e.t, i, Pick::Kinds(e.g.catch_kinds)).len() - k,
    via catches_lowered_decreases
{
    let all = kids(e.t, i, Pick::Kinds(e.g.catch_kinds));
    if k < 0 || k >= all.len() {
        w
    } else {
        catches_lowered(e, catch_lowered(e, w, all[k]), i, k + 1)
    }
}

#[via_fn]
proof fn catches_lowered_decreases(e: Env, w: Walk, i: int, k: int) {
    broadcast use lemma_kid;

}

/// The body of a `try`'s `else` part.
pub open spec fn try_else_body(e: Env, i: int) -> Option<int> {
    match child_of_kind(e.t, i, e.g.try_else_kind) {
        Some(n) => child_by_field(e.t, n, e.g.try_else_body_field),
        None => None,
    }
}

/// The body of a `try`'s `finally` part.
pub open spec fn finally_body(e: Env, i: int) -> Option<int> {
    match child_of_kind(e.t, i, e.g.finally_kind) {
        Some(n) => field_or_kind(e.t, n, e.g.finally_body_field, e.g.finally_body_kind),
        None => None,
    }
}

/// A `try`: its body, the handlers beside it, then `else` and `finally` once
/// behind the body.
pub open spec fn try_lowered(e: Env, w: Walk, i: int, open: Seq<usize>) -> (Walk, Seq<usize>)
    decreases size(e.t, i), 4int, 0int,
    via try_lowered_decreases
{
    match field_or_kind(e.t, i, e.g.try_body_field, e.g.try_body_kind) {
        None => plain(e, w, i, open),
        Some(body) => {
            let (w1, exits) = block_lowered(e, w, body, open);
            let w2 = catches_lowered(e, w1, i, 0);
            let (w3, exits3) = match try_else_body(e, i) {
                Some(b) => block_lowered(e, w2, b, exits),
                None => (w2, exits),
            };
            match finally_body(e, i) {
                Some(b) => block_lowered(e, w3, b, exits3),
                None => (w3, exits3),
            }
        },
    }
}

#[via_fn]
proof fn try_lowered_decreases(e: Env, w: Walk, i: int, open: Seq<usize>) {
    broadcast use lemma_kid;

}

/// A node for a bare word, which reads nothing.
pub open spec fn word_lowered(e: Env, w: Walk, i: int, open: Seq<usize>) -> (Walk, usize) {
    let id = next_node(w);
    (
        link(
            pushed(
                w,
                bare_node(
                    line_at(e.t, i),
                    KindView::Pure,
                    Seq::empty(),
                    Seq::empty(),
                    snippet_at(e, i),
                ),
            ),
            open,
            id,
        ),
        id,
    )
}

/// A construct that is not understood: one unit. Names bound inside it are
/// declared in a scope that ends with it, so that they do not read as uses
/// of what they shadow.
pub open spec fn other_lowered(e: Env, w: Walk, i: int, open: Seq<usize>) -> (Walk, Seq<usize>) {
    let w1 = if e.g.block_scoped {
        declared_all(e, scope_pushed(w), bound_in(e, i), 0, Seq::empty()).0
    } else {
        w
    };
    let (w2, entry, exit) = unit(e, w1, i, KindView::Pure, Seq::empty());
    (link(block_left(e, w2), open, entry), seq![exit])
}

/// A report on a statement with a parse error.
pub open spec fn error_noted(e: Env, w: Walk, i: int) -> Walk {
    if e.t[i].has_error {
        Walk {
            diagnostics: w.diagnostics.push(
                DiagnosticView {
                    function: e.name,
                    message: "statement contains a parse error; lowered as an opaque unit"@,
                },
            ),
            ..w
        }
    } else {
        w
    }
}

/// One statement: what it stands for decides by its kind. Control leaves it
/// from the returned nodes; none for a `return`, `throw`, `break` or
/// `continue`.
pub open spec fn stmt_lowered(e: Env, w0: Walk, i0: int, open: Seq<usize>) -> (Walk, Seq<usize>)
    decreases size(e.t, i0), 5int, 0int,
    via stmt_lowered_decreases
{
    let i = unwrapped(e.g, e.t, i0);
    let kind = e.t[i].kind;
    let w = error_noted(e, w0, i);
    if e.g.block_kinds.contains(kind) {
        block_lowered(e, w, i, open)
    } else if e.g.flatten_kinds.contains(kind) {
        seq_lowered(e, w, i, Pick::Named, 0, open)
    } else if e.g.class_kinds.contains(kind) {
        class_lowered(e, w, i, open)
    } else if e.g.function_kinds.contains(kind) {
        fn_decl_lowered(e, w, i, open)
    } else if e.g.binding_kinds.contains(kind) {
        binding_lowered(e, w, i, open)
    } else if e.g.compound_assign_kinds.contains(kind) {
        assign_lowered(e, w, i, open, true)
    } else if e.g.assign_kinds.contains(kind) {
        assign_lowered(e, w, i, open, compound_assign(e, i))
    } else if e.g.call_kinds.contains(kind) {
        call_stmt_lowered(e, w, i, open)
    } else if e.g.if_kinds.contains(kind) {
        if_lowered(e, w, i, open)
    } else if e.g.while_kinds.contains(kind) {
        while_lowered(e, w, i, open)
    } else if e.g.loop_kinds.contains(kind) {
        loop_lowered(e, w, i, open)
    } else if e.g.for_kinds.contains(kind) {
        match for_shape(e, i) {
            ForShape::Each => for_lowered(e, w, i, open),
            ForShape::Counted => other_lowered(e, w, i, open),
            ForShape::While => while_lowered(e, w, i, open),
            ForShape::Endless => loop_lowered(e, w, i, open),
        }
    } else if e.g.return_kinds.contains(kind) {
        (unit_after(e, w, i, KindView::Return, open).0, Seq::empty())
    } else if e.g.throw_kinds.contains(kind) {
        (unit_after(e, w, i, KindView::Throw, open).0, Seq::empty())
    } else if e.g.break_kinds.contains(kind) {
        let (w1, exit) = unit_after(e, w, i, KindView::Pure, open);
        (break_taken(w1, exit), Seq::empty())
    } else if e.g.continue_kinds.contains(kind) {
        let (w1, exit) = unit_after(e, w, i, KindView::Pure, open);
        (continue_taken(w1, exit), Seq::empty())
    } else if e.g.match_kinds.contains(kind) {
        match_lowered(e, w, i, open)
    } else if e.g.try_kinds.contains(kind) {
        try_lowered(e, w, i, open)
    } else if is_word(e, i, e.g.break_texts) {
        let (w1, exit) = word_lowered(e, w, i, open);
        (break_taken(w1, exit), Seq::empty())
    } else if is_word(e, i, e.g.continue_texts) {
        let (w1, exit) = word_lowered(e, w, i, open);
        (continue_taken(w1, exit), Seq::empty())
    } else {
        other_lowered(e, w, i, open)
    }
}

#[via_fn]
proof fn stmt_lowered_decreases(e: Env, w0: Walk, i0: int, open: Seq<usize>) {
    broadcast use {lemma_kid, lemma_below, lemma_unwrapped};

}

} // verus!
