//! What declarations inside code, classes, and statements of no kind of their own
//! come to.

use vstd::prelude::*;

use crate::flow::stands;
use crate::ir::KindView;
use crate::ts::branches::{in_order, lemma_in_order, list_runs};
use crate::ts::constructs::{lemma_no_field, lemma_sorts, lemma_start};
use crate::ts::laws::{lemma_declared_all_quiet, lemma_declared_quiet, live, settled};
use crate::ts::model::{
    bare_name, bare_node, block_left, bound_in, calls_of, declared, declared_all, edge, entered,
    error_noted, link, link_from, other_lowered, scope_pushed, seq_lowered, stmt_lowered, unit,
    unit_after, Env, Walk,
};
use crate::ts::names::lemma_kinds;
use crate::ts::shapes::{came_to, lemma_entered_came, lemma_unit_came};
use crate::ts::spelling::falls_under;
use crate::ts::tree::{child_by_field, child_of_kind, line_at, Pick};
use crate::ts::Language;

verus! {

proof fn lemma_link_nodes(a: Walk, b: Walk, from: Seq<usize>, k: int, to: usize)
    requires
        0 <= k,
        a.nodes == b.nodes,
    ensures
        link_from(a, from, k, to).nodes == link_from(b, from, k, to).nodes,
    decreases from.len() - k,
{
    if k < from.len() {
        lemma_link_nodes(edge(a, from[k], to), edge(b, from[k], to), from, k + 1, to);
    }
}

proof fn lemma_other(e: Env, w: Walk, i: int, open: Seq<usize>)
    requires
        settled(w),
        live(w, open),
        other_lowered(e, w, i, open).0.nodes.len() <= usize::MAX,
    ensures
        ({
            let (w1, exits) = other_lowered(e, w, i, open);
            &&& exits.len() == 1
            &&& came_to(e, w.nodes.len(), w1.nodes, i, Some(i), KindView::Pure, open, exits[0])
        }),
{
    let u = scope_pushed(w);
    let names = bound_in(e, i);
    lemma_declared_all_quiet(e, u, names, 0, Seq::empty());
    let w1 = if e.g.block_scoped {
        declared_all(e, u, names, 0, Seq::empty()).0
    } else {
        w
    };
    assert(w1.nodes == w.nodes && w1.loops == w.loops);
    assert(w1.scopes.len() > 0);
    assert forall|k: int| 0 <= k < w1.loops.len() implies live(
        w1,
        (#[trigger] w1.loops[k]).breaks,
    ) by {
        assert(live(w, w.loops[k].breaks));
    }
    assert(live(w1, open));
    assert(settled(w1));
    let (w2, entry, exit) = unit(e, w1, i, KindView::Pure, Seq::empty());
    lemma_link_nodes(w2, block_left(e, w2), open, 0, entry);
    assert(unit_after(e, w1, i, KindView::Pure, open) == (link(w2, open, entry), exit));
    lemma_unit_came(e, w1, i, KindView::Pure, open);
}

/// A statement of no kind that its language tells apart is one node that makes
/// the calls in it, and control goes on behind it.
pub proof fn any_other_statement_is_one_node(
    l: Language,
    e: Env,
    w: Walk,
    i: int,
    open: Seq<usize>,
)
    requires
        e.g == l.grammar(),
        settled(w),
        live(w, open),
        stmt_lowered(e, w, i, open).0.nodes.len() <= usize::MAX,
        falls_under(e.g, e.t[i].kind, 19),
        e.t[i].kind != "identifier"@,
    ensures
        ({
            let (w1, exits) = stmt_lowered(e, w, i, open);
            &&& exits.len() == 1
            &&& came_to(e, w.nodes.len(), w1.nodes, i, Some(i), KindView::Pure, open, exits[0])
        }),
{
    lemma_start(e, w, i, open);
    lemma_kinds(l, e.t[i].kind);
    let u = error_noted(e, w, i);
    assert(stmt_lowered(e, w, i, open) == other_lowered(e, u, i, open));
    lemma_other(e, u, i, open);
}

/// A counted `for` of Go is one node that makes the calls in it.
pub proof fn a_counted_for_is_one_node(e: Env, w: Walk, i: int, open: Seq<usize>)
    requires
        e.g == Language::Go.grammar(),
        settled(w),
        live(w, open),
        stmt_lowered(e, w, i, open).0.nodes.len() <= usize::MAX,
        e.t[i].kind == "for_statement"@,
        child_of_kind(e.t, i, "range_clause"@) is None,
        child_of_kind(e.t, i, "for_clause"@) is Some,
    ensures
        ({
            let (w1, exits) = stmt_lowered(e, w, i, open);
            &&& exits.len() == 1
            &&& came_to(e, w.nodes.len(), w1.nodes, i, Some(i), KindView::Pure, open, exits[0])
        }),
{
    lemma_sorts(Language::Go);
    reveal_strlit("range_clause");
    lemma_start(e, w, i, open);
    let u = error_noted(e, w, i);
    assert(stmt_lowered(e, w, i, open) == other_lowered(e, u, i, open));
    lemma_other(e, u, i, open);
}

/// A function that is declared among other code is one node there, which defines
/// a variable for it; its body is lowered on its own.
pub proof fn a_declared_function_is_one_node(
    l: Language,
    e: Env,
    w: Walk,
    i: int,
    open: Seq<usize>,
) -> (id: usize)
    requires
        e.g == l.grammar(),
        settled(w),
        live(w, open),
        w.nodes.len() < usize::MAX,
        match l {
            Language::Rust => e.t[i].kind == "function_item"@,
            Language::Python => e.t[i].kind == "function_definition"@,
            Language::Java => e.t[i].kind == "method_declaration"@,
            Language::Kotlin => e.t[i].kind == "function_declaration"@,
            Language::Go => e.t[i].kind == "function_declaration"@ || e.t[i].kind
                == "method_declaration"@,
        },
    ensures
        ({
            let (w1, exits) = stmt_lowered(e, w, i, open);
            &&& exits == seq![id]
            &&& w1.nodes.len() == w.nodes.len() + 1
            &&& came_to(e, w.nodes.len(), w1.nodes, i, None, KindView::Pure, open, id)
            &&& w1.nodes[id as int].defs.len() == 1
            &&& w1.nodes[id as int].uses.len() == 0
        }),
{
    lemma_sorts(l);
    lemma_start(e, w, i, open);
    let u = error_noted(e, w, i);
    let (w1, v) = declared(e, u, bare_name(e, i));
    lemma_declared_quiet(e, u, bare_name(e, i));
    let n = bare_node(line_at(e.t, i), KindView::Pure, seq![v], Seq::empty(), "<fndecl>"@);
    let none = Seq::<usize>::empty();
    assert(calls_of(e, u, None::<int>) == (u, none));
    lemma_entered_came(e, u, w1, i, None, n, open);
    let (w2, id) = entered(w1, none, n, open);
    assert(stmt_lowered(e, w, i, open) == (w2, seq![id]));
    id
}

/// The members of a class run in order, as what stands at its place.
pub proof fn a_class_runs_its_members(
    l: Language,
    e: Env,
    w: Walk,
    i: int,
    body: int,
    open: Seq<usize>,
)
    requires
        e.g == l.grammar(),
        settled(w),
        live(w, open),
        stmt_lowered(e, w, i, open).0.nodes.len() <= usize::MAX,
        e.t[i].kind == "class_declaration"@,
        match l {
            Language::Java => child_by_field(e.t, i, "body"@) == Some(body),
            Language::Kotlin => child_of_kind(e.t, i, "class_body"@) == Some(body),
            _ => false,
        },
    ensures
        list_runs(
            e,
            w.nodes.len(),
            stmt_lowered(e, w, i, open).0.nodes,
            body,
            Pick::Named,
            open,
            stmt_lowered(e, w, i, open).1,
        ),
{
    lemma_sorts(l);
    lemma_no_field(e, i);
    lemma_start(e, w, i, open);
    let u = error_noted(e, w, i);
    let (w1, exits) = stmt_lowered(e, w, i, open);
    assert((w1, exits) == seq_lowered(e, u, body, Pick::Named, 0, open));
    assert(stands(w1.nodes, w1.nodes));
    let fronts = lemma_in_order(e, u, w1.nodes, body, Pick::Named, 0, w.nodes.len(), open);
    assert(in_order(e, w.nodes.len(), w1.nodes, body, Pick::Named, 0, fronts, open, exits));
}

} // verus!
