//! What each construct of each language comes to, in terms of the control flow
//! that it makes.
//!
//! Each law names a construct by the kind that the language's grammar gives its
//! node, and its parts by the fields, kinds or places that the grammar gives
//! them. It says which nodes are there afterwards, how control comes to them,
//! how it goes on between the parts and from where it leaves. A part that is a
//! statement is spoken of by what lowering it comes to.

use vstd::prelude::*;

use crate::ir::{KindView, NodeView};
use crate::ts::laws::{
    ends, lemma_all_added_same, lemma_bare, lemma_block_ranged, lemma_calls_extracted,
    lemma_defs_scanned_quiet, lemma_entered, lemma_loop_ranged, lemma_quiet_more,
    lemma_resolved_all_quiet, lemma_stmt, lemma_unit_after, live, ranged, settled,
};
use crate::ts::model::{
    bare_node, behind, block_entered, block_left, calls_extracted, defs_scanned, edge, entered,
    error_noted, for_lowered, for_pattern, identifiers_in, link_from, loop_closed, loop_opened,
    next_node, pushed, snippet_at, stmt_lowered, unit_after, unwrapped, uses_scanned,
    while_lowered, Env, Walk,
};
use crate::ts::shapes::{
    came_to, lemma_came_stays, lemma_entered_came, lemma_goes, lemma_headed, lemma_link_stands,
    lemma_noted, lemma_settled_ranged, lemma_unit_came, repeats,
};
use crate::ts::spelling::{
    falls_under, lemma_go_sorts, lemma_java_sorts, lemma_kotlin_sorts, lemma_python_sorts,
    lemma_rust_sorts,
};
use crate::ts::state::in_range;
use crate::ts::tree::{
    child_by_field, child_of_kind, field_or_last, field_or_nth, first, kids, last, lemma_kid,
    line_at, Pick,
};
use crate::ts::Language;

verus! {

/// Under which list of its vocabulary each kind of a language falls.
pub proof fn lemma_sorts(l: Language)
    ensures
        l is Rust ==> {
            let g = l.grammar();
            &&& falls_under(g, "block"@, 1)
            &&& falls_under(g, "function_item"@, 4)
            &&& falls_under(g, "let_declaration"@, 5)
            &&& falls_under(g, "compound_assignment_expr"@, 6)
            &&& falls_under(g, "assignment_expression"@, 7)
            &&& falls_under(g, "call_expression"@, 8)
            &&& falls_under(g, "if_expression"@, 9)
            &&& falls_under(g, "while_expression"@, 10)
            &&& falls_under(g, "loop_expression"@, 11)
            &&& falls_under(g, "for_expression"@, 12)
            &&& falls_under(g, "return_expression"@, 13)
            &&& falls_under(g, "break_expression"@, 15)
            &&& falls_under(g, "continue_expression"@, 16)
            &&& falls_under(g, "match_expression"@, 17)
        },
        l is Python ==> {
            let g = l.grammar();
            &&& falls_under(g, "block"@, 1)
            &&& falls_under(g, "function_definition"@, 4)
            &&& falls_under(g, "augmented_assignment"@, 6)
            &&& falls_under(g, "assignment"@, 7)
            &&& falls_under(g, "call"@, 8)
            &&& falls_under(g, "if_statement"@, 9)
            &&& falls_under(g, "while_statement"@, 10)
            &&& falls_under(g, "for_statement"@, 12)
            &&& falls_under(g, "return_statement"@, 13)
            &&& falls_under(g, "raise_statement"@, 14)
            &&& falls_under(g, "break_statement"@, 15)
            &&& falls_under(g, "continue_statement"@, 16)
            &&& falls_under(g, "match_statement"@, 17)
            &&& falls_under(g, "try_statement"@, 18)
        },
        l is Java ==> {
            let g = l.grammar();
            &&& falls_under(g, "block"@, 1)
            &&& falls_under(g, "class_declaration"@, 3)
            &&& falls_under(g, "method_declaration"@, 4)
            &&& falls_under(g, "local_variable_declaration"@, 5)
            &&& falls_under(g, "field_declaration"@, 5)
            &&& falls_under(g, "assignment_expression"@, 7)
            &&& falls_under(g, "method_invocation"@, 8)
            &&& falls_under(g, "if_statement"@, 9)
            &&& falls_under(g, "while_statement"@, 10)
            &&& falls_under(g, "enhanced_for_statement"@, 12)
            &&& falls_under(g, "return_statement"@, 13)
            &&& falls_under(g, "throw_statement"@, 14)
            &&& falls_under(g, "break_statement"@, 15)
            &&& falls_under(g, "continue_statement"@, 16)
            &&& falls_under(g, "switch_expression"@, 17)
            &&& falls_under(g, "try_statement"@, 18)
        },
        l is Kotlin ==> {
            let g = l.grammar();
            &&& falls_under(g, "block"@, 1)
            &&& falls_under(g, "class_declaration"@, 3)
            &&& falls_under(g, "function_declaration"@, 4)
            &&& falls_under(g, "property_declaration"@, 5)
            &&& falls_under(g, "assignment"@, 7)
            &&& falls_under(g, "call_expression"@, 8)
            &&& falls_under(g, "if_expression"@, 9)
            &&& falls_under(g, "while_statement"@, 10)
            &&& falls_under(g, "for_statement"@, 12)
            &&& falls_under(g, "return_expression"@, 13)
            &&& falls_under(g, "throw_expression"@, 14)
            &&& falls_under(g, "when_expression"@, 17)
            &&& falls_under(g, "try_expression"@, 18)
            &&& falls_under(g, "identifier"@, 19)
        },
        l is Go ==> {
            let g = l.grammar();
            &&& falls_under(g, "block"@, 1)
            &&& falls_under(g, "statement_list"@, 1)
            &&& falls_under(g, "var_declaration"@, 2)
            &&& falls_under(g, "var_spec_list"@, 2)
            &&& falls_under(g, "const_declaration"@, 2)
            &&& falls_under(g, "function_declaration"@, 4)
            &&& falls_under(g, "method_declaration"@, 4)
            &&& falls_under(g, "short_var_declaration"@, 5)
            &&& falls_under(g, "receive_statement"@, 5)
            &&& falls_under(g, "var_spec"@, 5)
            &&& falls_under(g, "const_spec"@, 5)
            &&& falls_under(g, "assignment_statement"@, 7)
            &&& falls_under(g, "call_expression"@, 8)
            &&& falls_under(g, "if_statement"@, 9)
            &&& falls_under(g, "for_statement"@, 12)
            &&& falls_under(g, "return_statement"@, 13)
            &&& falls_under(g, "break_statement"@, 15)
            &&& falls_under(g, "continue_statement"@, 16)
            &&& falls_under(g, "expression_switch_statement"@, 17)
            &&& falls_under(g, "select_statement"@, 17)
        },
{
    match l {
        Language::Rust => lemma_rust_sorts(),
        Language::Python => lemma_python_sorts(),
        Language::Java => lemma_java_sorts(),
        Language::Kotlin => lemma_kotlin_sorts(),
        Language::Go => lemma_go_sorts(),
    }
}

/// Without a name there is no field.
pub proof fn lemma_no_field(e: Env, i: int)
    ensures
        child_by_field(e.t, i, ""@) is None,
        ""@.len() == 0,
{
    reveal_strlit("");
    broadcast use lemma_kid;

    let none = kids(e.t, i, Pick::Field(""@));
    if none.len() > 0 {
        assert(Pick::Field(""@).takes(e.t, none[0]));
    }
}

/// The state and the node that a statement starts from, when nothing wraps it.
pub proof fn lemma_start(e: Env, w: Walk, i: int, open: Seq<usize>)
    requires
        settled(w),
        live(w, open),
        !e.g.wrapper_kinds.contains(e.t[i].kind),
    ensures
        unwrapped(e.g, e.t, i) == i,
        settled(error_noted(e, w, i)),
        live(error_noted(e, w, i), open),
        error_noted(e, w, i).nodes == w.nodes,
        error_noted(e, w, i).loops == w.loops,
{
    lemma_noted(e, w, i, open);
}

/// A `while`, in every language: the loop has a head that branches on the
/// condition, the body is entered from the head, control comes back from the
/// ends of the body to the head, and leaves from the head and from what breaks
/// out of the body.
pub proof fn a_while_repeats(
    l: Language,
    e: Env,
    w: Walk,
    i: int,
    cond: int,
    body: int,
    open: Seq<usize>,
) -> (head: usize)
    requires
        e.g == l.grammar(),
        settled(w),
        live(w, open),
        stmt_lowered(e, w, i, open).0.nodes.len() <= usize::MAX,
        match l {
            Language::Rust => e.t[i].kind == "while_expression"@ && child_by_field(
                e.t,
                i,
                "condition"@,
            ) == Some(cond) && child_by_field(e.t, i, "body"@) == Some(body),
            Language::Python | Language::Java => e.t[i].kind == "while_statement"@
                && child_by_field(e.t, i, "condition"@) == Some(cond) && child_by_field(
                e.t,
                i,
                "body"@,
            ) == Some(body),
            Language::Kotlin => e.t[i].kind == "while_statement"@ && child_by_field(
                e.t,
                i,
                "condition"@,
            ) == Some(cond) && last(kids(e.t, i, Pick::Named)) == Some(body),
            Language::Go => e.t[i].kind == "for_statement"@ && child_of_kind(
                e.t,
                i,
                "range_clause"@,
            ) is None && child_of_kind(e.t, i, "for_clause"@) is None && first(
                kids(e.t, i, Pick::Named),
            ) == Some(cond) && child_by_field(e.t, i, "body"@) == Some(body) && cond != body,
        },
    ensures
        ({
            let (w1, exits) = stmt_lowered(e, w, i, open);
            let n = w.nodes.len();
            &&& came_to(e, n, w1.nodes, cond, Some(cond), KindView::Branch, open, head)
            &&& repeats(e, n, w1.nodes, body, head, exits)
        }),
{
    lemma_sorts(l);
    lemma_no_field(e, i);
    reveal_strlit("range_clause");
    lemma_start(e, w, i, open);
    let u = error_noted(e, w, i);
    assert(stmt_lowered(e, w, i, open) == while_lowered(e, u, i, open));
    lemma_while_shape(e, u, i, cond, body, open)
}

proof fn lemma_while_shape(e: Env, w: Walk, i: int, cond: int, body: int, open: Seq<usize>) -> (head:
    usize)
    requires
        settled(w),
        live(w, open),
        while_lowered(e, w, i, open).0.nodes.len() <= usize::MAX,
        field_or_nth(e.t, i, e.g.while_cond_field, 0) == Some(cond),
        field_or_last(e.t, i, e.g.while_body_field) == Some(body),
    ensures
        ({
            let (w1, exits) = while_lowered(e, w, i, open);
            let n = w.nodes.len();
            &&& came_to(e, n, w1.nodes, cond, Some(cond), KindView::Branch, open, head)
            &&& repeats(e, n, w1.nodes, body, head, exits)
        }),
{
    let n = w.nodes.len();
    lemma_settled_ranged(w, open);
    lemma_unit_after(e, w, cond, KindView::Branch, open);
    let (w1, head) = unit_after(e, w, cond, KindView::Branch, open);
    lemma_loop_ranged(w1, head);
    let one = seq![head];
    let v = loop_opened(w1, head);
    lemma_stmt(e, v, body, one);
    let (w2, to) = stmt_lowered(e, v, body, one);
    lemma_link_stands(w2, to, 0, head);
    lemma_unit_came(e, w, cond, KindView::Branch, open);
    lemma_headed(e, n, w1, head, body);
    let w3 = while_lowered(e, w, i, open).0;
    assert forall|j: int| 0 <= j < open.len() implies (#[trigger] open[j]) < w1.nodes.len() by {
        assert(open[j] < w.nodes.len());
    }
    lemma_came_stays(
        e,
        n,
        n,
        w1.nodes,
        w3.nodes,
        cond,
        Some(cond),
        KindView::Branch,
        open,
        head,
    );
    head
}

/// A loop without a condition (Rust's `loop`, Go's bare `for`): its head
/// branches, since only a `break` leaves it, the body is entered from the head
/// and leads back to it.
pub proof fn an_endless_loop_repeats(
    l: Language,
    e: Env,
    w: Walk,
    i: int,
    body: int,
    open: Seq<usize>,
) -> (head: usize)
    requires
        e.g == l.grammar(),
        settled(w),
        live(w, open),
        stmt_lowered(e, w, i, open).0.nodes.len() <= usize::MAX,
        match l {
            Language::Rust => e.t[i].kind == "loop_expression"@ && child_by_field(
                e.t,
                i,
                "body"@,
            ) == Some(body),
            Language::Go => e.t[i].kind == "for_statement"@ && child_of_kind(
                e.t,
                i,
                "range_clause"@,
            ) is None && child_of_kind(e.t, i, "for_clause"@) is None && first(
                kids(e.t, i, Pick::Named),
            ) == Some(body) && child_by_field(e.t, i, "body"@) == Some(body),
            _ => false,
        },
    ensures
        ({
            let (w1, exits) = stmt_lowered(e, w, i, open);
            let n = w.nodes.len();
            &&& came_to(e, n, w1.nodes, i, None, KindView::Branch, open, head)
            &&& repeats(e, n, w1.nodes, body, head, exits)
        }),
{
    lemma_sorts(l);
    lemma_no_field(e, i);
    reveal_strlit("range_clause");
    lemma_start(e, w, i, open);
    let u = error_noted(e, w, i);
    let n = w.nodes.len();
    lemma_settled_ranged(u, open);
    let node = bare_node(
        line_at(e.t, i),
        KindView::Branch,
        Seq::empty(),
        Seq::empty(),
        snippet_at(e, i),
    );
    let none = Seq::<usize>::empty();
    let (w1, head) = entered(u, none, node, open);
    lemma_bare(u, open, node);
    lemma_loop_ranged(w1, head);
    let one = seq![head];
    let v = loop_opened(w1, head);
    lemma_stmt(e, v, body, one);
    let (w2, to) = stmt_lowered(e, v, body, one);
    lemma_link_stands(w2, to, 0, head);
    assert(stmt_lowered(e, w, i, open) == loop_closed(w2, to, head));
    lemma_entered_came(e, u, u, i, None, node, open);
    lemma_goes(u, open, w1, one);
    lemma_headed(e, n, w1, head, body);
    let w3 = stmt_lowered(e, w, i, open).0;
    assert forall|j: int| 0 <= j < open.len() implies (#[trigger] open[j]) < w1.nodes.len() by {
        assert(open[j] < w.nodes.len());
    }
    lemma_came_stays(e, n, n, w1.nodes, w3.nodes, i, None, KindView::Branch, open, head);
    head
}

/// A loop over the items of a value, in every language: its head branches and
/// makes the calls of the value, the body is entered from the head and leads
/// back to it, and control leaves from the head and from what breaks out of the
/// body.
pub proof fn a_for_each_repeats(
    l: Language,
    e: Env,
    w: Walk,
    i: int,
    pattern: int,
    value: int,
    body: int,
    open: Seq<usize>,
) -> (head: usize)
    requires
        e.g == l.grammar(),
        settled(w),
        live(w, open),
        stmt_lowered(e, w, i, open).0.nodes.len() <= usize::MAX,
        match l {
            Language::Rust => e.t[i].kind == "for_expression"@ && child_by_field(
                e.t,
                i,
                "pattern"@,
            ) == Some(pattern) && child_by_field(e.t, i, "value"@) == Some(value)
                && child_by_field(e.t, i, "body"@) == Some(body),
            Language::Python => e.t[i].kind == "for_statement"@ && child_by_field(
                e.t,
                i,
                "left"@,
            ) == Some(pattern) && child_by_field(e.t, i, "right"@) == Some(value)
                && child_by_field(e.t, i, "body"@) == Some(body),
            Language::Java => e.t[i].kind == "enhanced_for_statement"@ && child_by_field(
                e.t,
                i,
                "name"@,
            ) == Some(pattern) && child_by_field(e.t, i, "value"@) == Some(value)
                && child_by_field(e.t, i, "body"@) == Some(body),
            Language::Kotlin => e.t[i].kind == "for_statement"@ && kids(
                e.t,
                i,
                Pick::Named,
            ).len() > 1 && kids(e.t, i, Pick::Named)[0] == pattern && kids(e.t, i, Pick::Named)[1]
                == value && last(kids(e.t, i, Pick::Named)) == Some(body),
            Language::Go => e.t[i].kind == "for_statement"@ && (child_of_kind(
                e.t,
                i,
                "range_clause"@,
            ) matches Some(c) && child_by_field(e.t, c, "left"@) == Some(pattern) && child_by_field(
                e.t,
                c,
                "right"@,
            ) == Some(value)) && child_by_field(e.t, i, "body"@) == Some(body),
        },
    ensures
        ({
            let (w1, exits) = stmt_lowered(e, w, i, open);
            let n = w.nodes.len();
            &&& came_to(e, n, w1.nodes, i, Some(value), KindView::Branch, open, head)
            &&& repeats(e, n, w1.nodes, body, head, exits)
        }),
{
    lemma_sorts(l);
    lemma_no_field(e, i);
    reveal_strlit("range_clause");
    lemma_start(e, w, i, open);
    let u = error_noted(e, w, i);
    let n = w.nodes.len();
    lemma_settled_ranged(u, open);
    assert(for_pattern(e, i) == Some(pattern));
    assert(stmt_lowered(e, w, i, open) == for_lowered(e, u, i, open));
    let (w1, calls) = calls_extracted(e, u, value);
    let (w2, uses) = uses_scanned(e, w1, value, Seq::empty());
    lemma_resolved_all_quiet(w1, identifiers_in(e, value, None), 0, Seq::empty());
    let b = block_entered(e, w2);
    let (w3, defs) = defs_scanned(e, b, pattern, true, Seq::empty());
    lemma_defs_scanned_quiet(e, b, pattern, true, Seq::empty());
    let node = bare_node(line_at(e.t, i), KindView::Branch, defs, uses, snippet_at(e, i));
    let (w4, head) = entered(w3, calls, node, open);
    let one = seq![head];
    let v = loop_opened(w4, head);
    lemma_for_head(e, u, i, pattern, value, open);
    lemma_loop_ranged(w4, head);
    lemma_stmt(e, v, body, one);
    let (w5, to) = stmt_lowered(e, v, body, one);
    lemma_link_stands(w5, to, 0, head);
    let (w6, exits) = loop_closed(w5, to, head);
    assert(stmt_lowered(e, w, i, open) == (block_left(e, w6), exits));
    assert(block_left(e, w6).nodes == w6.nodes);
    assert(w4.nodes.len() <= usize::MAX);
    assert(settled(w4) && live(w4, one));
    lemma_entered_came(e, u, w3, i, Some(value), node, open);
    lemma_headed(e, n, w4, head, body);
    assert forall|j: int| 0 <= j < open.len() implies (#[trigger] open[j]) < w4.nodes.len() by {
        assert(open[j] < w.nodes.len());
    }
    lemma_came_stays(
        e,
        n,
        n,
        w4.nodes,
        w6.nodes,
        i,
        Some(value),
        KindView::Branch,
        open,
        head,
    );
    head
}

/// The head of a loop over items is a state like any other.
proof fn lemma_for_head(e: Env, w: Walk, i: int, pattern: int, value: int, open: Seq<usize>)
    requires
        settled(w),
        live(w, open),
    ensures
        ({
            let (w1, calls) = calls_extracted(e, w, value);
            let (w2, uses) = uses_scanned(e, w1, value, Seq::empty());
            let b = block_entered(e, w2);
            let (w3, defs) = defs_scanned(e, b, pattern, true, Seq::empty());
            let node = bare_node(line_at(e.t, i), KindView::Branch, defs, uses, snippet_at(e, i));
            let (w4, head) = entered(w3, calls, node, open);
            &&& ranged(w4)
            &&& head < w4.nodes.len()
            &&& w4.nodes.len() == w3.nodes.len() + 1
            &&& w3.nodes == w1.nodes
            &&& w4.nodes.len() <= usize::MAX ==> settled(w4) && live(w4, seq![head])
        }),
{
    lemma_settled_ranged(w, open);
    let (w1, calls) = calls_extracted(e, w, value);
    lemma_calls_extracted(e, w, open, value);
    let (w2, uses) = uses_scanned(e, w1, value, Seq::empty());
    let names = identifiers_in(e, value, None);
    lemma_resolved_all_quiet(w1, names, 0, Seq::empty());
    lemma_quiet_more(w, open, w1, open + calls, w2);
    let b = block_entered(e, w2);
    lemma_block_ranged(e, w2, open);
    let (w3, defs) = defs_scanned(e, b, pattern, true, Seq::empty());
    lemma_defs_scanned_quiet(e, b, pattern, true, Seq::empty());
    let node = bare_node(line_at(e.t, i), KindView::Branch, defs, uses, snippet_at(e, i));
    let (w4, head) = entered(w3, calls, node, open);
    let (x4, xhead) = entered(w2, calls, node, open);
    lemma_all_added_same(w, w1, w2, calls);
    lemma_entered(w, open, w2, calls, node);
    lemma_entered_same(w3, w2, calls, node, open);
    assert forall|k: int| 0 <= k < w4.loops.len() implies (#[trigger] w4.loops[k]).continue_target
        < w4.nodes.len() && in_range(w4, w4.loops[k].breaks) by {
        assert(w4.loops[k] == x4.loops[k]);
        assert(x4.loops[k].continue_target < x4.nodes.len());
        assert(in_range(x4, x4.loops[k].breaks));
    }
    if w4.nodes.len() <= usize::MAX {
        lemma_goes(w, open, x4, seq![xhead]);
        assert forall|k: int| 0 <= k < w4.loops.len() implies live(
            w4,
            (#[trigger] w4.loops[k]).breaks,
        ) by {
            assert(live(x4, x4.loops[k].breaks));
        }
    }
}

proof fn lemma_link_same(a: Walk, b: Walk, from: Seq<usize>, k: int, to: usize)
    requires
        a.nodes == b.nodes,
    ensures
        link_from(a, from, k, to).nodes == link_from(b, from, k, to).nodes,
        link_from(a, from, k, to).loops == a.loops,
        link_from(a, from, k, to).scopes == a.scopes,
    decreases from.len() - k,
{
    if 0 <= k < from.len() {
        lemma_link_same(edge(a, from[k], to), edge(b, from[k], to), from, k + 1, to);
    }
}

/// What is entered has the same nodes whatever the scopes.
proof fn lemma_entered_same(
    a: Walk,
    b: Walk,
    calls: Seq<usize>,
    n: NodeView,
    open: Seq<usize>,
)
    requires
        a.nodes == b.nodes,
    ensures
        entered(a, calls, n, open).0.nodes == entered(b, calls, n, open).0.nodes,
        entered(a, calls, n, open).1 == entered(b, calls, n, open).1,
        entered(a, calls, n, open).0.loops == a.loops,
        entered(a, calls, n, open).0.scopes == a.scopes,
        entered(b, calls, n, open).0.loops == b.loops,
{
    let id = next_node(a);
    let (va, ea) = behind(pushed(a, n), calls, id);
    let (vb, eb) = behind(pushed(b, n), calls, id);
    assert(va.nodes == vb.nodes);
    lemma_link_same(va, vb, open, 0, ea);
    lemma_link_same(vb, va, open, 0, ea);
}

} // verus!
