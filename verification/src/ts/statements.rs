//! What the plain statements, the jumps and the branches of each language come
//! to.

use vstd::prelude::*;

use crate::flow::stands;
use crate::ir::{KindView, NodeView, VarId};
use crate::ts::constructs::{lemma_no_field, lemma_sorts, lemma_start};
use crate::ts::laws::{
    lemma_bare, lemma_calls_of, lemma_defs_scanned_quiet, lemma_entered, lemma_one_binding,
    lemma_quiet_more, lemma_quiet_trans, lemma_resolved_all_quiet, lemma_stmt, lemma_unit_after,
    lemma_uses_of_quiet, live, same_node, settled,
};
use crate::ts::model::{
    bare_node, binding_parts, calls_extracted, calls_of, compound_assign, declared, declared_all,
    defs_scanned, edge, entered, error_noted, identifiers_in, in_scopes, next_node,
    one_binding_lowered, pushed, resolved, resolved_all, snippet_at, sole_item, stmt_lowered,
    unit_after, unwrapped, uses_of, uses_scanned, with_var, with_vars, word_lowered, Env, Walk,
};
use crate::ts::shapes::{
    came_to, lemma_came_stays, lemma_edge_stands, lemma_entered_came, lemma_goes, lemma_ran,
    lemma_settled_ranged, lemma_unit_came, runs,
};
use crate::ts::spelling::falls_under;
use crate::ts::state::in_range;
use crate::ts::tree::{
    child_by_field, child_of_kind, kids, last, lemma_kid, line_at, size, text_at, Pick,
};
use crate::ts::Language;

verus! {

/// What wraps a statement adds nothing to it.
proof fn lemma_unwrapped_twice(e: Env, i: int)
    ensures
        unwrapped(e.g, e.t, unwrapped(e.g, e.t, i)) == unwrapped(e.g, e.t, i),
    decreases size(e.t, i),
{
    broadcast use lemma_kid;

    if e.g.wrapper_kinds.contains(e.t[i].kind) {
        if let Some(n) = crate::ts::tree::field_or_last(e.t, i, "body"@) {
            lemma_unwrapped_twice(e, n);
        }
    }
}

/// A statement that something wraps is lowered as the statement itself.
pub proof fn a_wrapper_adds_nothing(e: Env, w: Walk, i: int, open: Seq<usize>)
    ensures
        stmt_lowered(e, w, i, open) == stmt_lowered(e, w, unwrapped(e.g, e.t, i), open),
{
    lemma_unwrapped_twice(e, i);
}

/// In every language an expression that stands as a statement is lowered as the
/// expression: nothing is lost in its wrapper. So is Rust's `unsafe` block, and
/// what an `else` introduces in Rust and Python.
pub proof fn wrapped_statements_are_lowered(
    l: Language,
    e: Env,
    w: Walk,
    i: int,
    x: int,
    open: Seq<usize>,
)
    requires
        e.g == l.grammar(),
        match l {
            Language::Rust => e.t[i].kind == "expression_statement"@ || e.t[i].kind
                == "unsafe_block"@ || e.t[i].kind == "else_clause"@,
            Language::Python => e.t[i].kind == "expression_statement"@ || e.t[i].kind
                == "else_clause"@,
            Language::Java | Language::Go => e.t[i].kind == "expression_statement"@,
            Language::Kotlin => e.t[i].kind == "function_body"@,
        },
        child_by_field(e.t, i, "body"@) == Some(x) || (child_by_field(e.t, i, "body"@) is None && last(
            kids(e.t, i, Pick::Named),
        ) == Some(x)),
    ensures
        stmt_lowered(e, w, i, open) == stmt_lowered(e, w, x, open),
{
    match l {
        Language::Rust => crate::ts::spelling::lemma_rust_sorts(),
        Language::Python => crate::ts::spelling::lemma_python_sorts(),
        Language::Java => crate::ts::spelling::lemma_java_sorts(),
        Language::Kotlin => crate::ts::spelling::lemma_kotlin_sorts(),
        Language::Go => crate::ts::spelling::lemma_go_sorts(),
    }
    broadcast use lemma_kid;

    assert(unwrapped(e.g, e.t, i) == unwrapped(e.g, e.t, x));
    a_wrapper_adds_nothing(e, w, i, open);
    a_wrapper_adds_nothing(e, w, x, open);
}

/// A `return`, in every language, makes the calls of what it returns, then leaves
/// the function: nothing comes behind it.
pub proof fn a_return_leaves(l: Language, e: Env, w: Walk, i: int, open: Seq<usize>) -> (id: usize)
    requires
        e.g == l.grammar(),
        settled(w),
        live(w, open),
        stmt_lowered(e, w, i, open).0.nodes.len() <= usize::MAX,
        match l {
            Language::Rust | Language::Kotlin => e.t[i].kind == "return_expression"@,
            Language::Python | Language::Java | Language::Go => e.t[i].kind == "return_statement"@,
        },
    ensures
        came_to(
            e,
            w.nodes.len(),
            stmt_lowered(e, w, i, open).0.nodes,
            i,
            Some(i),
            KindView::Return,
            open,
            id,
        ),
        stmt_lowered(e, w, i, open).1.len() == 0,
{
    lemma_sorts(l);
    lemma_start(e, w, i, open);
    let u = error_noted(e, w, i);
    lemma_unit_came(e, u, i, KindView::Return, open);
    unit_after(e, u, i, KindView::Return, open).1
}

/// A `throw` or `raise` makes the calls of what it throws, then leaves the
/// function.
pub proof fn a_throw_leaves(l: Language, e: Env, w: Walk, i: int, open: Seq<usize>) -> (id: usize)
    requires
        e.g == l.grammar(),
        settled(w),
        live(w, open),
        stmt_lowered(e, w, i, open).0.nodes.len() <= usize::MAX,
        match l {
            Language::Python => e.t[i].kind == "raise_statement"@,
            Language::Java => e.t[i].kind == "throw_statement"@,
            Language::Kotlin => e.t[i].kind == "throw_expression"@,
            _ => false,
        },
    ensures
        came_to(
            e,
            w.nodes.len(),
            stmt_lowered(e, w, i, open).0.nodes,
            i,
            Some(i),
            KindView::Throw,
            open,
            id,
        ),
        stmt_lowered(e, w, i, open).1.len() == 0,
{
    lemma_sorts(l);
    lemma_start(e, w, i, open);
    let u = error_noted(e, w, i);
    lemma_unit_came(e, u, i, KindView::Throw, open);
    unit_after(e, u, i, KindView::Throw, open).1
}

/// A `break` leaves the innermost loop: the loop remembers it, and control does
/// not go on behind it.
pub proof fn a_break_leaves_the_loop(l: Language, e: Env, w: Walk, i: int, open: Seq<usize>) -> (id:
    usize)
    requires
        e.g == l.grammar(),
        settled(w),
        live(w, open),
        stmt_lowered(e, w, i, open).0.nodes.len() <= usize::MAX,
        w.loops.len() > 0,
        match l {
            Language::Rust => e.t[i].kind == "break_expression"@,
            Language::Python | Language::Java | Language::Go => e.t[i].kind == "break_statement"@,
            Language::Kotlin => e.t[i].kind == "identifier"@ && text_at(e.t, e.src, i) == Some(
                "break"@,
            ),
        },
    ensures
        ({
            let (w1, exits) = stmt_lowered(e, w, i, open);
            &&& exits.len() == 0
            &&& came_to(e, w.nodes.len(), w1.nodes, i, None, KindView::Pure, open, id)
            &&& w1.loops.len() == w.loops.len()
            &&& w1.loops.last().breaks.contains(id)
        }),
{
    lemma_sorts(l);
    lemma_start(e, w, i, open);
    let u = error_noted(e, w, i);
    let (w1, id) = if l is Kotlin {
        word_lowered(e, u, i, open)
    } else {
        unit_after(e, u, i, KindView::Pure, open)
    };
    if l is Kotlin {
        lemma_words();
        assert(e.g.break_texts[0] == "break"@);
        assert(e.g.identifier_kinds[0] == "identifier"@);
        lemma_word_came(e, u, i, open);
    } else {
        lemma_unit_came(e, u, i, KindView::Pure, open);
    }
    let was = w1.loops.last();
    assert(was.breaks.push(id)[was.breaks.len() as int] == id);
    id
}

proof fn lemma_words()
    ensures
        "break"@ != "continue"@,
{
    reveal_strlit("break");
    reveal_strlit("continue");
    assert("break"@.len() == 5 && "continue"@.len() == 8);
}

/// A bare word comes to a node.
proof fn lemma_word_came(e: Env, w: Walk, i: int, open: Seq<usize>)
    requires
        settled(w),
        live(w, open),
        word_lowered(e, w, i, open).0.nodes.len() <= usize::MAX,
    ensures
        ({
            let (w1, id) = word_lowered(e, w, i, open);
            &&& came_to(e, w.nodes.len(), w1.nodes, i, None, KindView::Pure, open, id)
            &&& w1.loops == w.loops
            &&& stands(w.nodes, w1.nodes)
        }),
{
    let n = bare_node(
        line_at(e.t, i),
        KindView::Pure,
        Seq::empty(),
        Seq::empty(),
        snippet_at(e, i),
    );
    let none = Seq::<usize>::empty();
    lemma_settled_ranged(w, open);
    lemma_bare(w, open, n);
    assert(entered(w, none, n, open) == word_lowered(e, w, i, open));
    crate::ts::shapes::lemma_link_stands(pushed(w, n), open, 0, next_node(w));
    lemma_entered_came(e, w, w, i, None, n, open);
}

/// A `continue` goes on with the innermost loop: it leads to the loop's head, and
/// control does not go on behind it.
pub proof fn a_continue_goes_on_with_the_loop(
    l: Language,
    e: Env,
    w: Walk,
    i: int,
    open: Seq<usize>,
) -> (id: usize)
    requires
        e.g == l.grammar(),
        settled(w),
        live(w, open),
        stmt_lowered(e, w, i, open).0.nodes.len() <= usize::MAX,
        w.loops.len() > 0,
        match l {
            Language::Rust => e.t[i].kind == "continue_expression"@,
            Language::Python | Language::Java | Language::Go => e.t[i].kind
                == "continue_statement"@,
            Language::Kotlin => e.t[i].kind == "identifier"@ && text_at(e.t, e.src, i) == Some(
                "continue"@,
            ),
        },
    ensures
        ({
            let (w1, exits) = stmt_lowered(e, w, i, open);
            &&& exits.len() == 0
            &&& came_to(e, w.nodes.len(), w1.nodes, i, None, KindView::Pure, open, id)
            &&& w1.loops == w.loops
            &&& w1.nodes[id as int].succs.contains(w.loops.last().continue_target)
        }),
{
    lemma_sorts(l);
    lemma_start(e, w, i, open);
    let u = error_noted(e, w, i);
    let n = w.nodes.len();
    let (w1, id) = if l is Kotlin {
        word_lowered(e, u, i, open)
    } else {
        unit_after(e, u, i, KindView::Pure, open)
    };
    let target = u.loops.last().continue_target;
    lemma_settled_ranged(u, open);
    if l is Kotlin {
        lemma_words();
        assert(e.g.continue_texts[0] == "continue"@);
        assert(e.g.break_texts.len() == 1 && e.g.break_texts[0] == "break"@);
        assert(e.g.identifier_kinds[0] == "identifier"@);
        let node = bare_node(
            line_at(e.t, i),
            KindView::Pure,
            Seq::empty(),
            Seq::empty(),
            snippet_at(e, i),
        );
        lemma_bare(u, open, node);
    } else {
        lemma_unit_after(e, u, i, KindView::Pure, open);
    }
    lemma_edge_stands(w1, id, target);
    let w2 = edge(w1, id, target);
    if l is Kotlin {
        lemma_word_came(e, u, i, open);
        assert forall|j: int| 0 <= j < open.len() implies (#[trigger] open[j]) < w1.nodes.len() by {
            assert(open[j] < w.nodes.len());
        }
        lemma_came_stays(e, n, n, w1.nodes, w2.nodes, i, None, KindView::Pure, open, id);
    } else {
        lemma_unit_came(e, u, i, KindView::Pure, open);
        assert forall|j: int| 0 <= j < open.len() implies (#[trigger] open[j]) < w1.nodes.len() by {
            assert(open[j] < w.nodes.len());
        }
        lemma_came_stays(e, n, n, w1.nodes, w2.nodes, i, Some(i), KindView::Pure, open, id);
    }
    assert(stmt_lowered(e, w, i, open).0 == w2);
    id
}

/// A call that stands as a statement is made, in every language: its node and
/// those of the calls in it are there, and control goes on behind them.
pub proof fn a_call_is_made(l: Language, e: Env, w: Walk, i: int, open: Seq<usize>) -> (id: usize)
    requires
        e.g == l.grammar(),
        settled(w),
        live(w, open),
        stmt_lowered(e, w, i, open).0.nodes.len() <= usize::MAX,
        match l {
            Language::Rust | Language::Kotlin | Language::Go => e.t[i].kind == "call_expression"@,
            Language::Python => e.t[i].kind == "call"@,
            Language::Java => e.t[i].kind == "method_invocation"@,
        },
    ensures
        came_to(
            e,
            w.nodes.len(),
            stmt_lowered(e, w, i, open).0.nodes,
            i,
            Some(i),
            KindView::Pure,
            open,
            id,
        ),
        stmt_lowered(e, w, i, open).1 == seq![id],
{
    lemma_sorts(l);
    lemma_start(e, w, i, open);
    let u = error_noted(e, w, i);
    lemma_settled_ranged(u, open);
    let (w1, calls) = calls_extracted(e, u, i);
    let (w2, uses) = uses_scanned(e, w1, i, Seq::empty());
    lemma_resolved_all_quiet(w1, identifiers_in(e, i, None), 0, Seq::empty());
    let n = bare_node(line_at(e.t, i), KindView::Pure, Seq::empty(), uses, "<discard>"@);
    crate::ts::laws::lemma_calls_extracted(e, u, open, i);
    lemma_quiet_more(u, open, w1, open + calls, w2);
    crate::ts::laws::lemma_all_added_same(u, w1, w2, calls);
    lemma_entered(u, open, w2, calls, n);
    lemma_entered_came(e, u, w2, i, Some(i), n, open);
    entered(w2, calls, n, open).1
}

/// An assignment to a member of something, in every language, is a write of
/// state that names the member; it makes the calls of what is assigned.
pub proof fn writing_a_member_is_a_state_write(
    l: Language,
    e: Env,
    w: Walk,
    i: int,
    left: int,
    target: int,
    open: Seq<usize>,
) -> (id: usize)
    requires
        e.g == l.grammar(),
        settled(w),
        live(w, open),
        stmt_lowered(e, w, i, open).0.nodes.len() <= usize::MAX,
        child_by_field(e.t, i, "left"@) == Some(left),
        match l {
            Language::Rust => (e.t[i].kind == "assignment_expression"@ || e.t[i].kind
                == "compound_assignment_expr"@) && target == left && e.t[target].kind
                == "field_expression"@,
            Language::Python => (e.t[i].kind == "assignment"@ || e.t[i].kind
                == "augmented_assignment"@) && target == left && e.t[target].kind
                == "attribute"@,
            Language::Java => e.t[i].kind == "assignment_expression"@ && target == left
                && e.t[target].kind == "field_access"@,
            Language::Kotlin => e.t[i].kind == "assignment"@ && target == left
                && e.t[target].kind == "navigation_expression"@,
            Language::Go => e.t[i].kind == "assignment_statement"@ && (if e.t[left].kind
                == "expression_list"@ {
                kids(e.t, left, Pick::Named) == seq![target]
            } else {
                target == left
            }) && e.t[target].kind == "selector_expression"@,
        },
    ensures
        came_to(
            e,
            w.nodes.len(),
            stmt_lowered(e, w, i, open).0.nodes,
            i,
            child_by_field(e.t, i, "right"@),
            KindView::StateWrite { target: snippet_at(e, target) },
            open,
            id,
        ),
        stmt_lowered(e, w, i, open).1 == seq![id],
{
    lemma_sorts(l);
    lemma_no_field(e, i);
    lemma_start(e, w, i, open);
    reveal_strlit("expression_list");
    let u = error_noted(e, w, i);
    lemma_settled_ranged(u, open);
    assert(e.g.member_access_kinds[0] == e.t[target].kind);
    assert(sole_item(e, left) == target);
    let right = child_by_field(e.t, i, "right"@);
    let (w1, calls) = calls_of(e, u, right);
    let (w2, uses) = uses_of(e, w1, right);
    let (w3, all) = uses_scanned(e, w2, target, uses);
    lemma_uses_of_quiet(e, w1, right);
    lemma_resolved_all_quiet(w2, identifiers_in(e, target, None), 0, uses);
    let n = bare_node(
        line_at(e.t, i),
        KindView::StateWrite { target: snippet_at(e, target) },
        Seq::empty(),
        all,
        snippet_at(e, i),
    );
    lemma_calls_of(e, u, open, right);
    lemma_quiet_trans(w1, w2, w3);
    lemma_quiet_more(u, open, w1, open + calls, w3);
    crate::ts::laws::lemma_all_added_same(u, w1, w3, calls);
    lemma_entered(u, open, w3, calls, n);
    lemma_entered_came(e, u, w3, i, right, n, open);
    assert(stmt_lowered(e, w, i, open).0 == entered(w3, calls, n, open).0);
    entered(w3, calls, n, open).1
}

/// An assignment to a name, in every language, is a node that defines the
/// variable of the name and writes no state; one that combines the old value
/// with another reads the variable as well.
pub proof fn writing_a_name_defines_it(
    l: Language,
    e: Env,
    w: Walk,
    i: int,
    left: int,
    target: int,
    name: Seq<char>,
    open: Seq<usize>,
) -> (r: (usize, VarId))
    requires
        e.g == l.grammar(),
        settled(w),
        live(w, open),
        stmt_lowered(e, w, i, open).0.nodes.len() <= usize::MAX,
        child_by_field(e.t, i, "left"@) == Some(left),
        match l {
            Language::Rust => (e.t[i].kind == "assignment_expression"@ || e.t[i].kind
                == "compound_assignment_expr"@) && target == left,
            Language::Python => (e.t[i].kind == "assignment"@ || e.t[i].kind
                == "augmented_assignment"@) && target == left,
            Language::Java => e.t[i].kind == "assignment_expression"@ && target == left,
            Language::Kotlin => e.t[i].kind == "assignment"@ && target == left,
            Language::Go => e.t[i].kind == "assignment_statement"@ && (if e.t[left].kind
                == "expression_list"@ {
                kids(e.t, left, Pick::Named) == seq![target]
            } else {
                target == left
            }),
        },
        e.t[target].kind == "identifier"@,
        text_at(e.t, e.src, target) == Some(name),
    ensures
        ({
            let (w1, exits) = stmt_lowered(e, w, i, open);
            let right = child_by_field(e.t, i, "right"@);
            let combines = match l {
                Language::Rust => e.t[i].kind == "compound_assignment_expr"@,
                Language::Python => e.t[i].kind == "augmented_assignment"@,
                _ => child_by_field(e.t, i, "operator"@) matches Some(o) && text_at(
                    e.t,
                    e.src,
                    o,
                ) matches Some(s) && s != "="@,
            };
            let node = w1.nodes[r.0 as int];
            &&& came_to(e, w.nodes.len(), w1.nodes, i, right, KindView::Pure, open, r.0)
            &&& exits == seq![r.0]
            &&& node.defs == seq![r.1]
            &&& resolved(w1, name).1 == r.1
            &&& combines ==> node.uses.contains(r.1)
        }),
{
    lemma_sorts(l);
    lemma_no_field(e, i);
    lemma_start(e, w, i, open);
    reveal_strlit("expression_list");
    lemma_target_texts();
    let u = error_noted(e, w, i);
    lemma_settled_ranged(u, open);
    assert(!e.g.member_access_kinds.contains("identifier"@));
    assert(e.g.identifier_kinds[0] == "identifier"@);
    assert(sole_item(e, left) == target);
    let right = child_by_field(e.t, i, "right"@);
    let (w1, calls) = calls_of(e, u, right);
    let (w2, uses) = uses_of(e, w1, right);
    lemma_uses_of_quiet(e, w1, right);
    let (w3, defs) = defs_scanned(e, w2, target, e.g.assign_declares, Seq::empty());
    lemma_defs_scanned_quiet(e, w2, target, e.g.assign_declares, Seq::empty());
    let names = identifiers_in(e, target, None);
    assert(names =~= seq![name]);
    lemma_calls_of(e, u, open, right);
    lemma_quiet_more(u, open, w1, open + calls, w2);
    lemma_one_defined(e, w2, name, e.g.assign_declares);
    let v = defs[0];
    let compound = if e.g.compound_assign_kinds.contains(e.t[i].kind) {
        true
    } else {
        compound_assign(e, i)
    };
    let all = if compound {
        with_vars(uses, defs, 0)
    } else {
        uses
    };
    if compound {
        reveal_with_fuel(with_vars, 2);
        assert(with_vars(uses, defs, 0) == with_var(uses, v));
        lemma_with_var(uses, v);
    }
    let n = bare_node(line_at(e.t, i), KindView::Pure, defs, all, snippet_at(e, i));
    lemma_quiet_trans(w1, w2, w3);
    lemma_quiet_more(u, open, w1, open + calls, w3);
    crate::ts::laws::lemma_all_added_same(u, w1, w3, calls);
    lemma_entered(u, open, w3, calls, n);
    lemma_entered_came(e, u, w3, i, right, n, open);
    let (w4, id) = entered(w3, calls, n, open);
    assert(stmt_lowered(e, w, i, open) == (w4, seq![id]));
    lemma_entered_names(w3, calls, n, open, name);
    assert(same_node(n, w4.nodes[id as int]));
    (id, v)
}

proof fn lemma_target_texts()
    ensures
        "identifier"@ != "field_expression"@,
        "identifier"@ != "attribute"@,
        "identifier"@ != "field_access"@,
        "identifier"@ != "navigation_expression"@,
        "identifier"@ != "selector_expression"@,
{
    reveal_strlit("identifier");
    reveal_strlit("field_expression");
    reveal_strlit("attribute");
    reveal_strlit("field_access");
    reveal_strlit("navigation_expression");
    reveal_strlit("selector_expression");
    assert("identifier"@.len() == 10 && "field_expression"@.len() == 16);
    assert("attribute"@.len() == 9 && "field_access"@.len() == 12);
    assert("navigation_expression"@.len() == 21 && "selector_expression"@.len() == 19);
}

proof fn lemma_with_var(list: Seq<VarId>, v: VarId)
    ensures
        with_var(list, v).contains(v),
{
    if !list.contains(v) {
        assert(list.push(v)[list.len() as int] == v);
    }
}

/// A name that was just given a variable has it.
proof fn lemma_one_defined(e: Env, w: Walk, name: Seq<char>, declare: bool)
    requires
        w.scopes.len() > 0,
    ensures
        ({
            let (w1, defs) = if declare {
                declared_all(e, w, seq![name], 0, Seq::empty())
            } else {
                resolved_all(w, seq![name], 0, Seq::empty())
            };
            &&& defs.len() == 1
            &&& resolved(w1, name) == (w1, defs[0])
        }),
{
    reveal_with_fuel(declared_all, 2);
    reveal_with_fuel(resolved_all, 2);
    let none = Seq::<VarId>::empty();
    if declare {
        let (w1, v) = declared(e, w, name);
        assert(w1.scopes.last().contains_key(name) && w1.scopes.last()[name] == v);
        assert(in_scopes(w1.scopes, w1.scopes.len() as int, name) == Some(v));
        assert(with_var(none, v) =~= seq![v]);
    } else {
        let (w1, v) = resolved(w, name);
        assert(with_var(none, v) =~= seq![v]);
    }
}

/// Adding nodes and edges leaves the names.
proof fn lemma_entered_names(
    w: Walk,
    calls: Seq<usize>,
    n: NodeView,
    open: Seq<usize>,
    name: Seq<char>,
)
    ensures
        resolved(entered(w, calls, n, open).0, name).1 == resolved(w, name).1,
{
    let id = next_node(w);
    let (v, entry) = crate::ts::model::behind(pushed(w, n), calls, id);
    assert(v.scopes == w.scopes && v.globals == w.globals && v.next_var == w.next_var);
    lemma_link_names(v, open, 0, entry);
}

proof fn lemma_link_names(w: Walk, from: Seq<usize>, k: int, to: usize)
    ensures
        crate::ts::model::link_from(w, from, k, to).scopes == w.scopes,
        crate::ts::model::link_from(w, from, k, to).globals == w.globals,
        crate::ts::model::link_from(w, from, k, to).next_var == w.next_var,
    decreases from.len() - k,
{
    if 0 <= k < from.len() {
        lemma_link_names(edge(w, from[k], to), from, k + 1, to);
    }
}

/// A binding, in every language that has one, is a node that makes the calls of
/// the value. Rust's `let` with an `else` branches: the `else` block is entered
/// from it.
pub proof fn a_binding_makes_the_calls_of_its_value(
    l: Language,
    e: Env,
    w: Walk,
    i: int,
    value: Option<int>,
    open: Seq<usize>,
) -> (r: (usize, Seq<usize>))
    requires
        e.g == l.grammar(),
        settled(w),
        live(w, open),
        stmt_lowered(e, w, i, open).0.nodes.len() <= usize::MAX,
        match l {
            Language::Rust => e.t[i].kind == "let_declaration"@ && child_by_field(
                e.t,
                i,
                "value"@,
            ) == value,
            Language::Kotlin => e.t[i].kind == "property_declaration"@ && (child_of_kind(
                e.t,
                i,
                "variable_declaration"@,
            ) matches Some(p) && last(kids(e.t, i, Pick::Named)) matches Some(x) && value == if x
                == p {
                None::<int>
            } else {
                Some(x)
            }),
            Language::Go => ((e.t[i].kind == "short_var_declaration"@ || e.t[i].kind
                == "receive_statement"@) && child_by_field(e.t, i, "right"@) == value) || ((
            e.t[i].kind == "var_spec"@ || e.t[i].kind == "const_spec"@) && child_by_field(
                e.t,
                i,
                "value"@,
            ) == value),
            _ => false,
        },
    ensures
        ({
            let (w1, exits) = stmt_lowered(e, w, i, open);
            let n = w.nodes.len();
            match child_by_field(e.t, i, "alternative"@) {
                Some(alt) => if l is Rust {
                    &&& came_to(e, n, w1.nodes, i, value, KindView::Branch, open, r.0)
                    &&& runs(e, n, w1.nodes, alt, seq![r.0], r.1)
                    &&& exits == seq![r.0] + r.1
                } else {
                    &&& came_to(e, n, w1.nodes, i, value, KindView::Pure, open, r.0)
                    &&& exits == seq![r.0]
                },
                None => {
                    &&& came_to(e, n, w1.nodes, i, value, KindView::Pure, open, r.0)
                    &&& exits == seq![r.0]
                },
            }
        }),
{
    lemma_sorts(l);
    lemma_no_field(e, i);
    lemma_start(e, w, i, open);
    let u = error_noted(e, w, i);
    let n = w.nodes.len();
    lemma_settled_ranged(u, open);
    lemma_binding_texts();
    let (pattern, v) = binding_parts(e, i);
    if l is Go && (e.t[i].kind == "var_spec"@ || e.t[i].kind == "const_spec"@) {
        assert(e.g.binding_kinds2[0] == "var_spec"@);
        assert(e.g.binding_kinds2[1] == "const_spec"@);
    }
    assert(v == value);
    let alt = child_by_field(e.t, i, e.g.binding_alt_field);
    let kind = if alt is Some {
        KindView::Branch
    } else {
        KindView::Pure
    };
    let (w1, id) = one_binding_lowered(e, u, i, pattern, value, kind, open);
    lemma_one_binding(e, u, i, pattern, value, kind, open);
    let one = seq![id];
    match alt {
        Some(a) => {
            lemma_stmt(e, w1, a, one);
            let (w2, to) = stmt_lowered(e, w1, a, one);
            lemma_goes(u, open, w1, one);
            lemma_goes(w1, one, w2, to);
            lemma_binding_came(e, u, i, pattern, value, kind, open);
            assert forall|j: int| 0 <= j < open.len() implies (#[trigger] open[j])
                < w1.nodes.len() by {
                assert(open[j] < w.nodes.len());
            }
            lemma_came_stays(e, n, n, w1.nodes, w2.nodes, i, value, kind, open, id);
            assert(stands(w2.nodes, w2.nodes));
            lemma_ran(e, n, w1, w2.nodes, a, one, to);
            (id, to)
        },
        None => {
            lemma_binding_came(e, u, i, pattern, value, kind, open);
            (id, Seq::empty())
        },
    }
}

pub proof fn lemma_binding_texts()
    ensures
        "value"@.len() > 0,
        "right"@.len() > 0,
        "variable_declaration"@.len() > 0,
        "short_var_declaration"@ != "var_spec"@,
        "short_var_declaration"@ != "const_spec"@,
        "receive_statement"@ != "var_spec"@,
        "receive_statement"@ != "const_spec"@,
{
    reveal_strlit("value");
    reveal_strlit("right");
    reveal_strlit("variable_declaration");
    reveal_strlit("short_var_declaration");
    reveal_strlit("receive_statement");
    reveal_strlit("var_spec");
    reveal_strlit("const_spec");
    assert("short_var_declaration"@.len() == 21 && "receive_statement"@.len() == 17);
    assert("var_spec"@.len() == 8 && "const_spec"@.len() == 10);
}

/// One binding comes to a node.
pub proof fn lemma_binding_came(
    e: Env,
    w: Walk,
    span: int,
    pattern: Option<int>,
    value: Option<int>,
    kind: KindView,
    open: Seq<usize>,
)
    requires
        settled(w),
        live(w, open),
        !(kind is Return || kind is Throw),
        one_binding_lowered(e, w, span, pattern, value, kind, open).0.nodes.len() <= usize::MAX,
    ensures
        ({
            let (w1, id) = one_binding_lowered(e, w, span, pattern, value, kind, open);
            came_to(e, w.nodes.len(), w1.nodes, span, value, kind, open, id)
        }),
{
    lemma_settled_ranged(w, open);
    let (w1, calls) = calls_of(e, w, value);
    lemma_calls_of(e, w, open, value);
    let (w2, uses) = uses_of(e, w1, value);
    lemma_uses_of_quiet(e, w1, value);
    let (w3, defs) = match pattern {
        Some(p) => defs_scanned(e, w2, p, true, Seq::empty()),
        None => (w2, Seq::empty()),
    };
    if let Some(p) = pattern {
        lemma_defs_scanned_quiet(e, w2, p, true, Seq::empty());
    }
    assert(w3.nodes == w1.nodes);
    assert(crate::ts::laws::quiet(w2, w3));
    lemma_quiet_trans(w1, w2, w3);
    lemma_quiet_more(w, open, w1, open + calls, w3);
    crate::ts::laws::lemma_all_added_same(w, w1, w3, calls);
    let n = bare_node(line_at(e.t, span), kind, defs, uses, snippet_at(e, span));
    lemma_entered(w, open, w3, calls, n);
    lemma_entered_came(e, w, w3, span, value, n, open);
}

} // verus!
