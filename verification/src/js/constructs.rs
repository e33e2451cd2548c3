//! What each construct of JavaScript comes to, in terms of the control flow that
//! it makes.
//!
//! Each law names a construct by the kind of its node in the parser's tree and
//! says which nodes are there afterwards, how control comes to them, how it
//! goes on between its parts and from where it leaves. A part that is a
//! statement is spoken of by what lowering it comes to.

use vstd::prelude::*;

use crate::flow::{
    all_lead, is_way, leads, lemma_all_lead_on, lemma_leads_on, lemma_stands_on, stands,
};
use crate::ir::{CallOpacity, KindView, NodeView, VarId};
use crate::js::facts::Facts;
use crate::js::laws::{
    among, entered, good, leads_on, lemma_call_uses_quiet, lemma_captures_added_quiet, lemma_catch,
    lemma_chained, lemma_declarators, lemma_each_head, lemma_entered, lemma_first_behind,
    lemma_loop_meant, lemma_opened, lemma_opened_ranged, lemma_push_more, lemma_quiet_more,
    lemma_refl, lemma_seq, lemma_seq_lowered, lemma_stmt, lemma_then, lemma_unit_after,
    lemma_unit_sizes, lemma_unit_uses, lemma_vars_added_quiet, lemma_vars_listed_quiet, live,
    quiet, ranged, settled,
};
use crate::js::model::{
    all_bound_keys, all_written_keys, behind, bound_keys, call_spans, call_uses, calls_pushed,
    captures, captures_added, cases_lowered, catch_keys, catch_lowered, chain_from, continue_taken,
    continues_taken, declarators_lowered, declared_keys, each_head_lowered, edge, entered_at,
    finalizer, in_nested_fn, line_of, link, link_from, loop_closed, loop_meant, loop_opened, mark,
    nested_fns, next_node, outer_temps_added, pushed, read_keys, seq_lowered, snippet,
    stmt_lowered, switch_opened, temp, unit, unit_after, unit_calls, unit_calls_before, unit_defs,
    unit_uses, vars_added, vars_listed, writes_global, written_keys, Env, JsLoopView, JsWalk,
};
use crate::js::source::{within, Span};
use crate::js::state::{in_range, loop_ok};
use crate::text::{bytes_of, newlines};
use crate::ts::laws::{ends, same_node};
use crate::ts::model::bare_node;

verus! {

/// The kinds of statements are told apart by length and letters.
pub proof fn lemma_kinds()
    ensures
        "BlockStatement"@.len() == 14 && "BlockStatement"@[0] == 'B' && "BlockStatement"@[1] == 'l' && "BlockStatement"@[3] == 'c',
        "EmptyStatement"@.len() == 14 && "EmptyStatement"@[0] == 'E' && "EmptyStatement"@[1] == 'm' && "EmptyStatement"@[3] == 't',
        "DebuggerStatement"@.len() == 17 && "DebuggerStatement"@[0] == 'D' && "DebuggerStatement"@[1] == 'e' && "DebuggerStatement"@[3] == 'u',
        "VariableDeclaration"@.len() == 19 && "VariableDeclaration"@[0] == 'V' && "VariableDeclaration"@[1] == 'a' && "VariableDeclaration"@[3] == 'i',
        "ExpressionStatement"@.len() == 19 && "ExpressionStatement"@[0] == 'E' && "ExpressionStatement"@[1] == 'x' && "ExpressionStatement"@[3] == 'r',
        "ReturnStatement"@.len() == 15 && "ReturnStatement"@[0] == 'R' && "ReturnStatement"@[1] == 'e' && "ReturnStatement"@[3] == 'u',
        "ThrowStatement"@.len() == 14 && "ThrowStatement"@[0] == 'T' && "ThrowStatement"@[1] == 'h' && "ThrowStatement"@[3] == 'o',
        "IfStatement"@.len() == 11 && "IfStatement"@[0] == 'I' && "IfStatement"@[1] == 'f' && "IfStatement"@[3] == 't',
        "WhileStatement"@.len() == 14 && "WhileStatement"@[0] == 'W' && "WhileStatement"@[1] == 'h' && "WhileStatement"@[3] == 'l',
        "DoWhileStatement"@.len() == 16 && "DoWhileStatement"@[0] == 'D' && "DoWhileStatement"@[1] == 'o' && "DoWhileStatement"@[3] == 'h',
        "ForStatement"@.len() == 12 && "ForStatement"@[0] == 'F' && "ForStatement"@[1] == 'o' && "ForStatement"@[3] == 'S',
        "ForInStatement"@.len() == 14 && "ForInStatement"@[0] == 'F' && "ForInStatement"@[1] == 'o' && "ForInStatement"@[3] == 'I',
        "ForOfStatement"@.len() == 14 && "ForOfStatement"@[0] == 'F' && "ForOfStatement"@[1] == 'o' && "ForOfStatement"@[3] == 'O',
        "BreakStatement"@.len() == 14 && "BreakStatement"@[0] == 'B' && "BreakStatement"@[1] == 'r' && "BreakStatement"@[3] == 'a',
        "ContinueStatement"@.len() == 17 && "ContinueStatement"@[0] == 'C' && "ContinueStatement"@[1] == 'o' && "ContinueStatement"@[3] == 't',
        "SwitchStatement"@.len() == 15 && "SwitchStatement"@[0] == 'S' && "SwitchStatement"@[1] == 'w' && "SwitchStatement"@[3] == 't',
        "TryStatement"@.len() == 12 && "TryStatement"@[0] == 'T' && "TryStatement"@[1] == 'r' && "TryStatement"@[3] == 'S',
        "LabeledStatement"@.len() == 16 && "LabeledStatement"@[0] == 'L' && "LabeledStatement"@[1] == 'a' && "LabeledStatement"@[3] == 'e',
        "Function"@.len() == 8 && "Function"@[0] == 'F' && "Function"@[1] == 'u' && "Function"@[3] == 'c',
        "Class"@.len() == 5 && "Class"@[0] == 'C' && "Class"@[1] == 'l' && "Class"@[3] == 's',
        "AssignmentExpression"@.len() == 20 && "AssignmentExpression"@[0] == 'A' && "AssignmentExpression"@[1] == 's' && "AssignmentExpression"@[3] == 'i',
        "CallExpression"@.len() == 14 && "CallExpression"@[0] == 'C' && "CallExpression"@[1] == 'a' && "CallExpression"@[3] == 'l',
        "NewExpression"@.len() == 13 && "NewExpression"@[0] == 'N' && "NewExpression"@[1] == 'e' && "NewExpression"@[3] == 'E',
{
    reveal_strlit("BlockStatement");
    reveal_strlit("EmptyStatement");
    reveal_strlit("DebuggerStatement");
    reveal_strlit("VariableDeclaration");
    reveal_strlit("ExpressionStatement");
    reveal_strlit("ReturnStatement");
    reveal_strlit("ThrowStatement");
    reveal_strlit("IfStatement");
    reveal_strlit("WhileStatement");
    reveal_strlit("DoWhileStatement");
    reveal_strlit("ForStatement");
    reveal_strlit("ForInStatement");
    reveal_strlit("ForOfStatement");
    reveal_strlit("BreakStatement");
    reveal_strlit("ContinueStatement");
    reveal_strlit("SwitchStatement");
    reveal_strlit("TryStatement");
    reveal_strlit("LabeledStatement");
    reveal_strlit("Function");
    reveal_strlit("Class");
    reveal_strlit("AssignmentExpression");
    reveal_strlit("CallExpression");
    reveal_strlit("NewExpression");
}

/// Whether a node stands on the line on which a byte of the source does.
pub open spec fn on_line_of(src: Seq<char>, off: u32, line: Option<u32>) -> bool {
    off <= bytes_of(src).len() && newlines(bytes_of(src).take(off as int)) < u32::MAX
        ==> line == Some((1 + newlines(bytes_of(src).take(off as int))) as u32)
}

/// Whether a call was made a node of its own, which names what it calls.
pub open spec fn call_is_there(e: Env, before: nat, nodes: Seq<NodeView>, c: int) -> bool {
    exists|id: int|
        before <= id < nodes.len() && (#[trigger] nodes[id]).kind == (KindView::Call {
            callee: e.f.calls[c].callee,
            opacity: CallOpacity::Opaque,
        }) && on_line_of(e.s.src, e.f.calls[c].span.start, nodes[id].line)
}

/// Whether every call of a piece of source, but for those in functions nested in
/// it, was made a node.
pub open spec fn calls_are_there(e: Env, before: nat, nodes: Seq<NodeView>, span: Span) -> bool {
    forall|c: int|
        0 <= c < e.f.calls.len() && within((#[trigger] e.f.calls[c]).span, span) && !in_nested_fn(
            e.f,
            e.f.calls[c].span,
            span,
        ) ==> call_is_there(e, before, nodes, c)
}

/// Whether a piece of source came to a node of some kind: the node is new and
/// stands on the piece's line, its calls are there, control comes from each of
/// the open nodes to where the piece is entered, and from there to the node.
pub open spec fn came_to(
    e: Env,
    before: nat,
    nodes: Seq<NodeView>,
    span: Span,
    kind: KindView,
    open: Seq<usize>,
    entry: usize,
    exit: usize,
) -> bool {
    &&& before <= entry < nodes.len()
    &&& before <= exit < nodes.len()
    &&& nodes[exit as int].kind == kind
    &&& on_line_of(e.s.src, span.start, nodes[exit as int].line)
    &&& calls_are_there(e, before, nodes, span)
    &&& all_lead(nodes, open, entry)
    &&& leads(nodes, entry, exit)
}

/// Whether what a statement comes to from some state, entered from `from`,
/// stands among the nodes, and control leaves it from `to`.
pub open spec fn ran_from(
    e: Env,
    u: JsWalk,
    nodes: Seq<NodeView>,
    part: int,
    from: Seq<usize>,
    to: Seq<usize>,
) -> bool {
    stands(stmt_lowered(e, u, part, from).0.nodes, nodes) && stmt_lowered(e, u, part, from).1 == to
}

/// Whether a statement stands among the nodes, entered from `from` and left from
/// `to`.
pub open spec fn runs(
    e: Env,
    before: nat,
    nodes: Seq<NodeView>,
    part: int,
    from: Seq<usize>,
    to: Seq<usize>,
) -> bool {
    exists|u: JsWalk|
        u.nodes.len() >= before && #[trigger] ran_from(e, u, nodes, part, from, to)
}

proof fn lemma_on_line(src: Seq<char>, off: u32)
    ensures
        on_line_of(src, off, Some(line_of(src, off))),
{
}

/// What is shown of every construct, for states to which it applies.
pub proof fn lemma_goes(w: JsWalk, a: Seq<usize>, w1: JsWalk, b: Seq<usize>)
    requires
        good(w, a, w1, b),
        settled(w),
        live(w, a),
        w1.nodes.len() <= usize::MAX,
    ensures
        stands(w.nodes, w1.nodes),
        settled(w1),
        live(w1, b),
{
    assert forall|k: int, v: usize|
        0 <= k < w.nodes.len() && #[trigger] w.nodes[k].succs.contains(v) implies w1.nodes[k].succs.contains(
        v,
    ) by {}
}

pub proof fn lemma_settled_ranged(w: JsWalk, a: Seq<usize>)
    requires
        settled(w),
        live(w, a),
    ensures
        ranged(w),
        in_range(w, a),
{
    assert forall|k: int| 0 <= k < a.len() implies #[trigger] a[k] < w.nodes.len() by {
        assert(a[k] < w.nodes.len());
    }
}

/// An edge more.
proof fn lemma_edge_stands(w: JsWalk, from: usize, to: usize)
    requires
        from < w.nodes.len(),
    ensures
        stands(w.nodes, edge(w, from, to).nodes),
        edge(w, from, to).nodes.len() == w.nodes.len(),
        edge(w, from, to).nodes[from as int].succs.contains(to),
        edge(w, from, to).loops == w.loops,
{
    let n = w.nodes[from as int];
    let w1 = edge(w, from, to);
    if !n.succs.contains(to) {
        let more = n.succs.push(to);
        assert(more[n.succs.len() as int] == to);
        assert(w1.nodes[from as int].succs == more);
        assert forall|k: int, v: usize|
            0 <= k < w.nodes.len() && #[trigger] w.nodes[k].succs.contains(v) implies w1.nodes[k].succs.contains(
            v,
        ) by {
            if k == from {
                let x = choose|x: int| 0 <= x < n.succs.len() && n.succs[x] == v;
                assert(more[x] == v);
            }
        }
    }
}

/// Edges from several nodes.
pub proof fn lemma_link_stands(w: JsWalk, from: Seq<usize>, k: int, to: usize)
    requires
        0 <= k,
        in_range(w, from),
    ensures
        stands(w.nodes, link_from(w, from, k, to).nodes),
        link_from(w, from, k, to).nodes.len() == w.nodes.len(),
        link_from(w, from, k, to).loops == w.loops,
        forall|j: int|
            k <= j < from.len() ==> link_from(w, from, k, to).nodes[(
            #[trigger] from[j]) as int].succs.contains(to),
    decreases from.len() - k,
{
    if k < from.len() {
        let w1 = edge(w, from[k], to);
        lemma_edge_stands(w, from[k], to);
        assert(in_range(w1, from)) by {
            assert forall|j: int| 0 <= j < from.len() implies #[trigger] from[j] < w1.nodes.len() by {
                assert(from[j] < w.nodes.len());
            }
        }
        lemma_link_stands(w1, from, k + 1, to);
        let w2 = link_from(w, from, k, to);
        lemma_stands_on(w.nodes, w1.nodes, w2.nodes);
        assert forall|j: int| k <= j < from.len() implies w2.nodes[(
        #[trigger] from[j]) as int].succs.contains(to) by {
            assert(from[j] < w.nodes.len());
        }
    }
}

/// A node behind its calls, entered from the open nodes.
proof fn lemma_behind_stands(w: JsWalk, calls: Seq<usize>, n: NodeView, open: Seq<usize>)
    requires
        w.nodes.len() < usize::MAX,
        in_range(w, calls),
        in_range(w, open),
        forall|j: int|
            0 <= j < calls.len() - 1 ==> w.nodes[(#[trigger] calls[j]) as int].succs.contains(
                calls[j + 1],
            ),
    ensures
        ({
            let id = next_node(w);
            let (w1, entry) = behind(pushed(w, n), calls, id);
            let w2 = link(w1, open, entry);
            &&& stands(w.nodes, w2.nodes)
            &&& w2.nodes.len() == w.nodes.len() + 1
            &&& id == w.nodes.len()
            &&& entry == if calls.len() > 0 {
                calls[0]
            } else {
                id
            }
            &&& same_node(n, w2.nodes[id as int])
            &&& all_lead(w2.nodes, open, entry)
            &&& leads(w2.nodes, entry, id)
        }),
{
    let id = next_node(w);
    let u = pushed(w, n);
    let (w1, entry) = behind(u, calls, id);
    let w2 = link(w1, open, entry);
    assert(u.nodes[id as int] == n);
    assert(stands(w.nodes, u.nodes));
    assert(stands(u.nodes, u.nodes));
    if calls.len() > 0 {
        assert(calls.last() < w.nodes.len());
        lemma_edge_stands(u, calls.last(), id);
    }
    assert(stands(u.nodes, w1.nodes));
    assert(in_range(w1, open)) by {
        assert forall|j: int| 0 <= j < open.len() implies #[trigger] open[j] < w1.nodes.len() by {
            assert(open[j] < w.nodes.len());
        }
    }
    lemma_link_stands(w1, open, 0, entry);
    lemma_stands_on(w.nodes, u.nodes, w1.nodes);
    lemma_stands_on(w.nodes, w1.nodes, w2.nodes);
    lemma_stands_on(u.nodes, w1.nodes, w2.nodes);
    assert(same_node(u.nodes[id as int], w2.nodes[id as int]));
    let p = calls.push(id);
    assert(is_way(w1.nodes, p)) by {
        assert forall|k: int| 0 <= k < p.len() implies (#[trigger] p[k]) < w1.nodes.len() by {
            if k < calls.len() {
                assert(calls[k] < w.nodes.len());
            }
        }
        assert forall|k: int| 0 <= k < p.len() - 1 implies w1.nodes[(
        #[trigger] p[k]) as int].succs.contains(p[k + 1]) by {
            assert(p[k] == calls[k]);
            assert(calls[k] < w.nodes.len());
            if k < calls.len() - 1 {
                assert(w.nodes[calls[k] as int].succs.contains(calls[k + 1]));
                assert(u.nodes[calls[k] as int].succs.contains(calls[k + 1]));
            }
        }
    }
    assert(p[0] == entry && p.last() == id);
    assert(leads(w1.nodes, entry, id));
    lemma_leads_on(w1.nodes, w2.nodes, entry, id);
}

/// The calls of a unit, each a node of its own.
proof fn lemma_calls_made(
    e: Env,
    w: JsWalk,
    span: Span,
    j: int,
    ids: Seq<usize>,
    temps: Seq<VarId>,
)
    requires
        0 <= j <= unit_calls(e.f, span).len(),
        ids.len() == j,
        w.nodes.len() + (unit_calls(e.f, span).len() - j) <= usize::MAX,
    ensures
        ({
            let (w1, ids1, _t) = calls_pushed(e, w, span, j, ids, temps);
            let cs = unit_calls(e.f, span);
            &&& w1.nodes.len() == w.nodes.len() + (cs.len() - j)
            &&& forall|k: int| 0 <= k < w.nodes.len() ==> w1.nodes[k] == #[trigger] w.nodes[k]
            &&& w1.loops == w.loops
            &&& ids1.len() == cs.len()
            &&& forall|b: int| 0 <= b < j ==> ids1[b] == #[trigger] ids[b]
            &&& forall|b: int|
                j <= b < cs.len() ==> #[trigger] ids1[b] == w.nodes.len() + (b - j)
                    && w1.nodes[ids1[b] as int].kind == (KindView::Call {
                    callee: e.f.calls[cs[b]].callee,
                    opacity: CallOpacity::Opaque,
                }) && w1.nodes[ids1[b] as int].line == Some(
                    line_of(e.s.src, e.f.calls[cs[b]].span.start),
                )
        }),
    decreases unit_calls(e.f, span).len() - j,
{
    let cs = unit_calls(e.f, span);
    if j < cs.len() {
        let call = e.f.calls[cs[j]];
        lemma_call_uses_quiet(e, w, span, j, temps);
        let (w1, uses) = call_uses(e, w, span, j, temps);
        let (w2, t) = temp(w1);
        assert(quiet(w1, w2));
        let n = bare_node(
            line_of(e.s.src, call.span.start),
            KindView::Call { callee: call.callee, opacity: CallOpacity::Opaque },
            seq![t],
            uses,
            call.callee,
        );
        let w3 = pushed(w2, n);
        let id = next_node(w2);
        let more = ids.push(id);
        lemma_calls_made(e, w3, span, j + 1, more, temps.push(t));
        let (w4, ids4, _t) = calls_pushed(e, w, span, j, ids, temps);
        assert(w3.nodes[id as int] == n);
        assert(ids4[j] == more[j]);
        assert(w4.nodes[id as int] == w3.nodes[id as int]);
        assert forall|k: int| 0 <= k < w.nodes.len() implies w4.nodes[k] == #[trigger] w.nodes[k] by {
            assert(w3.nodes[k] == w.nodes[k]);
        }
        assert forall|b: int| 0 <= b < j implies ids4[b] == #[trigger] ids[b] by {
            assert(more[b] == ids[b]);
        }
    }
}

proof fn lemma_unit_calls_hold(f: Facts, span: Span, k: int, c: int)
    requires
        0 <= c < k <= f.calls.len(),
        within(f.calls[c].span, span),
        !in_nested_fn(f, f.calls[c].span, span),
    ensures
        unit_calls_before(f, span, k).contains(c),
    decreases k,
{
    let rest = unit_calls_before(f, span, k - 1);
    let all = unit_calls_before(f, span, k);
    if c < k - 1 {
        lemma_unit_calls_hold(f, span, k - 1, c);
        let x = choose|x: int| 0 <= x < rest.len() && rest[x] == c;
        assert(all[x] == c);
    } else {
        assert(all[rest.len() as int] == c);
    }
}

/// The calls of a unit as a chain of nodes.
proof fn lemma_uses_stand(e: Env, w: JsWalk, span: Span)
    requires
        w.nodes.len() + unit_calls(e.f, span).len() <= usize::MAX,
    ensures
        ({
            let (w1, _u, ids) = unit_uses(e, w, span);
            &&& stands(w.nodes, w1.nodes)
            &&& w1.loops == w.loops
            &&& in_range(w1, ids)
            &&& forall|j: int| 0 <= j < ids.len() ==> #[trigger] ids[j] >= w.nodes.len()
            &&& forall|j: int|
                0 <= j < ids.len() - 1 ==> w1.nodes[(#[trigger] ids[j]) as int].succs.contains(
                    ids[j + 1],
                )
            &&& calls_are_there(e, w.nodes.len(), w1.nodes, span)
        }),
{
    let none = Seq::<usize>::empty();
    let cs = unit_calls(e.f, span);
    let spans = call_spans(e.f, span);
    let (w1, ids, temps) = calls_pushed(e, w, span, 0, none, Seq::empty());
    let w2 = chain_from(w1, ids, 0);
    let keys = read_keys(e.f, span, span, spans, e.f.refs.len() as int);
    let (w3, u1) = vars_added(w2, keys, 0, Seq::empty());
    lemma_vars_added_quiet(w2, keys, 0, Seq::empty());
    let u2 = outer_temps_added(spans, temps, 0, u1);
    let (w4, u3) = captures_added(e, w3, nested_fns(e.f, span), 0, u2);
    lemma_captures_added_quiet(e, w3, nested_fns(e.f, span), 0, u2);
    assert(w4.nodes == w2.nodes);
    lemma_chain_len(w1, ids, 0);
    lemma_calls_made(e, w, span, 0, none, Seq::empty());
    assert(in_range(w1, ids));
    lemma_chained(w1, ids, 0);
    assert(stands(w.nodes, w2.nodes)) by {
        assert forall|k: int| 0 <= k < w.nodes.len() implies same_node(
            w.nodes[k],
            #[trigger] w2.nodes[k],
        ) by {
            assert(w1.nodes[k] == w.nodes[k]);
            assert(leads_on(w1.nodes[k], w2.nodes[k]));
        }
        assert forall|k: int, v: usize|
            0 <= k < w.nodes.len() && #[trigger] w.nodes[k].succs.contains(
                v,
            ) implies w2.nodes[k].succs.contains(v) by {
            assert(w1.nodes[k] == w.nodes[k]);
            assert(leads_on(w1.nodes[k], w2.nodes[k]));
        }
    }
    assert forall|c: int|
        0 <= c < e.f.calls.len() && within((#[trigger] e.f.calls[c]).span, span) && !in_nested_fn(
            e.f,
            e.f.calls[c].span,
            span,
        ) implies call_is_there(e, w.nodes.len(), w2.nodes, c) by {
        lemma_unit_calls_hold(e.f, span, e.f.calls.len() as int, c);
        let b = choose|b: int| 0 <= b < cs.len() && cs[b] == c;
        let id = ids[b] as int;
        assert(leads_on(w1.nodes[id], w2.nodes[id]));
        lemma_on_line(e.s.src, e.f.calls[c].span.start);
    }
}

proof fn lemma_chain_len(w: JsWalk, ids: Seq<usize>, k: int)
    ensures
        chain_from(w, ids, k).loops == w.loops,
    decreases ids.len() - k,
{
    if 0 <= k && k + 1 < ids.len() {
        lemma_chain_len(edge(w, ids[k], ids[k + 1]), ids, k + 1);
    }
}

pub proof fn lemma_calls_stay(e: Env, before: nat, a: Seq<NodeView>, b: Seq<NodeView>, span: Span)
    requires
        calls_are_there(e, before, a, span),
        stands(a, b),
    ensures
        calls_are_there(e, before, b, span),
{
    assert forall|c: int|
        0 <= c < e.f.calls.len() && within((#[trigger] e.f.calls[c]).span, span) && !in_nested_fn(
            e.f,
            e.f.calls[c].span,
            span,
        ) implies call_is_there(e, before, b, c) by {
        assert(call_is_there(e, before, a, c));
        let id = choose|id: int|
            before <= id < a.len() && (#[trigger] a[id]).kind == (KindView::Call {
                callee: e.f.calls[c].callee,
                opacity: CallOpacity::Opaque,
            }) && on_line_of(e.s.src, e.f.calls[c].span.start, a[id].line);
        assert(same_node(a[id], b[id]));
    }
}

/// What a piece of source came to stays there.
proof fn lemma_came_stays(
    e: Env,
    before: nat,
    a: Seq<NodeView>,
    b: Seq<NodeView>,
    span: Span,
    kind: KindView,
    open: Seq<usize>,
    entry: usize,
    exit: usize,
)
    requires
        came_to(e, before, a, span, kind, open, entry, exit),
        stands(a, b),
        forall|j: int| 0 <= j < open.len() ==> (#[trigger] open[j]) < a.len(),
    ensures
        came_to(e, before, b, span, kind, open, entry, exit),
{
    lemma_calls_stay(e, before, a, b, span);
    lemma_leads_on(a, b, entry, exit);
    lemma_all_lead_on(a, b, open, entry);
    assert(same_node(a[exit as int], b[exit as int]));
}

/// A unit comes to a node of its kind.
pub proof fn lemma_unit_came(e: Env, w: JsWalk, span: Span, kind: KindView, open: Seq<usize>)
    requires
        in_range(w, open),
        unit_after(e, w, span, kind, open).0.nodes.len() <= usize::MAX,
        ranged(w),
    ensures
        ({
            let (w1, entry, exit) = unit_after(e, w, span, kind, open);
            &&& came_to(e, w.nodes.len(), w1.nodes, span, kind, open, entry, exit)
            &&& w1.nodes[exit as int].label == snippet(e.s.src, span)
            &&& stands(w.nodes, w1.nodes)
            &&& w1.loops == w.loops
        }),
{
    let (u, uses, calls) = unit_uses(e, w, span);
    let (u2, defs) = unit_defs(e, u, span);
    let written = written_keys(e.f, span, e.f.refs.len() as int);
    let (v1, d1) = vars_added(u, written, 0, Seq::empty());
    lemma_vars_added_quiet(u, written, 0, Seq::empty());
    lemma_vars_added_quiet(v1, bound_keys(e.f, span, e.f.bindings.len() as int), 0, d1);
    assert(u2.nodes == u.nodes && u2.loops == u.loops);
    let n = bare_node(line_of(e.s.src, span.start), kind, defs, uses, snippet(e.s.src, span));
    let id = next_node(u2);
    let (w1, entry) = behind(pushed(u2, n), calls, id);
    let w2 = link(w1, open, entry);
    lemma_unit_after(e, w, span, kind, open);
    lemma_unit_sizes(e, w, span, kind, open);
    lemma_uses_stand(e, w, span);
    assert(in_range(u2, open)) by {
        assert forall|j: int| 0 <= j < open.len() implies #[trigger] open[j] < u2.nodes.len() by {
            assert(open[j] < w.nodes.len());
        }
    }
    lemma_behind_stands(u2, calls, n, open);
    lemma_stands_on(w.nodes, u.nodes, w2.nodes);
    lemma_calls_stay(e, w.nodes.len(), u.nodes, w2.nodes, span);
    lemma_on_line(e.s.src, span.start);
    lemma_link_loops(w1, open, 0, entry);
}

proof fn lemma_link_loops(w: JsWalk, from: Seq<usize>, k: int, to: usize)
    ensures
        link_from(w, from, k, to).loops == w.loops,
    decreases from.len() - k,
{
    if 0 <= k < from.len() {
        lemma_link_loops(edge(w, from[k], to), from, k + 1, to);
    }
}

/// An assignment whose target is a member access, be it computed (`a[k]`),
/// static (`a.k`) or private (`a.#k`), is a write of state that names the
/// target.
pub proof fn writing_a_member_is_a_state_write(
    e: Env,
    w: JsWalk,
    i: int,
    x: int,
    left: int,
    open: Seq<usize>,
) -> (r: (usize, usize))
    requires
        settled(w),
        live(w, open),
        stmt_lowered(e, w, i, open).0.nodes.len() <= usize::MAX,
        e.s.is(i, "ExpressionStatement"@),
        e.s.kid(i, 0) == Some(x),
        e.s.is(x, "AssignmentExpression"@),
        e.s.kid(x, 0) == Some(left),
        e.s.is(left, "ComputedMemberExpression"@) || e.s.is(left, "StaticMemberExpression"@)
            || e.s.is(left, "PrivateFieldExpression"@),
    ensures
        came_to(
            e,
            w.nodes.len(),
            stmt_lowered(e, w, i, open).0.nodes,
            e.s.span(i),
            KindView::StateWrite { target: snippet(e.s.src, e.s.span(left)) },
            open,
            r.0,
            r.1,
        ),
        stmt_lowered(e, w, i, open).1 == seq![r.1],
{
    lemma_kinds();
    lemma_settled_ranged(w, open);
    let kind = KindView::StateWrite { target: snippet(e.s.src, e.s.span(left)) };
    lemma_unit_came(e, w, e.s.span(i), kind, open);
    let (w1, entry, exit) = unit_after(e, w, e.s.span(i), kind, open);
    (entry, exit)
}

/// An assignment to a name that no scope of the source binds is a write of
/// state that names it.
pub proof fn writing_an_ambient_name_is_a_state_write(
    e: Env,
    w: JsWalk,
    i: int,
    x: int,
    left: int,
    name: int,
    open: Seq<usize>,
) -> (r: (usize, usize))
    requires
        settled(w),
        live(w, open),
        stmt_lowered(e, w, i, open).0.nodes.len() <= usize::MAX,
        e.s.is(i, "ExpressionStatement"@),
        e.s.kid(i, 0) == Some(x),
        e.s.is(x, "AssignmentExpression"@),
        e.s.kid(x, 0) == Some(left),
        0 <= name < e.f.refs.len(),
        within(e.f.refs[name].span, e.s.span(left)),
        e.f.refs[name].write,
        e.f.refs[name].key is Global,
    ensures
        came_to(
            e,
            w.nodes.len(),
            stmt_lowered(e, w, i, open).0.nodes,
            e.s.span(i),
            KindView::StateWrite { target: snippet(e.s.src, e.s.span(left)) },
            open,
            r.0,
            r.1,
        ),
        stmt_lowered(e, w, i, open).1 == seq![r.1],
{
    lemma_kinds();
    lemma_settled_ranged(w, open);
    assert(writes_global(e.f, e.s.span(left)));
    let kind = KindView::StateWrite { target: snippet(e.s.src, e.s.span(left)) };
    lemma_unit_came(e, w, e.s.span(i), kind, open);
    let (w1, entry, exit) = unit_after(e, w, e.s.span(i), kind, open);
    (entry, exit)
}

/// An assignment that writes no member and no ambient name is no write of
/// state.
pub proof fn writing_a_local_name_is_no_state_write(
    e: Env,
    w: JsWalk,
    i: int,
    x: int,
    left: int,
    open: Seq<usize>,
) -> (r: (usize, usize))
    requires
        settled(w),
        live(w, open),
        stmt_lowered(e, w, i, open).0.nodes.len() <= usize::MAX,
        e.s.is(i, "ExpressionStatement"@),
        e.s.kid(i, 0) == Some(x),
        e.s.is(x, "AssignmentExpression"@),
        e.s.kid(x, 0) == Some(left),
        !e.s.is(left, "ComputedMemberExpression"@),
        !e.s.is(left, "StaticMemberExpression"@),
        !e.s.is(left, "PrivateFieldExpression"@),
        forall|k: int|
            0 <= k < e.f.refs.len() && within((#[trigger] e.f.refs[k]).span, e.s.span(left))
                && e.f.refs[k].write ==> !(e.f.refs[k].key is Global),
    ensures
        came_to(
            e,
            w.nodes.len(),
            stmt_lowered(e, w, i, open).0.nodes,
            e.s.span(i),
            KindView::Pure,
            open,
            r.0,
            r.1,
        ),
        stmt_lowered(e, w, i, open).1 == seq![r.1],
{
    lemma_kinds();
    lemma_settled_ranged(w, open);
    lemma_unit_came(e, w, e.s.span(i), KindView::Pure, open);
    let (w1, entry, exit) = unit_after(e, w, e.s.span(i), KindView::Pure, open);
    (entry, exit)
}

/// An expression that is no assignment makes its calls, and goes on.
pub proof fn an_expression_makes_its_calls(e: Env, w: JsWalk, i: int, x: int, open: Seq<usize>) -> (
    r: (usize, usize))
    requires
        settled(w),
        live(w, open),
        stmt_lowered(e, w, i, open).0.nodes.len() <= usize::MAX,
        e.s.is(i, "ExpressionStatement"@),
        e.s.kid(i, 0) == Some(x),
        !e.s.is(x, "AssignmentExpression"@),
    ensures
        came_to(
            e,
            w.nodes.len(),
            stmt_lowered(e, w, i, open).0.nodes,
            e.s.span(i),
            KindView::Pure,
            open,
            r.0,
            r.1,
        ),
        stmt_lowered(e, w, i, open).1 == seq![r.1],
{
    lemma_kinds();
    lemma_settled_ranged(w, open);
    let span = e.s.span(i);
    if e.s.is(x, "CallExpression"@) || e.s.is(x, "NewExpression"@) {
        let (u, uses, calls) = unit_uses(e, w, span);
        let n = bare_node(
            line_of(e.s.src, span.start),
            KindView::Pure,
            Seq::empty(),
            uses,
            "<discard>"@,
        );
        let id = next_node(u);
        let (w1, entry) = behind(pushed(u, n), calls, id);
        let w2 = link(w1, open, entry);
        lemma_unit_uses(e, w, open, span);
        lemma_entered(w, open, u, calls, n);
        lemma_uses_stand(e, w, span);
        assert(in_range(u, open)) by {
            assert forall|j: int| 0 <= j < open.len() implies #[trigger] open[j] < u.nodes.len() by {
                assert(open[j] < w.nodes.len());
            }
        }
        lemma_behind_stands(u, calls, n, open);
        lemma_calls_stay(e, w.nodes.len(), u.nodes, w2.nodes, span);
        lemma_on_line(e.s.src, span.start);
        (entry, id)
    } else {
        lemma_unit_came(e, w, span, KindView::Pure, open);
        let (w1, entry, exit) = unit_after(e, w, span, KindView::Pure, open);
        (entry, exit)
    }
}

/// A `return` makes the calls of what it returns, then leaves the function:
/// nothing comes behind it.
pub proof fn a_return_leaves(e: Env, w: JsWalk, i: int, open: Seq<usize>) -> (r: (usize, usize))
    requires
        settled(w),
        live(w, open),
        stmt_lowered(e, w, i, open).0.nodes.len() <= usize::MAX,
        e.s.is(i, "ReturnStatement"@),
    ensures
        came_to(
            e,
            w.nodes.len(),
            stmt_lowered(e, w, i, open).0.nodes,
            e.s.span(i),
            KindView::Return,
            open,
            r.0,
            r.1,
        ),
        stmt_lowered(e, w, i, open).1.len() == 0,
{
    lemma_kinds();
    lemma_settled_ranged(w, open);
    lemma_unit_came(e, w, e.s.span(i), KindView::Return, open);
    let (w1, entry, exit) = unit_after(e, w, e.s.span(i), KindView::Return, open);
    (entry, exit)
}

/// A `throw` makes the calls of what it throws, then leaves the function.
pub proof fn a_throw_leaves(e: Env, w: JsWalk, i: int, open: Seq<usize>) -> (r: (usize, usize))
    requires
        settled(w),
        live(w, open),
        stmt_lowered(e, w, i, open).0.nodes.len() <= usize::MAX,
        e.s.is(i, "ThrowStatement"@),
    ensures
        came_to(
            e,
            w.nodes.len(),
            stmt_lowered(e, w, i, open).0.nodes,
            e.s.span(i),
            KindView::Throw,
            open,
            r.0,
            r.1,
        ),
        stmt_lowered(e, w, i, open).1.len() == 0,
{
    lemma_kinds();
    lemma_settled_ranged(w, open);
    lemma_unit_came(e, w, e.s.span(i), KindView::Throw, open);
    let (w1, entry, exit) = unit_after(e, w, e.s.span(i), KindView::Throw, open);
    (entry, exit)
}

proof fn lemma_one_live(w: JsWalk, id: usize)
    requires
        id < w.nodes.len(),
        !ends(w.nodes[id as int]),
    ensures
        live(w, seq![id]),
        in_range(w, seq![id]),
{
}

pub proof fn lemma_ran(
    e: Env,
    before: nat,
    u: JsWalk,
    nodes: Seq<NodeView>,
    part: int,
    from: Seq<usize>,
    to: Seq<usize>,
)
    requires
        u.nodes.len() >= before,
        stands(stmt_lowered(e, u, part, from).0.nodes, nodes),
        stmt_lowered(e, u, part, from).1 == to,
    ensures
        runs(e, before, nodes, part, from, to),
{
    assert(ran_from(e, u, nodes, part, from, to));
}

/// An `if` branches on its condition: one way leads through the statement it
/// guards, the other through the `else`, or past it where there is none; and
/// control leaves from the ends of both ways.
#[verifier::rlimit(40)]
pub proof fn an_if_branches(
    e: Env,
    w: JsWalk,
    i: int,
    test: int,
    then_: int,
    open: Seq<usize>,
) -> (r: (usize, usize, Seq<usize>, Seq<usize>))
    requires
        settled(w),
        live(w, open),
        stmt_lowered(e, w, i, open).0.nodes.len() <= usize::MAX,
        e.s.is(i, "IfStatement"@),
        e.s.kid(i, 0) == Some(test),
        e.s.kid(i, 1) == Some(then_),
    ensures
        ({
            let (w1, exits) = stmt_lowered(e, w, i, open);
            let n = w.nodes.len();
            &&& came_to(e, n, w1.nodes, e.s.span(test), KindView::Branch, open, r.0, r.1)
            &&& runs(e, n, w1.nodes, then_, seq![r.1], r.2)
            &&& match e.s.kid(i, 2) {
                Some(alt) => runs(e, n, w1.nodes, alt, seq![r.1], r.3),
                None => r.3 == seq![r.1],
            }
            &&& exits == r.2 + r.3
        }),
{
    lemma_kinds();
    lemma_settled_ranged(w, open);
    let span = e.s.span(test);
    let n = w.nodes.len();
    let (w1, entry, cond) = unit_after(e, w, span, KindView::Branch, open);
    lemma_unit_after(e, w, span, KindView::Branch, open);
    let one = seq![cond];
    lemma_stmt(e, w1, then_, one);
    let (w2, exits) = stmt_lowered(e, w1, then_, one);
    match e.s.kid(i, 2) {
        Some(alt) => {
            assert(cond < w2.nodes.len());
            lemma_stmt(e, w2, alt, one);
        },
        None => {},
    }
    lemma_unit_came(e, w, span, KindView::Branch, open);
    lemma_goes(w, open, w1, one);
    lemma_goes(w1, one, w2, exits);
    match e.s.kid(i, 2) {
        Some(alt) => {
            let (w3, more) = stmt_lowered(e, w2, alt, one);
            assert(same_node(w1.nodes[cond as int], w2.nodes[cond as int]));
            lemma_one_live(w2, cond);
            lemma_goes(w2, one, w3, more);
            lemma_stands_on(w1.nodes, w2.nodes, w3.nodes);
            lemma_came_stays(
                e,
                n,
                w1.nodes,
                w3.nodes,
                span,
                KindView::Branch,
                open,
                entry,
                cond,
            );
            lemma_ran(e, n, w1, w3.nodes, then_, one, exits);
            assert(stands(w3.nodes, w3.nodes));
            lemma_ran(e, n, w2, w3.nodes, alt, one, more);
            (entry, cond, exits, more)
        },
        None => {
            lemma_came_stays(
                e,
                n,
                w1.nodes,
                w2.nodes,
                span,
                KindView::Branch,
                open,
                entry,
                cond,
            );
            assert(stands(w2.nodes, w2.nodes));
            lemma_ran(e, n, w1, w2.nodes, then_, one, exits);
            assert(exits.push(cond) =~= exits + one);
            (entry, cond, exits, one)
        },
    }
}

/// Whether a loop's body stands among the nodes, entered from `from`: what
/// breaks out of it is among `exits`, and what goes on with it leads to `again`.
pub open spec fn body_ran(
    e: Env,
    u: JsWalk,
    nodes: Seq<NodeView>,
    body: int,
    from: Seq<usize>,
    to: Seq<usize>,
    again: usize,
    exits: Seq<usize>,
) -> bool {
    let v = stmt_lowered(e, u, body, from).0;
    &&& ran_from(e, u, nodes, body, from, to)
    &&& u.loops.len() > 0
    &&& v.loops.len() == u.loops.len()
    &&& u.loops.last().breaks.len() == 0
    &&& u.loops.last().continues.len() == 0
    &&& forall|j: int|
        0 <= j < v.loops.last().breaks.len() ==> exits.contains(#[trigger] v.loops.last().breaks[j])
    &&& u.loops.last().target == Some(again) || (u.loops.last().target is None && all_lead(
        nodes,
        v.loops.last().continues,
        again,
    ))
}

/// Whether a loop's body is one that runs again: it stands among the nodes,
/// entered from `from`; from each of its ends control goes back to `back`; what
/// breaks out of it leaves the loop, and what goes on with it leads to `again`.
pub open spec fn repeats(
    e: Env,
    before: nat,
    nodes: Seq<NodeView>,
    body: int,
    from: Seq<usize>,
    back: usize,
    again: usize,
    exits: Seq<usize>,
) -> bool {
    exists|u: JsWalk, to: Seq<usize>|
        u.nodes.len() >= before && #[trigger] body_ran(e, u, nodes, body, from, to, again, exits)
            && all_lead(nodes, to, back)
}

pub proof fn lemma_settled_opened(w: JsWalk, target: Option<usize>, ids: Seq<usize>)
    requires
        settled(w),
        live(w, ids),
        target matches Some(t) ==> t < w.nodes.len(),
    ensures
        settled(loop_opened(w, target)),
        live(loop_opened(w, target), ids),
        loop_opened(w, target).loops.last().target == target,
        loop_opened(w, target).loops.last().breaks.len() == 0,
        loop_opened(w, target).loops.last().continues.len() == 0,
        loop_opened(w, target).loops.len() == w.loops.len() + 1,
{
    let u = loop_opened(w, target);
    assert(u.loops.last() == u.loops[w.loops.len() as int]);
    assert forall|k: int| 0 <= k < u.loops.len() implies loop_ok(
        u,
        #[trigger] u.loops[k],
    ) && live(u, u.loops[k].breaks) && live(u, u.loops[k].continues) by {
        if k < w.loops.len() {
            assert(u.loops[k] == w.loops[k]);
            assert(loop_ok(w, w.loops[k]));
            assert(live(w, w.loops[k].breaks) && live(w, w.loops[k].continues));
        }
    }
}

/// A loop whose head is known before its body: the ends of the body lead back
/// to it.
proof fn lemma_headed(
    e: Env,
    before: nat,
    w1: JsWalk,
    entry: usize,
    cond: usize,
    body: int,
)
    requires
        settled(w1),
        before <= w1.nodes.len(),
        entry < w1.nodes.len(),
        cond < w1.nodes.len(),
        !ends(w1.nodes[cond as int]),
        stmt_lowered(e, loop_opened(w1, Some(entry)), body, seq![cond]).0.nodes.len() <= usize::MAX,
    ensures
        ({
            let (w2, to) = stmt_lowered(e, loop_opened(w1, Some(entry)), body, seq![cond]);
            let (w3, l) = loop_closed(link(w2, to, entry));
            &&& repeats(
                e,
                before,
                w3.nodes,
                body,
                seq![cond],
                entry,
                entry,
                seq![cond] + l.breaks,
            )
            &&& stands(w1.nodes, w3.nodes)
            &&& w3.nodes.len() == w2.nodes.len()
        }),
{
    let one = seq![cond];
    let u = loop_opened(w1, Some(entry));
    lemma_one_live(w1, cond);
    lemma_settled_opened(w1, Some(entry), one);
    lemma_settled_ranged(u, one);
    lemma_stmt(e, u, body, one);
    let (w2, to) = stmt_lowered(e, u, body, one);
    lemma_goes(u, one, w2, to);
    lemma_settled_ranged(w2, to);
    lemma_link_stands(w2, to, 0, entry);
    let (w3, l) = loop_closed(link(w2, to, entry));
    let exits = one + l.breaks;
    assert(l == w2.loops.last());
    assert forall|j: int| 0 <= j < w2.loops.last().breaks.len() implies exits.contains(
        #[trigger] w2.loops.last().breaks[j],
    ) by {
        assert(exits[j + 1] == l.breaks[j]);
    }
    assert(ran_from(e, u, w3.nodes, body, one, to));
    assert(body_ran(e, u, w3.nodes, body, one, to, entry, exits));
    lemma_stands_on(w1.nodes, w2.nodes, w3.nodes);
}

/// A `while` branches on its condition: the body is entered from there and leads
/// back to where the condition is entered, and control leaves from the
/// condition and from what breaks out of the body.
pub proof fn a_while_repeats(
    e: Env,
    w: JsWalk,
    i: int,
    test: int,
    body: int,
    open: Seq<usize>,
) -> (r: (usize, usize))
    requires
        settled(w),
        live(w, open),
        stmt_lowered(e, w, i, open).0.nodes.len() <= usize::MAX,
        e.s.is(i, "WhileStatement"@),
        e.s.kid(i, 0) == Some(test),
        e.s.kid(i, 1) == Some(body),
    ensures
        ({
            let (w1, exits) = stmt_lowered(e, w, i, open);
            let n = w.nodes.len();
            &&& came_to(e, n, w1.nodes, e.s.span(test), KindView::Branch, open, r.0, r.1)
            &&& repeats(e, n, w1.nodes, body, seq![r.1], r.0, r.0, exits)
            &&& exits.len() > 0 && exits[0] == r.1
        }),
{
    lemma_kinds();
    lemma_settled_ranged(w, open);
    let span = e.s.span(test);
    let n = w.nodes.len();
    let (w1, entry, cond) = unit_after(e, w, span, KindView::Branch, open);
    let one = seq![cond];
    lemma_unit_after(e, w, span, KindView::Branch, open);
    lemma_opened(w1, Some(entry), one);
    let u = loop_opened(w1, Some(entry));
    lemma_stmt(e, u, body, one);
    let (w2, to) = stmt_lowered(e, u, body, one);
    lemma_link_stands(w2, to, 0, entry);
    lemma_goes(w, open, w1, one);
    lemma_unit_came(e, w, span, KindView::Branch, open);
    assert(!ends(w1.nodes[cond as int]));
    lemma_headed(e, n, w1, entry, cond, body);
    let w3 = stmt_lowered(e, w, i, open).0;
    lemma_came_stays(e, n, w1.nodes, w3.nodes, span, KindView::Branch, open, entry, cond);
    (entry, cond)
}

/// A `for`-`of` or `for`-`in` has a head that reads what it goes through: the
/// body is entered from there and leads back there, and control leaves from the
/// head and from what breaks out of the body.
pub proof fn a_for_each_repeats(
    e: Env,
    w: JsWalk,
    i: int,
    left: int,
    right: int,
    body: int,
    open: Seq<usize>,
) -> (r: (usize, usize))
    requires
        settled(w),
        live(w, open),
        stmt_lowered(e, w, i, open).0.nodes.len() <= usize::MAX,
        e.s.is(i, "ForInStatement"@) || e.s.is(i, "ForOfStatement"@),
        e.s.kid(i, 0) == Some(left),
        e.s.kid(i, 1) == Some(right),
        e.s.kid(i, 2) == Some(body),
    ensures
        ({
            let (w1, exits) = stmt_lowered(e, w, i, open);
            let n = w.nodes.len();
            let nodes = w1.nodes;
            &&& n <= r.1 < nodes.len()
            &&& nodes[r.1 as int].kind is Branch
            &&& on_line_of(e.s.src, e.s.span(left).start, nodes[r.1 as int].line)
            &&& calls_are_there(e, n, nodes, e.s.span(right))
            &&& all_lead(nodes, open, r.0)
            &&& leads(nodes, r.0, r.1)
            &&& repeats(e, n, nodes, body, seq![r.1], r.1, r.1, exits)
            &&& exits.len() > 0 && exits[0] == r.1
        }),
{
    lemma_kinds();
    lemma_settled_ranged(w, open);
    let n = w.nodes.len();
    let (lspan, rspan) = (e.s.span(left), e.s.span(right));
    let (w1, head) = each_head_lowered(e, w, lspan, rspan, open);
    let one = seq![head];
    lemma_each_head(e, w, lspan, rspan, open);
    lemma_opened(w1, Some(head), one);
    let u = loop_opened(w1, Some(head));
    lemma_stmt(e, u, body, one);
    let (w2, to) = stmt_lowered(e, u, body, one);
    lemma_link_stands(w2, to, 0, head);
    lemma_goes(w, open, w1, one);
    let bound = all_bound_keys(e.f, lspan, e.f.bindings.len() as int);
    let written = all_written_keys(e.f, lspan, e.f.refs.len() as int);
    let (v1, d1) = vars_added(w, bound, 0, Seq::empty());
    lemma_vars_added_quiet(w, bound, 0, Seq::empty());
    let (v2, defs) = vars_added(v1, written, 0, d1);
    lemma_vars_added_quiet(v1, written, 0, d1);
    assert(v2.nodes == w.nodes && v2.loops == w.loops);
    assert(ranged(v2) && in_range(v2, open)) by {
        assert forall|k: int| 0 <= k < v2.loops.len() implies loop_ok(
            v2,
            #[trigger] v2.loops[k],
        ) by {
            assert(loop_ok(w, w.loops[k]));
        }
        assert forall|k: int| 0 <= k < open.len() implies #[trigger] open[k] < v2.nodes.len() by {
            assert(open[k] < w.nodes.len());
        }
    }
    let (v3, uses, calls) = unit_uses(e, v2, rspan);
    lemma_unit_uses(e, v2, open, rspan);
    let node = bare_node(
        line_of(e.s.src, lspan.start),
        KindView::Branch,
        defs,
        uses,
        "<for-each>"@,
    );
    let id = next_node(v3);
    let (v4, entry) = behind(pushed(v3, node), calls, id);
    lemma_entered(v2, open, v3, calls, node);
    lemma_uses_stand(e, v2, rspan);
    assert(in_range(v3, open)) by {
        assert forall|j: int| 0 <= j < open.len() implies #[trigger] open[j] < v3.nodes.len() by {
            assert(open[j] < v2.nodes.len());
        }
    }
    lemma_behind_stands(v3, calls, node, open);
    lemma_calls_stay(e, n, v3.nodes, w1.nodes, rspan);
    lemma_on_line(e.s.src, lspan.start);
    assert(head == id);
    assert(!ends(w1.nodes[head as int]));
    lemma_headed(e, n, w1, head, head, body);
    let w3 = stmt_lowered(e, w, i, open).0;
    lemma_calls_stay(e, n, w1.nodes, w3.nodes, rspan);
    lemma_leads_on(w1.nodes, w3.nodes, entry, head);
    assert forall|j: int| 0 <= j < open.len() implies (#[trigger] open[j]) < w1.nodes.len() by {
        assert(open[j] < w.nodes.len());
    }
    lemma_all_lead_on(w1.nodes, w3.nodes, open, entry);
    assert(same_node(w1.nodes[head as int], w3.nodes[head as int]));
    (entry, head)
}

/// A `do` runs its body first: its ends lead to where the condition is entered,
/// and so does what goes on with the loop; the condition leads back to where the
/// body was entered, or to the first node that it came to where nothing was open,
/// and control leaves from the condition and from what breaks out of the body.
pub proof fn a_do_runs_first_and_repeats(
    e: Env,
    w: JsWalk,
    i: int,
    body: int,
    test: int,
    open: Seq<usize>,
) -> (r: (usize, usize, Seq<usize>, usize))
    requires
        settled(w),
        live(w, open),
        stmt_lowered(e, w, i, open).0.nodes.len() <= usize::MAX,
        e.s.is(i, "DoWhileStatement"@),
        e.s.kid(i, 0) == Some(body),
        e.s.kid(i, 1) == Some(test),
    ensures
        ({
            let (w1, exits) = stmt_lowered(e, w, i, open);
            let n = w.nodes.len();
            &&& came_to(e, n, w1.nodes, e.s.span(test), KindView::Branch, r.2, r.0, r.1)
            &&& repeats(e, n, w1.nodes, body, open, r.0, r.0, exits)
            &&& runs(e, n, w1.nodes, body, open, r.2)
            &&& w1.nodes[r.1 as int].succs.contains(r.3)
            &&& r.3 >= n
            &&& open.len() > 0 ==> r.3 == n || w1.nodes[open[0] as int].succs.contains(r.3)
            &&& exits.len() > 0 && exits[0] == r.1
        }),
{
    lemma_kinds();
    lemma_settled_ranged(w, open);
    let n = w.nodes.len();
    let span = e.s.span(test);
    let first = next_node(w);
    let u = loop_opened(w, None);
    lemma_settled_opened(w, None, open);
    lemma_settled_ranged(u, open);
    lemma_stmt(e, u, body, open);
    let (w1, to) = stmt_lowered(e, u, body, open);
    lemma_unit_after(e, w1, span, KindView::Branch, to);
    let (w2, entry, cond) = unit_after(e, w1, span, KindView::Branch, to);
    let start = entered_at(w2, open, first);
    lemma_edge_stands(w2, cond, start);
    let x = edge(w2, cond, start);
    let (w3, l) = loop_closed(x);
    assert(x.nodes.len() == w2.nodes.len());
    assert(w2.loops.len() == u.loops.len());
    assert(loop_ok(w2, w2.loops[w.loops.len() as int]));
    assert(l == w2.loops.last());
    assert(in_range(w3, l.continues)) by {
        assert forall|j: int| 0 <= j < l.continues.len() implies #[trigger] l.continues[j]
            < w3.nodes.len() by {
            assert(l.continues[j] < w2.nodes.len());
        }
    }
    lemma_link_stands(w3, l.continues, 0, entry);
    let w4 = link(w3, l.continues, entry);
    assert(w4 == stmt_lowered(e, w, i, open).0);
    lemma_goes(u, open, w1, to);
    lemma_settled_ranged(w1, to);
    lemma_unit_came(e, w1, span, KindView::Branch, to);
    lemma_goes(w1, to, w2, seq![cond]);
    let exits = seq![cond] + l.breaks;
    lemma_stands_on(w2.nodes, w3.nodes, w4.nodes);
    lemma_stands_on(w1.nodes, w2.nodes, w4.nodes);
    lemma_came_stays(e, w1.nodes.len(), w2.nodes, w4.nodes, span, KindView::Branch, to, entry, cond);
    assert(came_to(e, n, w4.nodes, span, KindView::Branch, to, entry, cond)) by {
        lemma_fewer_before(e, w1.nodes.len(), n, w4.nodes, span);
    }
    assert(ran_from(e, u, w4.nodes, body, open, to));
    lemma_ran(e, n, u, w4.nodes, body, open, to);
    assert(w1.loops.last() == w2.loops.last());
    assert forall|j: int| 0 <= j < w1.loops.last().breaks.len() implies exits.contains(
        #[trigger] w1.loops.last().breaks[j],
    ) by {
        assert(exits[j + 1] == l.breaks[j]);
    }
    assert(body_ran(e, u, w4.nodes, body, open, to, entry, exits));
    assert(w3.nodes[cond as int].succs.contains(start));
    if open.len() > 0 {
        let succs = w2.nodes[open[0] as int].succs;
        lemma_first_behind(succs, first, 0);
        assert(open[0] < w.nodes.len());
        if succs.contains(start) {
            assert(w4.nodes[open[0] as int].succs.contains(start));
        }
    }
    (entry, cond, to, start)
}

pub proof fn lemma_fewer_before(e: Env, more: nat, before: nat, nodes: Seq<NodeView>, span: Span)
    requires
        before <= more,
        calls_are_there(e, more, nodes, span),
    ensures
        calls_are_there(e, before, nodes, span),
{
    assert forall|c: int|
        0 <= c < e.f.calls.len() && within((#[trigger] e.f.calls[c]).span, span) && !in_nested_fn(
            e.f,
            e.f.calls[c].span,
            span,
        ) implies call_is_there(e, before, nodes, c) by {
        assert(call_is_there(e, more, nodes, c));
    }
}

/// Whether a piece of source is one node of some kind behind its calls, entered
/// from `from` and left from `to`.
pub open spec fn one_node(
    e: Env,
    before: nat,
    nodes: Seq<NodeView>,
    span: Span,
    kind: KindView,
    from: Seq<usize>,
    to: Seq<usize>,
) -> bool {
    exists|entry: usize, exit: usize|
        #[trigger] came_to(e, before, nodes, span, kind, from, entry, exit) && to == seq![exit]
}

pub proof fn lemma_one_node(
    e: Env,
    before: nat,
    w: JsWalk,
    nodes: Seq<NodeView>,
    span: Span,
    kind: KindView,
    from: Seq<usize>,
)
    requires
        before <= w.nodes.len(),
        ranged(w),
        in_range(w, from),
        unit_after(e, w, span, kind, from).0.nodes.len() <= usize::MAX,
        stands(unit_after(e, w, span, kind, from).0.nodes, nodes),
    ensures
        one_node(e, before, nodes, span, kind, from, seq![unit_after(e, w, span, kind, from).2]),
{
    lemma_unit_came(e, w, span, kind, from);
    let (w1, entry, exit) = unit_after(e, w, span, kind, from);
    lemma_came_stays(e, w.nodes.len(), w1.nodes, nodes, span, kind, from, entry, exit);
    lemma_fewer_before(e, w.nodes.len(), before, nodes, span);
    assert(came_to(e, before, nodes, span, kind, from, entry, exit));
}

/// A declaration of variables is one node for each declarator, in order: control
/// goes from the open nodes to the first, from each to the next, and leaves from
/// the last. `fronts[k]` is where control stands before the `k`-th.
pub proof fn declarators_run_in_order(e: Env, w: JsWalk, i: int, open: Seq<usize>) -> (r: Seq<
    Seq<usize>,
>)
    requires
        settled(w),
        live(w, open),
        stmt_lowered(e, w, i, open).0.nodes.len() <= usize::MAX,
        e.s.is(i, "VariableDeclaration"@),
    ensures
        ({
            let (w1, exits) = stmt_lowered(e, w, i, open);
            let kids = e.s.kids(i);
            &&& r.len() == kids.len() + 1
            &&& r[0] == open
            &&& r.last() == exits
            &&& forall|k: int|
                0 <= k < kids.len() ==> #[trigger] one_node(
                    e,
                    w.nodes.len(),
                    w1.nodes,
                    e.s.span(kids[k]),
                    KindView::Pure,
                    r[k],
                    r[k + 1],
                )
        }),
{
    lemma_kinds();
    let r = lemma_declarators_in_order(e, w, i, 0, open);
    let kids = e.s.kids(i);
    assert forall|k: int| 0 <= k < kids.len() implies #[trigger] one_node(
        e,
        w.nodes.len(),
        stmt_lowered(e, w, i, open).0.nodes,
        e.s.span(kids[k]),
        KindView::Pure,
        r[k],
        r[k + 1],
    ) by {
        assert(r[k - 0] == r[k]);
        assert(r[k - 0 + 1] == r[k + 1]);
    }
    r
}

proof fn lemma_declarators_in_order(e: Env, w: JsWalk, i: int, k: int, open: Seq<usize>) -> (r: Seq<
    Seq<usize>,
>)
    requires
        settled(w),
        live(w, open),
        0 <= k <= e.s.kids(i).len(),
        declarators_lowered(e, w, i, k, open).0.nodes.len() <= usize::MAX,
    ensures
        ({
            let (w1, exits) = declarators_lowered(e, w, i, k, open);
            let kids = e.s.kids(i);
            &&& r.len() == kids.len() - k + 1
            &&& r[0] == open
            &&& r.last() == exits
            &&& stands(w.nodes, w1.nodes)
            &&& forall|j: int|
                k <= j < kids.len() ==> #[trigger] one_node(
                    e,
                    w.nodes.len(),
                    w1.nodes,
                    e.s.span(kids[j]),
                    KindView::Pure,
                    r[j - k],
                    r[j - k + 1],
                )
        }),
    decreases e.s.kids(i).len() - k,
{
    let kids = e.s.kids(i);
    if k == kids.len() {
        assert(stands(w.nodes, w.nodes));
        seq![open]
    } else {
        let span = e.s.span(kids[k]);
        lemma_settled_ranged(w, open);
        lemma_unit_after(e, w, span, KindView::Pure, open);
        let (w1, entry, exit) = unit_after(e, w, span, KindView::Pure, open);
        let one = seq![exit];
        lemma_declarators(e, w1, i, k + 1, one);
        lemma_goes(w, open, w1, one);
        let rest = lemma_declarators_in_order(e, w1, i, k + 1, one);
        let (w2, exits) = declarators_lowered(e, w, i, k, open);
        let r = seq![open] + rest;
        lemma_one_node(e, w.nodes.len(), w, w2.nodes, span, KindView::Pure, open);
        lemma_stands_on(w.nodes, w1.nodes, w2.nodes);
        assert(rest.last() == r.last());
        assert forall|j: int| k <= j < kids.len() implies #[trigger] one_node(
            e,
            w.nodes.len(),
            w2.nodes,
            e.s.span(kids[j]),
            KindView::Pure,
            r[j - k],
            r[j - k + 1],
        ) by {
            if j > k {
                assert(r[j - k] == rest[j - (k + 1)]);
                assert(r[j - k + 1] == rest[j - (k + 1) + 1]);
                assert(one_node(
                    e,
                    w1.nodes.len(),
                    w2.nodes,
                    e.s.span(kids[j]),
                    KindView::Pure,
                    rest[j - (k + 1)],
                    rest[j - (k + 1) + 1],
                ));
                let (en, ex) = choose|en: usize, ex: usize|
                    #[trigger] came_to(
                        e,
                        w1.nodes.len(),
                        w2.nodes,
                        e.s.span(kids[j]),
                        KindView::Pure,
                        r[j - k],
                        en,
                        ex,
                    ) && r[j - k + 1] == seq![ex];
                lemma_fewer_before(e, w1.nodes.len(), w.nodes.len(), w2.nodes, e.s.span(kids[j]));
                assert(came_to(
                    e,
                    w.nodes.len(),
                    w2.nodes,
                    e.s.span(kids[j]),
                    KindView::Pure,
                    r[j - k],
                    en,
                    ex,
                ));
            }
        }
        r
    }
}

/// Whether the statements that stand from the `at`-th child of a node on stand
/// among the nodes, one behind the other.
pub open spec fn in_order(
    e: Env,
    before: nat,
    nodes: Seq<NodeView>,
    i: int,
    at: int,
    fronts: Seq<Seq<usize>>,
    from: Seq<usize>,
    to: Seq<usize>,
) -> bool {
    &&& 0 <= at <= e.s.kids(i).len()
    &&& fronts.len() == e.s.kids(i).len() - at + 1
    &&& fronts[0] == from
    &&& fronts.last() == to
    &&& forall|k: int|
        at <= k < e.s.kids(i).len() ==> #[trigger] step_runs(
            e,
            before,
            nodes,
            e.s.kids(i)[k],
            fronts[k - at],
            fronts[k - at + 1],
        )
}

/// Whether a child of a list of statements stands among the nodes; a directive
/// does nothing.
pub open spec fn step_runs(
    e: Env,
    before: nat,
    nodes: Seq<NodeView>,
    c: int,
    from: Seq<usize>,
    to: Seq<usize>,
) -> bool {
    if e.s.is(c, "Directive"@) || e.s.is(c, "Hashbang"@) {
        from == to
    } else {
        runs(e, before, nodes, c, from, to)
    }
}

proof fn lemma_runs_before(
    e: Env,
    more: nat,
    before: nat,
    nodes: Seq<NodeView>,
    part: int,
    from: Seq<usize>,
    to: Seq<usize>,
)
    requires
        before <= more,
        runs(e, more, nodes, part, from, to),
    ensures
        runs(e, before, nodes, part, from, to),
{
    let u = choose|u: JsWalk|
        u.nodes.len() >= more && #[trigger] ran_from(e, u, nodes, part, from, to);
    assert(ran_from(e, u, nodes, part, from, to));
}

pub proof fn lemma_in_order(
    e: Env,
    w: JsWalk,
    nodes: Seq<NodeView>,
    i: int,
    k: int,
    open: Seq<usize>,
) -> (r: Seq<Seq<usize>>)
    requires
        settled(w),
        live(w, open),
        0 <= k <= e.s.kids(i).len(),
        seq_lowered(e, w, i, k, open).0.nodes.len() <= usize::MAX,
        stands(seq_lowered(e, w, i, k, open).0.nodes, nodes),
    ensures
        in_order(
            e,
            w.nodes.len(),
            nodes,
            i,
            k,
            r,
            open,
            seq_lowered(e, w, i, k, open).1,
        ),
    decreases e.s.kids(i).len() - k,
{
    let kids = e.s.kids(i);
    if k == kids.len() {
        seq![open]
    } else {
        let c = kids[k];
        let n = w.nodes.len();
        let says = !e.s.is(c, "Directive"@) && !e.s.is(c, "Hashbang"@);
        let (w1, mid) = if says {
            stmt_lowered(e, w, c, open)
        } else {
            (w, open)
        };
        lemma_settled_ranged(w, open);
        if says {
            lemma_stmt(e, w, c, open);
        } else {
            lemma_refl(w, open);
        }
        lemma_seq_lowered(e, w1, i, k + 1, mid);
        let (w2, out) = seq_lowered(e, w1, i, k + 1, mid);
        lemma_goes(w, open, w1, mid);
        lemma_goes(w1, mid, w2, out);
        let rest = lemma_in_order(e, w1, nodes, i, k + 1, mid);
        let r = seq![open] + rest;
        lemma_stands_on(w1.nodes, w2.nodes, nodes);
        if says {
            lemma_ran(e, n, w, nodes, c, open, mid);
        }
        assert(r.last() == rest.last());
        assert forall|j: int| k <= j < kids.len() implies #[trigger] step_runs(
            e,
            n,
            nodes,
            kids[j],
            r[j - k],
            r[j - k + 1],
        ) by {
            if j > k {
                assert(r[j - k] == rest[j - (k + 1)]);
                assert(r[j - k + 1] == rest[j - (k + 1) + 1]);
                assert(step_runs(
                    e,
                    w1.nodes.len(),
                    nodes,
                    kids[j],
                    rest[j - (k + 1)],
                    rest[j - (k + 1) + 1],
                ));
                if !e.s.is(kids[j], "Directive"@) && !e.s.is(kids[j], "Hashbang"@) {
                    lemma_runs_before(e, w1.nodes.len(), n, nodes, kids[j], r[j - k], r[j - k + 1]);
                }
            }
        }
        r
    }
}

/// The statements of a block run one behind the other: control enters the first
/// from the open nodes, each next one from where the one before it ends, and
/// leaves from the last.
pub proof fn a_block_runs_in_order(e: Env, w: JsWalk, i: int, open: Seq<usize>) -> (r: Seq<
    Seq<usize>,
>)
    requires
        settled(w),
        live(w, open),
        stmt_lowered(e, w, i, open).0.nodes.len() <= usize::MAX,
        e.s.is(i, "BlockStatement"@),
    ensures
        in_order(
            e,
            w.nodes.len(),
            stmt_lowered(e, w, i, open).0.nodes,
            i,
            0,
            r,
            open,
            stmt_lowered(e, w, i, open).1,
        ),
{
    let nodes = stmt_lowered(e, w, i, open).0.nodes;
    assert(stands(nodes, nodes));
    lemma_in_order(e, w, nodes, i, 0, open)
}

/// An empty statement does nothing.
pub proof fn an_empty_statement_does_nothing(e: Env, w: JsWalk, i: int, open: Seq<usize>)
    requires
        e.s.is(i, "EmptyStatement"@) || e.s.is(i, "DebuggerStatement"@),
    ensures
        stmt_lowered(e, w, i, open) == (w, open),
{
    lemma_kinds();
}

/// A `break` without a label leaves the innermost loop or switch, and control
/// does not go on from it.
pub proof fn a_break_leaves_the_loop(e: Env, w: JsWalk, i: int, open: Seq<usize>) -> (id: usize)
    requires
        settled(w),
        live(w, open),
        w.nodes.len() < usize::MAX,
        e.s.is(i, "BreakStatement"@),
        e.s.kid_of(i, "LabelIdentifier"@) is None,
        w.loops.len() > 0,
    ensures
        ({
            let (w1, exits) = stmt_lowered(e, w, i, open);
            &&& exits.len() == 0
            &&& id == w.nodes.len() && w1.nodes.len() == w.nodes.len() + 1
            &&& w1.nodes[id as int].kind is Pure
            &&& on_line_of(e.s.src, e.s.span(i).start, w1.nodes[id as int].line)
            &&& all_lead(w1.nodes, open, id)
            &&& w1.nodes[id as int].succs.len() == 0
            &&& w1.loops.len() == w.loops.len()
            &&& w1.loops.last().breaks.contains(id)
        }),
{
    lemma_kinds();
    let (u, id) = mark(e, w, e.s.span(i).start, KindView::Pure, "break"@);
    lemma_mark(e, w, e.s.span(i).start, KindView::Pure, "break"@, open);
    let w2 = link(u, open, id);
    let l = w2.loops.last();
    assert(l.breaks.push(id)[l.breaks.len() as int] == id);
    id
}

/// A mark that the open nodes lead to.
proof fn lemma_mark(
    e: Env,
    w: JsWalk,
    off: u32,
    kind: KindView,
    label: Seq<char>,
    open: Seq<usize>,
)
    requires
        settled(w),
        live(w, open),
        w.nodes.len() < usize::MAX,
    ensures
        ({
            let (u, id) = mark(e, w, off, kind, label);
            let w1 = link(u, open, id);
            &&& id == w.nodes.len()
            &&& w1.nodes.len() == w.nodes.len() + 1
            &&& w1.nodes[id as int].kind == kind
            &&& on_line_of(e.s.src, off, w1.nodes[id as int].line)
            &&& w1.nodes[id as int].succs.len() == 0
            &&& all_lead(w1.nodes, open, id)
            &&& stands(w.nodes, w1.nodes)
            &&& w1.loops == w.loops
        }),
{
    let (u, id) = mark(e, w, off, kind, label);
    lemma_settled_ranged(w, open);
    assert(in_range(u, open)) by {
        assert forall|j: int| 0 <= j < open.len() implies #[trigger] open[j] < u.nodes.len() by {
            assert(open[j] < w.nodes.len());
        }
    }
    lemma_link_stands(u, open, 0, id);
    lemma_link_others(u, open, 0, id, id as int);
    let w1 = link(u, open, id);
    assert(stands(w.nodes, u.nodes));
    lemma_stands_on(w.nodes, u.nodes, w1.nodes);
    assert(same_node(u.nodes[id as int], w1.nodes[id as int]));
    lemma_on_line(e.s.src, off);
}

/// What is not linked from keeps its edges.
proof fn lemma_link_others(w: JsWalk, from: Seq<usize>, k: int, to: usize, x: int)
    requires
        0 <= k,
        in_range(w, from),
        0 <= x < w.nodes.len(),
        forall|j: int| 0 <= j < from.len() ==> #[trigger] from[j] != x,
    ensures
        link_from(w, from, k, to).nodes[x] == w.nodes[x],
    decreases from.len() - k,
{
    if k < from.len() {
        let w1 = edge(w, from[k], to);
        lemma_edge_stands(w, from[k], to);
        assert(from[k] != x);
        assert(w1.nodes[x] == w.nodes[x]);
        assert(in_range(w1, from)) by {
            assert forall|j: int| 0 <= j < from.len() implies #[trigger] from[j] < w1.nodes.len() by {
                assert(from[j] < w.nodes.len());
            }
        }
        lemma_link_others(w1, from, k + 1, to, x);
    }
}

/// A `continue` without a label goes on with the innermost loop: it leads to
/// where the loop goes on, or is remembered by the loop until that is known;
/// control does not go on behind it.
pub proof fn a_continue_goes_on_with_the_loop(e: Env, w: JsWalk, i: int, open: Seq<usize>) -> (id:
    usize)
    requires
        settled(w),
        live(w, open),
        w.nodes.len() < usize::MAX,
        e.s.is(i, "ContinueStatement"@),
        e.s.kid_of(i, "LabelIdentifier"@) is None,
        w.loops.len() > 0,
    ensures
        ({
            let (w1, exits) = stmt_lowered(e, w, i, open);
            &&& exits.len() == 0
            &&& id == w.nodes.len() && w1.nodes.len() == w.nodes.len() + 1
            &&& w1.nodes[id as int].kind is Pure
            &&& all_lead(w1.nodes, open, id)
            &&& w1.loops.len() == w.loops.len()
            &&& match w.loops.last().target {
                Some(t) => w1.nodes[id as int].succs == seq![t],
                None => w1.loops.last().continues.contains(id),
            }
        }),
{
    lemma_kinds();
    let (u, id) = mark(e, w, e.s.span(i).start, KindView::Pure, "continue"@);
    lemma_mark(e, w, e.s.span(i).start, KindView::Pure, "continue"@, open);
    let w2 = link(u, open, id);
    let l = w2.loops.last();
    assert(loop_meant(w2.loops, None, w2.loops.len() as int) == Some(
        w2.loops.len() - 1,
    ));
    match l.target {
        Some(t) => {
            lemma_edge_stands(w2, id, t);
            let w3 = edge(w2, id, t);
            assert(w2.nodes[id as int].succs =~= Seq::empty());
            assert(w3.nodes[id as int].succs =~= seq![t]);
            assert forall|j: int| 0 <= j < open.len() implies (#[trigger] open[j])
                < w2.nodes.len() by {
                assert(open[j] < w.nodes.len());
            }
            lemma_all_lead_on(w2.nodes, w3.nodes, open, id);
        },
        None => {
            assert(l.continues.push(id)[l.continues.len() as int] == id);
        },
    }
    id
}

/// A labelled jump means the innermost loop that carries the label: `k` carries
/// it, and none inside `k` does.
pub proof fn a_labelled_break_leaves_its_loop(
    e: Env,
    w: JsWalk,
    i: int,
    label: int,
    name: Seq<char>,
    k: int,
    open: Seq<usize>,
) -> (id: usize)
    requires
        settled(w),
        live(w, open),
        w.nodes.len() < usize::MAX,
        e.s.is(i, "BreakStatement"@),
        e.s.kid_of(i, "LabelIdentifier"@) == Some(label),
        e.s.name(label) == Some(name),
        0 <= k < w.loops.len(),
        w.loops[k].label == Some(name),
        forall|j: int| k < j < w.loops.len() ==> (#[trigger] w.loops[j]).label != Some(name),
    ensures
        ({
            let (w1, exits) = stmt_lowered(e, w, i, open);
            &&& exits.len() == 0
            &&& all_lead(w1.nodes, open, id)
            &&& w1.loops.len() == w.loops.len()
            &&& w1.loops[k].breaks.contains(id)
        }),
{
    lemma_kinds();
    let (u, id) = mark(e, w, e.s.span(i).start, KindView::Pure, "break"@);
    lemma_mark(e, w, e.s.span(i).start, KindView::Pure, "break"@, open);
    let w2 = link(u, open, id);
    lemma_meant(w2.loops, name, k, w2.loops.len() as int);
    let l = w2.loops[k];
    assert(l.breaks.push(id)[l.breaks.len() as int] == id);
    id
}

proof fn lemma_meant(
    loops: Seq<JsLoopView>,
    name: Seq<char>,
    k: int,
    n: int,
)
    requires
        0 <= k < n <= loops.len(),
        loops[k].label == Some(name),
        forall|j: int| k < j < loops.len() ==> (#[trigger] loops[j]).label != Some(name),
    ensures
        loop_meant(loops, Some(name), n) == Some(k),
    decreases n,
{
    if k < n - 1 {
        assert(loops[n - 1].label != Some(name));
        lemma_meant(loops, name, k, n - 1);
    }
}

/// A labelled statement does what the statement does, and a loop takes the label
/// along.
pub proof fn a_label_goes_to_its_loop(
    e: Env,
    w: JsWalk,
    i: int,
    label: int,
    name: Seq<char>,
    body: int,
    open: Seq<usize>,
)
    requires
        e.s.is(i, "LabeledStatement"@),
        e.s.kid(i, 1) == Some(body),
        e.s.kid_of(i, "LabelIdentifier"@) == Some(label),
        e.s.name(label) == Some(name),
    ensures
        e.s.is(body, "WhileStatement"@) || e.s.is(body, "DoWhileStatement"@) || e.s.is(
            body,
            "ForStatement"@,
        ) || e.s.is(body, "ForInStatement"@) || e.s.is(body, "ForOfStatement"@) ==> stmt_lowered(
            e,
            w,
            i,
            open,
        ) == stmt_lowered(e, (JsWalk { pending: Some(name), ..w }), body, open),
        !(e.s.is(body, "WhileStatement"@) || e.s.is(body, "DoWhileStatement"@) || e.s.is(
            body,
            "ForStatement"@,
        ) || e.s.is(body, "ForInStatement"@) || e.s.is(body, "ForOfStatement"@)) ==> stmt_lowered(
            e,
            w,
            i,
            open,
        ) == stmt_lowered(e, w, body, open),
{
    lemma_kinds();
}

/// Whether a list of statements stands among the nodes, entered from `from` and
/// left from `to`.
pub open spec fn list_runs(
    e: Env,
    before: nat,
    nodes: Seq<NodeView>,
    i: int,
    at: int,
    from: Seq<usize>,
    to: Seq<usize>,
) -> bool {
    exists|fronts: Seq<Seq<usize>>| #[trigger]
        in_order(e, before, nodes, i, at, fronts, from, to)
}

/// A `try` runs its block, then its `finally` block where it has one; the
/// handler stands beside them, behind a node of its own.
pub proof fn a_try_runs_its_block_and_its_finally(
    e: Env,
    w: JsWalk,
    i: int,
    block: int,
    open: Seq<usize>,
) -> (mid: Seq<usize>)
    requires
        settled(w),
        live(w, open),
        stmt_lowered(e, w, i, open).0.nodes.len() <= usize::MAX,
        e.s.is(i, "TryStatement"@),
        e.s.kid(i, 0) == Some(block),
    ensures
        ({
            let (w1, exits) = stmt_lowered(e, w, i, open);
            let n = w.nodes.len();
            let kids = e.s.kids(i);
            &&& list_runs(e, n, w1.nodes, block, 0, open, mid)
            &&& if kids.len() > 1 && e.s.is(kids.last(), "BlockStatement"@) {
                list_runs(e, n, w1.nodes, kids.last(), 0, mid, exits)
            } else {
                exits == mid
            }
            &&& e.s.kid_of(i, "CatchClause"@) matches Some(h) ==> handler_is_there(
                e,
                n,
                w1.nodes,
                h,
            )
        }),
{
    lemma_kinds();
    lemma_settled_ranged(w, open);
    let n = w.nodes.len();
    let kids = e.s.kids(i);
    let none = Seq::<usize>::empty();
    lemma_seq_lowered(e, w, block, 0, open);
    let (w1, mid) = seq_lowered(e, w, block, 0, open);
    let handler = e.s.kid_of(i, "CatchClause"@);
    let w2 = match handler {
        Some(h) => catch_lowered(e, w1, h),
        None => w1,
    };
    match handler {
        Some(h) => lemma_catch(e, w1, h),
        None => lemma_refl(w1, none),
    }
    lemma_then(w, open, w1, mid, none, w2, none, mid);
    let ending = finalizer(e.s, i);
    if let Some(f) = ending {
        lemma_seq_lowered(e, w2, f, 0, mid);
    }
    let (w3, exits) = stmt_lowered(e, w, i, open);
    lemma_goes(w, open, w2, mid);
    lemma_goes(w, open, w1, mid);
    assert(live(w1, none));
    lemma_goes(w1, none, w2, none);
    assert(stands(w2.nodes, w2.nodes));
    if let Some(f) = ending {
        lemma_goes(w2, mid, w3, exits);
        assert(stands(w3.nodes, w3.nodes));
        let fronts = lemma_in_order(e, w2, w3.nodes, f, 0, mid);
        lemma_order_before(e, w2.nodes.len(), n, w3.nodes, f, 0, fronts, mid, exits);
        assert(f == kids.last());
    }
    lemma_stands_on(w1.nodes, w2.nodes, w3.nodes);
    let fronts = lemma_in_order(e, w, w3.nodes, block, 0, open);
    assert(in_order(e, n, w3.nodes, block, 0, fronts, open, mid));
    if let Some(h) = handler {
        lemma_handler(e, w1, h, n, w3.nodes);
    }
    mid
}

proof fn lemma_order_before(
    e: Env,
    more: nat,
    before: nat,
    nodes: Seq<NodeView>,
    i: int,
    at: int,
    fronts: Seq<Seq<usize>>,
    from: Seq<usize>,
    to: Seq<usize>,
)
    requires
        before <= more,
        in_order(e, more, nodes, i, at, fronts, from, to),
    ensures
        in_order(e, before, nodes, i, at, fronts, from, to),
        list_runs(e, before, nodes, i, at, from, to),
{
    let kids = e.s.kids(i);
    assert forall|k: int| at <= k < kids.len() implies #[trigger] step_runs(
        e,
        before,
        nodes,
        kids[k],
        fronts[k - at],
        fronts[k - at + 1],
    ) by {
        assert(step_runs(e, more, nodes, kids[k], fronts[k - at], fronts[k - at + 1]));
        if !e.s.is(kids[k], "Directive"@) && !e.s.is(kids[k], "Hashbang"@) {
            lemma_runs_before(
                e,
                more,
                before,
                nodes,
                kids[k],
                fronts[k - at],
                fronts[k - at + 1],
            );
        }
    }
    assert(in_order(e, before, nodes, i, at, fronts, from, to));
}

/// Whether a handler stands among the nodes, and starts with the node `id`,
/// which is on its line; its block stands behind that node.
pub open spec fn handler_runs(
    e: Env,
    before: nat,
    nodes: Seq<NodeView>,
    h: int,
    id: usize,
    to: Seq<usize>,
) -> bool {
    &&& before <= id < nodes.len()
    &&& nodes[id as int].kind is Pure
    &&& on_line_of(e.s.src, e.s.span(h).start, nodes[id as int].line)
    &&& e.s.kid_of(h, "BlockStatement"@) matches Some(body) ==> list_runs(
        e,
        before,
        nodes,
        body,
        0,
        seq![id],
        to,
    )
}

/// Whether a handler stands among the nodes.
pub open spec fn handler_is_there(e: Env, before: nat, nodes: Seq<NodeView>, h: int) -> bool {
    exists|id: usize, to: Seq<usize>| #[trigger] handler_runs(e, before, nodes, h, id, to)
}

proof fn lemma_handler(e: Env, w: JsWalk, h: int, before: nat, nodes: Seq<NodeView>)
    requires
        settled(w),
        before <= w.nodes.len(),
        catch_lowered(e, w, h).nodes.len() <= usize::MAX,
        stands(catch_lowered(e, w, h).nodes, nodes),
    ensures
        handler_is_there(e, before, nodes, h),
{
    let keys = catch_keys(e, h);
    let (w1, defs) = vars_listed(w, keys, 0, Seq::empty());
    lemma_vars_listed_quiet(w, keys, 0, Seq::empty());
    let id = next_node(w1);
    let n = bare_node(
        line_of(e.s.src, e.s.span(h).start),
        KindView::Pure,
        defs,
        Seq::empty(),
        "<catch>"@,
    );
    let w2 = pushed(w1, n);
    let none = Seq::<usize>::empty();
    let one = seq![id];
    lemma_settled_ranged(w, none);
    lemma_refl(w, none);
    lemma_quiet_more(w, none, w, none, w1);
    lemma_push_more(w, none, w1, none, n);
    assert(none.push(id) =~= one);
    lemma_on_line(e.s.src, e.s.span(h).start);
    match e.s.kid_of(h, "BlockStatement"@) {
        Some(body) => {
            lemma_seq_lowered(e, w2, body, 0, one);
            let (w3, to) = seq_lowered(e, w2, body, 0, one);
            lemma_goes(w, none, w2, one);
            lemma_goes(w2, one, w3, to);
            lemma_stands_on(w2.nodes, w3.nodes, nodes);
            let fronts = lemma_in_order(e, w2, nodes, body, 0, one);
            lemma_order_before(e, w2.nodes.len(), before, nodes, body, 0, fronts, one, to);
            assert(same_node(w2.nodes[id as int], nodes[id as int]));
            assert(handler_runs(e, before, nodes, h, id, to));
        },
        None => {
            assert(same_node(w2.nodes[id as int], nodes[id as int]));
            assert(handler_runs(e, before, nodes, h, id, none));
        },
    }
}

/// A function or class that a statement declares is one node, which control
/// passes.
pub proof fn a_declared_function_is_one_node(e: Env, w: JsWalk, i: int, open: Seq<usize>) -> (id:
    usize)
    requires
        settled(w),
        live(w, open),
        w.nodes.len() < usize::MAX,
        e.s.is(i, "Function"@) || e.s.is(i, "Class"@),
    ensures
        ({
            let (w1, exits) = stmt_lowered(e, w, i, open);
            &&& id == w.nodes.len() && w1.nodes.len() == w.nodes.len() + 1
            &&& w1.nodes[id as int].kind is Pure
            &&& on_line_of(e.s.src, e.s.span(i).start, w1.nodes[id as int].line)
            &&& all_lead(w1.nodes, open, id)
            &&& exits == seq![id]
        }),
{
    lemma_kinds();
    let function = e.s.is(i, "Function"@);
    let keys = declared_keys(e.s, i);
    let (u, defs) = vars_listed(w, keys, 0, Seq::empty());
    lemma_vars_listed_quiet(w, keys, 0, Seq::empty());
    let caught = captures(e.f, e.s.span(i));
    lemma_vars_added_quiet(u, caught, 0, Seq::empty());
    let (u2, uses) = if function {
        vars_added(u, caught, 0, Seq::empty())
    } else {
        (u, Seq::empty())
    };
    assert(u2.nodes == w.nodes);
    let n = bare_node(
        line_of(e.s.src, e.s.span(i).start),
        KindView::Pure,
        defs,
        uses,
        if function {
            "<fndecl>"@
        } else {
            "<classdecl>"@
        },
    );
    let id = next_node(u2);
    let none = Seq::<usize>::empty();
    lemma_settled_ranged(w, open);
    assert(in_range(u2, open)) by {
        assert forall|j: int| 0 <= j < open.len() implies #[trigger] open[j] < u2.nodes.len() by {
            assert(open[j] < w.nodes.len());
        }
    }
    lemma_behind_stands(u2, none, n, open);
    lemma_on_line(e.s.src, e.s.span(i).start);
    id
}

/// Whether a case of a switch stands among the nodes: control comes to its
/// statements from the discriminant and from the case before it.
pub open spec fn case_runs(
    e: Env,
    before: nat,
    nodes: Seq<NodeView>,
    c: int,
    disc: usize,
    from: Seq<usize>,
    to: Seq<usize>,
) -> bool {
    list_runs(
        e,
        before,
        nodes,
        c,
        if e.s.part(c).test {
            1
        } else {
            0
        },
        from.push(disc),
        to,
    )
}

proof fn lemma_cases_run(
    e: Env,
    w: JsWalk,
    nodes: Seq<NodeView>,
    i: int,
    k: int,
    disc: usize,
    fall: Seq<usize>,
    default: bool,
) -> (r: Seq<Seq<usize>>)
    requires
        settled(w),
        live(w, fall.push(disc)),
        0 <= k <= e.s.kids(i).len(),
        cases_lowered(e, w, i, k, disc, fall, default).0.nodes.len()
            <= usize::MAX,
        stands(
            cases_lowered(e, w, i, k, disc, fall, default).0.nodes,
            nodes,
        ),
        forall|j: int|
            k <= j < e.s.kids(i).len() ==> ((#[trigger] e.s.part(e.s.kids(i)[j])).test ==> e.s.kids(
                e.s.kids(i)[j],
            ).len() > 0),
    ensures
        ({
            let (w1, out, d) = cases_lowered(e, w, i, k, disc, fall, default);
            let kids = e.s.kids(i);
            &&& r.len() == kids.len() - k + 1
            &&& r[0] == fall
            &&& r.last() == out
            &&& forall|j: int|
                k <= j < kids.len() ==> #[trigger] case_runs(
                    e,
                    w.nodes.len(),
                    nodes,
                    kids[j],
                    disc,
                    r[j - k],
                    r[j - k + 1],
                )
            &&& d == (default || exists|j: int|
                k <= j < kids.len() && !(#[trigger] e.s.part(kids[j])).test)
        }),
    decreases e.s.kids(i).len() - k,
{
    let kids = e.s.kids(i);
    if k == kids.len() {
        seq![fall]
    } else {
        let c = kids[k];
        let n = w.nodes.len();
        let test = e.s.part(c).test;
        let at = if test {
            1int
        } else {
            0int
        };
        let b = fall.push(disc);
        lemma_settled_ranged(w, b);
        lemma_seq_lowered(e, w, c, at, b);
        let (w1, to) = seq_lowered(e, w, c, at, b);
        let d = to.push(disc);
        assert(b[fall.len() as int] == disc);
        assert(disc < w1.nodes.len());
        assert(in_range(w1, d)) by {
            assert forall|j: int| 0 <= j < d.len() implies #[trigger] d[j] < w1.nodes.len() by {
                if j < to.len() {
                    assert(d[j] == to[j]);
                }
            }
        }
        lemma_cases_grow(e, w1, i, k + 1, disc, to, default || !test);
        let (w2, out, dd) = cases_lowered(
            e,
            w1,
            i,
            k + 1,
            disc,
            to,
            default || !test,
        );
        lemma_goes(w, b, w1, to);
        assert(same_node(w.nodes[disc as int], w1.nodes[disc as int]));
        assert(live(w1, d)) by {
            assert forall|j: int| 0 <= j < d.len() implies (#[trigger] d[j]) < w1.nodes.len()
                && !ends(w1.nodes[d[j] as int]) by {
                if j < to.len() {
                    assert(d[j] == to[j]);
                } else {
                    assert(b[fall.len() as int] == disc);
                    assert(!ends(w.nodes[b[fall.len() as int] as int]));
                }
            }
        }
        let rest = lemma_cases_run(e, w1, nodes, i, k + 1, disc, to, default || !test);
        let r = seq![fall] + rest;
        lemma_goes(w1, d, w2, out.push(disc));
        lemma_stands_on(w1.nodes, w2.nodes, nodes);
        assert(e.s.part(kids[k]).test ==> e.s.kids(kids[k]).len() > 0);
        let fronts = lemma_in_order(e, w, nodes, c, at, b);
        assert(list_runs(e, n, nodes, c, at, b, to));
        assert(r.last() == rest.last());
        assert forall|j: int| k <= j < kids.len() implies #[trigger] case_runs(
            e,
            n,
            nodes,
            kids[j],
            disc,
            r[j - k],
            r[j - k + 1],
        ) by {
            if j > k {
                assert(r[j - k] == rest[j - (k + 1)]);
                assert(r[j - k + 1] == rest[j - (k + 1) + 1]);
                let aj = if e.s.part(kids[j]).test {
                    1int
                } else {
                    0int
                };
                assert(case_runs(
                    e,
                    w1.nodes.len(),
                    nodes,
                    kids[j],
                    disc,
                    rest[j - (k + 1)],
                    rest[j - (k + 1) + 1],
                ));
                let fs = choose|fs: Seq<Seq<usize>>| #[trigger]
                    in_order(
                        e,
                        w1.nodes.len(),
                        nodes,
                        kids[j],
                        aj,
                        fs,
                        r[j - k].push(disc),
                        r[j - k + 1],
                    );
                lemma_order_before(
                    e,
                    w1.nodes.len(),
                    n,
                    nodes,
                    kids[j],
                    aj,
                    fs,
                    r[j - k].push(disc),
                    r[j - k + 1],
                );
            }
        }
        assert(dd == (default || exists|j: int|
            k <= j < kids.len() && !(#[trigger] e.s.part(kids[j])).test)) by {
            if !test {
                assert(!e.s.part(kids[k]).test);
            }
            if exists|j: int| k <= j < kids.len() && !(#[trigger] e.s.part(kids[j])).test {
                let j = choose|j: int| k <= j < kids.len() && !(#[trigger] e.s.part(kids[j])).test;
                if j > k {
                    assert(!e.s.part(kids[j]).test);
                }
            }
        }
        r
    }
}

proof fn lemma_cases_grow(
    e: Env,
    w: JsWalk,
    i: int,
    k: int,
    disc: usize,
    fall: Seq<usize>,
    default: bool,
)
    requires
        ranged(w),
        in_range(w, fall.push(disc)),
        0 <= k,
    ensures
        good(
            w,
            fall.push(disc),
            cases_lowered(e, w, i, k, disc, fall, default).0,
            cases_lowered(e, w, i, k, disc, fall, default).1.push(disc),
        ),
    decreases e.s.kids(i).len() - k,
{
    let b = fall.push(disc);
    if k >= e.s.kids(i).len() {
        lemma_refl(w, b);
    } else {
        let c = e.s.kids(i)[k];
        let at = if e.s.part(c).test {
            1int
        } else {
            0int
        };
        lemma_seq_lowered(e, w, c, at, b);
        let (w1, to) = seq_lowered(e, w, c, at, b);
        let d = to.push(disc);
        assert(b[fall.len() as int] == disc);
        assert(disc < w1.nodes.len());
        assert(in_range(w1, d)) by {
            assert forall|j: int| 0 <= j < d.len() implies #[trigger] d[j] < w1.nodes.len() by {
                if j < to.len() {
                    assert(d[j] == to[j]);
                }
            }
        }
        lemma_cases_grow(e, w1, i, k + 1, disc, to, default || !e.s.part(c).test);
        assert forall|j: int| 0 <= j < d.len() implies b.contains(#[trigger] d[j]) || to.contains(
            d[j],
        ) by {
            if j < to.len() {
                assert(d[j] == to[j]);
            } else {
                assert(b[fall.len() as int] == d[j]);
            }
        }
        assert(among(b, b));
        lemma_refl(w, b);
        lemma_then(w, b, w, b, b, w1, to, d);
        let (w2, out, _d) = cases_lowered(e, w1, i, k + 1, disc, to, default || !e.s.part(c).test);
        lemma_seq(w, b, w1, d, w2, out.push(disc));
    }
}

/// A switch branches on its discriminant: control comes to the statements of
/// each case from there and, where the case before it does not break off, from
/// there too. Control leaves from the end of the last case, from what breaks
/// out of the cases, and from the discriminant where no case is the default.
/// `fronts[k]` is where control stands before the `k`-th case.
pub proof fn a_switch_branches(e: Env, w: JsWalk, i: int, disc: int, open: Seq<usize>) -> (r: (
    usize,
    usize,
    Seq<Seq<usize>>,
))
    requires
        settled(w),
        live(w, open),
        stmt_lowered(e, w, i, open).0.nodes.len() <= usize::MAX,
        e.s.is(i, "SwitchStatement"@),
        e.s.kid(i, 0) == Some(disc),
        forall|j: int|
            1 <= j < e.s.kids(i).len() ==> ((#[trigger] e.s.part(e.s.kids(i)[j])).test ==> e.s.kids(
                e.s.kids(i)[j],
            ).len() > 0),
    ensures
        ({
            let (w1, exits) = stmt_lowered(e, w, i, open);
            let n = w.nodes.len();
            let kids = e.s.kids(i);
            &&& came_to(e, n, w1.nodes, e.s.span(disc), KindView::Branch, open, r.0, r.1)
            &&& r.2.len() == kids.len()
            &&& r.2[0].len() == 0
            &&& forall|k: int|
                1 <= k < kids.len() ==> #[trigger] case_runs(
                    e,
                    n,
                    w1.nodes,
                    kids[k],
                    r.1,
                    r.2[k - 1],
                    r.2[k],
                )
            &&& forall|j: int| 0 <= j < r.2.last().len() ==> exits.contains(#[trigger] r.2.last()[j])
            &&& (forall|k: int| 1 <= k < kids.len() ==> (#[trigger] e.s.part(kids[k])).test)
                ==> exits.contains(r.1)
        }),
{
    lemma_kinds();
    lemma_settled_ranged(w, open);
    let n = w.nodes.len();
    let kids = e.s.kids(i);
    let span = e.s.span(disc);
    let none = Seq::<usize>::empty();
    lemma_unit_after(e, w, span, KindView::Branch, open);
    let (w1, entry, d) = unit_after(e, w, span, KindView::Branch, open);
    let one = seq![d];
    assert(one[0] == d);
    let u = switch_opened(w1);
    assert(u.loops.last() == u.loops[w1.loops.len() as int]);
    lemma_opened_ranged(w1, u, one);
    assert(none.push(d) =~= one);
    lemma_cases_grow(e, u, i, 1, d, none, false);
    let (w2, fall, default) = cases_lowered(e, u, i, 1, d, none, false);
    let (w3, l) = loop_closed(w2);
    assert(loop_ok(w2, w2.loops[w1.loops.len() as int]));
    assert(ranged(w3)) by {
        assert forall|k: int| 0 <= k < w3.loops.len() implies loop_ok(w3, #[trigger] w3.loops[k]) by {
            assert(loop_ok(w2, w2.loops[k]));
        }
    }
    lemma_continues_stand(w3, l.continues, 0);
    let w4 = continues_taken(w3, l.continues, 0);
    let exits = stmt_lowered(e, w, i, open).1;
    lemma_goes(w, open, w1, one);
    lemma_settled_switch(w1, one);
    lemma_goes(u, one, w2, fall.push(d));
    lemma_unit_came(e, w, span, KindView::Branch, open);
    lemma_stands_on(w1.nodes, w2.nodes, w4.nodes);
    lemma_came_stays(e, n, w1.nodes, w4.nodes, span, KindView::Branch, open, entry, d);
    let fronts = lemma_cases_run(e, u, w4.nodes, i, 1, d, none, false);
    assert forall|k: int| 1 <= k < kids.len() implies #[trigger] case_runs(
        e,
        n,
        w4.nodes,
        kids[k],
        d,
        fronts[k - 1],
        fronts[k],
    ) by {
        assert(fronts[k - 1 + 1] == fronts[k]);
        assert(case_runs(
            e,
            u.nodes.len(),
            w4.nodes,
            kids[k],
            d,
            fronts[k - 1],
            fronts[k - 1 + 1],
        ));
        let at = if e.s.part(kids[k]).test {
            1int
        } else {
            0int
        };
        let fs = choose|fs: Seq<Seq<usize>>| #[trigger]
            in_order(
                e,
                u.nodes.len(),
                w4.nodes,
                kids[k],
                at,
                fs,
                fronts[k - 1].push(d),
                fronts[k],
            );
        lemma_order_before(
            e,
            u.nodes.len(),
            n,
            w4.nodes,
            kids[k],
            at,
            fs,
            fronts[k - 1].push(d),
            fronts[k],
        );
    }
    assert forall|j: int| 0 <= j < fronts.last().len() implies exits.contains(
        #[trigger] fronts.last()[j],
    ) by {
        assert(exits[j] == fall[j]);
    }
    if forall|k: int| 1 <= k < kids.len() ==> (#[trigger] e.s.part(kids[k])).test {
        assert(!default);
        assert(exits.last() == d);
    }
    (entry, d, fronts)
}

proof fn lemma_settled_switch(w: JsWalk, ids: Seq<usize>)
    requires
        settled(w),
        live(w, ids),
    ensures
        settled(switch_opened(w)),
        live(switch_opened(w), ids),
{
    let u = switch_opened(w);
    assert forall|k: int| 0 <= k < u.loops.len() implies loop_ok(u, #[trigger] u.loops[k]) && live(
        u,
        u.loops[k].breaks,
    ) && live(u, u.loops[k].continues) by {
        if k < w.loops.len() {
            assert(u.loops[k] == w.loops[k]);
            assert(loop_ok(w, w.loops[k]));
            assert(live(w, w.loops[k].breaks) && live(w, w.loops[k].continues));
        }
    }
}

proof fn lemma_continues_stand(w: JsWalk, nodes: Seq<usize>, k: int)
    requires
        ranged(w),
        in_range(w, nodes),
        0 <= k,
    ensures
        stands(w.nodes, continues_taken(w, nodes, k).nodes),
        continues_taken(w, nodes, k).nodes.len() == w.nodes.len(),
    decreases nodes.len() - k,
{
    assert(stands(w.nodes, w.nodes));
    if k < nodes.len() {
        let none: Option<Seq<char>> = None;
        lemma_loop_meant(w.loops, none, w.loops.len() as int);
        let w1 = continue_taken(w, none, nodes[k]);
        assert(nodes[k] < w.nodes.len());
        assert(stands(w.nodes, w1.nodes) && w1.nodes.len() == w.nodes.len() && ranged(w1)) by {
            if let Some(at) = loop_meant(w.loops, none, w.loops.len() as int) {
                assert(loop_ok(w, w.loops[at]));
                match w.loops[at].target {
                    Some(t) => {
                        lemma_edge_stands(w, nodes[k], t);
                        assert forall|j: int| 0 <= j < w1.loops.len() implies loop_ok(
                            w1,
                            #[trigger] w1.loops[j],
                        ) by {
                            assert(loop_ok(w, w.loops[j]));
                        }
                    },
                    None => {
                        assert forall|j: int| 0 <= j < w1.loops.len() implies loop_ok(
                            w1,
                            #[trigger] w1.loops[j],
                        ) by {
                            assert(loop_ok(w, w.loops[j]));
                            if j == at {
                                let c = w1.loops[j].continues;
                                assert forall|x: int| 0 <= x < c.len() implies #[trigger] c[x]
                                    < w1.nodes.len() by {
                                    if x < w.loops[at].continues.len() {
                                        assert(c[x] == w.loops[at].continues[x]);
                                    }
                                }
                            }
                        }
                    },
                }
            }
        }
        assert(in_range(w1, nodes)) by {
            assert forall|j: int| 0 <= j < nodes.len() implies #[trigger] nodes[j]
                < w1.nodes.len() by {
                assert(nodes[j] < w.nodes.len());
            }
        }
        lemma_continues_stand(w1, nodes, k + 1);
        lemma_stands_on(w.nodes, w1.nodes, continues_taken(w, nodes, k).nodes);
    }
}

} // verus!
