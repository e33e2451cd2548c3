//! How control flows through what a construct comes to: the parts that the
//! constructs of all languages have in common.

use vstd::prelude::*;

use crate::flow::{
    all_lead, is_way, leads, lemma_all_lead_on, lemma_leads_on, lemma_stands_on, stands,
};
use crate::ir::{CallOpacity, KindView, NodeView};
use crate::ts::laws::{
    ends, good, lemma_calls_extracted, lemma_calls_of, lemma_resolved_all_quiet, lemma_stmt,
    lemma_unit_after, live, ranged, same_node, settled,
};
use crate::ts::model::{
    bare_node, behind, call_callee, call_pushed, calls_extracted, calls_in, calls_of, calls_pushed,
    chain_from, edge, entered, error_noted, identifiers_in, link, link_from, loop_closed,
    loop_opened, next_node, pushed, snippet_at, stmt_lowered, unit, unit_after, uses_scanned, Env,
    Walk,
};
use crate::ts::state::in_range;
use crate::ts::tree::{line_at, SyntaxTree};

verus! {

/// Whether a node stands on the line on which a node of the tree starts.
pub open spec fn on_line_of(t: SyntaxTree, i: int, line: Option<u32>) -> bool {
    t[i].row < u32::MAX ==> line == Some((t[i].row + 1) as u32)
}

/// Whether a call was made a node of its own, which names what it calls.
pub open spec fn call_is_there(e: Env, before: nat, nodes: Seq<NodeView>, c: int) -> bool {
    exists|id: int|
        before <= id < nodes.len() && (#[trigger] nodes[id]).kind == (KindView::Call {
            callee: call_callee(e, c),
            opacity: CallOpacity::Opaque,
        }) && on_line_of(e.t, c, nodes[id].line)
}

/// Whether every call at and below a node of the tree was made a node.
pub open spec fn calls_are_there(e: Env, before: nat, nodes: Seq<NodeView>, of: Option<int>) -> bool {
    of matches Some(i) ==> forall|k: int|
        0 <= k < calls_in(e, i).len() ==> call_is_there(e, before, nodes, #[trigger] calls_in(e, i)[k])
}

/// Whether a piece of source came to a node of some kind: the node is new and
/// stands on the line of `at`, the calls of `of` are there, control comes from
/// each of the open nodes to where the piece is entered, and from there to the
/// node.
pub open spec fn came_to(
    e: Env,
    before: nat,
    nodes: Seq<NodeView>,
    at: int,
    of: Option<int>,
    kind: KindView,
    open: Seq<usize>,
    exit: usize,
) -> bool {
    &&& before <= exit < nodes.len()
    &&& nodes[exit as int].kind == kind
    &&& on_line_of(e.t, at, nodes[exit as int].line)
    &&& calls_are_there(e, before, nodes, of)
    &&& exists|entry: usize|
        before <= entry < nodes.len() && all_lead(nodes, open, entry) && #[trigger] leads(
            nodes,
            entry,
            exit,
        )
}

/// Whether what a statement comes to from some state, entered from `from`,
/// stands among the nodes, and control leaves it from `to`.
pub open spec fn ran_from(
    e: Env,
    u: Walk,
    nodes: Seq<NodeView>,
    part: int,
    from: Seq<usize>,
    to: Seq<usize>,
) -> bool {
    stands(stmt_lowered(e, u, part, from).0.nodes, nodes) && stmt_lowered(e, u, part, from).1 == to
}

/// Whether a statement stands among the nodes, entered from `from` and left from
/// `to`.
pub open spec fn runs(
    e: Env,
    before: nat,
    nodes: Seq<NodeView>,
    part: int,
    from: Seq<usize>,
    to: Seq<usize>,
) -> bool {
    exists|u: Walk| u.nodes.len() >= before && #[trigger] ran_from(e, u, nodes, part, from, to)
}

/// Whether the body of a loop with the head `head` stands among the nodes,
/// entered from the head: what goes on with the loop goes to the head, and what
/// breaks out of it is among `exits`.
pub open spec fn body_ran(
    e: Env,
    u: Walk,
    nodes: Seq<NodeView>,
    body: int,
    head: usize,
    to: Seq<usize>,
    exits: Seq<usize>,
) -> bool {
    let v = stmt_lowered(e, u, body, seq![head]).0;
    &&& ran_from(e, u, nodes, body, seq![head], to)
    &&& u.loops.len() > 0
    &&& v.loops.len() == u.loops.len()
    &&& u.loops.last().breaks.len() == 0
    &&& u.loops.last().continue_target == head
    &&& forall|j: int|
        0 <= j < v.loops.last().breaks.len() ==> exits.contains(#[trigger] v.loops.last().breaks[j])
}

/// Whether a loop with the head `head` runs its body again and again: the body
/// is entered from the head, from each of its ends control goes back to the
/// head, and control leaves the loop from the head and from what breaks out of
/// the body.
pub open spec fn repeats(
    e: Env,
    before: nat,
    nodes: Seq<NodeView>,
    body: int,
    head: usize,
    exits: Seq<usize>,
) -> bool {
    &&& exits.len() > 0 && exits[0] == head
    &&& exists|u: Walk, to: Seq<usize>|
        u.nodes.len() >= before && #[trigger] body_ran(e, u, nodes, body, head, to, exits)
            && all_lead(nodes, to, head)
}

/// What is shown of every construct, for states to which it applies.
pub proof fn lemma_goes(w: Walk, a: Seq<usize>, w1: Walk, b: Seq<usize>)
    requires
        good(w, a, w1, b),
        settled(w),
        live(w, a),
        w1.nodes.len() <= usize::MAX,
    ensures
        stands(w.nodes, w1.nodes),
        settled(w1),
        live(w1, b),
{
}

pub proof fn lemma_settled_ranged(w: Walk, a: Seq<usize>)
    requires
        settled(w),
        live(w, a),
    ensures
        ranged(w),
        in_range(w, a),
{
    assert forall|k: int| 0 <= k < a.len() implies #[trigger] a[k] < w.nodes.len() by {
        assert(a[k] < w.nodes.len());
    }
}

/// A report changes nothing else.
pub proof fn lemma_noted(e: Env, w: Walk, i: int, a: Seq<usize>)
    requires
        settled(w),
        live(w, a),
    ensures
        settled(error_noted(e, w, i)),
        live(error_noted(e, w, i), a),
        error_noted(e, w, i).nodes == w.nodes,
        error_noted(e, w, i).loops == w.loops,
        error_noted(e, w, i).scopes == w.scopes,
        error_noted(e, w, i).globals == w.globals,
{
    let u = error_noted(e, w, i);
    assert forall|k: int| 0 <= k < u.loops.len() implies live(u, (#[trigger] u.loops[k]).breaks)
        && in_range(u, u.loops[k].breaks) by {
        assert(live(w, w.loops[k].breaks));
        assert(in_range(w, w.loops[k].breaks));
    }
}

/// An edge more.
pub proof fn lemma_edge_stands(w: Walk, from: usize, to: usize)
    requires
        from < w.nodes.len(),
    ensures
        stands(w.nodes, edge(w, from, to).nodes),
        edge(w, from, to).nodes.len() == w.nodes.len(),
        edge(w, from, to).nodes[from as int].succs.contains(to),
        edge(w, from, to).loops == w.loops,
{
    let n = w.nodes[from as int];
    let w1 = edge(w, from, to);
    if !n.succs.contains(to) {
        let more = n.succs.push(to);
        assert(more[n.succs.len() as int] == to);
        assert(w1.nodes[from as int].succs == more);
        assert forall|k: int, v: usize|
            0 <= k < w.nodes.len() && #[trigger] w.nodes[k].succs.contains(v) implies w1.nodes[k].succs.contains(
            v,
        ) by {
            if k == from {
                let x = choose|x: int| 0 <= x < n.succs.len() && n.succs[x] == v;
                assert(more[x] == v);
            }
        }
    }
}

/// Edges from several nodes.
pub proof fn lemma_link_stands(w: Walk, from: Seq<usize>, k: int, to: usize)
    requires
        0 <= k,
        in_range(w, from),
    ensures
        stands(w.nodes, link_from(w, from, k, to).nodes),
        link_from(w, from, k, to).nodes.len() == w.nodes.len(),
        link_from(w, from, k, to).loops == w.loops,
        forall|j: int|
            k <= j < from.len() ==> link_from(w, from, k, to).nodes[(
            #[trigger] from[j]) as int].succs.contains(to),
    decreases from.len() - k,
{
    if k < from.len() {
        let w1 = edge(w, from[k], to);
        lemma_edge_stands(w, from[k], to);
        assert(in_range(w1, from)) by {
            assert forall|j: int| 0 <= j < from.len() implies #[trigger] from[j] < w1.nodes.len() by {
                assert(from[j] < w.nodes.len());
            }
        }
        lemma_link_stands(w1, from, k + 1, to);
        let w2 = link_from(w, from, k, to);
        lemma_stands_on(w.nodes, w1.nodes, w2.nodes);
        assert forall|j: int| k <= j < from.len() implies w2.nodes[(
        #[trigger] from[j]) as int].succs.contains(to) by {
            assert(from[j] < w.nodes.len());
        }
    }
}

/// Edges from each node to the next.
proof fn lemma_chain_stands(w: Walk, ids: Seq<usize>, k: int)
    requires
        0 <= k,
        in_range(w, ids),
    ensures
        stands(w.nodes, chain_from(w, ids, k).nodes),
        chain_from(w, ids, k).nodes.len() == w.nodes.len(),
        chain_from(w, ids, k).loops == w.loops,
        forall|j: int|
            k <= j < ids.len() - 1 ==> chain_from(w, ids, k).nodes[(
            #[trigger] ids[j]) as int].succs.contains(ids[j + 1]),
    decreases ids.len() - k,
{
    if k + 1 < ids.len() {
        let w1 = edge(w, ids[k], ids[k + 1]);
        lemma_edge_stands(w, ids[k], ids[k + 1]);
        assert(in_range(w1, ids)) by {
            assert forall|j: int| 0 <= j < ids.len() implies #[trigger] ids[j] < w1.nodes.len() by {
                assert(ids[j] < w.nodes.len());
            }
        }
        lemma_chain_stands(w1, ids, k + 1);
        let w2 = chain_from(w, ids, k);
        lemma_stands_on(w.nodes, w1.nodes, w2.nodes);
        assert forall|j: int| k <= j < ids.len() - 1 implies w2.nodes[(
        #[trigger] ids[j]) as int].succs.contains(ids[j + 1]) by {
            assert(ids[j] < w.nodes.len());
        }
    }
}

/// A node behind its calls, entered from the open nodes.
pub proof fn lemma_entered_stands(w: Walk, calls: Seq<usize>, n: NodeView, open: Seq<usize>)
    requires
        w.nodes.len() < usize::MAX,
        in_range(w, calls),
        in_range(w, open),
        forall|j: int|
            0 <= j < calls.len() - 1 ==> w.nodes[(#[trigger] calls[j]) as int].succs.contains(
                calls[j + 1],
            ),
    ensures
        ({
            let (w2, id) = entered(w, calls, n, open);
            let entry = if calls.len() > 0 {
                calls[0]
            } else {
                id
            };
            &&& stands(w.nodes, w2.nodes)
            &&& w2.nodes.len() == w.nodes.len() + 1
            &&& id == w.nodes.len()
            &&& w2.loops == w.loops
            &&& same_node(n, w2.nodes[id as int])
            &&& all_lead(w2.nodes, open, entry)
            &&& leads(w2.nodes, entry, id)
        }),
{
    let id = next_node(w);
    let u = pushed(w, n);
    let (w1, entry) = behind(u, calls, id);
    let w2 = link(w1, open, entry);
    assert(u.nodes[id as int] == n);
    assert(stands(w.nodes, u.nodes));
    assert(stands(u.nodes, u.nodes));
    if calls.len() > 0 {
        assert(calls.last() < w.nodes.len());
        lemma_edge_stands(u, calls.last(), id);
    }
    assert(stands(u.nodes, w1.nodes));
    assert(in_range(w1, open)) by {
        assert forall|j: int| 0 <= j < open.len() implies #[trigger] open[j] < w1.nodes.len() by {
            assert(open[j] < w.nodes.len());
        }
    }
    lemma_link_stands(w1, open, 0, entry);
    lemma_stands_on(w.nodes, u.nodes, w1.nodes);
    lemma_stands_on(w.nodes, w1.nodes, w2.nodes);
    lemma_stands_on(u.nodes, w1.nodes, w2.nodes);
    assert(same_node(u.nodes[id as int], w2.nodes[id as int]));
    let p = calls.push(id);
    assert(is_way(w1.nodes, p)) by {
        assert forall|k: int| 0 <= k < p.len() implies (#[trigger] p[k]) < w1.nodes.len() by {
            if k < calls.len() {
                assert(calls[k] < w.nodes.len());
            }
        }
        assert forall|k: int| 0 <= k < p.len() - 1 implies w1.nodes[(
        #[trigger] p[k]) as int].succs.contains(p[k + 1]) by {
            assert(p[k] == calls[k]);
            assert(calls[k] < w.nodes.len());
            if k < calls.len() - 1 {
                assert(w.nodes[calls[k] as int].succs.contains(calls[k + 1]));
                assert(u.nodes[calls[k] as int].succs.contains(calls[k + 1]));
            }
        }
    }
    assert(p[0] == entry && p.last() == id);
    assert(leads(w1.nodes, entry, id));
    lemma_leads_on(w1.nodes, w2.nodes, entry, id);
}

/// The calls of a unit, each a node of its own.
proof fn lemma_calls_made(e: Env, w: Walk, cs: Seq<int>, k: int, ids: Seq<usize>)
    requires
        0 <= k <= cs.len(),
        ids.len() == k,
        w.nodes.len() + (cs.len() - k) <= usize::MAX,
    ensures
        ({
            let (w1, ids1) = calls_pushed(e, w, cs, k, ids);
            &&& w1.nodes.len() == w.nodes.len() + (cs.len() - k)
            &&& forall|j: int| 0 <= j < w.nodes.len() ==> w1.nodes[j] == #[trigger] w.nodes[j]
            &&& w1.loops == w.loops
            &&& ids1.len() == cs.len()
            &&& forall|b: int| 0 <= b < k ==> ids1[b] == #[trigger] ids[b]
            &&& forall|b: int|
                k <= b < cs.len() ==> #[trigger] ids1[b] == w.nodes.len() + (b - k)
                    && w1.nodes[ids1[b] as int].kind == (KindView::Call {
                    callee: call_callee(e, cs[b]),
                    opacity: CallOpacity::Opaque,
                }) && w1.nodes[ids1[b] as int].line == Some(line_at(e.t, cs[b]))
        }),
    decreases cs.len() - k,
{
    if k < cs.len() {
        let c = cs[k];
        let names = identifiers_in(e, c, None);
        lemma_resolved_all_quiet(w, names, 0, Seq::empty());
        let w1 = call_pushed(e, w, c);
        let id = next_node(w);
        let more = ids.push(id);
        assert(w1.nodes.len() == w.nodes.len() + 1);
        assert(w1.nodes[id as int].kind == (KindView::Call {
            callee: call_callee(e, c),
            opacity: CallOpacity::Opaque,
        }));
        lemma_calls_made(e, w1, cs, k + 1, more);
        let (w2, ids2) = calls_pushed(e, w, cs, k, ids);
        assert(ids2[k] == more[k]);
        assert(w2.nodes[id as int] == w1.nodes[id as int]);
        assert forall|j: int| 0 <= j < w.nodes.len() implies w2.nodes[j] == #[trigger] w.nodes[j] by {
            assert(w1.nodes[j] == w.nodes[j]);
        }
        assert forall|b: int| 0 <= b < k implies ids2[b] == #[trigger] ids[b] by {
            assert(more[b] == ids[b]);
        }
    }
}

/// The calls of a unit as a chain of nodes.
pub proof fn lemma_calls_stand(e: Env, w: Walk, of: Option<int>)
    requires
        of matches Some(i) ==> w.nodes.len() + calls_in(e, i).len() <= usize::MAX,
    ensures
        ({
            let (w1, ids) = calls_of(e, w, of);
            &&& stands(w.nodes, w1.nodes)
            &&& w1.loops == w.loops
            &&& in_range(w1, ids)
            &&& forall|j: int| 0 <= j < ids.len() ==> #[trigger] ids[j] >= w.nodes.len()
            &&& forall|j: int|
                0 <= j < ids.len() - 1 ==> w1.nodes[(#[trigger] ids[j]) as int].succs.contains(
                    ids[j + 1],
                )
            &&& calls_are_there(e, w.nodes.len(), w1.nodes, of)
        }),
{
    assert(stands(w.nodes, w.nodes));
    if let Some(i) = of {
        let none = Seq::<usize>::empty();
        let cs = calls_in(e, i);
        lemma_calls_made(e, w, cs, 0, none);
        let (w1, ids) = calls_pushed(e, w, cs, 0, none);
        assert(in_range(w1, ids));
        lemma_chain_stands(w1, ids, 0);
        let w2 = chain_from(w1, ids, 0);
        assert(stands(w.nodes, w1.nodes));
        lemma_stands_on(w.nodes, w1.nodes, w2.nodes);
        assert forall|k: int| 0 <= k < cs.len() implies call_is_there(
            e,
            w.nodes.len(),
            w2.nodes,
            #[trigger] cs[k],
        ) by {
            let id = ids[k] as int;
            assert(same_node(w1.nodes[id], w2.nodes[id]));
            assert(w2.nodes[id].kind == w1.nodes[id].kind);
        }
    }
}

pub proof fn lemma_calls_stay(
    e: Env,
    more: nat,
    before: nat,
    a: Seq<NodeView>,
    b: Seq<NodeView>,
    of: Option<int>,
)
    requires
        before <= more,
        calls_are_there(e, more, a, of),
        stands(a, b),
    ensures
        calls_are_there(e, before, b, of),
{
    if let Some(i) = of {
        let cs = calls_in(e, i);
        assert forall|k: int| 0 <= k < cs.len() implies call_is_there(
            e,
            before,
            b,
            #[trigger] cs[k],
        ) by {
            assert(call_is_there(e, more, a, cs[k]));
            let id = choose|id: int|
                more <= id < a.len() && (#[trigger] a[id]).kind == (KindView::Call {
                    callee: call_callee(e, cs[k]),
                    opacity: CallOpacity::Opaque,
                }) && on_line_of(e.t, cs[k], a[id].line);
            assert(same_node(a[id], b[id]));
            assert(b[id].kind == a[id].kind);
        }
    }
}

/// What a piece of source came to stays there.
pub proof fn lemma_came_stays(
    e: Env,
    more: nat,
    before: nat,
    a: Seq<NodeView>,
    b: Seq<NodeView>,
    at: int,
    of: Option<int>,
    kind: KindView,
    open: Seq<usize>,
    exit: usize,
)
    requires
        before <= more,
        came_to(e, more, a, at, of, kind, open, exit),
        stands(a, b),
        forall|j: int| 0 <= j < open.len() ==> (#[trigger] open[j]) < a.len(),
    ensures
        came_to(e, before, b, at, of, kind, open, exit),
{
    lemma_calls_stay(e, more, before, a, b, of);
    let entry = choose|entry: usize|
        more <= entry < a.len() && all_lead(a, open, entry) && #[trigger] leads(a, entry, exit);
    lemma_leads_on(a, b, entry, exit);
    lemma_all_lead_on(a, b, open, entry);
    assert(same_node(a[exit as int], b[exit as int]));
}

/// A node behind the calls of a piece of source is what the piece came to.
pub proof fn lemma_entered_came(
    e: Env,
    w: Walk,
    w2: Walk,
    at: int,
    of: Option<int>,
    n: NodeView,
    open: Seq<usize>,
)
    requires
        settled(w),
        live(w, open),
        w2.nodes == calls_of(e, w, of).0.nodes,
        w2.nodes.len() < usize::MAX,
        n.line == Some(line_at(e.t, at)),
    ensures
        ({
            let (w3, id) = entered(w2, calls_of(e, w, of).1, n, open);
            &&& came_to(e, w.nodes.len(), w3.nodes, at, of, n.kind, open, id)
            &&& stands(w.nodes, w3.nodes)
            &&& same_node(n, w3.nodes[id as int])
            &&& w3.loops == w2.loops
            &&& w3.nodes.len() == w2.nodes.len() + 1
        }),
{
    let (w1, calls) = calls_of(e, w, of);
    let n0 = w.nodes.len();
    lemma_settled_ranged(w, open);
    lemma_calls_of(e, w, open, of);
    if let Some(i) = of {
        lemma_calls_extracted(e, w, open, i);
    }
    lemma_calls_stand(e, w, of);
    assert(in_range(w2, calls) && in_range(w2, open)) by {
        assert forall|j: int| 0 <= j < calls.len() implies #[trigger] calls[j] < w2.nodes.len() by {
            assert(calls[j] < w1.nodes.len());
        }
        assert forall|j: int| 0 <= j < open.len() implies #[trigger] open[j] < w2.nodes.len() by {
            assert(open[j] < w.nodes.len());
        }
    }
    lemma_entered_stands(w2, calls, n, open);
    let (w3, id) = entered(w2, calls, n, open);
    lemma_stands_on(w.nodes, w1.nodes, w3.nodes);
    lemma_calls_stay(e, n0, n0, w1.nodes, w3.nodes, of);
    let entry = if calls.len() > 0 {
        calls[0]
    } else {
        id
    };
    assert(leads(w3.nodes, entry, id));
    assert(w3.nodes[id as int].kind == n.kind);
}

/// A unit comes to a node of its kind.
pub proof fn lemma_unit_came(e: Env, w: Walk, i: int, kind: KindView, open: Seq<usize>)
    requires
        settled(w),
        live(w, open),
        unit_after(e, w, i, kind, open).0.nodes.len() <= usize::MAX,
    ensures
        ({
            let (w1, exit) = unit_after(e, w, i, kind, open);
            &&& came_to(e, w.nodes.len(), w1.nodes, i, Some(i), kind, open, exit)
            &&& stands(w.nodes, w1.nodes)
            &&& w1.loops == w.loops
            &&& !(kind is Return || kind is Throw) ==> settled(w1) && live(w1, seq![exit])
        }),
{
    lemma_settled_ranged(w, open);
    lemma_unit_after(e, w, i, kind, open);
    let (w1, calls) = calls_extracted(e, w, i);
    let (w2, uses) = uses_scanned(e, w1, i, Seq::empty());
    lemma_resolved_all_quiet(w1, identifiers_in(e, i, None), 0, Seq::empty());
    let n = bare_node(line_at(e.t, i), kind, Seq::empty(), uses, snippet_at(e, i));
    let (w3, id) = entered(w2, calls, n, open);
    assert(unit_after(e, w, i, kind, open) == (w3, id));
    lemma_entered_len(e, w, w2, calls, n, open, i);
    lemma_entered_came(e, w, w2, i, Some(i), n, open);
    lemma_calls_stand(e, w, Some(i));
    if !(kind is Return || kind is Throw) {
        lemma_goes(w, open, w3, seq![id]);
    }
}

pub proof fn lemma_entered_len(
    e: Env,
    w: Walk,
    w2: Walk,
    calls: Seq<usize>,
    n: NodeView,
    open: Seq<usize>,
    i: int,
)
    requires
        ranged(w),
        in_range(w, open),
        calls == calls_extracted(e, w, i).1,
        w2.nodes == calls_extracted(e, w, i).0.nodes,
    ensures
        entered(w2, calls, n, open).0.nodes.len() == w2.nodes.len() + 1,
        calls_extracted(e, w, i).0.nodes.len() == w.nodes.len() + calls_in(e, i).len(),
{
    lemma_calls_extracted(e, w, open, i);
    let (w1, ids) = calls_extracted(e, w, i);
    let id = next_node(w2);
    let u = pushed(w2, n);
    assert(in_range(u, calls) && in_range(u, open)) by {
        assert forall|j: int| 0 <= j < calls.len() implies #[trigger] calls[j] < u.nodes.len() by {
            assert((open + ids)[open.len() + j] == ids[j]);
        }
        assert forall|j: int| 0 <= j < open.len() implies #[trigger] open[j] < u.nodes.len() by {
            assert(open[j] < w.nodes.len());
        }
    }
    if calls.len() > 0 {
        assert(calls.last() < u.nodes.len());
        lemma_edge_stands(u, calls.last(), id);
    }
    let (v, entry) = behind(u, calls, id);
    assert(in_range(v, open)) by {
        assert forall|j: int| 0 <= j < open.len() implies #[trigger] open[j] < v.nodes.len() by {
            assert(open[j] < u.nodes.len());
        }
    }
    lemma_link_stands(v, open, 0, entry);
}

pub proof fn lemma_ran(
    e: Env,
    before: nat,
    u: Walk,
    nodes: Seq<NodeView>,
    part: int,
    from: Seq<usize>,
    to: Seq<usize>,
)
    requires
        u.nodes.len() >= before,
        stands(stmt_lowered(e, u, part, from).0.nodes, nodes),
        stmt_lowered(e, u, part, from).1 == to,
    ensures
        runs(e, before, nodes, part, from, to),
{
    assert(ran_from(e, u, nodes, part, from, to));
}

pub proof fn lemma_settled_opened(w: Walk, head: usize)
    requires
        settled(w),
        head < w.nodes.len(),
        !ends(w.nodes[head as int]),
    ensures
        settled(loop_opened(w, head)),
        live(loop_opened(w, head), seq![head]),
{
    let u = loop_opened(w, head);
    assert forall|k: int| 0 <= k < u.loops.len() implies (#[trigger] u.loops[k]).continue_target
        < u.nodes.len() && in_range(u, u.loops[k].breaks) && live(u, u.loops[k].breaks) by {
        if k < w.loops.len() {
            assert(w.loops[k].continue_target < w.nodes.len());
            assert(in_range(w, w.loops[k].breaks));
            assert(live(w, w.loops[k].breaks));
        }
    }
}

/// A loop whose head has been added: the ends of its body lead back to it.
pub proof fn lemma_headed(e: Env, before: nat, w1: Walk, head: usize, body: int)
    requires
        settled(w1),
        before <= w1.nodes.len(),
        head < w1.nodes.len(),
        !ends(w1.nodes[head as int]),
        ({
            let (w2, to) = stmt_lowered(e, loop_opened(w1, head), body, seq![head]);
            loop_closed(w2, to, head).0.nodes.len() <= usize::MAX
        }),
    ensures
        ({
            let (w2, to) = stmt_lowered(e, loop_opened(w1, head), body, seq![head]);
            let (w3, exits) = loop_closed(w2, to, head);
            &&& repeats(e, before, w3.nodes, body, head, exits)
            &&& stands(w1.nodes, w3.nodes)
            &&& w3.nodes.len() == w2.nodes.len()
        }),
{
    let one = seq![head];
    let u = loop_opened(w1, head);
    lemma_settled_opened(w1, head);
    lemma_settled_ranged(u, one);
    lemma_stmt(e, u, body, one);
    let (w2, to) = stmt_lowered(e, u, body, one);
    lemma_link_stands(w2, to, 0, head);
    lemma_goes(u, one, w2, to);
    let (w3, exits) = loop_closed(w2, to, head);
    let v = w2.loops.last();
    assert(exits == one + v.breaks);
    assert(u.loops.last() == u.loops[w1.loops.len() as int]);
    assert forall|j: int| 0 <= j < v.breaks.len() implies exits.contains(#[trigger] v.breaks[j]) by {
        assert(exits[j + 1] == v.breaks[j]);
    }
    assert(ran_from(e, u, w3.nodes, body, one, to));
    assert(body_ran(e, u, w3.nodes, body, head, to, exits));
    lemma_stands_on(w1.nodes, w2.nodes, w3.nodes);
    assert(exits[0] == head);
}

} // verus!
