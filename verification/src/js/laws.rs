//! What every lowering of JavaScript keeps, whatever the source.
//!
//! A construct only adds nodes. Control enters what it added from the nodes
//! that were open, leaves it from the returned ones, and goes nowhere else but
//! to the heads of the loops around it. From that follows what holds of every
//! function: nothing comes behind a `return`, and no handler is entered.

use vstd::prelude::*;

use crate::ir::{KindView, NodeView, VarId};
use crate::js::facts::{facts_of, inner_calls_come_first, Facts, FnView, KeyView};
use crate::js::model::{
    all_bound_keys, all_written_keys, behind, bound_inside, bound_keys, break_taken, call_nested,
    call_spans, call_uses, calls_pushed, captures, captures_added, captures_before, cases_lowered, catch_keys,
    catch_lowered, chain_from, continue_taken, continues_taken, declaration_lowered,
    declarators_lowered, declared_keys, direct_temps_added, do_lowered, each_head_lowered,
    each_lowered, edge, entered_at, expression_lowered, finalizer, first_behind, for_body_at,
    for_closed, for_init_lowered, for_lowered, for_test_at, for_test_lowered, for_update_at,
    for_update_lowered, fresh, function_lowered, if_lowered, in_another, inner_before, is_loop, is_statement,
    jump_label, jump_lowered, labeled_lowered, line_of, link, link_from, loop_closed, loop_meant,
    loop_opened, nested_fns, next_node, outer_temps_added, params_lowered, plain, position_of,
    pushed, read_keys, seq_lowered, snippet, stmt_lowered, switch_lowered, switch_opened, sym_keys,
    temp, try_lowered, unit, unit_after, unit_calls, unit_calls_before, unit_defs, unit_uses, var, vars_added,
    vars_listed, while_lowered, with_var, written_keys, Env, JsLoopView, JsWalk,
};
use crate::js::source::{within, Span};
use crate::js::state::{in_range, loop_ok, sound};
use crate::ts::laws::{closed_off, ends, outside, same_node};
use crate::ts::model::bare_node;
use crate::ts::tree::{lemma_kid, size};

verus! {

/// Whether control may go on from each of the nodes.
pub open spec fn live(w: JsWalk, ids: Seq<usize>) -> bool {
    forall|j: int|
        0 <= j < ids.len() ==> (#[trigger] ids[j]) < w.nodes.len() && !ends(
            w.nodes[ids[j] as int],
        )
}

/// Whether what the loops remember are nodes.
pub open spec fn ranged(w: JsWalk) -> bool {
    forall|k: int| 0 <= k < w.loops.len() ==> loop_ok(w, #[trigger] w.loops[k])
}

/// What every operation keeps: the state is sound, nothing comes behind a node
/// at which control leaves the function, and control may go on from what jumps
/// out of an open loop or on with it.
pub open spec fn settled(w: JsWalk) -> bool {
    &&& sound(w)
    &&& forall|k: int|
        0 <= k < w.nodes.len() && ends(#[trigger] w.nodes[k]) ==> w.nodes[k].succs.len() == 0
    &&& forall|k: int|
        0 <= k < w.loops.len() ==> live(w, (#[trigger] w.loops[k]).breaks) && live(
            w,
            w.loops[k].continues,
        )
}

/// Whether an open loop goes on at a node.
pub open spec fn is_head(w: JsWalk, v: usize) -> bool {
    exists|k: int| 0 <= k < w.loops.len() && (#[trigger] w.loops[k]).target == Some(v)
}

/// Where control may go from what is added: to what is added, and to the heads
/// of open loops.
pub open spec fn enters(w: JsWalk, v: usize) -> bool {
    v >= w.nodes.len() || is_head(w, v)
}

/// What becomes of the nodes: those that were there keep what they hold and
/// their edges, and gain edges only if they were open.
pub open spec fn nodes_kept(w: JsWalk, open: Seq<usize>, nodes: Seq<NodeView>) -> bool {
    &&& w.nodes.len() <= nodes.len()
    &&& forall|k: int| 0 <= k < w.nodes.len() ==> same_node(w.nodes[k], #[trigger] nodes[k])
    &&& forall|k: int, v: usize|
        0 <= k < w.nodes.len() && #[trigger] nodes[k].succs.contains(v)
            ==> w.nodes[k].succs.contains(v) || (open.contains(k as usize) && enters(w, v))
    &&& forall|k: int, v: usize|
        0 <= k < w.nodes.len() && #[trigger] w.nodes[k].succs.contains(v)
            ==> nodes[k].succs.contains(v)
    &&& forall|k: int, v: usize|
        w.nodes.len() <= k < nodes.len() && #[trigger] nodes[k].succs.contains(v) ==> enters(w, v)
}

/// What becomes of the loops: those that were open still are, with their labels,
/// and only what is added jumps out of them or on with them.
pub open spec fn loops_kept(w: JsWalk, loops: Seq<JsLoopView>) -> bool {
    &&& w.loops.len() == loops.len()
    &&& forall|k: int|
        0 <= k < loops.len() ==> (#[trigger] loops[k]).target == w.loops[k].target && loops[k].label
            == w.loops[k].label
    &&& forall|k: int, b: usize|
        0 <= k < loops.len() && #[trigger] loops[k].breaks.contains(b)
            ==> w.loops[k].breaks.contains(b) || b >= w.nodes.len()
    &&& forall|k: int, b: usize|
        0 <= k < loops.len() && #[trigger] loops[k].continues.contains(b)
            ==> w.loops[k].continues.contains(b) || b >= w.nodes.len()
}

/// What becomes of the variables: a variable keeps its number.
pub open spec fn vars_kept(before: Seq<KeyView>, after: Seq<KeyView>) -> bool {
    &&& before.len() <= after.len()
    &&& forall|k: int| 0 <= k < before.len() ==> before[k] == #[trigger] after[k]
}

/// What holds between the states before and after a construct that is entered
/// from the open nodes.
pub open spec fn kept(w: JsWalk, open: Seq<usize>, w1: JsWalk) -> bool {
    &&& nodes_kept(w, open, w1.nodes)
    &&& loops_kept(w, w1.loops)
    &&& vars_kept(w.vars, w1.vars)
}

/// Whether each of the nodes was open or has been added.
pub open spec fn came(w: JsWalk, open: Seq<usize>, ids: Seq<usize>) -> bool {
    forall|j: int|
        0 <= j < ids.len() ==> open.contains(#[trigger] ids[j]) || ids[j] >= w.nodes.len()
}

/// What is shown of every construct. A state that has more nodes than there are
/// node ids is left out.
pub open spec fn good(w: JsWalk, open: Seq<usize>, w1: JsWalk, exits: Seq<usize>) -> bool {
    &&& w.nodes.len() <= w1.nodes.len()
    &&& ranged(w1)
    &&& in_range(w1, exits)
    &&& w1.loops.len() == w.loops.len()
    &&& w1.nodes.len() <= usize::MAX && settled(w) && live(w, open) ==> {
        &&& settled(w1)
        &&& kept(w, open, w1)
        &&& live(w1, exits)
        &&& came(w, open, exits)
    }
}

/// Whether a node has been added.
pub open spec fn added(w: JsWalk, w1: JsWalk, id: usize) -> bool {
    id < w1.nodes.len() && (w1.nodes.len() <= usize::MAX ==> id >= w.nodes.len())
}

/// Whether a node has been added, where anything is shown of the states.
pub open spec fn new_if(w: JsWalk, a: Seq<usize>, w1: JsWalk, id: usize) -> bool {
    w1.nodes.len() <= usize::MAX && settled(w) && live(w, a) ==> id >= w.nodes.len()
}

pub open spec fn all_added(w: JsWalk, w1: JsWalk, ids: Seq<usize>) -> bool {
    forall|j: int| 0 <= j < ids.len() ==> added(w, w1, #[trigger] ids[j])
}

pub open spec fn among(some: Seq<usize>, all: Seq<usize>) -> bool {
    forall|j: int| 0 <= j < some.len() ==> all.contains(#[trigger] some[j])
}

pub proof fn lemma_refl(w: JsWalk, open: Seq<usize>)
    requires
        ranged(w),
        in_range(w, open),
    ensures
        good(w, open, w, open),
{
    assert forall|j: int| 0 <= j < open.len() implies open.contains(#[trigger] open[j])
        || open[j] >= w.nodes.len() by {}
}

pub proof fn lemma_weaken(w: JsWalk, a: Seq<usize>, w1: JsWalk, b: Seq<usize>, d: Seq<usize>)
    requires
        good(w, a, w1, b),
        among(d, b),
    ensures
        good(w, a, w1, d),
{
    assert forall|j: int| 0 <= j < d.len() implies (#[trigger] d[j]) < w1.nodes.len() by {
        let i = choose|i: int| 0 <= i < b.len() && b[i] == d[j];
        assert(b[i] < w1.nodes.len());
    }
    if w1.nodes.len() <= usize::MAX && settled(w) && live(w, a) {
        assert forall|j: int| 0 <= j < d.len() implies (#[trigger] d[j]) < w1.nodes.len() && !ends(
            w1.nodes[d[j] as int],
        ) by {
            let i = choose|i: int| 0 <= i < b.len() && b[i] == d[j];
            assert(b[i] < w1.nodes.len());
        }
        assert forall|j: int| 0 <= j < d.len() implies a.contains(#[trigger] d[j]) || d[j]
            >= w.nodes.len() by {
            let i = choose|i: int| 0 <= i < b.len() && b[i] == d[j];
            assert(a.contains(b[i]) || b[i] >= w.nodes.len());
        }
    }
}

/// Node changes in a row. The loops in between may be more than those around,
/// as long as they go on at nodes that have been added.
proof fn lemma_nodes_trans(
    w: JsWalk,
    a: Seq<usize>,
    u: JsWalk,
    b: Seq<usize>,
    nodes: Seq<NodeView>,
)
    requires
        nodes_kept(w, a, u.nodes),
        nodes_kept(u, b, nodes),
        came(w, a, b),
        nodes.len() <= usize::MAX,
        forall|v: usize| #[trigger] is_head(u, v) ==> enters(w, v),
    ensures
        nodes_kept(w, a, nodes),
{
    assert forall|k: int| 0 <= k < w.nodes.len() implies same_node(
        w.nodes[k],
        #[trigger] nodes[k],
    ) by {
        assert(same_node(w.nodes[k], u.nodes[k]));
    }
    assert forall|v: usize| #[trigger] enters(u, v) implies enters(w, v) by {
        if is_head(u, v) {
        }
    }
    assert forall|k: int, v: usize|
        0 <= k < w.nodes.len() && #[trigger] nodes[k].succs.contains(v) implies w.nodes[k].succs.contains(
        v,
    ) || (a.contains(k as usize) && enters(w, v)) by {
        if !u.nodes[k].succs.contains(v) {
            assert(b.contains(k as usize) && enters(u, v));
            let j = choose|j: int| 0 <= j < b.len() && b[j] == k as usize;
            assert(a.contains(b[j]) || b[j] >= w.nodes.len());
        }
    }
    assert forall|k: int, v: usize|
        0 <= k < w.nodes.len() && #[trigger] w.nodes[k].succs.contains(v) implies nodes[k].succs.contains(
        v,
    ) by {
        assert(u.nodes[k].succs.contains(v));
    }
    assert forall|k: int, v: usize|
        w.nodes.len() <= k < nodes.len() && #[trigger] nodes[k].succs.contains(v) implies enters(
        w,
        v,
    ) by {
        if k < u.nodes.len() {
            if !u.nodes[k].succs.contains(v) {
                assert(enters(u, v));
            }
        } else {
            assert(enters(u, v));
        }
    }
}

proof fn lemma_same_heads(w: JsWalk, u: JsWalk)
    requires
        loops_kept(w, u.loops),
    ensures
        forall|v: usize| #[trigger] is_head(u, v) ==> is_head(w, v),
{
    assert forall|v: usize| #[trigger] is_head(u, v) implies is_head(w, v) by {
        let k = choose|k: int| 0 <= k < u.loops.len() && (#[trigger] u.loops[k]).target == Some(v);
        assert(w.loops[k].target == Some(v));
    }
}

proof fn lemma_loops_trans(w: JsWalk, w1: JsWalk, loops: Seq<JsLoopView>)
    requires
        w.nodes.len() <= w1.nodes.len(),
        loops_kept(w, w1.loops),
        loops_kept(w1, loops),
    ensures
        loops_kept(w, loops),
{
    assert forall|k: int| 0 <= k < loops.len() implies (#[trigger] loops[k]).target
        == w.loops[k].target && loops[k].label == w.loops[k].label by {
        assert(w1.loops[k].target == w.loops[k].target);
    }
    assert forall|k: int, x: usize|
        0 <= k < loops.len() && #[trigger] loops[k].breaks.contains(x) implies w.loops[k].breaks.contains(
        x,
    ) || x >= w.nodes.len() by {
        if w1.loops[k].breaks.contains(x) {
        }
    }
    assert forall|k: int, x: usize|
        0 <= k < loops.len() && #[trigger] loops[k].continues.contains(
            x,
        ) implies w.loops[k].continues.contains(x) || x >= w.nodes.len() by {
        if w1.loops[k].continues.contains(x) {
        }
    }
}

/// Two constructs in a row: the second is entered from some of the nodes that
/// the first left open, and what is left open comes from either.
pub proof fn lemma_then(
    w: JsWalk,
    a: Seq<usize>,
    w1: JsWalk,
    b: Seq<usize>,
    b2: Seq<usize>,
    w2: JsWalk,
    c: Seq<usize>,
    d: Seq<usize>,
)
    requires
        good(w, a, w1, b),
        among(b2, b),
        good(w1, b2, w2, c),
        forall|j: int| 0 <= j < d.len() ==> b.contains(#[trigger] d[j]) || c.contains(d[j]),
    ensures
        good(w, a, w2, d),
{
    lemma_weaken(w, a, w1, b, b2);
    assert forall|j: int| 0 <= j < d.len() implies (#[trigger] d[j]) < w2.nodes.len() by {
        if b.contains(d[j]) {
            let i = choose|i: int| 0 <= i < b.len() && b[i] == d[j];
            assert(b[i] < w1.nodes.len());
        } else {
            let i = choose|i: int| 0 <= i < c.len() && c[i] == d[j];
            assert(c[i] < w2.nodes.len());
        }
    }
    if w2.nodes.len() <= usize::MAX && settled(w) && live(w, a) {
        assert(settled(w1) && kept(w, a, w1) && live(w1, b) && came(w, a, b));
        assert(live(w1, b2) && came(w, a, b2));
        assert(settled(w2) && kept(w1, b2, w2) && live(w2, c) && came(w1, b2, c));
        lemma_same_heads(w, w1);
        lemma_nodes_trans(w, a, w1, b2, w2.nodes);
        lemma_loops_trans(w, w1, w2.loops);
        assert(vars_kept(w.vars, w2.vars)) by {
            assert forall|k: int| 0 <= k < w.vars.len() implies w.vars[k] == #[trigger] w2.vars[k] by {
                assert(w.vars[k] == w1.vars[k]);
            }
        }
        assert forall|j: int| 0 <= j < d.len() implies (#[trigger] d[j]) < w2.nodes.len() && !ends(
            w2.nodes[d[j] as int],
        ) by {
            if b.contains(d[j]) {
                let i = choose|i: int| 0 <= i < b.len() && b[i] == d[j];
                assert(b[i] < w1.nodes.len() && !ends(w1.nodes[b[i] as int]));
                assert(same_node(w1.nodes[b[i] as int], w2.nodes[b[i] as int]));
            } else {
                let i = choose|i: int| 0 <= i < c.len() && c[i] == d[j];
                assert(c[i] < w2.nodes.len() && !ends(w2.nodes[c[i] as int]));
            }
        }
        assert forall|j: int| 0 <= j < d.len() implies a.contains(#[trigger] d[j]) || d[j]
            >= w.nodes.len() by {
            if b.contains(d[j]) {
                let i = choose|i: int| 0 <= i < b.len() && b[i] == d[j];
                assert(a.contains(b[i]) || b[i] >= w.nodes.len());
            } else {
                let i = choose|i: int| 0 <= i < c.len() && c[i] == d[j];
                assert(b2.contains(c[i]) || c[i] >= w1.nodes.len());
                if b2.contains(c[i]) {
                    let x = choose|x: int| 0 <= x < b2.len() && b2[x] == c[i];
                    assert(a.contains(b2[x]) || b2[x] >= w.nodes.len());
                }
            }
        }
    }
}

/// Two constructs in a row.
pub proof fn lemma_seq(
    w: JsWalk,
    a: Seq<usize>,
    w1: JsWalk,
    b: Seq<usize>,
    w2: JsWalk,
    c: Seq<usize>,
)
    requires
        good(w, a, w1, b),
        good(w1, b, w2, c),
    ensures
        good(w, a, w2, c),
{
    lemma_then(w, a, w1, b, b, w2, c, c);
}

proof fn lemma_live_same(w: JsWalk, u: JsWalk, ids: Seq<usize>)
    requires
        live(w, ids),
        w.nodes.len() <= u.nodes.len(),
        forall|k: int| 0 <= k < w.nodes.len() ==> w.nodes[k].kind == (#[trigger] u.nodes[k]).kind,
    ensures
        live(u, ids),
{
    assert forall|j: int| 0 <= j < ids.len() implies (#[trigger] ids[j]) < u.nodes.len() && !ends(
        u.nodes[ids[j] as int],
    ) by {
        assert(ids[j] < w.nodes.len() && !ends(w.nodes[ids[j] as int]));
        assert(w.nodes[ids[j] as int].kind == u.nodes[ids[j] as int].kind);
    }
}

proof fn lemma_ranged_grows(w: JsWalk, u: JsWalk)
    requires
        ranged(w),
        w.nodes.len() <= u.nodes.len(),
        u.loops == w.loops,
    ensures
        ranged(u),
{
    assert forall|k: int| 0 <= k < u.loops.len() implies loop_ok(u, #[trigger] u.loops[k]) by {
        assert(loop_ok(w, w.loops[k]));
    }
}

/// A state is settled when its nodes are and its loops were.
proof fn lemma_settled_loops(w: JsWalk, u: JsWalk)
    requires
        settled(w),
        w.nodes.len() <= u.nodes.len() <= usize::MAX,
        u.loops == w.loops,
        forall|k: int| 0 <= k < w.nodes.len() ==> w.nodes[k].kind == (#[trigger] u.nodes[k]).kind,
        forall|x: int, y: int|
            0 <= x < u.nodes.len() && 0 <= y < u.nodes[x].succs.len()
                ==> #[trigger] u.nodes[x].succs[y] < u.nodes.len(),
        forall|k: int|
            0 <= k < u.nodes.len() && ends(#[trigger] u.nodes[k]) ==> u.nodes[k].succs.len() == 0,
    ensures
        settled(u),
{
    lemma_ranged_grows(w, u);
    assert forall|k: int| 0 <= k < u.loops.len() implies live(
        u,
        (#[trigger] u.loops[k]).breaks,
    ) && live(u, u.loops[k].continues) by {
        assert(live(w, w.loops[k].breaks) && live(w, w.loops[k].continues));
        lemma_live_same(w, u, w.loops[k].breaks);
        lemma_live_same(w, u, w.loops[k].continues);
    }
}

/// One edge more, from a node that is open to one that was added or to the
/// head of a loop.
proof fn lemma_edge_more(
    w: JsWalk,
    a: Seq<usize>,
    w1: JsWalk,
    b: Seq<usize>,
    from: usize,
    to: usize,
)
    requires
        good(w, a, w1, b),
        b.contains(from),
        w1.nodes.len() <= usize::MAX && settled(w) && live(w, a) ==> to < w1.nodes.len() && enters(
            w,
            to,
        ),
    ensures
        good(w, a, edge(w1, from, to), b),
        edge(w1, from, to).nodes.len() == w1.nodes.len(),
        edge(w1, from, to).loops == w1.loops,
{
    let i = choose|i: int| 0 <= i < b.len() && b[i] == from;
    assert(b[i] < w1.nodes.len());
    let n = w1.nodes[from as int];
    let w2 = edge(w1, from, to);
    if !n.succs.contains(to) {
        let more = n.succs.push(to);
        assert forall|v: usize| more.contains(v) == (n.succs.contains(v) || v == to) by {
            if n.succs.contains(v) {
                let x = choose|x: int| 0 <= x < n.succs.len() && n.succs[x] == v;
                assert(more[x] == v);
            }
            if v == to {
                assert(more[n.succs.len() as int] == v);
            }
            if more.contains(v) && v != to {
                let x = choose|x: int| 0 <= x < more.len() && more[x] == v;
                assert(n.succs[x] == v);
            }
        }
        assert(w2.nodes[from as int].succs == more);
        if w1.nodes.len() <= usize::MAX && settled(w) && live(w, a) {
            assert(!ends(n));
            assert(settled(w2)) by {
                assert forall|x: int, y: int|
                    0 <= x < w2.nodes.len() && 0 <= y < w2.nodes[x].succs.len() implies
                    #[trigger] w2.nodes[x].succs[y] < w2.nodes.len() by {
                    if x == from {
                        if y < n.succs.len() {
                            assert(w1.nodes[x].succs[y] < w1.nodes.len());
                        }
                    } else {
                        assert(w1.nodes[x].succs[y] < w1.nodes.len());
                    }
                }
                assert forall|k: int|
                    0 <= k < w2.nodes.len() && ends(
                        #[trigger] w2.nodes[k],
                    ) implies w2.nodes[k].succs.len() == 0 by {
                    assert(w2.nodes[k].kind == w1.nodes[k].kind);
                    assert(ends(w1.nodes[k]));
                }
                lemma_settled_loops(w1, w2);
            }
            assert(nodes_kept(w, a, w2.nodes)) by {
                assert forall|k: int| 0 <= k < w.nodes.len() implies same_node(
                    w.nodes[k],
                    #[trigger] w2.nodes[k],
                ) by {
                    assert(same_node(w.nodes[k], w1.nodes[k]));
                }
                assert forall|k: int, v: usize|
                    0 <= k < w.nodes.len() && #[trigger] w2.nodes[k].succs.contains(
                        v,
                    ) implies w.nodes[k].succs.contains(v) || (a.contains(k as usize) && enters(
                    w,
                    v,
                )) by {
                    if k == from && v == to {
                        assert(a.contains(b[i]) || b[i] >= w.nodes.len());
                    } else {
                        assert(w1.nodes[k].succs.contains(v));
                    }
                }
                assert forall|k: int, v: usize|
                    0 <= k < w.nodes.len() && #[trigger] w.nodes[k].succs.contains(
                        v,
                    ) implies w2.nodes[k].succs.contains(v) by {
                    assert(w1.nodes[k].succs.contains(v));
                }
                assert forall|k: int, v: usize|
                    w.nodes.len() <= k < w2.nodes.len() && #[trigger] w2.nodes[k].succs.contains(
                        v,
                    ) implies enters(w, v) by {
                    if !(k == from && v == to) {
                        assert(w1.nodes[k].succs.contains(v));
                    }
                }
            }
            assert forall|j: int| 0 <= j < b.len() implies (#[trigger] b[j]) < w2.nodes.len()
                && !ends(w2.nodes[b[j] as int]) by {
                assert(b[j] < w1.nodes.len() && !ends(w1.nodes[b[j] as int]));
            }
        }
    }
    lemma_ranged_grows(w1, w2);
}

/// Edges from the nodes at `k` and behind it to one node.
proof fn lemma_link_more(
    w: JsWalk,
    a: Seq<usize>,
    w1: JsWalk,
    b: Seq<usize>,
    from: Seq<usize>,
    k: int,
    to: usize,
)
    requires
        good(w, a, w1, b),
        among(from, b),
        0 <= k,
        w1.nodes.len() <= usize::MAX && settled(w) && live(w, a) ==> to < w1.nodes.len() && enters(
            w,
            to,
        ),
    ensures
        good(w, a, link_from(w1, from, k, to), b),
        link_from(w1, from, k, to).nodes.len() == w1.nodes.len(),
        link_from(w1, from, k, to).loops == w1.loops,
    decreases from.len() - k,
{
    if k < from.len() {
        lemma_edge_more(w, a, w1, b, from[k], to);
        lemma_link_more(w, a, edge(w1, from[k], to), b, from, k + 1, to);
    }
}

/// Edges from each added node to the next one.
proof fn lemma_chain_more(w: JsWalk, a: Seq<usize>, w1: JsWalk, b: Seq<usize>, ids: Seq<usize>, k: int)
    requires
        good(w, a, w1, b),
        among(ids, b),
        all_added(w, w1, ids),
        0 <= k,
    ensures
        good(w, a, chain_from(w1, ids, k), b),
        chain_from(w1, ids, k).nodes.len() == w1.nodes.len(),
    decreases ids.len() - k,
{
    if k + 1 < ids.len() {
        assert(added(w, w1, ids[k + 1]));
        lemma_edge_more(w, a, w1, b, ids[k], ids[k + 1]);
        let w2 = edge(w1, ids[k], ids[k + 1]);
        assert(all_added(w, w2, ids)) by {
            assert forall|j: int| 0 <= j < ids.len() implies added(w, w2, #[trigger] ids[j]) by {
                assert(added(w, w1, ids[j]));
            }
        }
        lemma_chain_more(w, a, w2, b, ids, k + 1);
    }
}

/// Whether a step leaves nodes and loops as they are, and variables their
/// numbers.
pub open spec fn quiet(w: JsWalk, w1: JsWalk) -> bool {
    &&& w1.nodes == w.nodes
    &&& w1.loops == w.loops
    &&& vars_kept(w.vars, w1.vars)
}

pub proof fn lemma_quiet_more(w: JsWalk, a: Seq<usize>, w1: JsWalk, b: Seq<usize>, w2: JsWalk)
    requires
        good(w, a, w1, b),
        quiet(w1, w2),
    ensures
        good(w, a, w2, b),
{
    lemma_ranged_grows(w1, w2);
    if w2.nodes.len() <= usize::MAX && settled(w) && live(w, a) {
        lemma_settled_loops(w1, w2);
        assert(vars_kept(w.vars, w2.vars)) by {
            assert forall|k: int| 0 <= k < w.vars.len() implies w.vars[k] == #[trigger] w2.vars[k] by {
                assert(w.vars[k] == w1.vars[k]);
            }
        }
    }
}

pub proof fn lemma_quiet_trans(w: JsWalk, w1: JsWalk, w2: JsWalk)
    requires
        quiet(w, w1),
        quiet(w1, w2),
    ensures
        quiet(w, w2),
{
    assert forall|k: int| 0 <= k < w.vars.len() implies w.vars[k] == #[trigger] w2.vars[k] by {
        assert(w.vars[k] == w1.vars[k]);
    }
}

pub proof fn lemma_vars_added_quiet(w: JsWalk, keys: Seq<KeyView>, k: int, out: Seq<VarId>)
    requires
        0 <= k,
    ensures
        quiet(w, vars_added(w, keys, k, out).0),
    decreases keys.len() - k,
{
    if k < keys.len() {
        let (w1, v) = var(w, keys[k]);
        lemma_vars_added_quiet(w1, keys, k + 1, with_var(out, v));
        lemma_quiet_trans(w, w1, vars_added(w, keys, k, out).0);
    }
}

pub proof fn lemma_vars_listed_quiet(w: JsWalk, keys: Seq<KeyView>, k: int, out: Seq<VarId>)
    requires
        0 <= k,
    ensures
        quiet(w, vars_listed(w, keys, k, out).0),
    decreases keys.len() - k,
{
    if k < keys.len() {
        let (w1, v) = var(w, keys[k]);
        lemma_vars_listed_quiet(w1, keys, k + 1, out.push(v));
        lemma_quiet_trans(w, w1, vars_listed(w, keys, k, out).0);
    }
}

pub proof fn lemma_captures_added_quiet(
    e: Env,
    w: JsWalk,
    fns: Seq<Span>,
    k: int,
    uses: Seq<VarId>,
)
    requires
        0 <= k,
    ensures
        quiet(w, captures_added(e, w, fns, k, uses).0),
    decreases fns.len() - k,
{
    if k < fns.len() {
        let (w1, u1) = vars_added(w, captures(e.f, fns[k]), 0, uses);
        lemma_vars_added_quiet(w, captures(e.f, fns[k]), 0, uses);
        lemma_captures_added_quiet(e, w1, fns, k + 1, u1);
        lemma_quiet_trans(w, w1, captures_added(e, w, fns, k, uses).0);
    }
}

/// One node more, from which control may go on.
pub proof fn lemma_push_more(w: JsWalk, a: Seq<usize>, w1: JsWalk, b: Seq<usize>, n: NodeView)
    requires
        good(w, a, w1, b),
        n.succs.len() == 0,
    ensures
        good(w, a, pushed(w1, n), b),
        !ends(n) ==> good(w, a, pushed(w1, n), b.push(next_node(w1))),
        added(w, pushed(w1, n), next_node(w1)),
        pushed(w1, n).nodes.len() == w1.nodes.len() + 1,
{
    let w2 = pushed(w1, n);
    let id = next_node(w1);
    lemma_ranged_grows(w1, w2);
    assert(in_range(w2, b));
    assert(in_range(w2, b.push(id)));
    if w2.nodes.len() <= usize::MAX && settled(w) && live(w, a) {
        assert(settled(w1));
        assert(settled(w2)) by {
            assert forall|x: int, y: int|
                0 <= x < w2.nodes.len() && 0 <= y < w2.nodes[x].succs.len() implies
                #[trigger] w2.nodes[x].succs[y] < w2.nodes.len() by {
                assert(x < w1.nodes.len());
                assert(w1.nodes[x].succs[y] < w1.nodes.len());
            }
            assert forall|k: int|
                0 <= k < w2.nodes.len() && ends(#[trigger] w2.nodes[k]) implies w2.nodes[k].succs.len()
                == 0 by {
                if k < w1.nodes.len() {
                    assert(ends(w1.nodes[k]));
                }
            }
            lemma_settled_loops(w1, w2);
        }
        assert(nodes_kept(w, a, w2.nodes)) by {
            assert forall|k: int| 0 <= k < w.nodes.len() implies same_node(
                w.nodes[k],
                #[trigger] w2.nodes[k],
            ) by {
                assert(same_node(w.nodes[k], w1.nodes[k]));
            }
            assert forall|k: int, v: usize|
                0 <= k < w.nodes.len() && #[trigger] w2.nodes[k].succs.contains(
                    v,
                ) implies w.nodes[k].succs.contains(v) || (a.contains(k as usize) && enters(
                w,
                v,
            )) by {
                assert(w1.nodes[k].succs.contains(v));
            }
            assert forall|k: int, v: usize|
                0 <= k < w.nodes.len() && #[trigger] w.nodes[k].succs.contains(
                    v,
                ) implies w2.nodes[k].succs.contains(v) by {
                assert(w1.nodes[k].succs.contains(v));
            }
            assert forall|k: int, v: usize|
                w.nodes.len() <= k < w2.nodes.len() && #[trigger] w2.nodes[k].succs.contains(
                    v,
                ) implies enters(w, v) by {
                if k < w1.nodes.len() {
                    assert(w1.nodes[k].succs.contains(v));
                }
            }
        }
        assert(live(w2, b)) by {
            assert forall|j: int| 0 <= j < b.len() implies (#[trigger] b[j]) < w2.nodes.len()
                && !ends(w2.nodes[b[j] as int]) by {
                assert(b[j] < w1.nodes.len() && !ends(w1.nodes[b[j] as int]));
            }
        }
        if !ends(n) {
            let c = b.push(id);
            assert forall|j: int| 0 <= j < c.len() implies (#[trigger] c[j]) < w2.nodes.len()
                && !ends(w2.nodes[c[j] as int]) by {
                if j < b.len() {
                    assert(b[j] < w2.nodes.len() && !ends(w2.nodes[b[j] as int]));
                }
            }
            assert forall|j: int| 0 <= j < c.len() implies a.contains(#[trigger] c[j]) || c[j]
                >= w.nodes.len() by {
                if j < b.len() {
                    assert(a.contains(b[j]) || b[j] >= w.nodes.len());
                }
            }
        }
    }
}

/// The calls of a unit from the `j`-th on.
proof fn lemma_calls_pushed(
    e: Env,
    w: JsWalk,
    a: Seq<usize>,
    w1: JsWalk,
    span: Span,
    j: int,
    ids: Seq<usize>,
    temps: Seq<VarId>,
)
    requires
        0 <= j,
        good(w, a, w1, a + ids),
        all_added(w, w1, ids),
    ensures
        ({
            let (w2, ids2, _t) = calls_pushed(e, w1, span, j, ids, temps);
            good(w, a, w2, a + ids2) && all_added(w, w2, ids2)
        }),
    decreases unit_calls(e.f, span).len() - j,
{
    let cs = unit_calls(e.f, span);
    if j < cs.len() {
        let call = e.f.calls[cs[j]];
        lemma_call_uses_quiet(e, w1, span, j, temps);
        let (u1, uses) = call_uses(e, w1, span, j, temps);
        let (u2, t) = temp(u1);
        assert(quiet(u1, u2));
        lemma_quiet_trans(w1, u1, u2);
        lemma_quiet_more(w, a, w1, a + ids, u2);
        let n = bare_node(
            line_of(e.s.src, call.span.start),
            KindView::Call { callee: call.callee, opacity: crate::ir::CallOpacity::Opaque },
            seq![t],
            uses,
            call.callee,
        );
        lemma_push_more(w, a, u2, a + ids, n);
        let w2 = pushed(u2, n);
        let id = next_node(u2);
        assert((a + ids).push(id) =~= a + ids.push(id));
        assert(all_added(w, w2, ids.push(id))) by {
            assert forall|x: int| 0 <= x < ids.push(id).len() implies added(
                w,
                w2,
                #[trigger] ids.push(id)[x],
            ) by {
                if x < ids.len() {
                    assert(added(w, w1, ids[x]));
                }
            }
        }
        lemma_calls_pushed(e, w, a, w2, span, j + 1, ids.push(id), temps.push(t));
    }
}

pub proof fn lemma_call_uses_quiet(e: Env, w: JsWalk, span: Span, j: int, temps: Seq<VarId>)
    ensures
        quiet(w, call_uses(e, w, span, j, temps).0),
{
    let spans = call_spans(e.f, span);
    let inner = inner_before(spans, spans[j], spans.len() as int);
    let keys = read_keys(e.f, spans[j], span, inner, e.f.refs.len() as int);
    let (w1, u1) = vars_added(w, keys, 0, Seq::empty());
    lemma_vars_added_quiet(w, keys, 0, Seq::empty());
    let u2 = direct_temps_added(spans, temps, spans[j], inner, 0, u1);
    lemma_captures_added_quiet(e, w1, nested_fns(e.f, spans[j]), 0, u2);
    lemma_quiet_trans(w, w1, call_uses(e, w, span, j, temps).0);
}

/// The calls of a unit.
pub proof fn lemma_unit_uses(e: Env, w: JsWalk, a: Seq<usize>, span: Span)
    requires
        ranged(w),
        in_range(w, a),
    ensures
        ({
            let (w1, _u, ids) = unit_uses(e, w, span);
            &&& good(w, a, w1, a + ids)
            &&& all_added(w, w1, ids)
            &&& w1.nodes.len() == w.nodes.len() + unit_calls(e.f, span).len()
        }),
{
    let none = Seq::<usize>::empty();
    lemma_refl(w, a);
    assert(a + none =~= a);
    lemma_calls_pushed(e, w, a, w, span, 0, none, Seq::empty());
    let (w1, ids, temps) = calls_pushed(e, w, span, 0, none, Seq::empty());
    assert(among(ids, a + ids)) by {
        assert forall|j: int| 0 <= j < ids.len() implies (a + ids).contains(
            #[trigger] ids[j],
        ) by {
            assert((a + ids)[a.len() + j] == ids[j]);
        }
    }
    lemma_chain_more(w, a, w1, a + ids, ids, 0);
    lemma_calls_grow(e, w, span, 0, none, Seq::empty());
    let w2 = chain_from(w1, ids, 0);
    let spans = call_spans(e.f, span);
    let keys = read_keys(e.f, span, span, spans, e.f.refs.len() as int);
    let (w3, u1) = vars_added(w2, keys, 0, Seq::empty());
    lemma_vars_added_quiet(w2, keys, 0, Seq::empty());
    let u2 = outer_temps_added(spans, temps, 0, u1);
    lemma_captures_added_quiet(e, w3, nested_fns(e.f, span), 0, u2);
    let w4 = unit_uses(e, w, span).0;
    lemma_quiet_trans(w2, w3, w4);
    lemma_quiet_more(w, a, w2, a + ids, w4);
    lemma_all_added_same(w, w1, w4, ids);
}

proof fn lemma_all_added_same(w: JsWalk, w1: JsWalk, w2: JsWalk, ids: Seq<usize>)
    requires
        all_added(w, w1, ids),
        w2.nodes.len() == w1.nodes.len(),
    ensures
        all_added(w, w2, ids),
{
    assert forall|j: int| 0 <= j < ids.len() implies added(w, w2, #[trigger] ids[j]) by {
        assert(added(w, w1, ids[j]));
    }
}

/// A node behind its calls: control enters at a node that has been added.
proof fn lemma_behind(
    w: JsWalk,
    a: Seq<usize>,
    w1: JsWalk,
    calls: Seq<usize>,
    n: NodeView,
)
    requires
        good(w, a, w1, a + calls),
        all_added(w, w1, calls),
        n.succs.len() == 0,
    ensures
        ({
            let id = next_node(w1);
            let (w2, entry) = behind(pushed(w1, n), calls, id);
            &&& good(w, a, w2, a)
            &&& !ends(n) ==> good(w, a, w2, a.push(id))
            &&& added(w, w2, entry)
            &&& added(w, w2, id)
            &&& w2.nodes.len() == w1.nodes.len() + 1
            &&& w2.loops == w1.loops
        }),
{
    let id = next_node(w1);
    let all = a + calls;
    let w2 = pushed(w1, n);
    lemma_push_more(w, a, w1, all, n);
    let (w3, entry) = behind(w2, calls, id);
    if calls.len() > 0 {
        assert(all[a.len() + calls.len() - 1] == calls.last());
        assert(all.contains(calls.last()));
        lemma_edge_more(w, a, w2, all, calls.last(), id);
        if !ends(n) {
            let more = all.push(id);
            assert(more[a.len() + calls.len() - 1] == calls.last());
            assert(more.contains(calls.last()));
            lemma_edge_more(w, a, w2, more, calls.last(), id);
        }
        assert(added(w, w1, calls[0]));
    }
    assert(among(a, all)) by {
        assert forall|j: int| 0 <= j < a.len() implies all.contains(#[trigger] a[j]) by {
            assert(all[j] == a[j]);
        }
    }
    lemma_weaken(w, a, w3, all, a);
    if !ends(n) {
        let more = all.push(id);
        assert(among(a.push(id), more)) by {
            assert forall|j: int| 0 <= j < a.push(id).len() implies more.contains(
                #[trigger] a.push(id)[j],
            ) by {
                if j < a.len() {
                    assert(more[j] == a[j]);
                } else {
                    assert(more[all.len() as int] == id);
                }
            }
        }
        lemma_weaken(w, a, w3, more, a.push(id));
    }
}

/// A node behind its calls, entered from the open nodes.
pub open spec fn entered(w: JsWalk, calls: Seq<usize>, n: NodeView, open: Seq<usize>) -> (JsWalk, usize) {
    let id = next_node(w);
    let (w1, entry) = behind(pushed(w, n), calls, id);
    (link(w1, open, entry), id)
}

pub proof fn lemma_entered(
    w: JsWalk,
    a: Seq<usize>,
    w1: JsWalk,
    calls: Seq<usize>,
    n: NodeView,
)
    requires
        good(w, a, w1, a + calls),
        all_added(w, w1, calls),
        n.succs.len() == 0,
        !ends(n),
    ensures
        good(w, a, entered(w1, calls, n, a).0, seq![entered(w1, calls, n, a).1]),
        added(w, entered(w1, calls, n, a).0, entered(w1, calls, n, a).1),
        entered(w1, calls, n, a).0.nodes.len() == w1.nodes.len() + 1,
{
    lemma_behind(w, a, w1, calls, n);
    let id = next_node(w1);
    let (w2, entry) = behind(pushed(w1, n), calls, id);
    let b = a.push(id);
    assert(among(a, b)) by {
        assert forall|j: int| 0 <= j < a.len() implies b.contains(#[trigger] a[j]) by {
            assert(b[j] == a[j]);
        }
    }
    lemma_link_more(w, a, w2, b, a, 0, entry);
    let w3 = link(w2, a, entry);
    assert(b[a.len() as int] == id);
    lemma_weaken(w, a, w3, b, seq![id]);
}


/// A unit: control enters at an added node, and leaves at an added node unless
/// it leaves the function.
pub proof fn lemma_unit(e: Env, w: JsWalk, a: Seq<usize>, span: Span, kind: KindView)
    requires
        ranged(w),
        in_range(w, a),
    ensures
        ({
            let (w1, entry, exit) = unit(e, w, span, kind);
            &&& good(w, a, w1, a)
            &&& !(kind is Return || kind is Throw) ==> good(w, a, w1, a.push(exit))
            &&& added(w, w1, entry)
            &&& added(w, w1, exit)
        }),
{
    lemma_unit_uses(e, w, a, span);
    let (w1, uses, calls) = unit_uses(e, w, span);
    let written = written_keys(e.f, span, e.f.refs.len() as int);
    let bound = bound_keys(e.f, span, e.f.bindings.len() as int);
    let (u1, d1) = vars_added(w1, written, 0, Seq::empty());
    lemma_vars_added_quiet(w1, written, 0, Seq::empty());
    lemma_vars_added_quiet(u1, bound, 0, d1);
    let (w2, defs) = unit_defs(e, w1, span);
    lemma_quiet_trans(w1, u1, w2);
    lemma_quiet_more(w, a, w1, a + calls, w2);
    lemma_all_added_same(w, w1, w2, calls);
    lemma_behind(
        w,
        a,
        w2,
        calls,
        bare_node(line_of(e.s.src, span.start), kind, defs, uses, snippet(e.s.src, span)),
    );
}

/// A unit adds its calls and one node.
pub proof fn lemma_unit_sizes(e: Env, w: JsWalk, span: Span, kind: KindView, a: Seq<usize>)
    requires
        ranged(w),
        in_range(w, a),
    ensures
        unit_after(e, w, span, kind, a).0.nodes.len() == unit_uses(e, w, span).0.nodes.len() + 1,
        unit(e, w, span, kind).0.nodes.len() == unit_uses(e, w, span).0.nodes.len() + 1,
        unit_uses(e, w, span).0.nodes.len() == w.nodes.len() + unit_calls(e.f, span).len(),
{
    lemma_unit_uses(e, w, a, span);
    let (w1, uses, calls) = unit_uses(e, w, span);
    let written = written_keys(e.f, span, e.f.refs.len() as int);
    let bound = bound_keys(e.f, span, e.f.bindings.len() as int);
    let (u1, d1) = vars_added(w1, written, 0, Seq::empty());
    lemma_vars_added_quiet(w1, written, 0, Seq::empty());
    lemma_vars_added_quiet(u1, bound, 0, d1);
    let (w2, defs) = unit_defs(e, w1, span);
    lemma_quiet_trans(w1, u1, w2);
    lemma_quiet_more(w, a, w1, a + calls, w2);
    lemma_all_added_same(w, w1, w2, calls);
    let n = bare_node(line_of(e.s.src, span.start), kind, defs, uses, snippet(e.s.src, span));
    lemma_behind(w, a, w2, calls, n);
    let (w3, entry) = behind(pushed(w2, n), calls, next_node(w2));
    lemma_link_more(w, a, w3, a, a, 0, entry);
}

pub proof fn lemma_unit_after(e: Env, w: JsWalk, span: Span, kind: KindView, a: Seq<usize>)
    requires
        ranged(w),
        in_range(w, a),
    ensures
        ({
            let (w1, entry, exit) = unit_after(e, w, span, kind, a);
            &&& good(w, a, w1, Seq::empty())
            &&& !(kind is Return || kind is Throw) ==> good(w, a, w1, seq![exit])
            &&& added(w, w1, entry)
            &&& added(w, w1, exit)
        }),
{
    lemma_unit(e, w, a, span, kind);
    let (w1, entry, exit) = unit(e, w, span, kind);
    assert(among(a, a));
    lemma_link_more(w, a, w1, a, a, 0, entry);
    let w2 = link(w1, a, entry);
    lemma_weaken(w, a, w2, a, Seq::empty());
    if !(kind is Return || kind is Throw) {
        let b = a.push(exit);
        assert(among(a, b)) by {
            assert forall|j: int| 0 <= j < a.len() implies b.contains(#[trigger] a[j]) by {
                assert(b[j] == a[j]);
            }
        }
        lemma_link_more(w, a, w1, b, a, 0, entry);
        assert(b[a.len() as int] == exit);
        lemma_weaken(w, a, w2, b, seq![exit]);
    }
}

proof fn lemma_plain(e: Env, w: JsWalk, span: Span, a: Seq<usize>)
    requires
        ranged(w),
        in_range(w, a),
    ensures
        good(w, a, plain(e, w, span, a).0, plain(e, w, span, a).1),
{
    lemma_unit_after(e, w, span, KindView::Pure, a);
}

/// A node that reads nothing, entered from the open nodes.
proof fn lemma_bare(w: JsWalk, a: Seq<usize>, n: NodeView)
    requires
        ranged(w),
        in_range(w, a),
        n.succs.len() == 0,
        !ends(n),
    ensures
        good(w, a, link(pushed(w, n), a, next_node(w)), seq![next_node(w)]),
        added(w, link(pushed(w, n), a, next_node(w)), next_node(w)),
{
    let none = Seq::<usize>::empty();
    lemma_refl(w, a);
    assert(a + none =~= a);
    lemma_entered(w, a, w, none, n);
}

/// The state with the innermost loop left out.
spec fn without_last(w: JsWalk) -> JsWalk {
    JsWalk { loops: w.loops.drop_last(), ..w }
}

proof fn lemma_edge_commutes(w: JsWalk, from: usize, to: usize)
    ensures
        without_last(edge(w, from, to)) == edge(without_last(w), from, to),
{
}

proof fn lemma_link_commutes(w: JsWalk, from: Seq<usize>, k: int, to: usize)
    requires
        0 <= k,
    ensures
        without_last(link_from(w, from, k, to)) == link_from(without_last(w), from, k, to),
        link_from(w, from, k, to).loops == w.loops,
    decreases from.len() - k,
{
    if k < from.len() {
        lemma_edge_commutes(w, from[k], to);
        lemma_link_commutes(edge(w, from[k], to), from, k + 1, to);
    }
}

/// Whether a state is another with one loop more.
pub open spec fn has_opened(w: JsWalk, u: JsWalk) -> bool {
    &&& u.nodes == w.nodes
    &&& u.vars == w.vars
    &&& u.loops.len() == w.loops.len() + 1
    &&& forall|k: int| 0 <= k < w.loops.len() ==> u.loops[k] == #[trigger] w.loops[k]
    &&& u.loops.last().breaks.len() == 0
    &&& u.loops.last().continues.len() == 0
}

pub proof fn lemma_opened_ranged(w: JsWalk, u: JsWalk, ids: Seq<usize>)
    requires
        ranged(w),
        in_range(w, ids),
        has_opened(w, u),
        u.loops.last().target matches Some(t) ==> t < w.nodes.len(),
    ensures
        ranged(u),
        in_range(u, ids),
{
    assert forall|k: int| 0 <= k < u.loops.len() implies loop_ok(u, #[trigger] u.loops[k]) by {
        if k < w.loops.len() {
            assert(loop_ok(w, w.loops[k]));
            assert(u.loops[k] == w.loops[k]);
        }
    }
}

/// What is left open behind a loop's body: its ends, and what jumps out of it
/// or on with it.
spec fn loose(w: JsWalk, exits: Seq<usize>) -> Seq<usize> {
    exits + w.loops.last().breaks + w.loops.last().continues
}

/// The body of a loop, seen from around the loop.
proof fn lemma_body(
    w: JsWalk,
    a: Seq<usize>,
    w1: JsWalk,
    b: Seq<usize>,
    b2: Seq<usize>,
    u: JsWalk,
    w2: JsWalk,
    c: Seq<usize>,
    d: Seq<usize>,
)
    requires
        good(w, a, w1, b),
        among(b2, b),
        has_opened(w1, u),
        u.loops.last().target matches Some(t) ==> added(w, w1, t),
        good(u, b2, w2, c),
        forall|j: int| 0 <= j < d.len() ==> b.contains(#[trigger] d[j]) || c.contains(d[j]),
    ensures
        good(w, a, without_last(w2), loose(w2, d)),
        forall|j: int|
            0 <= j < w2.loops.last().continues.len() ==> new_if(
                w,
                a,
                w2,
                #[trigger] w2.loops.last().continues[j],
            ),
{
    let n = w.loops.len() as int;
    let w3 = without_last(w2);
    let out = loose(w2, d);
    let breaks = w2.loops.last().breaks;
    let continues = w2.loops.last().continues;
    lemma_weaken(w, a, w1, b, b2);
    assert(loop_ok(w2, w2.loops[n]));
    assert(ranged(w3)) by {
        assert forall|k: int| 0 <= k < w3.loops.len() implies loop_ok(w3, #[trigger] w3.loops[k]) by {
            assert(loop_ok(w2, w2.loops[k]));
        }
    }
    assert(in_range(w3, d)) by {
        assert forall|j: int| 0 <= j < d.len() implies (#[trigger] d[j]) < w3.nodes.len() by {
            if b.contains(d[j]) {
                let i = choose|i: int| 0 <= i < b.len() && b[i] == d[j];
                assert(b[i] < w1.nodes.len());
            } else {
                let i = choose|i: int| 0 <= i < c.len() && c[i] == d[j];
                assert(c[i] < w2.nodes.len());
            }
        }
    }
    assert(in_range(w3, out)) by {
        assert forall|j: int| 0 <= j < out.len() implies (#[trigger] out[j]) < w3.nodes.len() by {
            if j < d.len() {
                assert(d[j] < w3.nodes.len());
            } else if j < d.len() + breaks.len() {
                assert(breaks[j - d.len()] < w2.nodes.len());
            } else {
                assert(continues[j - d.len() - breaks.len()] < w2.nodes.len());
            }
        }
    }
    if w3.nodes.len() <= usize::MAX && settled(w) && live(w, a) {
        assert(settled(w1) && kept(w, a, w1) && live(w1, b) && live(w1, b2) && came(w, a, b));
        assert(came(w, a, b2));
        assert(settled(u)) by {
            assert forall|k: int| 0 <= k < u.loops.len() implies loop_ok(u, #[trigger] u.loops[k])
                && live(u, u.loops[k].breaks) && live(u, u.loops[k].continues) by {
                if k < n {
                    assert(u.loops[k] == w1.loops[k]);
                    assert(loop_ok(w1, w1.loops[k]));
                    assert(live(w1, w1.loops[k].breaks) && live(w1, w1.loops[k].continues));
                }
            }
        }
        assert(live(u, b2));
        assert(settled(w2) && kept(u, b2, w2) && live(w2, c) && came(u, b2, c));
        lemma_same_heads(w, w1);
        assert forall|v: usize| #[trigger] is_head(u, v) implies enters(w, v) by {
            let k = choose|k: int|
                0 <= k < u.loops.len() && (#[trigger] u.loops[k]).target == Some(v);
            if k < n {
                assert(w1.loops[k].target == Some(v));
                assert(is_head(w1, v));
            }
        }
        lemma_nodes_trans(w, a, u, b2, w2.nodes);
        assert(loops_kept(w1, w3.loops)) by {
            assert forall|k: int| 0 <= k < w3.loops.len() implies (#[trigger] w3.loops[k]).target
                == w1.loops[k].target && w3.loops[k].label == w1.loops[k].label by {
                assert(w2.loops[k].target == u.loops[k].target);
            }
            assert forall|k: int, x: usize|
                0 <= k < w3.loops.len() && #[trigger] w3.loops[k].breaks.contains(
                    x,
                ) implies w1.loops[k].breaks.contains(x) || x >= w1.nodes.len() by {
                assert(w2.loops[k].breaks.contains(x));
                assert(u.loops[k] == w1.loops[k]);
            }
            assert forall|k: int, x: usize|
                0 <= k < w3.loops.len() && #[trigger] w3.loops[k].continues.contains(
                    x,
                ) implies w1.loops[k].continues.contains(x) || x >= w1.nodes.len() by {
                assert(w2.loops[k].continues.contains(x));
                assert(u.loops[k] == w1.loops[k]);
            }
        }
        lemma_loops_trans(w, w1, w3.loops);
        assert(vars_kept(w.vars, w3.vars)) by {
            assert forall|k: int| 0 <= k < w.vars.len() implies w.vars[k] == #[trigger] w3.vars[k] by {
                assert(w.vars[k] == w1.vars[k]);
                assert(u.vars[k] == w2.vars[k]);
            }
        }
        assert(settled(w3)) by {
            assert forall|k: int| 0 <= k < w3.loops.len() implies loop_ok(
                w3,
                #[trigger] w3.loops[k],
            ) && live(w3, w3.loops[k].breaks) && live(w3, w3.loops[k].continues) by {
                assert(loop_ok(w2, w2.loops[k]));
                assert(live(w2, w2.loops[k].breaks) && live(w2, w2.loops[k].continues));
            }
            assert forall|k: int|
                0 <= k < w3.nodes.len() && ends(#[trigger] w3.nodes[k]) implies w3.nodes[k].succs.len()
                == 0 by {
                assert(ends(w2.nodes[k]));
            }
        }
        assert(live(w2, w2.loops[n].breaks) && live(w2, w2.loops[n].continues));
        assert forall|j: int| 0 <= j < out.len() implies (#[trigger] out[j]) < w3.nodes.len()
            && !ends(w3.nodes[out[j] as int]) by {
            if j < d.len() {
                if b.contains(d[j]) {
                    let i = choose|i: int| 0 <= i < b.len() && b[i] == d[j];
                    assert(b[i] < w1.nodes.len() && !ends(w1.nodes[b[i] as int]));
                    assert(same_node(u.nodes[b[i] as int], w2.nodes[b[i] as int]));
                } else {
                    let i = choose|i: int| 0 <= i < c.len() && c[i] == d[j];
                    assert(c[i] < w2.nodes.len() && !ends(w2.nodes[c[i] as int]));
                }
            } else if j < d.len() + breaks.len() {
                let x = breaks[j - d.len()];
                assert(x < w2.nodes.len() && !ends(w2.nodes[x as int]));
            } else {
                let x = continues[j - d.len() - breaks.len()];
                assert(x < w2.nodes.len() && !ends(w2.nodes[x as int]));
            }
        }
        assert forall|j: int| 0 <= j < out.len() implies a.contains(#[trigger] out[j]) || out[j]
            >= w.nodes.len() by {
            if j < d.len() {
                if b.contains(d[j]) {
                    let i = choose|i: int| 0 <= i < b.len() && b[i] == d[j];
                    assert(a.contains(b[i]) || b[i] >= w.nodes.len());
                } else {
                    let i = choose|i: int| 0 <= i < c.len() && c[i] == d[j];
                    assert(b2.contains(c[i]) || c[i] >= u.nodes.len());
                    if b2.contains(c[i]) {
                        let x = choose|x: int| 0 <= x < b2.len() && b2[x] == c[i];
                        assert(a.contains(b2[x]) || b2[x] >= w.nodes.len());
                    }
                }
            } else if j < d.len() + breaks.len() {
                let x = breaks[j - d.len()];
                assert(w2.loops[n].breaks.contains(x));
                assert(!u.loops[n].breaks.contains(x));
            } else {
                let x = continues[j - d.len() - breaks.len()];
                assert(w2.loops[n].continues.contains(x));
                assert(!u.loops[n].continues.contains(x));
            }
        }
    }
    assert forall|j: int| 0 <= j < continues.len() implies new_if(
        w,
        a,
        w2,
        #[trigger] continues[j],
    ) by {
        if w2.nodes.len() <= usize::MAX && settled(w) && live(w, a) {
            assert(w2.loops[n].continues.contains(continues[j]));
            assert(!u.loops[n].continues.contains(continues[j]));
            assert(loops_kept(u, w2.loops));
        }
    }
}

proof fn lemma_loose(w: JsWalk, d: Seq<usize>)
    ensures
        among(d, loose(w, d)),
        among(w.loops.last().breaks, loose(w, d)),
        among(w.loops.last().continues, loose(w, d)),
{
    let out = loose(w, d);
    let breaks = w.loops.last().breaks;
    let continues = w.loops.last().continues;
    assert forall|j: int| 0 <= j < d.len() implies out.contains(#[trigger] d[j]) by {
        assert(out[j] == d[j]);
    }
    assert forall|j: int| 0 <= j < breaks.len() implies out.contains(#[trigger] breaks[j]) by {
        assert(out[d.len() + j] == breaks[j]);
    }
    assert forall|j: int| 0 <= j < continues.len() implies out.contains(
        #[trigger] continues[j],
    ) by {
        assert(out[d.len() + breaks.len() + j] == continues[j]);
    }
}

/// The end of a loop whose condition or head is `head`: control leaves it from
/// there and from what breaks out of it.
proof fn lemma_loop_out(w: JsWalk, a: Seq<usize>, w1: JsWalk, b: Seq<usize>, head: usize, breaks: Seq<usize>)
    requires
        good(w, a, w1, b),
        b.contains(head),
        among(breaks, b),
    ensures
        good(w, a, w1, seq![head] + breaks),
{
    let out = seq![head] + breaks;
    assert(among(out, b)) by {
        assert forall|j: int| 0 <= j < out.len() implies b.contains(#[trigger] out[j]) by {
            if j > 0 {
                assert(breaks[j - 1] == out[j]);
            }
        }
    }
    lemma_weaken(w, a, w1, b, out);
}

/// A loop that goes on at a known node: the ends of its body lead back there.
proof fn lemma_headed_loop(
    w: JsWalk,
    a: Seq<usize>,
    w1: JsWalk,
    entry: usize,
    cond: usize,
    w2: JsWalk,
    exits: Seq<usize>,
)
    requires
        good(w, a, w1, seq![cond]),
        added(w, w1, entry),
        good(loop_opened(w1, Some(entry)), seq![cond], w2, exits),
    ensures
        ({
            let (w3, l) = loop_closed(link(w2, exits, entry));
            good(w, a, w3, seq![cond] + l.breaks)
        }),
{
    let one = seq![cond];
    let u = loop_opened(w1, Some(entry));
    assert(u.loops.last() == u.loops[w1.loops.len() as int]);
    let d = exits.push(cond);
    assert(one[0] == cond);
    assert forall|j: int| 0 <= j < d.len() implies one.contains(#[trigger] d[j]) || exits.contains(
        d[j],
    ) by {
        if j < exits.len() {
            assert(exits[j] == d[j]);
        }
    }
    assert(among(one, one));
    lemma_body(w, a, w1, one, one, u, w2, exits, d);
    lemma_loose(w2, d);
    let b = loose(w2, d);
    assert(among(exits, b)) by {
        assert forall|j: int| 0 <= j < exits.len() implies b.contains(#[trigger] exits[j]) by {
            assert(d[j] == exits[j]);
            assert(b.contains(d[j]));
        }
    }
    lemma_link_more(w, a, without_last(w2), b, exits, 0, entry);
    lemma_link_commutes(w2, exits, 0, entry);
    assert(d[exits.len() as int] == cond);
    assert(b.contains(cond));
    lemma_loop_out(w, a, link(without_last(w2), exits, entry), b, cond, w2.loops.last().breaks);
}

/// What jumps out of a loop.
proof fn lemma_break(w: JsWalk, a: Seq<usize>, w1: JsWalk, label: Option<Seq<char>>, exit: usize)
    requires
        good(w, a, w1, seq![exit]),
        added(w, w1, exit),
    ensures
        good(w, a, break_taken(w1, label, exit), Seq::empty()),
{
    let none = Seq::<usize>::empty();
    let one = seq![exit];
    assert(one[0] == exit);
    lemma_weaken(w, a, w1, one, none);
    lemma_loop_meant(w1.loops, label, w1.loops.len() as int);
    if let Some(at) = loop_meant(w1.loops, label, w1.loops.len() as int) {
        let w2 = break_taken(w1, label, exit);
        lemma_jump_kept(w, a, w1, exit, at, w2, true);
    }
}

pub proof fn lemma_loop_meant(loops: Seq<JsLoopView>, label: Option<Seq<char>>, k: int)
    requires
        0 <= k <= loops.len(),
    ensures
        loop_meant(loops, label, k) matches Some(at) ==> 0 <= at < k,
    decreases k,
{
    if k > 0 {
        lemma_loop_meant(loops, label, k - 1);
    }
}

/// A loop remembers one more node that jumps out of it or on with it.
proof fn lemma_jump_kept(
    w: JsWalk,
    a: Seq<usize>,
    w1: JsWalk,
    exit: usize,
    at: int,
    w2: JsWalk,
    breaks: bool,
)
    requires
        good(w, a, w1, seq![exit]),
        new_if(w, a, w1, exit),
        0 <= at < w1.loops.len(),
        ({
            let l = w1.loops[at];
            w2 == JsWalk {
                loops: w1.loops.update(
                    at,
                    if breaks {
                        JsLoopView { breaks: l.breaks.push(exit), ..l }
                    } else {
                        JsLoopView { continues: l.continues.push(exit), ..l }
                    },
                ),
                ..w1
            }
        }),
    ensures
        good(w, a, w2, Seq::empty()),
{
    let one = seq![exit];
    assert(one[0] == exit);
    let l = w1.loops[at];
    assert(loop_ok(w1, l));
    assert(ranged(w2)) by {
        assert forall|k: int| 0 <= k < w2.loops.len() implies loop_ok(w2, #[trigger] w2.loops[k]) by {
            assert(loop_ok(w1, w1.loops[k]));
        }
    }
    if w2.nodes.len() <= usize::MAX && settled(w) && live(w, a) {
        assert(settled(w1) && live(w1, one));
        assert(!ends(w1.nodes[one[0] as int]));
        assert forall|x: usize, s: Seq<usize>| #[trigger] s.push(exit).contains(x) implies s.contains(x)
            || x == exit by {
            let t = s.push(exit);
            let j = choose|j: int| 0 <= j < t.len() && t[j] == x;
            if j < s.len() {
                assert(s[j] == x);
            }
        }
        assert(loops_kept(w, w2.loops)) by {
            assert forall|k: int| 0 <= k < w2.loops.len() implies (#[trigger] w2.loops[k]).target
                == w.loops[k].target && w2.loops[k].label == w.loops[k].label by {
                assert(w1.loops[k].target == w.loops[k].target);
            }
            assert forall|k: int, x: usize|
                0 <= k < w2.loops.len() && #[trigger] w2.loops[k].breaks.contains(
                    x,
                ) implies w.loops[k].breaks.contains(x) || x >= w.nodes.len() by {
                if k == at && breaks {
                    assert(l.breaks.push(exit).contains(x));
                    if x != exit {
                        assert(w1.loops[k].breaks.contains(x));
                    }
                } else {
                    assert(w1.loops[k].breaks.contains(x));
                }
            }
            assert forall|k: int, x: usize|
                0 <= k < w2.loops.len() && #[trigger] w2.loops[k].continues.contains(
                    x,
                ) implies w.loops[k].continues.contains(x) || x >= w.nodes.len() by {
                if k == at && !breaks {
                    assert(l.continues.push(exit).contains(x));
                    if x != exit {
                        assert(w1.loops[k].continues.contains(x));
                    }
                } else {
                    assert(w1.loops[k].continues.contains(x));
                }
            }
        }
        assert(settled(w2)) by {
            assert forall|k: int| 0 <= k < w2.loops.len() implies live(
                w2,
                (#[trigger] w2.loops[k]).breaks,
            ) && live(w2, w2.loops[k].continues) by {
                assert(live(w1, w1.loops[k].breaks) && live(w1, w1.loops[k].continues));
                if k == at {
                    if breaks {
                        lemma_live_push(w1, l.breaks, exit);
                    } else {
                        lemma_live_push(w1, l.continues, exit);
                    }
                }
                lemma_live_same(w1, w2, w2.loops[k].breaks);
                lemma_live_same(w1, w2, w2.loops[k].continues);
            }
            assert forall|k: int|
                0 <= k < w2.nodes.len() && ends(#[trigger] w2.nodes[k]) implies w2.nodes[k].succs.len()
                == 0 by {
                assert(ends(w1.nodes[k]));
            }
        }
    }
}

proof fn lemma_live_push(w: JsWalk, ids: Seq<usize>, id: usize)
    requires
        live(w, ids),
        id < w.nodes.len(),
        !ends(w.nodes[id as int]),
    ensures
        live(w, ids.push(id)),
{
    let t = ids.push(id);
    assert forall|j: int| 0 <= j < t.len() implies (#[trigger] t[j]) < w.nodes.len() && !ends(
        w.nodes[t[j] as int],
    ) by {
        if j < ids.len() {
            assert(ids[j] < w.nodes.len());
        }
    }
}

/// What goes on with a loop: it leads to the loop's head, or is remembered.
proof fn lemma_continue(
    w: JsWalk,
    a: Seq<usize>,
    w1: JsWalk,
    b: Seq<usize>,
    label: Option<Seq<char>>,
    exit: usize,
)
    requires
        good(w, a, w1, b),
        b.contains(exit),
        new_if(w, a, w1, exit),
    ensures
        good(w, a, continue_taken(w1, label, exit), b),
        continue_taken(w1, label, exit).nodes.len() == w1.nodes.len(),
{
    lemma_loop_meant(w1.loops, label, w1.loops.len() as int);
    if let Some(at) = loop_meant(w1.loops, label, w1.loops.len() as int) {
        match w1.loops[at].target {
            Some(t) => {
                if w1.nodes.len() <= usize::MAX && settled(w) && live(w, a) {
                    assert(loop_ok(w1, w1.loops[at]));
                    assert(w.loops[at].target == Some(t));
                    assert(is_head(w, t));
                }
                lemma_edge_more(w, a, w1, b, exit, t);
            },
            None => {
                let one = seq![exit];
                assert(one[0] == exit);
                assert(among(one, b));
                lemma_weaken(w, a, w1, b, one);
                let w2 = continue_taken(w1, label, exit);
                lemma_jump_kept(w, a, w1, exit, at, w2, false);
                if w2.nodes.len() <= usize::MAX && settled(w) && live(w, a) {
                    lemma_live_same(w1, w2, b);
                }
            },
        }
    }
}

pub proof fn lemma_continues(w: JsWalk, a: Seq<usize>, w1: JsWalk, b: Seq<usize>, nodes: Seq<usize>, k: int)
    requires
        good(w, a, w1, b),
        among(nodes, b),
        forall|j: int| 0 <= j < nodes.len() ==> new_if(w, a, w1, #[trigger] nodes[j]),
        0 <= k,
    ensures
        good(w, a, continues_taken(w1, nodes, k), b),
    decreases nodes.len() - k,
{
    if k < nodes.len() {
        lemma_continue(w, a, w1, b, None, nodes[k]);
        let w2 = continue_taken(w1, None, nodes[k]);
        assert forall|j: int| 0 <= j < nodes.len() implies new_if(w, a, w2, #[trigger] nodes[j]) by {
            assert(new_if(w, a, w1, nodes[j]));
        }
        lemma_continues(w, a, w2, b, nodes, k + 1);
    }
}

pub proof fn lemma_declarators(e: Env, w: JsWalk, i: int, k: int, a: Seq<usize>)
    requires
        ranged(w),
        in_range(w, a),
        0 <= k,
    ensures
        good(w, a, declarators_lowered(e, w, i, k, a).0, declarators_lowered(e, w, i, k, a).1),
    decreases e.s.kids(i).len() - k,
{
    if k >= e.s.kids(i).len() {
        lemma_refl(w, a);
    } else {
        let span = e.s.span(e.s.kids(i)[k]);
        lemma_plain(e, w, span, a);
        let (w1, exits) = plain(e, w, span, a);
        lemma_declarators(e, w1, i, k + 1, exits);
        let (w2, out) = declarators_lowered(e, w1, i, k + 1, exits);
        lemma_seq(w, a, w1, exits, w2, out);
    }
}

proof fn lemma_expression(e: Env, w: JsWalk, i: int, a: Seq<usize>)
    requires
        ranged(w),
        in_range(w, a),
    ensures
        good(w, a, expression_lowered(e, w, i, a).0, expression_lowered(e, w, i, a).1),
{
    let span = e.s.span(i);
    lemma_plain(e, w, span, a);
    if let Some(x) = e.s.kid(i, 0) {
        if e.s.is(x, "AssignmentExpression"@) {
            if let Some(left) = e.s.kid(x, 0) {
                let target = e.s.span(left);
                lemma_unit_after(
                    e,
                    w,
                    span,
                    KindView::StateWrite { target: snippet(e.s.src, target) },
                    a,
                );
                lemma_unit_after(e, w, span, KindView::Pure, a);
            }
        } else if e.s.is(x, "CallExpression"@) || e.s.is(x, "NewExpression"@) {
            lemma_unit_uses(e, w, a, span);
            let (w1, uses, calls) = unit_uses(e, w, span);
            lemma_entered(
                w,
                a,
                w1,
                calls,
                bare_node(
                    line_of(e.s.src, span.start),
                    KindView::Pure,
                    Seq::empty(),
                    uses,
                    "<discard>"@,
                ),
            );
        }
    }
}

pub proof fn lemma_each_head(e: Env, w: JsWalk, left: Span, right: Span, a: Seq<usize>)
    requires
        ranged(w),
        in_range(w, a),
    ensures
        good(
            w,
            a,
            each_head_lowered(e, w, left, right, a).0,
            seq![each_head_lowered(e, w, left, right, a).1],
        ),
        added(
            w,
            each_head_lowered(e, w, left, right, a).0,
            each_head_lowered(e, w, left, right, a).1,
        ),
{
    let bound = all_bound_keys(e.f, left, e.f.bindings.len() as int);
    let written = all_written_keys(e.f, left, e.f.refs.len() as int);
    let (w1, d1) = vars_added(w, bound, 0, Seq::empty());
    lemma_vars_added_quiet(w, bound, 0, Seq::empty());
    let (w2, defs) = vars_added(w1, written, 0, d1);
    lemma_vars_added_quiet(w1, written, 0, d1);
    lemma_quiet_trans(w, w1, w2);
    lemma_refl(w, a);
    lemma_quiet_more(w, a, w, a, w2);
    lemma_unit_uses(e, w2, a, right);
    let (w3, uses, calls) = unit_uses(e, w2, right);
    lemma_seq(w, a, w2, a, w3, a + calls);
    assert(all_added(w, w3, calls)) by {
        assert forall|j: int| 0 <= j < calls.len() implies added(w, w3, #[trigger] calls[j]) by {
            assert(added(w2, w3, calls[j]));
        }
    }
    lemma_entered(
        w,
        a,
        w3,
        calls,
        bare_node(line_of(e.s.src, left.start), KindView::Branch, defs, uses, "<for-each>"@),
    );
}

pub proof fn lemma_declaration(e: Env, w: JsWalk, i: int, function: bool, a: Seq<usize>)
    requires
        ranged(w),
        in_range(w, a),
    ensures
        good(
            w,
            a,
            declaration_lowered(e, w, i, function, a).0,
            declaration_lowered(e, w, i, function, a).1,
        ),
{
    let keys = declared_keys(e.s, i);
    let (w1, defs) = vars_listed(w, keys, 0, Seq::empty());
    lemma_vars_listed_quiet(w, keys, 0, Seq::empty());
    let seen = captures(e.f, e.s.span(i));
    lemma_vars_added_quiet(w1, seen, 0, Seq::empty());
    let (w2, uses) = if function {
        vars_added(w1, seen, 0, Seq::empty())
    } else {
        (w1, Seq::empty())
    };
    if function {
        lemma_quiet_trans(w, w1, w2);
    }
    lemma_refl(w, a);
    lemma_quiet_more(w, a, w, a, w2);
    let none = Seq::<usize>::empty();
    assert(a + none =~= a);
    lemma_entered(
        w,
        a,
        w2,
        none,
        bare_node(
            line_of(e.s.src, e.s.span(i).start),
            KindView::Pure,
            defs,
            uses,
            if function {
                "<fndecl>"@
            } else {
                "<classdecl>"@
            },
        ),
    );
}

pub proof fn lemma_jump(e: Env, w: JsWalk, i: int, is_break: bool, a: Seq<usize>)
    requires
        ranged(w),
        in_range(w, a),
    ensures
        good(w, a, jump_lowered(e, w, i, is_break, a), Seq::empty()),
{
    let text = if is_break {
        "break"@
    } else {
        "continue"@
    };
    let n = bare_node(
        line_of(e.s.src, e.s.span(i).start),
        KindView::Pure,
        Seq::empty(),
        Seq::empty(),
        text,
    );
    lemma_bare(w, a, n);
    let id = next_node(w);
    let w2 = link(pushed(w, n), a, id);
    let one = seq![id];
    assert(one[0] == id);
    if is_break {
        lemma_break(w, a, w2, jump_label(e.s, i), id);
    } else {
        lemma_continue(w, a, w2, one, jump_label(e.s, i), id);
        lemma_weaken(w, a, continue_taken(w2, jump_label(e.s, i), id), one, Seq::empty());
    }
}

pub proof fn lemma_seq_lowered(e: Env, w: JsWalk, i: int, k: int, a: Seq<usize>)
    requires
        ranged(w),
        in_range(w, a),
        0 <= k,
    ensures
        good(w, a, seq_lowered(e, w, i, k, a).0, seq_lowered(e, w, i, k, a).1),
    decreases size(e.s.t, i), 1int, e.s.kids(i).len() - k,
{
    broadcast use lemma_kid;

    if k >= e.s.kids(i).len() {
        lemma_refl(w, a);
    } else {
        let c = e.s.kids(i)[k];
        let (w1, exits) = if is_statement(e.s, c) {
            stmt_lowered(e, w, c, a)
        } else {
            (w, a)
        };
        if is_statement(e.s, c) {
            lemma_stmt(e, w, c, a);
        } else {
            lemma_refl(w, a);
        }
        lemma_seq_lowered(e, w1, i, k + 1, exits);
        let (w2, out) = seq_lowered(e, w1, i, k + 1, exits);
        lemma_seq(w, a, w1, exits, w2, out);
    }
}

proof fn lemma_if(e: Env, w: JsWalk, i: int, a: Seq<usize>)
    requires
        ranged(w),
        in_range(w, a),
    ensures
        good(w, a, if_lowered(e, w, i, a).0, if_lowered(e, w, i, a).1),
    decreases size(e.s.t, i), 4int, 0int,
{
    broadcast use lemma_kid;

    match (e.s.kid(i, 0), e.s.kid(i, 1)) {
        (Some(test), Some(then_)) => {
            lemma_unit_after(e, w, e.s.span(test), KindView::Branch, a);
            let (w1, _entry, cond) = unit_after(e, w, e.s.span(test), KindView::Branch, a);
            let one = seq![cond];
            lemma_stmt(e, w1, then_, one);
            let (w2, exits) = stmt_lowered(e, w1, then_, one);
            let b = exits.push(cond);
            assert forall|j: int| 0 <= j < b.len() implies one.contains(#[trigger] b[j])
                || exits.contains(b[j]) by {
                if j == exits.len() {
                    assert(one[0] == b[j]);
                } else {
                    assert(exits[j] == b[j]);
                }
            }
            assert(among(one, one));
            lemma_then(w, a, w1, one, one, w2, exits, b);
            assert(b[exits.len() as int] == cond);
            assert(cond < w2.nodes.len());
            if let Some(alt) = e.s.kid(i, 2) {
                lemma_stmt(e, w2, alt, one);
                let (w3, more) = stmt_lowered(e, w2, alt, one);
                assert(among(one, b));
                let d = exits + more;
                assert forall|j: int| 0 <= j < d.len() implies b.contains(#[trigger] d[j])
                    || more.contains(d[j]) by {
                    if j < exits.len() {
                        assert(b[j] == d[j]);
                    } else {
                        assert(more[j - exits.len()] == d[j]);
                    }
                }
                lemma_then(w, a, w2, b, one, w3, more, d);
            }
        },
        _ => lemma_plain(e, w, e.s.span(i), a),
    }
}

pub proof fn lemma_opened(w: JsWalk, target: Option<usize>, ids: Seq<usize>)
    requires
        ranged(w),
        in_range(w, ids),
        target matches Some(t) ==> t < w.nodes.len(),
    ensures
        has_opened(w, loop_opened(w, target)),
        ranged(loop_opened(w, target)),
        in_range(loop_opened(w, target), ids),
{
    let u = loop_opened(w, target);
    assert(u.loops.last() == u.loops[w.loops.len() as int]);
    lemma_opened_ranged(w, u, ids);
}

proof fn lemma_while(e: Env, w: JsWalk, i: int, a: Seq<usize>)
    requires
        ranged(w),
        in_range(w, a),
    ensures
        good(w, a, while_lowered(e, w, i, a).0, while_lowered(e, w, i, a).1),
    decreases size(e.s.t, i), 4int, 0int,
{
    broadcast use lemma_kid;

    match (e.s.kid(i, 0), e.s.kid(i, 1)) {
        (Some(test), Some(body)) => {
            lemma_unit_after(e, w, e.s.span(test), KindView::Branch, a);
            let (w1, entry, cond) = unit_after(e, w, e.s.span(test), KindView::Branch, a);
            lemma_opened(w1, Some(entry), seq![cond]);
            let u = loop_opened(w1, Some(entry));
            lemma_stmt(e, u, body, seq![cond]);
            let (w2, exits) = stmt_lowered(e, u, body, seq![cond]);
            lemma_headed_loop(w, a, w1, entry, cond, w2, exits);
        },
        _ => lemma_plain(e, w, e.s.span(i), a),
    }
}

pub proof fn lemma_first_behind(succs: Seq<usize>, first: usize, k: int)
    requires
        0 <= k,
    ensures
        first_behind(succs, first, k) >= first,
        first_behind(succs, first, k) == first || succs.contains(first_behind(succs, first, k)),
    decreases succs.len() - k,
{
    if k < succs.len() && succs[k] < first {
        lemma_first_behind(succs, first, k + 1);
    }
}

proof fn lemma_do(e: Env, w: JsWalk, i: int, a: Seq<usize>)
    requires
        ranged(w),
        in_range(w, a),
    ensures
        good(w, a, do_lowered(e, w, i, a).0, do_lowered(e, w, i, a).1),
    decreases size(e.s.t, i), 4int, 0int,
{
    broadcast use lemma_kid;

    match (e.s.kid(i, 0), e.s.kid(i, 1)) {
        (Some(body), Some(test)) => {
            let first = next_node(w);
            lemma_opened(w, None, a);
            let u = loop_opened(w, None);
            lemma_stmt(e, u, body, a);
            let (w1, exits) = stmt_lowered(e, u, body, a);
            lemma_unit_after(e, w1, e.s.span(test), KindView::Branch, exits);
            let (w2, entry, cond) = unit_after(e, w1, e.s.span(test), KindView::Branch, exits);
            let one = seq![cond];
            lemma_seq(u, a, w1, exits, w2, one);
            lemma_refl(w, a);
            assert(among(a, a));
            lemma_body(w, a, w, a, a, u, w2, one, one);
            lemma_loose(w2, one);
            let b = loose(w2, one);
            assert(one[0] == cond);
            assert(b.contains(cond));
            let start = entered_at(w2, a, first);
            let w3 = without_last(w2);
            if w3.nodes.len() <= usize::MAX && settled(w) && live(w, a) {
                if a.len() > 0 {
                    let succs = w2.nodes[a[0] as int].succs;
                    lemma_first_behind(succs, first, 0);
                    assert(a[0] < w.nodes.len());
                    if succs.contains(start) {
                        let x = choose|x: int| 0 <= x < succs.len() && succs[x] == start;
                        assert(w3.nodes[a[0] as int].succs[x] < w3.nodes.len());
                    }
                }
            }
            lemma_edge_more(w, a, w3, b, cond, start);
            lemma_edge_commutes(w2, cond, start);
            let w4 = edge(w3, cond, start);
            assert(added(w, w4, entry));
            lemma_link_more(w, a, w4, b, w2.loops.last().continues, 0, entry);
            let w5 = link(w4, w2.loops.last().continues, entry);
            lemma_loop_out(w, a, w5, b, cond, w2.loops.last().breaks);
        },
        _ => lemma_plain(e, w, e.s.span(i), a),
    }
}

pub proof fn lemma_for_init(e: Env, w: JsWalk, i: int, a: Seq<usize>)
    requires
        ranged(w),
        in_range(w, a),
    ensures
        good(w, a, for_init_lowered(e, w, i, a).0, for_init_lowered(e, w, i, a).1),
{
    lemma_refl(w, a);
    if let Some(init) = e.s.kid(i, 0) {
        lemma_declarators(e, w, init, 0, a);
        lemma_plain(e, w, e.s.span(init), a);
    }
}

/// The condition of a `for`, before anything leads to it.
pub proof fn lemma_for_test(e: Env, w: JsWalk, i: int, a: Seq<usize>)
    requires
        ranged(w),
        in_range(w, a),
    ensures
        ({
            let (w1, entry, cond) = for_test_lowered(e, w, i);
            good(w, a, w1, a.push(cond)) && added(w, w1, entry) && added(w, w1, cond)
        }),
{
    lemma_refl(w, a);
    let n = bare_node(
        line_of(e.s.src, e.s.span(i).start),
        KindView::Branch,
        Seq::empty(),
        Seq::empty(),
        "<for>"@,
    );
    lemma_push_more(w, a, w, a, n);
    if let Some(test) = e.s.kid(i, for_test_at(e.s.part(i))) {
        lemma_unit(e, w, a, e.s.span(test), KindView::Branch);
    }
}

/// The condition of a `for`, entered from the open nodes.
pub proof fn lemma_for_entered(e: Env, w1: JsWalk, i: int, open1: Seq<usize>)
    requires
        ranged(w1),
        in_range(w1, open1),
    ensures
        ({
            let (w2, entry, cond) = for_test_lowered(e, w1, i);
            good(w1, open1, link(w2, open1, entry), seq![cond])
        }),
{
    lemma_for_test(e, w1, i, open1);
    let (w2, entry, cond) = for_test_lowered(e, w1, i);
    let b1 = open1.push(cond);
    assert(among(open1, b1)) by {
        assert forall|j: int| 0 <= j < open1.len() implies b1.contains(#[trigger] open1[j]) by {
            assert(b1[j] == open1[j]);
        }
    }
    lemma_link_more(w1, open1, w2, b1, open1, 0, entry);
    let w3 = link(w2, open1, entry);
    let one = seq![cond];
    assert(b1[open1.len() as int] == cond);
    assert(among(one, b1));
    lemma_weaken(w1, open1, w3, b1, one);
}

pub proof fn lemma_for_update(e: Env, w: JsWalk, i: int, a: Seq<usize>)
    requires
        ranged(w),
        in_range(w, a),
    ensures
        good(w, a, for_update_lowered(e, w, i, a).0, for_update_lowered(e, w, i, a).1),
        for_update_lowered(e, w, i, a).2 matches Some(u) ==> added(
            w,
            for_update_lowered(e, w, i, a).0,
            u,
        ),
{
    lemma_refl(w, a);
    if let Some(update) = e.s.kid(i, for_update_at(e.s.part(i))) {
        lemma_unit_after(e, w, e.s.span(update), KindView::Pure, a);
    }
}

proof fn lemma_for_closed(
    w: JsWalk,
    a: Seq<usize>,
    w2: JsWalk,
    b: Seq<usize>,
    entry: usize,
    cond: usize,
    after: Seq<usize>,
    again: usize,
)
    requires
        good(w, a, without_last(w2), b),
        b.contains(cond),
        among(after, b),
        among(w2.loops.last().breaks, b),
        among(w2.loops.last().continues, b),
        added(w, w2, entry),
        added(w, w2, again),
    ensures
        good(
            w,
            a,
            for_closed(w2, entry, cond, after, again).0,
            for_closed(w2, entry, cond, after, again).1,
        ),
{
    let w3 = without_last(w2);
    lemma_link_more(w, a, w3, b, after, 0, entry);
    lemma_link_commutes(w2, after, 0, entry);
    let w4 = link(w3, after, entry);
    lemma_link_more(w, a, w4, b, w2.loops.last().continues, 0, again);
    let w5 = link(w4, w2.loops.last().continues, again);
    lemma_loop_out(w, a, w5, b, cond, w2.loops.last().breaks);
}

proof fn lemma_for(e: Env, w: JsWalk, i: int, a: Seq<usize>)
    requires
        ranged(w),
        in_range(w, a),
    ensures
        good(w, a, for_lowered(e, w, i, a).0, for_lowered(e, w, i, a).1),
    decreases size(e.s.t, i), 4int, 0int,
{
    broadcast use lemma_kid;

    match e.s.kid(i, for_body_at(e.s.part(i))) {
        Some(body) => {
            lemma_for_init(e, w, i, a);
            let (w1, open1) = for_init_lowered(e, w, i, a);
            lemma_for_test(e, w1, i, open1);
            let (w2, entry, cond) = for_test_lowered(e, w1, i);
            let b1 = open1.push(cond);
            assert(among(open1, b1)) by {
                assert forall|j: int| 0 <= j < open1.len() implies b1.contains(
                    #[trigger] open1[j],
                ) by {
                    assert(b1[j] == open1[j]);
                }
            }
            lemma_link_more(w1, open1, w2, b1, open1, 0, entry);
            let w3 = link(w2, open1, entry);
            let one = seq![cond];
            assert(b1[open1.len() as int] == cond);
            assert(among(one, b1));
            lemma_weaken(w1, open1, w3, b1, one);
            lemma_seq(w, a, w1, open1, w3, one);
            assert(one[0] == cond);
            lemma_opened(w3, None, one);
            let u = loop_opened(w3, None);
            lemma_stmt(e, u, body, one);
            let (w4, exits) = stmt_lowered(e, u, body, one);
            lemma_for_update(e, w4, i, exits);
            let (w5, after, update) = for_update_lowered(e, w4, i, exits);
            let again = match update {
                Some(u) => u,
                None => entry,
            };
            lemma_seq(u, one, w4, exits, w5, after);
            let d = after.push(cond);
            assert forall|j: int| 0 <= j < d.len() implies one.contains(#[trigger] d[j])
                || after.contains(d[j]) by {
                if j < after.len() {
                    assert(after[j] == d[j]);
                }
            }
            assert(among(one, one));
            lemma_body(w, a, w3, one, one, u, w5, after, d);
            lemma_loose(w5, d);
            let b = loose(w5, d);
            assert(d[after.len() as int] == cond);
            assert(b.contains(cond));
            assert(among(after, b)) by {
                assert forall|j: int| 0 <= j < after.len() implies b.contains(
                    #[trigger] after[j],
                ) by {
                    assert(d[j] == after[j]);
                    assert(b.contains(d[j]));
                }
            }
            assert(added(w, w5, entry));
            assert(added(w, w5, again));
            lemma_for_closed(w, a, w5, b, entry, cond, after, again);
        },
        None => lemma_plain(e, w, e.s.span(i), a),
    }
}

proof fn lemma_each(e: Env, w: JsWalk, i: int, a: Seq<usize>)
    requires
        ranged(w),
        in_range(w, a),
    ensures
        good(w, a, each_lowered(e, w, i, a).0, each_lowered(e, w, i, a).1),
    decreases size(e.s.t, i), 4int, 0int,
{
    broadcast use lemma_kid;

    match (e.s.kid(i, 0), e.s.kid(i, 1), e.s.kid(i, 2)) {
        (Some(left), Some(right), Some(body)) => {
            lemma_each_head(e, w, e.s.span(left), e.s.span(right), a);
            let (w1, head) = each_head_lowered(e, w, e.s.span(left), e.s.span(right), a);
            lemma_opened(w1, Some(head), seq![head]);
            let u = loop_opened(w1, Some(head));
            lemma_stmt(e, u, body, seq![head]);
            let (w2, exits) = stmt_lowered(e, u, body, seq![head]);
            lemma_headed_loop(w, a, w1, head, head, w2, exits);
        },
        _ => lemma_plain(e, w, e.s.span(i), a),
    }
}

pub proof fn lemma_cases(
    e: Env,
    w: JsWalk,
    w1: JsWalk,
    i: int,
    k: int,
    disc: usize,
    fall: Seq<usize>,
    default: bool,
)
    requires
        good(w, seq![disc], w1, fall.push(disc)),
        0 <= k,
    ensures
        ({
            let (w2, out, _d) = cases_lowered(e, w1, i, k, disc, fall, default);
            good(w, seq![disc], w2, out.push(disc))
        }),
    decreases size(e.s.t, i), 2int, e.s.kids(i).len() - k,
{
    broadcast use lemma_kid;

    if k < e.s.kids(i).len() {
        let c = e.s.kids(i)[k];
        let at = if e.s.part(c).test {
            1int
        } else {
            0int
        };
        let b = fall.push(disc);
        lemma_seq_lowered(e, w1, c, at, b);
        let (w2, exits) = seq_lowered(e, w1, c, at, b);
        let d = exits.push(disc);
        assert(b[fall.len() as int] == disc);
        assert forall|j: int| 0 <= j < d.len() implies b.contains(#[trigger] d[j])
            || exits.contains(d[j]) by {
            if j < exits.len() {
                assert(exits[j] == d[j]);
            }
        }
        assert(among(b, b));
        lemma_then(w, seq![disc], w1, b, b, w2, exits, d);
        lemma_cases(e, w, w2, i, k + 1, disc, exits, default || !e.s.part(c).test);
    }
}

proof fn lemma_switch(e: Env, w: JsWalk, i: int, a: Seq<usize>)
    requires
        ranged(w),
        in_range(w, a),
    ensures
        good(w, a, switch_lowered(e, w, i, a).0, switch_lowered(e, w, i, a).1),
    decreases size(e.s.t, i), 4int, 0int,
{
    broadcast use lemma_kid;

    match e.s.kid(i, 0) {
        Some(d) => {
            let none = Seq::<usize>::empty();
            lemma_unit_after(e, w, e.s.span(d), KindView::Branch, a);
            let (w1, _entry, disc) = unit_after(e, w, e.s.span(d), KindView::Branch, a);
            let one = seq![disc];
            assert(one[0] == disc);
            let u = switch_opened(w1);
            assert(u.loops.last() == u.loops[w1.loops.len() as int]);
            lemma_opened_ranged(w1, u, one);
            lemma_refl(u, one);
            assert(none.push(disc) =~= one);
            lemma_cases(e, u, u, i, 1, disc, none, false);
            let (w2, fall, default) = cases_lowered(e, u, i, 1, disc, none, false);
            let c = fall.push(disc);
            assert forall|j: int| 0 <= j < c.len() implies one.contains(#[trigger] c[j])
                || c.contains(c[j]) by {}
            assert(among(one, one));
            lemma_body(w, a, w1, one, one, u, w2, c, c);
            lemma_loose(w2, c);
            let b = loose(w2, c);
            let w3 = without_last(w2);
            let l = w2.loops.last();
            assert forall|j: int| 0 <= j < l.continues.len() implies new_if(
                w,
                a,
                w3,
                #[trigger] l.continues[j],
            ) by {
                assert(new_if(w, a, w2, w2.loops.last().continues[j]));
            }
            lemma_continues(w, a, w3, b, l.continues, 0);
            let w4 = continues_taken(w3, l.continues, 0);
            let exits = fall + l.breaks;
            let out = exits.push(disc);
            assert(among(out, b)) by {
                assert forall|j: int| 0 <= j < out.len() implies b.contains(#[trigger] out[j]) by {
                    if j < fall.len() {
                        assert(c[j] == out[j]);
                        assert(b.contains(c[j]));
                    } else if j < exits.len() {
                        assert(l.breaks[j - fall.len()] == out[j]);
                        assert(b.contains(l.breaks[j - fall.len()]));
                    } else {
                        assert(c[fall.len() as int] == disc);
                        assert(b.contains(c[fall.len() as int]));
                    }
                }
            }
            assert(among(exits, b)) by {
                assert forall|j: int| 0 <= j < exits.len() implies b.contains(
                    #[trigger] exits[j],
                ) by {
                    assert(out[j] == exits[j]);
                    assert(b.contains(out[j]));
                }
            }
            lemma_weaken(w, a, w4, b, out);
            lemma_weaken(w, a, w4, b, exits);
        },
        None => lemma_plain(e, w, e.s.span(i), a),
    }
}

pub proof fn lemma_catch(e: Env, w: JsWalk, i: int)
    requires
        ranged(w),
    ensures
        good(w, Seq::empty(), catch_lowered(e, w, i), Seq::empty()),
    decreases size(e.s.t, i), 3int, 0int,
{
    broadcast use lemma_kid;

    let none = Seq::<usize>::empty();
    lemma_refl(w, none);
    let keys = catch_keys(e, i);
    let (w1, defs) = vars_listed(w, keys, 0, Seq::empty());
    lemma_vars_listed_quiet(w, keys, 0, Seq::empty());
    lemma_quiet_more(w, none, w, none, w1);
    let id = next_node(w1);
    let n = bare_node(
        line_of(e.s.src, e.s.span(i).start),
        KindView::Pure,
        defs,
        Seq::empty(),
        "<catch>"@,
    );
    lemma_push_more(w, none, w1, none, n);
    let w2 = pushed(w1, n);
    let one = seq![id];
    assert(none.push(id) =~= one);
    if let Some(body) = e.s.kid_of(i, "BlockStatement"@) {
        lemma_seq_lowered(e, w2, body, 0, one);
        let (w3, exits) = seq_lowered(e, w2, body, 0, one);
        lemma_seq(w, none, w2, one, w3, exits);
        lemma_weaken(w, none, w3, exits, none);
    }
}

proof fn lemma_try(e: Env, w: JsWalk, i: int, a: Seq<usize>)
    requires
        ranged(w),
        in_range(w, a),
    ensures
        good(w, a, try_lowered(e, w, i, a).0, try_lowered(e, w, i, a).1),
    decreases size(e.s.t, i), 4int, 0int,
{
    broadcast use lemma_kid;

    let none = Seq::<usize>::empty();
    match e.s.kid(i, 0) {
        Some(block) => {
            lemma_seq_lowered(e, w, block, 0, a);
            let (w1, exits) = seq_lowered(e, w, block, 0, a);
            let w2 = match e.s.kid_of(i, "CatchClause"@) {
                Some(h) => catch_lowered(e, w1, h),
                None => w1,
            };
            match e.s.kid_of(i, "CatchClause"@) {
                Some(h) => lemma_catch(e, w1, h),
                None => lemma_refl(w1, none),
            }
            lemma_then(w, a, w1, exits, none, w2, none, exits);
            if let Some(f) = finalizer(e.s, i) {
                lemma_seq_lowered(e, w2, f, 0, exits);
                let (w3, out) = seq_lowered(e, w2, f, 0, exits);
                lemma_seq(w, a, w2, exits, w3, out);
            }
        },
        None => lemma_plain(e, w, e.s.span(i), a),
    }
}

proof fn lemma_labeled(e: Env, w: JsWalk, i: int, a: Seq<usize>)
    requires
        ranged(w),
        in_range(w, a),
    ensures
        good(w, a, labeled_lowered(e, w, i, a).0, labeled_lowered(e, w, i, a).1),
    decreases size(e.s.t, i), 4int, 0int,
{
    broadcast use lemma_kid;

    match e.s.kid(i, 1) {
        Some(body) => {
            let label = match jump_label(e.s, i) {
                Some(l) => l,
                None => Seq::empty(),
            };
            let w1 = if is_loop(e.s, body) {
                JsWalk { pending: Some(label), ..w }
            } else {
                w
            };
            lemma_refl(w, a);
            assert(quiet(w, w1));
            lemma_quiet_more(w, a, w, a, w1);
            lemma_stmt(e, w1, body, a);
            let (w2, exits) = stmt_lowered(e, w1, body, a);
            lemma_seq(w, a, w1, a, w2, exits);
        },
        None => lemma_plain(e, w, e.s.span(i), a),
    }
}

/// Every statement does what is shown of every construct.
pub proof fn lemma_stmt(e: Env, w: JsWalk, i: int, a: Seq<usize>)
    requires
        ranged(w),
        in_range(w, a),
    ensures
        good(w, a, stmt_lowered(e, w, i, a).0, stmt_lowered(e, w, i, a).1),
    decreases size(e.s.t, i), 5int, 0int,
{
    let s = e.s;
    if s.is(i, "BlockStatement"@) {
        lemma_seq_lowered(e, w, i, 0, a);
    } else if s.is(i, "EmptyStatement"@) || s.is(i, "DebuggerStatement"@) {
        lemma_refl(w, a);
    } else if s.is(i, "VariableDeclaration"@) {
        lemma_declarators(e, w, i, 0, a);
    } else if s.is(i, "ExpressionStatement"@) {
        lemma_expression(e, w, i, a);
    } else if s.is(i, "ReturnStatement"@) {
        lemma_unit_after(e, w, s.span(i), KindView::Return, a);
    } else if s.is(i, "ThrowStatement"@) {
        lemma_unit_after(e, w, s.span(i), KindView::Throw, a);
    } else if s.is(i, "IfStatement"@) {
        lemma_if(e, w, i, a);
    } else if s.is(i, "WhileStatement"@) {
        lemma_while(e, w, i, a);
    } else if s.is(i, "DoWhileStatement"@) {
        lemma_do(e, w, i, a);
    } else if s.is(i, "ForStatement"@) {
        lemma_for(e, w, i, a);
    } else if s.is(i, "ForInStatement"@) || s.is(i, "ForOfStatement"@) {
        lemma_each(e, w, i, a);
    } else if s.is(i, "BreakStatement"@) {
        lemma_jump(e, w, i, true, a);
    } else if s.is(i, "ContinueStatement"@) {
        lemma_jump(e, w, i, false, a);
    } else if s.is(i, "SwitchStatement"@) {
        lemma_switch(e, w, i, a);
    } else if s.is(i, "TryStatement"@) {
        lemma_try(e, w, i, a);
    } else if s.is(i, "LabeledStatement"@) {
        lemma_labeled(e, w, i, a);
    } else if s.is(i, "Function"@) {
        lemma_declaration(e, w, i, true, a);
    } else if s.is(i, "Class"@) {
        lemma_declaration(e, w, i, false, a);
    } else {
        lemma_plain(e, w, s.span(i), a);
    }
}

proof fn lemma_stays_closed(w: JsWalk, open: Seq<usize>, w1: JsWalk, from: int, to: int)
    requires
        kept(w, open, w1),
        closed_off(w.nodes, from, to),
        0 <= from <= to <= w.nodes.len(),
        outside(open, from, to),
        forall|k: int|
            0 <= k < w.loops.len() ==> ((#[trigger] w.loops[k]).target matches Some(t) ==> !(from
                <= t < to)),
    ensures
        closed_off(w1.nodes, from, to),
{
    assert forall|k: int, v: usize|
        0 <= k < w1.nodes.len() && !(from <= k < to) && from <= v < to implies !(
    #[trigger] w1.nodes[k].succs.contains(v)) by {
        if w1.nodes[k].succs.contains(v) {
            if is_head(w, v) {
                let l = choose|l: int|
                    0 <= l < w.loops.len() && (#[trigger] w.loops[l]).target == Some(v);
                assert(w.loops[l].target == Some(v));
            }
            assert(!enters(w, v));
        }
    }
}

/// A statement only adds: the nodes that were there keep what they hold and
/// their edges, control enters what is added from the open nodes alone, and
/// leaves it from the returned ones, to what is added later or to the head of
/// an open loop. Variables keep their numbers.
pub proof fn a_statement_only_adds(e: Env, w: JsWalk, i: int, open: Seq<usize>)
    requires
        settled(w),
        live(w, open),
        stmt_lowered(e, w, i, open).0.nodes.len() <= usize::MAX,
    ensures
        settled(stmt_lowered(e, w, i, open).0),
        kept(w, open, stmt_lowered(e, w, i, open).0),
        live(stmt_lowered(e, w, i, open).0, stmt_lowered(e, w, i, open).1),
        came(w, open, stmt_lowered(e, w, i, open).1),
{
    lemma_stmt(e, w, i, open);
}

/// No handler is entered: the nodes of a `try`'s handler are led to from the
/// handler alone, and control does not leave the `try` from them.
pub proof fn handlers_are_not_entered(
    e: Env,
    w: JsWalk,
    i: int,
    open: Seq<usize>,
    block: int,
    handler: int,
)
    requires
        settled(w),
        live(w, open),
        e.s.kid(i, 0) == Some(block),
        e.s.kid_of(i, "CatchClause"@) == Some(handler),
        try_lowered(e, w, i, open).0.nodes.len() <= usize::MAX,
    ensures
        ({
            let w1 = seq_lowered(e, w, block, 0, open).0;
            let w2 = catch_lowered(e, w1, handler);
            let (w3, exits) = try_lowered(e, w, i, open);
            &&& closed_off(w3.nodes, w1.nodes.len() as int, w2.nodes.len() as int)
            &&& outside(exits, w1.nodes.len() as int, w2.nodes.len() as int)
        }),
{
    let none = Seq::<usize>::empty();
    lemma_seq_lowered(e, w, block, 0, open);
    let (w1, exits) = seq_lowered(e, w, block, 0, open);
    lemma_catch(e, w1, handler);
    let w2 = catch_lowered(e, w1, handler);
    lemma_then(w, open, w1, exits, none, w2, none, exits);
    let from = w1.nodes.len() as int;
    let to = w2.nodes.len() as int;
    let (w3, exits3) = match finalizer(e.s, i) {
        Some(f) => seq_lowered(e, w2, f, 0, exits),
        None => (w2, exits),
    };
    match finalizer(e.s, i) {
        Some(f) => lemma_seq_lowered(e, w2, f, 0, exits),
        None => lemma_refl(w2, exits),
    }
    assert(w3.nodes.len() <= usize::MAX);
    assert(settled(w1) && live(w1, exits));
    assert(live(w1, none));
    assert(kept(w1, none, w2) && settled(w2) && live(w2, exits));
    assert(closed_off(w2.nodes, from, to)) by {
        assert forall|k: int, v: usize|
            0 <= k < w2.nodes.len() && !(from <= k < to) && from <= v < to implies !(
        #[trigger] w2.nodes[k].succs.contains(v)) by {
            if w2.nodes[k].succs.contains(v) {
                assert(!none.contains(k as usize));
                assert(w1.nodes[k].succs.contains(v));
                let x = choose|x: int|
                    0 <= x < w1.nodes[k].succs.len() && w1.nodes[k].succs[x] == v;
                assert(w1.nodes[k].succs[x] < w1.nodes.len());
            }
        }
    }
    assert(outside(exits, from, to)) by {
        assert forall|j: int| 0 <= j < exits.len() implies !(from <= #[trigger] exits[j] < to) by {
            assert(exits[j] < w1.nodes.len());
        }
    }
    assert forall|k: int| 0 <= k < w2.loops.len() implies ((
    #[trigger] w2.loops[k]).target matches Some(t) ==> !(from <= t < to)) by {
        assert(w2.loops[k].target == w1.loops[k].target);
        assert(loop_ok(w1, w1.loops[k]));
    }
    assert(kept(w2, exits, w3) && came(w2, exits, exits3));
    lemma_stays_closed(w2, exits, w3, from, to);
    assert(outside(exits3, from, to)) by {
        assert forall|j: int| 0 <= j < exits3.len() implies !(from <= #[trigger] exits3[j]
            < to) by {
            if exits.contains(exits3[j]) {
                let x = choose|x: int| 0 <= x < exits.len() && exits[x] == exits3[j];
                assert(!(from <= exits[x] < to));
            }
        }
    }
}

/// What is closed off stays so: no later statement leads into it.
pub proof fn what_is_closed_off_stays_so(
    e: Env,
    w: JsWalk,
    i: int,
    open: Seq<usize>,
    from: int,
    to: int,
)
    requires
        settled(w),
        live(w, open),
        stmt_lowered(e, w, i, open).0.nodes.len() <= usize::MAX,
        closed_off(w.nodes, from, to),
        0 <= from <= to <= w.nodes.len(),
        outside(open, from, to),
        forall|k: int|
            0 <= k < w.loops.len() ==> ((#[trigger] w.loops[k]).target matches Some(t) ==> !(from
                <= t < to)),
    ensures
        closed_off(stmt_lowered(e, w, i, open).0.nodes, from, to),
        outside(stmt_lowered(e, w, i, open).1, from, to),
{
    lemma_stmt(e, w, i, open);
    let (w1, exits) = stmt_lowered(e, w, i, open);
    lemma_stays_closed(w, open, w1, from, to);
    assert forall|j: int| 0 <= j < exits.len() implies !(from <= #[trigger] exits[j] < to) by {
        if open.contains(exits[j]) {
            let x = choose|x: int| 0 <= x < open.len() && open[x] == exits[j];
            assert(!(from <= open[x] < to));
        }
    }
}

/// A `do` goes back to where control came into it, and so to no stretch that
/// the open nodes do not lead to.
pub proof fn a_do_goes_back_to_where_it_is_entered(
    w: JsWalk,
    open: Seq<usize>,
    first: usize,
    from: int,
    to: int,
)
    requires
        open.len() > 0,
        open[0] < w.nodes.len(),
        closed_off(w.nodes, from, to),
        outside(open, from, to),
        exists|x: int|
            0 <= x < w.nodes[open[0] as int].succs.len() && #[trigger] w.nodes[open[0] as int].succs[x]
                >= first,
    ensures
        w.nodes[open[0] as int].succs.contains(entered_at(w, open, first)),
        !(from <= entered_at(w, open, first) < to),
{
    let succs = w.nodes[open[0] as int].succs;
    let x = choose|x: int| 0 <= x < succs.len() && #[trigger] succs[x] >= first;
    lemma_first_found(succs, first, 0, x);
    assert(!(from <= open[0] < to));
}

proof fn lemma_first_found(succs: Seq<usize>, first: usize, k: int, x: int)
    requires
        0 <= k <= x < succs.len(),
        succs[x] >= first,
    ensures
        succs.contains(first_behind(succs, first, k)),
    decreases x - k,
{
    if succs[k] < first {
        lemma_first_found(succs, first, k + 1, x);
    }
}

pub proof fn lemma_params(params: Seq<u32>, line: u32)
    ensures
        settled(params_lowered(fresh(), params, line)),
        live(params_lowered(fresh(), params, line), seq![0usize]),
        ranged(params_lowered(fresh(), params, line)),
        in_range(params_lowered(fresh(), params, line), seq![0usize]),
{
    let none = Seq::<usize>::empty();
    let w = fresh();
    assert(settled(w)) by {
        assert(sound(w));
    }
    lemma_refl(w, none);
    let (w1, defs) = vars_added(w, sym_keys(params), 0, Seq::empty());
    lemma_vars_added_quiet(w, sym_keys(params), 0, Seq::empty());
    lemma_quiet_more(w, none, w, none, w1);
    let n = bare_node(line, KindView::Pure, defs, Seq::empty(), "<params>"@);
    lemma_push_more(w, none, w1, none, n);
    assert(next_node(w1) == 0);
    assert(none.push(0usize) =~= seq![0usize]);
}

/// Nothing comes behind a `return` or a `throw`: control leaves the function
/// there.
pub proof fn nothing_comes_behind_a_return(e: Env, file: Seq<char>, f: FnView, k: int)
    requires
        function_lowered(e, file, f).nodes.len() <= usize::MAX,
        0 <= k < function_lowered(e, file, f).nodes.len(),
        ends(function_lowered(e, file, f).nodes[k]),
    ensures
        function_lowered(e, file, f).nodes[k].succs.len() == 0,
{
    let w = params_lowered(fresh(), f.params, f.line);
    let one = seq![0usize];
    lemma_params(f.params, f.line);
    if f.block {
        lemma_seq_lowered(e, w, f.body, 0, one);
        assert(settled(seq_lowered(e, w, f.body, 0, one).0));
    } else {
        lemma_unit_after(e, w, e.s.span(f.body), KindView::Return, one);
        assert(settled(unit_after(e, w, e.s.span(f.body), KindView::Return, one).0));
    }
}

pub proof fn lemma_position(vars: Seq<KeyView>, key: KeyView, k: int)
    requires
        0 <= k <= vars.len(),
    ensures
        k <= position_of(vars, key, k) <= vars.len(),
        position_of(vars, key, k) < vars.len() ==> vars[position_of(vars, key, k)] == key,
        forall|j: int| k <= j < position_of(vars, key, k) ==> #[trigger] vars[j] != key,
    decreases vars.len() - k,
{
    if k < vars.len() && vars[k] != key {
        lemma_position(vars, key, k + 1);
    }
}

/// One key, one variable: names that resolve to different symbols are different
/// variables, and the same symbol is the same variable wherever it is named.
pub proof fn keys_are_variables(w: JsWalk, a: KeyView, b: KeyView)
    requires
        w.vars.len() + 1 < u32::MAX,
    ensures
        ({
            let (w1, v) = var(w, a);
            let (w2, u) = var(w1, b);
            u == v <==> a == b
        }),
{
    let (w1, v) = var(w, a);
    lemma_position(w.vars, a, 0);
    lemma_position(w1.vars, a, 0);
    lemma_position(w1.vars, b, 0);
    let p = position_of(w.vars, a, 0);
    assert(w1.vars[p] == a);
    let q = position_of(w1.vars, b, 0);
    if a == b {
        if q > p {
            assert(w1.vars[p] != b);
        }
        if q < p {
            assert(w1.vars[q] == w.vars[q]);
        }
    }
}

/// A function captures nothing that it binds, and nothing that it does not
/// refer to.
pub proof fn captures_are_bound_outside(
    f: crate::js::facts::Facts,
    full: Span,
    k: int,
    key: KeyView,
)
    requires
        0 <= k <= f.refs.len(),
        captures_before(f, full, k).contains(key),
    ensures
        key matches KeyView::Sym(sym) && !bound_inside(f.bindings, sym, full),
        exists|j: int| 0 <= j < k && (#[trigger] f.refs[j]).key == key && within(f.refs[j].span, full),
    decreases k,
{
    if k > 0 {
        let rest = captures_before(f, full, k - 1);
        let all = captures_before(f, full, k);
        if rest.contains(key) {
            captures_are_bound_outside(f, full, k - 1, key);
        } else {
            let x = choose|x: int| 0 <= x < all.len() && all[x] == key;
            if x < rest.len() {
                assert(rest[x] == key);
            }
            assert(f.refs[k - 1].key == key);
        }
    }
}

/// Whether a node differs from another only in leading to more.
pub open spec fn leads_on(a: NodeView, b: NodeView) -> bool {
    &&& b == (NodeView { succs: b.succs, ..a })
    &&& forall|x: usize| a.succs.contains(x) ==> #[trigger] b.succs.contains(x)
}

pub proof fn lemma_chained(w: JsWalk, ids: Seq<usize>, k: int)
    requires
        0 <= k,
        in_range(w, ids),
    ensures
        chain_from(w, ids, k).nodes.len() == w.nodes.len(),
        forall|x: int|
            0 <= x < w.nodes.len() ==> leads_on(w.nodes[x], #[trigger] chain_from(
                w,
                ids,
                k,
            ).nodes[x]),
        forall|j: int|
            k <= j < ids.len() - 1 ==> chain_from(w, ids, k).nodes[(#[trigger] ids[j]) as int].succs.contains(
                ids[j + 1],
            ),
    decreases ids.len() - k,
{
    if k + 1 < ids.len() {
        let from = ids[k] as int;
        let w1 = edge(w, ids[k], ids[k + 1]);
        assert(ids[k] < w.nodes.len());
        let n = w.nodes[from];
        assert(w1.nodes[from].succs.contains(ids[k + 1])) by {
            if !n.succs.contains(ids[k + 1]) {
                assert(w1.nodes[from].succs == n.succs.push(ids[k + 1]));
                assert(n.succs.push(ids[k + 1])[n.succs.len() as int] == ids[k + 1]);
            }
        }
        assert forall|x: int| 0 <= x < w.nodes.len() implies leads_on(
            w.nodes[x],
            #[trigger] w1.nodes[x],
        ) by {
            if x == from && !n.succs.contains(ids[k + 1]) {
                assert forall|y: usize| n.succs.contains(y) implies #[trigger] w1.nodes[x].succs.contains(
                    y,
                ) by {
                    let z = choose|z: int| 0 <= z < n.succs.len() && n.succs[z] == y;
                    assert(n.succs.push(ids[k + 1])[z] == y);
                }
            }
        }
        assert forall|j: int| 0 <= j < ids.len() implies #[trigger] ids[j] < w1.nodes.len() by {
            assert(ids[j] < w.nodes.len());
        }
        lemma_chained(w1, ids, k + 1);
        let w2 = chain_from(w, ids, k);
        assert forall|x: int| 0 <= x < w.nodes.len() implies leads_on(
            w.nodes[x],
            #[trigger] w2.nodes[x],
        ) by {
            assert(leads_on(w.nodes[x], w1.nodes[x]));
            assert(leads_on(w1.nodes[x], w2.nodes[x]));
        }
        assert forall|j: int| k <= j < ids.len() - 1 implies w2.nodes[(
        #[trigger] ids[j]) as int].succs.contains(ids[j + 1]) by {
            if j == k {
                assert(leads_on(w1.nodes[from], w2.nodes[from]));
            }
        }
    } else {
        assert forall|x: int| 0 <= x < w.nodes.len() implies leads_on(
            w.nodes[x],
            #[trigger] w.nodes[x],
        ) by {}
    }
}

pub proof fn lemma_with_var(list: Seq<VarId>, v: VarId)
    ensures
        with_var(list, v).contains(v),
        forall|x: VarId| list.contains(x) ==> #[trigger] with_var(list, v).contains(x),
{
    if !list.contains(v) {
        assert(list.push(v)[list.len() as int] == v);
        assert forall|x: VarId| list.contains(x) implies #[trigger] list.push(v).contains(x) by {
            let k = choose|k: int| 0 <= k < list.len() && list[k] == x;
            assert(list.push(v)[k] == x);
        }
    }
}

pub proof fn lemma_vars_stay(w: JsWalk, keys: Seq<KeyView>, k: int, out: Seq<VarId>, x: VarId)
    requires
        0 <= k,
        out.contains(x),
    ensures
        vars_added(w, keys, k, out).1.contains(x),
    decreases keys.len() - k,
{
    if k < keys.len() {
        let (w1, v) = var(w, keys[k]);
        lemma_with_var(out, v);
        lemma_vars_stay(w1, keys, k + 1, with_var(out, v), x);
    }
}

pub proof fn lemma_captures_stay(
    e: Env,
    w: JsWalk,
    fns: Seq<Span>,
    k: int,
    uses: Seq<VarId>,
    x: VarId,
)
    requires
        0 <= k,
        uses.contains(x),
    ensures
        captures_added(e, w, fns, k, uses).1.contains(x),
    decreases fns.len() - k,
{
    if k < fns.len() {
        let (w1, u1) = vars_added(w, captures(e.f, fns[k]), 0, uses);
        lemma_vars_stay(w, captures(e.f, fns[k]), 0, uses, x);
        lemma_captures_stay(e, w1, fns, k + 1, u1, x);
    }
}

proof fn lemma_direct_temps(
    spans: Seq<Span>,
    temps: Seq<VarId>,
    outer: Span,
    inner: Seq<Span>,
    k: int,
    uses: Seq<VarId>,
    x: VarId,
)
    requires
        0 <= k,
        uses.contains(x) || exists|a: int|
            k <= a < temps.len() && #[trigger] temps[a] == x && within(spans[a], outer)
                && !in_another(spans[a], inner),
    ensures
        direct_temps_added(spans, temps, outer, inner, k, uses).contains(x),
    decreases temps.len() - k,
{
    if k < temps.len() {
        let direct = within(spans[k], outer) && !in_another(spans[k], inner);
        let next = if direct {
            with_var(uses, temps[k])
        } else {
            uses
        };
        lemma_with_var(uses, temps[k]);
        if !uses.contains(x) {
            let a = choose|a: int|
                k <= a < temps.len() && #[trigger] temps[a] == x && within(spans[a], outer)
                    && !in_another(spans[a], inner);
            if a > k {
                assert(temps[a] == x);
            }
        }
        lemma_direct_temps(spans, temps, outer, inner, k + 1, next, x);
    }
}

proof fn lemma_outer_temps(spans: Seq<Span>, temps: Seq<VarId>, k: int, uses: Seq<VarId>, a: int)
    requires
        0 <= k,
        0 <= a < temps.len(),
        uses.contains(temps[a]) || (k <= a && !call_nested(spans, a)),
    ensures
        outer_temps_added(spans, temps, k, uses).contains(temps[a]),
    decreases temps.len() - k,
{
    if k < temps.len() {
        let next = if call_nested(spans, k) {
            uses
        } else {
            with_var(uses, temps[k])
        };
        lemma_with_var(uses, temps[k]);
        lemma_outer_temps(spans, temps, k + 1, next, a);
    }
}

/// Whether a call's node defines its result and reads the results of the calls
/// directly inside it.
pub open spec fn reads_inner(spans: Seq<Span>, temps: Seq<VarId>, b: int, n: NodeView) -> bool {
    &&& n.defs == seq![temps[b]]
    &&& forall|a: int|
        0 <= a < b && within(spans[a], spans[b]) && !in_another(
            spans[a],
            inner_before(spans, spans[b], spans.len() as int),
        ) ==> n.uses.contains(#[trigger] temps[a])
}

proof fn lemma_calls_read(
    e: Env,
    w: JsWalk,
    unit: Span,
    j: int,
    ids: Seq<usize>,
    temps: Seq<VarId>,
)
    requires
        ids.len() == j,
        temps.len() == j,
        j <= unit_calls(e.f, unit).len(),
        in_range(w, ids),
        calls_pushed(e, w, unit, j, ids, temps).0.nodes.len() <= usize::MAX,
        forall|b: int|
            0 <= b < j ==> reads_inner(
                call_spans(e.f, unit),
                temps,
                b,
                w.nodes[(#[trigger] ids[b]) as int],
            ),
    ensures
        ({
            let (w1, ids1, temps1) = calls_pushed(e, w, unit, j, ids, temps);
            let n = unit_calls(e.f, unit).len();
            &&& ids1.len() == n
            &&& temps1.len() == n
            &&& w1.nodes.len() >= w.nodes.len()
            &&& in_range(w1, ids1)
            &&& forall|b: int|
                0 <= b < n ==> reads_inner(
                    call_spans(e.f, unit),
                    temps1,
                    b,
                    w1.nodes[(#[trigger] ids1[b]) as int],
                )
        }),
    decreases unit_calls(e.f, unit).len() - j,
{
    let cs = unit_calls(e.f, unit);
    let spans = call_spans(e.f, unit);
    if j < cs.len() {
        let call = e.f.calls[cs[j]];
        lemma_call_uses_quiet(e, w, unit, j, temps);
        let (w1, uses) = call_uses(e, w, unit, j, temps);
        let (w2, t) = temp(w1);
        assert(quiet(w1, w2));
        let node = bare_node(
            line_of(e.s.src, call.span.start),
            KindView::Call { callee: call.callee, opacity: crate::ir::CallOpacity::Opaque },
            seq![t],
            uses,
            call.callee,
        );
        let w3 = pushed(w2, node);
        let id = next_node(w2);
        let ids2 = ids.push(id);
        let temps2 = temps.push(t);
        lemma_calls_grow(e, w3, unit, j + 1, ids2, temps2);
        assert(id as int == w.nodes.len());
        let inner = inner_before(spans, spans[j], spans.len() as int);
        let keys = read_keys(e.f, spans[j], unit, inner, e.f.refs.len() as int);
        let (v1, u1) = vars_added(w, keys, 0, Seq::empty());
        assert forall|a: int|
            0 <= a < j && within(spans[a], spans[j]) && !in_another(
                spans[a],
                inner,
            ) implies uses.contains(#[trigger] temps2[a]) by {
            assert(temps[a] == temps2[a]);
            lemma_direct_temps(spans, temps, spans[j], inner, 0, u1, temps[a]);
            lemma_captures_stay(
                e,
                v1,
                nested_fns(e.f, spans[j]),
                0,
                direct_temps_added(spans, temps, spans[j], inner, 0, u1),
                temps[a],
            );
        }
        assert forall|b: int| 0 <= b < j + 1 implies reads_inner(
            spans,
            temps2,
            b,
            w3.nodes[(#[trigger] ids2[b]) as int],
        ) by {
            if b < j {
                assert(ids2[b] == ids[b]);
                assert(ids[b] < w.nodes.len());
                assert(reads_inner(spans, temps, b, w.nodes[ids[b] as int]));
                assert(w3.nodes[ids[b] as int] == w.nodes[ids[b] as int]);
                assert forall|a: int|
                    0 <= a < b && within(spans[a], spans[b]) && !in_another(
                        spans[a],
                        inner_before(spans, spans[b], spans.len() as int),
                    ) implies w3.nodes[ids[b] as int].uses.contains(#[trigger] temps2[a]) by {
                    assert(temps[a] == temps2[a]);
                }
            } else {
                assert(w3.nodes[id as int] == node);
            }
        }
        assert forall|b: int| 0 <= b < ids2.len() implies #[trigger] ids2[b] < w3.nodes.len() by {
            if b < j {
                assert(ids2[b] == ids[b]);
                assert(ids[b] < w.nodes.len());
            }
        }
        lemma_calls_read(e, w3, unit, j + 1, ids2, temps2);
    }
}

pub proof fn lemma_calls_grow(
    e: Env,
    w: JsWalk,
    unit: Span,
    j: int,
    ids: Seq<usize>,
    temps: Seq<VarId>,
)
    requires
        0 <= j <= unit_calls(e.f, unit).len(),
    ensures
        calls_pushed(e, w, unit, j, ids, temps).0.nodes.len() == w.nodes.len() + (unit_calls(
            e.f,
            unit,
        ).len() - j),
    decreases unit_calls(e.f, unit).len() - j,
{
    let cs = unit_calls(e.f, unit);
    if j < cs.len() {
        let call = e.f.calls[cs[j]];
        lemma_call_uses_quiet(e, w, unit, j, temps);
        let (w1, uses) = call_uses(e, w, unit, j, temps);
        let (w2, t) = temp(w1);
        assert(quiet(w1, w2));
        let w3 = pushed(
            w2,
            bare_node(
                line_of(e.s.src, call.span.start),
                KindView::Call { callee: call.callee, opacity: crate::ir::CallOpacity::Opaque },
                seq![t],
                uses,
                call.callee,
            ),
        );
        lemma_calls_grow(e, w3, unit, j + 1, ids.push(next_node(w2)), temps.push(t));
    }
}

pub proof fn lemma_unit_calls_ascend(f: Facts, span: Span, k: int)
    requires
        0 <= k <= f.calls.len(),
    ensures
        forall|a: int|
            0 <= a < unit_calls_before(f, span, k).len() ==> 0 <= #[trigger] unit_calls_before(
                f,
                span,
                k,
            )[a] < k,
        forall|a: int, b: int|
            0 <= a < b < unit_calls_before(f, span, k).len() ==> #[trigger] unit_calls_before(
                f,
                span,
                k,
            )[a] < #[trigger] unit_calls_before(f, span, k)[b],
    decreases k,
{
    if k > 0 {
        lemma_unit_calls_ascend(f, span, k - 1);
        let rest = unit_calls_before(f, span, k - 1);
        let all = unit_calls_before(f, span, k);
        assert forall|a: int| 0 <= a < all.len() implies 0 <= #[trigger] all[a] < k by {
            if a < rest.len() {
                assert(all[a] == rest[a]);
            }
        }
        assert forall|a: int, b: int| 0 <= a < b < all.len() implies #[trigger] all[a]
            < #[trigger] all[b] by {
            assert(all[a] == rest[a]);
            if b < rest.len() {
                assert(all[b] == rest[b]);
            }
        }
    }
}

/// The calls of a unit are evaluated in order: control passes from each to the
/// next; a call comes behind those inside it and reads the results of those
/// directly inside it; and the unit reads the results of the outermost ones.
pub proof fn calls_run_in_evaluation_order(e: Env, w: JsWalk, unit: Span, a: int, b: int)
    requires
        e.f == facts_of(e.s),
        e.s.t.len() <= usize::MAX,
        w.nodes.len() + call_spans(e.f, unit).len() <= usize::MAX,
        0 <= a < call_spans(e.f, unit).len(),
        0 <= b < call_spans(e.f, unit).len(),
    ensures
        ({
            let spans = call_spans(e.f, unit);
            let (w1, uses, ids) = unit_uses(e, w, unit);
            let (first, last) = (w1.nodes[ids[a] as int], w1.nodes[ids[b] as int]);
            &&& ids.len() == spans.len()
            &&& ids[a] < w1.nodes.len()
            &&& first.defs.len() == 1
            &&& a + 1 < spans.len() ==> first.succs.contains(ids[a + 1])
            &&& within(spans[a], spans[b]) && spans[a] != spans[b] ==> a < b
            &&& within(spans[a], spans[b]) && spans[a] != spans[b] && !in_another(
                spans[a],
                inner_before(spans, spans[b], spans.len() as int),
            ) ==> last.uses.contains(first.defs[0])
            &&& !call_nested(spans, a) ==> uses.contains(first.defs[0])
        }),
{
    let spans = call_spans(e.f, unit);
    let cs = unit_calls(e.f, unit);
    lemma_unit_calls_ascend(e.f, unit, e.f.calls.len() as int);
    assert(0 <= cs[a] < e.f.calls.len() && 0 <= cs[b] < e.f.calls.len());
    if within(spans[a], spans[b]) && spans[a] != spans[b] {
        inner_calls_come_first(e.s, cs[a], cs[b]);
        if b < a {
            assert(cs[b] < cs[a]);
        }
    }
    let none: Seq<usize> = Seq::empty();
    let (w1, ids, temps) = calls_pushed(e, w, unit, 0, none, Seq::empty());
    let w2 = chain_from(w1, ids, 0);
    let keys = read_keys(e.f, unit, unit, spans, e.f.refs.len() as int);
    let (w3, u1) = vars_added(w2, keys, 0, Seq::empty());
    lemma_vars_added_quiet(w2, keys, 0, Seq::empty());
    let u2 = outer_temps_added(spans, temps, 0, u1);
    let (w4, u3) = captures_added(e, w3, nested_fns(e.f, unit), 0, u2);
    lemma_captures_added_quiet(e, w3, nested_fns(e.f, unit), 0, u2);
    assert(w4.nodes == w2.nodes);
    lemma_calls_grow(e, w, unit, 0, none, Seq::empty());
    lemma_calls_read(e, w, unit, 0, none, Seq::empty());
    lemma_chained(w1, ids, 0);
    assert(reads_inner(spans, temps, a, w1.nodes[ids[a] as int]));
    assert(reads_inner(spans, temps, b, w1.nodes[ids[b] as int]));
    assert(leads_on(w1.nodes[ids[a] as int], w2.nodes[ids[a] as int]));
    assert(leads_on(w1.nodes[ids[b] as int], w2.nodes[ids[b] as int]));
    assert(temps[a] == w2.nodes[ids[a] as int].defs[0]);
    if !call_nested(spans, a) {
        lemma_outer_temps(spans, temps, 0, u1, a);
        lemma_captures_stay(e, w3, nested_fns(e.f, unit), 0, u2, temps[a]);
    }
}

} // verus!
