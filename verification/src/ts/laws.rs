//! What every lowering keeps, whatever the source.
//!
//! A construct only adds nodes. Control enters what it added from the nodes
//! that were open, leaves it from the returned ones, and goes nowhere else but
//! to the heads of the loops around it. From that follows what holds of every
//! function: nothing comes behind a `return`, no handler is entered, and what
//! a block declares ends with it.

use vstd::prelude::*;

use crate::ir::{KindView, NodeView, VarId};
use crate::ts::model::{
    allocated, arm_head_nodes, arm_is_default, arm_labels, arm_lowered, arms_lowered,
    assign_lowered, assign_target, bare_name, bare_node, behind, binding_lowered, binding_parts,
    block_entered,
    block_left, block_lowered, bound_in, break_taken, call_pushed, call_stmt_lowered,
    calls_extracted, calls_in, calls_of, calls_pushed, catch_lowered, catch_param, catches_lowered,
    chain_from, class_lowered, compound_assign, continue_taken, declarators_lowered, declared,
    declared_all, defs_scanned, edge, entered, error_noted, finally_body, fn_decl_lowered,
    for_clause, for_lowered, for_pattern, for_shape, fresh, identifiers_in, if_alts, if_chain_lowered, if_lowered, in_scopes, is_word,
    label_scanned, labels_scanned, lemma_unwrapped, link, link_from, loop_closed, loop_lowered,
    loop_opened, match_lowered, next_node, one_binding_lowered, other_lowered, params_lowered,
    plain, pushed, resolved, resolved_all, scope_popped, scope_pushed, seq_lowered, snippet_at,
    stmt_lowered, try_else_body, try_lowered, unit, unit_after, unwrapped, uses_of, uses_scanned,
    while_lowered, with_var, with_vars, word_lowered, DiagnosticView, Env, ForShape, LoopView,
    Walk,
};
use crate::ts::module::{body_lowered, body_of, one_node, params_of, top_lowered};
use crate::ts::state::{in_range, sound};
use crate::ts::tree::{
    below, child_by_field, field_or_kind, field_or_last, field_or_nth, kids, lemma_below, lemma_kid,
    line_at, size, Pick,
};

verus! {

/// Whether control leaves the function at a node.
pub open spec fn ends(n: NodeView) -> bool {
    n.kind is Return || n.kind is Throw
}

/// Whether control may go on from each of the nodes.
pub open spec fn live(w: Walk, ids: Seq<usize>) -> bool {
    forall|j: int|
        0 <= j < ids.len() ==> (#[trigger] ids[j]) < w.nodes.len() && !ends(
            w.nodes[ids[j] as int],
        )
}

/// Whether there is a scope, and loop heads and breaks are nodes.
pub open spec fn ranged(w: Walk) -> bool {
    &&& w.scopes.len() > 0
    &&& forall|k: int|
        0 <= k < w.loops.len() ==> (#[trigger] w.loops[k]).continue_target < w.nodes.len()
            && in_range(w, w.loops[k].breaks)
}

/// What every operation keeps: the state is sound, nothing comes behind a node
/// at which control leaves the function, and control may go on from the breaks
/// of every open loop.
pub open spec fn settled(w: Walk) -> bool {
    &&& sound(w)
    &&& forall|k: int|
        0 <= k < w.nodes.len() && ends(#[trigger] w.nodes[k]) ==> w.nodes[k].succs.len() == 0
    &&& forall|k: int| 0 <= k < w.loops.len() ==> live(w, (#[trigger] w.loops[k]).breaks)
}

/// Whether an open loop goes on at a node.
pub open spec fn is_head(w: Walk, v: usize) -> bool {
    exists|k: int| 0 <= k < w.loops.len() && (#[trigger] w.loops[k]).continue_target == v
}

/// Where control may go from what is added: to what is added, and to the heads
/// of open loops.
pub open spec fn enters(w: Walk, v: usize) -> bool {
    v >= w.nodes.len() || is_head(w, v)
}

/// Whether two nodes differ in their successors at most.
pub open spec fn same_node(a: NodeView, b: NodeView) -> bool {
    a.line == b.line && a.kind == b.kind && a.defs == b.defs && a.uses == b.uses && a.label
        == b.label
}

/// What becomes of the nodes: those that were there keep what they hold and
/// their edges, and gain edges only if they were open.
pub open spec fn nodes_kept(w: Walk, open: Seq<usize>, nodes: Seq<NodeView>) -> bool {
    &&& w.nodes.len() <= nodes.len()
    &&& forall|k: int| 0 <= k < w.nodes.len() ==> same_node(w.nodes[k], #[trigger] nodes[k])
    &&& forall|k: int, v: usize|
        0 <= k < w.nodes.len() && #[trigger] nodes[k].succs.contains(v)
            ==> w.nodes[k].succs.contains(v) || (open.contains(k as usize) && enters(w, v))
    &&& forall|k: int, v: usize|
        0 <= k < w.nodes.len() && #[trigger] w.nodes[k].succs.contains(v)
            ==> nodes[k].succs.contains(v)
    &&& forall|k: int, v: usize|
        w.nodes.len() <= k < nodes.len() && #[trigger] nodes[k].succs.contains(v) ==> enters(w, v)
}

/// What becomes of the loops: those that were open still are, and only what is
/// added breaks out of them.
pub open spec fn loops_kept(w: Walk, loops: Seq<LoopView>) -> bool {
    &&& w.loops.len() == loops.len()
    &&& forall|k: int|
        0 <= k < loops.len() ==> (#[trigger] loops[k]).continue_target
            == w.loops[k].continue_target
    &&& forall|k: int, b: usize|
        0 <= k < loops.len() && #[trigger] loops[k].breaks.contains(b)
            ==> w.loops[k].breaks.contains(b) || b >= w.nodes.len()
}

/// What becomes of the scopes: only the innermost changes.
pub open spec fn scopes_kept(
    before: Seq<Map<Seq<char>, VarId>>,
    after: Seq<Map<Seq<char>, VarId>>,
) -> bool {
    &&& before.len() == after.len()
    &&& forall|k: int| 0 <= k < before.len() - 1 ==> before[k] == #[trigger] after[k]
}

/// What becomes of the reports: they are only added to.
pub open spec fn reports_kept(before: Seq<DiagnosticView>, after: Seq<DiagnosticView>) -> bool {
    &&& before.len() <= after.len()
    &&& forall|k: int| 0 <= k < before.len() ==> before[k] == #[trigger] after[k]
}

/// What holds between the states before and after a construct that is entered
/// from the open nodes.
pub open spec fn kept(w: Walk, open: Seq<usize>, w1: Walk) -> bool {
    &&& nodes_kept(w, open, w1.nodes)
    &&& loops_kept(w, w1.loops)
    &&& scopes_kept(w.scopes, w1.scopes)
    &&& reports_kept(w.diagnostics, w1.diagnostics)
}

/// Whether each of the nodes was open or has been added.
pub open spec fn came(w: Walk, open: Seq<usize>, ids: Seq<usize>) -> bool {
    forall|j: int|
        0 <= j < ids.len() ==> open.contains(#[trigger] ids[j]) || ids[j] >= w.nodes.len()
}

/// Whether the variables of all names are numbered below `n`.
pub open spec fn vars_below(names: Map<Seq<char>, VarId>, n: VarId) -> bool {
    forall|x: Seq<char>| #[trigger] names.contains_key(x) ==> names[x] < n
}

/// Whether the variables of all names in the scopes are numbered below `n`.
pub open spec fn scopes_below(scopes: Seq<Map<Seq<char>, VarId>>, n: VarId) -> bool {
    forall|k: int| 0 <= k < scopes.len() ==> vars_below(#[trigger] scopes[k], n)
}

/// Whether every variable is numbered below the next one, unless the numbers
/// have been used up.
pub open spec fn numbered(w: Walk) -> bool {
    !w.spent ==> scopes_below(w.scopes, w.next_var) && vars_below(w.globals, w.next_var)
}

/// What becomes of the numbers: they grow, and variables stay numbered below
/// the next one.
pub open spec fn numbers_kept(w: Walk, w1: Walk) -> bool {
    &&& w.spent ==> w1.spent
    &&& !w1.spent ==> w.next_var <= w1.next_var
    &&& !w1.spent && vars_below(w.globals, w.next_var) ==> vars_below(w1.globals, w1.next_var)
    &&& !w1.spent && w.scopes.len() > 0 && scopes_below(w.scopes, w.next_var) ==> scopes_below(
        w1.scopes,
        w1.next_var,
    )
}

/// What is shown of every construct. A state that has more nodes than there are
/// node ids is left out.
pub open spec fn good(w: Walk, open: Seq<usize>, w1: Walk, exits: Seq<usize>) -> bool {
    &&& w.nodes.len() <= w1.nodes.len()
    &&& ranged(w1)
    &&& in_range(w1, exits)
    &&& w1.loops.len() == w.loops.len()
    &&& w1.scopes.len() == w.scopes.len()
    &&& numbers_kept(w, w1)
    &&& w1.nodes.len() <= usize::MAX && settled(w) && live(w, open) ==> {
        &&& settled(w1)
        &&& kept(w, open, w1)
        &&& live(w1, exits)
        &&& came(w, open, exits)
    }
}

/// Whether a node has been added.
pub open spec fn added(w: Walk, w1: Walk, id: usize) -> bool {
    id < w1.nodes.len() && (w1.nodes.len() <= usize::MAX ==> id >= w.nodes.len())
}

pub open spec fn all_added(w: Walk, w1: Walk, ids: Seq<usize>) -> bool {
    forall|j: int| 0 <= j < ids.len() ==> added(w, w1, #[trigger] ids[j])
}

pub open spec fn among(some: Seq<usize>, all: Seq<usize>) -> bool {
    forall|j: int| 0 <= j < some.len() ==> all.contains(#[trigger] some[j])
}

pub proof fn lemma_refl(w: Walk, open: Seq<usize>)
    requires
        ranged(w),
        in_range(w, open),
    ensures
        good(w, open, w, open),
{
    assert forall|j: int| 0 <= j < open.len() implies open.contains(#[trigger] open[j])
        || open[j] >= w.nodes.len() by {}
}

pub proof fn lemma_weaken(w: Walk, a: Seq<usize>, w1: Walk, b: Seq<usize>, d: Seq<usize>)
    requires
        good(w, a, w1, b),
        among(d, b),
    ensures
        good(w, a, w1, d),
{
    assert forall|j: int| 0 <= j < d.len() implies (#[trigger] d[j]) < w1.nodes.len() by {
        let i = choose|i: int| 0 <= i < b.len() && b[i] == d[j];
        assert(b[i] < w1.nodes.len());
    }
    if w1.nodes.len() <= usize::MAX && settled(w) && live(w, a) {
        assert forall|j: int| 0 <= j < d.len() implies (#[trigger] d[j]) < w1.nodes.len() && !ends(
            w1.nodes[d[j] as int],
        ) by {
            let i = choose|i: int| 0 <= i < b.len() && b[i] == d[j];
            assert(b[i] < w1.nodes.len());
        }
        assert forall|j: int| 0 <= j < d.len() implies a.contains(#[trigger] d[j]) || d[j]
            >= w.nodes.len() by {
            let i = choose|i: int| 0 <= i < b.len() && b[i] == d[j];
            assert(a.contains(b[i]) || b[i] >= w.nodes.len());
        }
    }
}

/// Node changes in a row. The loops in between may be more than those around,
/// as long as they go on at nodes that have been added.
proof fn lemma_nodes_trans(
    w: Walk,
    a: Seq<usize>,
    u: Walk,
    b: Seq<usize>,
    nodes: Seq<NodeView>,
)
    requires
        nodes_kept(w, a, u.nodes),
        nodes_kept(u, b, nodes),
        came(w, a, b),
        nodes.len() <= usize::MAX,
        forall|v: usize| #[trigger] is_head(u, v) ==> enters(w, v),
    ensures
        nodes_kept(w, a, nodes),
{
    assert forall|k: int| 0 <= k < w.nodes.len() implies same_node(
        w.nodes[k],
        #[trigger] nodes[k],
    ) by {
        assert(same_node(w.nodes[k], u.nodes[k]));
    }
    assert forall|v: usize| #[trigger] enters(u, v) implies enters(w, v) by {
        if is_head(u, v) {
        }
    }
    assert forall|k: int, v: usize|
        0 <= k < w.nodes.len() && #[trigger] nodes[k].succs.contains(v) implies w.nodes[k].succs.contains(
        v,
    ) || (a.contains(k as usize) && enters(w, v)) by {
        if !u.nodes[k].succs.contains(v) {
            assert(b.contains(k as usize) && enters(u, v));
            let j = choose|j: int| 0 <= j < b.len() && b[j] == k as usize;
            assert(a.contains(b[j]) || b[j] >= w.nodes.len());
        }
    }
    assert forall|k: int, v: usize|
        0 <= k < w.nodes.len() && #[trigger] w.nodes[k].succs.contains(v) implies nodes[k].succs.contains(
        v,
    ) by {
        assert(u.nodes[k].succs.contains(v));
    }
    assert forall|k: int, v: usize|
        w.nodes.len() <= k < nodes.len() && #[trigger] nodes[k].succs.contains(v) implies enters(
        w,
        v,
    ) by {
        if k < u.nodes.len() {
            if !u.nodes[k].succs.contains(v) {
                assert(enters(u, v));
            }
        } else {
            assert(enters(u, v));
        }
    }
}

proof fn lemma_same_heads(w: Walk, u: Walk)
    requires
        loops_kept(w, u.loops),
    ensures
        forall|v: usize| #[trigger] is_head(u, v) ==> is_head(w, v),
{
    assert forall|v: usize| #[trigger] is_head(u, v) implies is_head(w, v) by {
        let k = choose|k: int| 0 <= k < u.loops.len() && (#[trigger] u.loops[k]).continue_target
            == v;
        assert(w.loops[k].continue_target == v);
    }
}

/// Two constructs in a row: the second is entered from some of the nodes that
/// the first left open, and what is left open comes from either.
pub proof fn lemma_then(
    w: Walk,
    a: Seq<usize>,
    w1: Walk,
    b: Seq<usize>,
    b2: Seq<usize>,
    w2: Walk,
    c: Seq<usize>,
    d: Seq<usize>,
)
    requires
        good(w, a, w1, b),
        among(b2, b),
        good(w1, b2, w2, c),
        forall|j: int| 0 <= j < d.len() ==> b.contains(#[trigger] d[j]) || c.contains(d[j]),
    ensures
        good(w, a, w2, d),
{
    lemma_weaken(w, a, w1, b, b2);
    assert forall|j: int| 0 <= j < d.len() implies (#[trigger] d[j]) < w2.nodes.len() by {
        if b.contains(d[j]) {
            let i = choose|i: int| 0 <= i < b.len() && b[i] == d[j];
            assert(b[i] < w1.nodes.len());
        } else {
            let i = choose|i: int| 0 <= i < c.len() && c[i] == d[j];
            assert(c[i] < w2.nodes.len());
        }
    }
    if w2.nodes.len() <= usize::MAX && settled(w) && live(w, a) {
        assert(settled(w1) && kept(w, a, w1) && live(w1, b) && came(w, a, b));
        assert(live(w1, b2) && came(w, a, b2));
        assert(settled(w2) && kept(w1, b2, w2) && live(w2, c) && came(w1, b2, c));
        lemma_same_heads(w, w1);
        lemma_nodes_trans(w, a, w1, b2, w2.nodes);
        assert(loops_kept(w, w2.loops)) by {
            assert forall|k: int, x: usize|
                0 <= k < w2.loops.len() && #[trigger] w2.loops[k].breaks.contains(
                    x,
                ) implies w.loops[k].breaks.contains(x) || x >= w.nodes.len() by {
                if w1.loops[k].breaks.contains(x) {
                }
            }
        }
        assert(scopes_kept(w.scopes, w2.scopes)) by {
            assert forall|k: int| 0 <= k < w.scopes.len() - 1 implies w.scopes[k]
                == #[trigger] w2.scopes[k] by {
                assert(w.scopes[k] == w1.scopes[k]);
            }
        }
        assert(reports_kept(w.diagnostics, w2.diagnostics)) by {
            assert forall|k: int| 0 <= k < w.diagnostics.len() implies w.diagnostics[k]
                == #[trigger] w2.diagnostics[k] by {
                assert(w.diagnostics[k] == w1.diagnostics[k]);
            }
        }
        assert forall|j: int| 0 <= j < d.len() implies (#[trigger] d[j]) < w2.nodes.len() && !ends(
            w2.nodes[d[j] as int],
        ) by {
            if b.contains(d[j]) {
                let i = choose|i: int| 0 <= i < b.len() && b[i] == d[j];
                assert(b[i] < w1.nodes.len() && !ends(w1.nodes[b[i] as int]));
                assert(same_node(w1.nodes[b[i] as int], w2.nodes[b[i] as int]));
            } else {
                let i = choose|i: int| 0 <= i < c.len() && c[i] == d[j];
                assert(c[i] < w2.nodes.len() && !ends(w2.nodes[c[i] as int]));
            }
        }
        assert forall|j: int| 0 <= j < d.len() implies a.contains(#[trigger] d[j]) || d[j]
            >= w.nodes.len() by {
            if b.contains(d[j]) {
                let i = choose|i: int| 0 <= i < b.len() && b[i] == d[j];
                assert(a.contains(b[i]) || b[i] >= w.nodes.len());
            } else {
                let i = choose|i: int| 0 <= i < c.len() && c[i] == d[j];
                assert(b2.contains(c[i]) || c[i] >= w1.nodes.len());
                if b2.contains(c[i]) {
                    let x = choose|x: int| 0 <= x < b2.len() && b2[x] == c[i];
                    assert(a.contains(b2[x]) || b2[x] >= w.nodes.len());
                }
            }
        }
    }
}

/// Two constructs in a row.
pub proof fn lemma_seq(
    w: Walk,
    a: Seq<usize>,
    w1: Walk,
    b: Seq<usize>,
    w2: Walk,
    c: Seq<usize>,
)
    requires
        good(w, a, w1, b),
        good(w1, b, w2, c),
    ensures
        good(w, a, w2, c),
{
    lemma_then(w, a, w1, b, b, w2, c, c);
}

/// One edge more, from a node that is open to one that was added or to the
/// head of a loop.
proof fn lemma_edge_more(
    w: Walk,
    a: Seq<usize>,
    w1: Walk,
    b: Seq<usize>,
    from: usize,
    to: usize,
)
    requires
        good(w, a, w1, b),
        b.contains(from),
        to < w1.nodes.len(),
        w1.nodes.len() <= usize::MAX && settled(w) && live(w, a) ==> enters(w, to),
    ensures
        good(w, a, edge(w1, from, to), b),
        edge(w1, from, to).nodes.len() == w1.nodes.len(),
        edge(w1, from, to).loops == w1.loops,
{
    let i = choose|i: int| 0 <= i < b.len() && b[i] == from;
    assert(b[i] < w1.nodes.len());
    let n = w1.nodes[from as int];
    let w2 = edge(w1, from, to);
    if !n.succs.contains(to) {
        let more = n.succs.push(to);
        assert forall|v: usize| more.contains(v) == (n.succs.contains(v) || v == to) by {
            if n.succs.contains(v) {
                let x = choose|x: int| 0 <= x < n.succs.len() && n.succs[x] == v;
                assert(more[x] == v);
            }
            if v == to {
                assert(more[n.succs.len() as int] == v);
            }
            if more.contains(v) && v != to {
                let x = choose|x: int| 0 <= x < more.len() && more[x] == v;
                assert(n.succs[x] == v);
            }
        }
        assert(w2.nodes[from as int].succs == more);
        if w1.nodes.len() <= usize::MAX && settled(w) && live(w, a) {
            assert(!ends(n));
            assert(settled(w2)) by {
                assert(crate::ts::state::in_range(w1, b));
                assert(sound(w2)) by {
                    assert forall|x: int, y: int|
                        0 <= x < w2.nodes.len() && 0 <= y < w2.nodes[x].succs.len() implies
                        #[trigger] w2.nodes[x].succs[y] < w2.nodes.len() by {
                        if x == from {
                            if y < n.succs.len() {
                                assert(w1.nodes[x].succs[y] < w1.nodes.len());
                            }
                        } else {
                            assert(w1.nodes[x].succs[y] < w1.nodes.len());
                        }
                    }
                    assert forall|k: int| 0 <= k < w2.loops.len() implies (
                    #[trigger] w2.loops[k]).continue_target < w2.nodes.len() && in_range(
                        w2,
                        w2.loops[k].breaks,
                    ) by {
                        assert(w1.loops[k].continue_target < w1.nodes.len());
                    }
                }
                assert forall|k: int|
                    0 <= k < w2.nodes.len() && ends(#[trigger] w2.nodes[k]) implies w2.nodes[k].succs.len()
                    == 0 by {
                    assert(w2.nodes[k].kind == w1.nodes[k].kind);
                    assert(ends(w1.nodes[k]));
                }
                assert forall|k: int| 0 <= k < w2.loops.len() implies live(
                    w2,
                    (#[trigger] w2.loops[k]).breaks,
                ) by {
                    assert(live(w1, w1.loops[k].breaks));
                    assert forall|j: int| 0 <= j < w2.loops[k].breaks.len() implies (
                    #[trigger] w2.loops[k].breaks[j]) < w2.nodes.len() && !ends(
                        w2.nodes[w2.loops[k].breaks[j] as int],
                    ) by {
                        let x = w1.loops[k].breaks[j];
                        assert(x < w1.nodes.len() && !ends(w1.nodes[x as int]));
                    }
                }
            }
            assert(nodes_kept(w, a, w2.nodes)) by {
                assert forall|k: int| 0 <= k < w.nodes.len() implies same_node(
                    w.nodes[k],
                    #[trigger] w2.nodes[k],
                ) by {
                    assert(same_node(w.nodes[k], w1.nodes[k]));
                }
                assert forall|k: int, v: usize|
                    0 <= k < w.nodes.len() && #[trigger] w2.nodes[k].succs.contains(
                        v,
                    ) implies w.nodes[k].succs.contains(v) || (a.contains(k as usize) && enters(
                    w,
                    v,
                )) by {
                    if k == from && v == to {
                        assert(a.contains(b[i]) || b[i] >= w.nodes.len());
                    } else {
                        assert(w1.nodes[k].succs.contains(v));
                    }
                }
                assert forall|k: int, v: usize|
                    0 <= k < w.nodes.len() && #[trigger] w.nodes[k].succs.contains(
                        v,
                    ) implies w2.nodes[k].succs.contains(v) by {
                    assert(w1.nodes[k].succs.contains(v));
                }
                assert forall|k: int, v: usize|
                    w.nodes.len() <= k < w2.nodes.len() && #[trigger] w2.nodes[k].succs.contains(
                        v,
                    ) implies enters(w, v) by {
                    if !(k == from && v == to) {
                        assert(w1.nodes[k].succs.contains(v));
                    }
                }
            }
            assert forall|j: int| 0 <= j < b.len() implies (#[trigger] b[j]) < w2.nodes.len()
                && !ends(w2.nodes[b[j] as int]) by {
                assert(b[j] < w1.nodes.len() && !ends(w1.nodes[b[j] as int]));
            }
        }
    }
    assert(ranged(w2)) by {
        assert forall|k: int| 0 <= k < w2.loops.len() implies (#[trigger] w2.loops[k]).continue_target
            < w2.nodes.len() && in_range(w2, w2.loops[k].breaks) by {
            assert(w1.loops[k].continue_target < w1.nodes.len());
        }
    }
}

/// Edges from the nodes at `k` and behind it to one node.
proof fn lemma_link_more(
    w: Walk,
    a: Seq<usize>,
    w1: Walk,
    b: Seq<usize>,
    from: Seq<usize>,
    k: int,
    to: usize,
)
    requires
        good(w, a, w1, b),
        among(from, b),
        0 <= k,
        to < w1.nodes.len(),
        w1.nodes.len() <= usize::MAX && settled(w) && live(w, a) ==> enters(w, to),
    ensures
        good(w, a, link_from(w1, from, k, to), b),
        link_from(w1, from, k, to).nodes.len() == w1.nodes.len(),
        link_from(w1, from, k, to).loops == w1.loops,
    decreases from.len() - k,
{
    if k < from.len() {
        lemma_edge_more(w, a, w1, b, from[k], to);
        lemma_link_more(w, a, edge(w1, from[k], to), b, from, k + 1, to);
    }
}

/// Edges from each added node to the next one.
proof fn lemma_chain_more(w: Walk, a: Seq<usize>, w1: Walk, b: Seq<usize>, ids: Seq<usize>, k: int)
    requires
        good(w, a, w1, b),
        among(ids, b),
        all_added(w, w1, ids),
        0 <= k,
    ensures
        good(w, a, chain_from(w1, ids, k), b),
        chain_from(w1, ids, k).nodes.len() == w1.nodes.len(),
    decreases ids.len() - k,
{
    if k + 1 < ids.len() {
        assert(added(w, w1, ids[k + 1]));
        lemma_edge_more(w, a, w1, b, ids[k], ids[k + 1]);
        let w2 = edge(w1, ids[k], ids[k + 1]);
        assert(all_added(w, w2, ids)) by {
            assert forall|j: int| 0 <= j < ids.len() implies added(w, w2, #[trigger] ids[j]) by {
                assert(added(w, w1, ids[j]));
            }
        }
        lemma_chain_more(w, a, w2, b, ids, k + 1);
    }
}

/// Whether a step leaves nodes, loops and reports as they are.
pub open spec fn quiet(w: Walk, w1: Walk) -> bool {
    &&& w1.nodes == w.nodes
    &&& w1.loops == w.loops
    &&& w1.diagnostics == w.diagnostics
    &&& numbers_kept(w, w1)
    &&& w.scopes.len() > 0 ==> scopes_kept(w.scopes, w1.scopes)
}

pub proof fn lemma_quiet_more(w: Walk, a: Seq<usize>, w1: Walk, b: Seq<usize>, w2: Walk)
    requires
        good(w, a, w1, b),
        quiet(w1, w2),
    ensures
        good(w, a, w2, b),
{
    if w2.nodes.len() <= usize::MAX && settled(w) && live(w, a) {
        assert(settled(w2)) by {
            assert(sound(w1));
            assert forall|k: int| 0 <= k < w2.loops.len() implies live(
                w2,
                (#[trigger] w2.loops[k]).breaks,
            ) by {
                assert(live(w1, w1.loops[k].breaks));
            }
        }
        assert(scopes_kept(w.scopes, w2.scopes)) by {
            assert forall|k: int| 0 <= k < w.scopes.len() - 1 implies w.scopes[k]
                == #[trigger] w2.scopes[k] by {
                assert(w.scopes[k] == w1.scopes[k]);
            }
        }
    }
}

pub proof fn lemma_quiet_trans(w: Walk, w1: Walk, w2: Walk)
    requires
        quiet(w, w1),
        quiet(w1, w2),
    ensures
        quiet(w, w2),
{
    if w.scopes.len() > 0 {
        assert forall|k: int| 0 <= k < w.scopes.len() - 1 implies w.scopes[k]
            == #[trigger] w2.scopes[k] by {
            assert(w.scopes[k] == w1.scopes[k]);
        }
    }
}

pub proof fn lemma_resolved_all_quiet(w: Walk, names: Seq<Seq<char>>, k: int, out: Seq<VarId>)
    requires
        0 <= k,
    ensures
        quiet(w, resolved_all(w, names, k, out).0),
    decreases names.len() - k,
{
    if k < names.len() {
        let (w1, v) = resolved(w, names[k]);
        lemma_resolved_all_quiet(w1, names, k + 1, with_var(out, v));
        lemma_quiet_trans(w, w1, resolved_all(w, names, k, out).0);
    }
}

pub proof fn lemma_declared_quiet(e: Env, w: Walk, name: Seq<char>)
    ensures
        quiet(w, declared(e, w, name).0),
{
    let w1 = declared(e, w, name).0;
    if !w1.spent && scopes_below(w.scopes, w.next_var) && w.scopes.len() > 0 {
        assert forall|k: int| 0 <= k < w1.scopes.len() implies vars_below(
            #[trigger] w1.scopes[k],
            w1.next_var,
        ) by {
            assert(vars_below(w.scopes[k], w.next_var));
        }
    }
}

proof fn lemma_resolved_all_scopes(w: Walk, names: Seq<Seq<char>>, k: int, out: Seq<VarId>)
    ensures
        resolved_all(w, names, k, out).0.scopes == w.scopes,
    decreases names.len() - k,
{
    if 0 <= k < names.len() {
        let (w1, v) = resolved(w, names[k]);
        lemma_resolved_all_scopes(w1, names, k + 1, with_var(out, v));
    }
}

proof fn lemma_calls_pushed_scopes(e: Env, w: Walk, cs: Seq<int>, k: int, ids: Seq<usize>)
    ensures
        calls_pushed(e, w, cs, k, ids).0.scopes == w.scopes,
    decreases cs.len() - k,
{
    if 0 <= k < cs.len() {
        lemma_resolved_all_scopes(w, identifiers_in(e, cs[k], None), 0, Seq::empty());
        lemma_calls_pushed_scopes(
            e,
            call_pushed(e, w, cs[k]),
            cs,
            k + 1,
            ids.push(next_node(w)),
        );
    }
}

proof fn lemma_chain_scopes(w: Walk, ids: Seq<usize>, k: int)
    ensures
        chain_from(w, ids, k).scopes == w.scopes,
    decreases ids.len() - k,
{
    if 0 <= k < ids.len() - 1 {
        lemma_chain_scopes(edge(w, ids[k], ids[k + 1]), ids, k + 1);
    }
}

pub proof fn lemma_declared_all_quiet(
    e: Env,
    w: Walk,
    names: Seq<Seq<char>>,
    k: int,
    out: Seq<VarId>,
)
    requires
        0 <= k,
    ensures
        quiet(w, declared_all(e, w, names, k, out).0),
    decreases names.len() - k,
{
    if k < names.len() {
        let (w1, v) = declared(e, w, names[k]);
        lemma_declared_quiet(e, w, names[k]);
        lemma_declared_all_quiet(e, w1, names, k + 1, with_var(out, v));
        lemma_quiet_trans(w, w1, declared_all(e, w, names, k, out).0);
    }
}

/// One node more, from which control may go on.
pub proof fn lemma_push_more(w: Walk, a: Seq<usize>, w1: Walk, b: Seq<usize>, n: NodeView)
    requires
        good(w, a, w1, b),
        n.succs.len() == 0,
    ensures
        good(w, a, pushed(w1, n), b),
        !ends(n) ==> good(w, a, pushed(w1, n), b.push(next_node(w1))),
        added(w, pushed(w1, n), next_node(w1)),
        pushed(w1, n).nodes.len() == w1.nodes.len() + 1,
{
    let w2 = pushed(w1, n);
    let id = next_node(w1);
    assert(ranged(w2)) by {
        assert forall|k: int| 0 <= k < w2.loops.len() implies (#[trigger] w2.loops[k]).continue_target
            < w2.nodes.len() && in_range(w2, w2.loops[k].breaks) by {
            assert(w1.loops[k].continue_target < w1.nodes.len());
        }
    }
    assert(in_range(w2, b));
    assert(in_range(w2, b.push(id)));
    if w2.nodes.len() <= usize::MAX && settled(w) && live(w, a) {
        assert(settled(w1));
        assert(settled(w2)) by {
            assert(sound(w2)) by {
                assert forall|x: int, y: int|
                    0 <= x < w2.nodes.len() && 0 <= y < w2.nodes[x].succs.len() implies
                    #[trigger] w2.nodes[x].succs[y] < w2.nodes.len() by {
                    assert(x < w1.nodes.len());
                    assert(w1.nodes[x].succs[y] < w1.nodes.len());
                }
            }
            assert forall|k: int|
                0 <= k < w2.nodes.len() && ends(#[trigger] w2.nodes[k]) implies w2.nodes[k].succs.len()
                == 0 by {
                if k < w1.nodes.len() {
                    assert(ends(w1.nodes[k]));
                }
            }
            assert forall|k: int| 0 <= k < w2.loops.len() implies live(
                w2,
                (#[trigger] w2.loops[k]).breaks,
            ) by {
                assert(live(w1, w1.loops[k].breaks));
            }
        }
        assert(nodes_kept(w, a, w2.nodes)) by {
            assert forall|k: int| 0 <= k < w.nodes.len() implies same_node(
                w.nodes[k],
                #[trigger] w2.nodes[k],
            ) by {
                assert(same_node(w.nodes[k], w1.nodes[k]));
            }
            assert forall|k: int, v: usize|
                0 <= k < w.nodes.len() && #[trigger] w2.nodes[k].succs.contains(
                    v,
                ) implies w.nodes[k].succs.contains(v) || (a.contains(k as usize) && enters(
                w,
                v,
            )) by {
                assert(w1.nodes[k].succs.contains(v));
            }
            assert forall|k: int, v: usize|
                0 <= k < w.nodes.len() && #[trigger] w.nodes[k].succs.contains(
                    v,
                ) implies w2.nodes[k].succs.contains(v) by {
                assert(w1.nodes[k].succs.contains(v));
            }
            assert forall|k: int, v: usize|
                w.nodes.len() <= k < w2.nodes.len() && #[trigger] w2.nodes[k].succs.contains(
                    v,
                ) implies enters(w, v) by {
                if k < w1.nodes.len() {
                    assert(w1.nodes[k].succs.contains(v));
                }
            }
        }
        assert(live(w2, b)) by {
            assert forall|j: int| 0 <= j < b.len() implies (#[trigger] b[j]) < w2.nodes.len()
                && !ends(w2.nodes[b[j] as int]) by {
                assert(b[j] < w1.nodes.len() && !ends(w1.nodes[b[j] as int]));
            }
        }
        if !ends(n) {
            let c = b.push(id);
            assert forall|j: int| 0 <= j < c.len() implies (#[trigger] c[j]) < w2.nodes.len()
                && !ends(w2.nodes[c[j] as int]) by {
                if j < b.len() {
                    assert(b[j] < w2.nodes.len() && !ends(w2.nodes[b[j] as int]));
                }
            }
            assert forall|j: int| 0 <= j < c.len() implies a.contains(#[trigger] c[j]) || c[j]
                >= w.nodes.len() by {
                if j < b.len() {
                    assert(a.contains(b[j]) || b[j] >= w.nodes.len());
                }
            }
        }
    }
}

/// The calls from the `k`-th on.
proof fn lemma_calls_pushed(
    e: Env,
    w: Walk,
    a: Seq<usize>,
    w1: Walk,
    cs: Seq<int>,
    k: int,
    ids: Seq<usize>,
)
    requires
        0 <= k,
        good(w, a, w1, a + ids),
        all_added(w, w1, ids),
    ensures
        good(w, a, calls_pushed(e, w1, cs, k, ids).0, a + calls_pushed(e, w1, cs, k, ids).1),
        all_added(w, calls_pushed(e, w1, cs, k, ids).0, calls_pushed(e, w1, cs, k, ids).1),
    decreases cs.len() - k,
{
    if k < cs.len() {
        let c = cs[k];
        let names = identifiers_in(e, c, None);
        let u = resolved_all(w1, names, 0, Seq::empty()).0;
        lemma_resolved_all_quiet(w1, names, 0, Seq::empty());
        let u1 = allocated(u).0;
        assert(quiet(u, u1));
        lemma_quiet_trans(w1, u, u1);
        lemma_quiet_more(w, a, w1, a + ids, u1);
        let w2 = call_pushed(e, w1, c);
        let n = w2.nodes.last();
        assert(w2 == pushed(u1, n)) by {
            assert(w2.nodes =~= u1.nodes.push(n));
        }
        lemma_push_more(w, a, u1, a + ids, n);
        let id = next_node(w1);
        assert((a + ids).push(id) =~= a + ids.push(id));
        assert(all_added(w, w2, ids.push(id))) by {
            assert forall|j: int| 0 <= j < ids.push(id).len() implies added(
                w,
                w2,
                #[trigger] ids.push(id)[j],
            ) by {
                if j < ids.len() {
                    assert(added(w, w1, ids[j]));
                }
            }
        }
        lemma_calls_pushed(e, w, a, w2, cs, k + 1, ids.push(id));
    }
}

proof fn lemma_calls_len(e: Env, w: Walk, cs: Seq<int>, k: int, ids: Seq<usize>)
    requires
        0 <= k <= cs.len(),
    ensures
        calls_pushed(e, w, cs, k, ids).0.nodes.len() == w.nodes.len() + (cs.len() - k),
    decreases cs.len() - k,
{
    if k < cs.len() {
        lemma_resolved_all_quiet(w, identifiers_in(e, cs[k], None), 0, Seq::empty());
        lemma_calls_len(e, call_pushed(e, w, cs[k]), cs, k + 1, ids.push(next_node(w)));
    }
}

/// The calls of a node, added behind a state that is good.
pub proof fn lemma_calls_extracted(e: Env, w: Walk, a: Seq<usize>, i: int)
    requires
        ranged(w),
        in_range(w, a),
    ensures
        good(w, a, calls_extracted(e, w, i).0, a + calls_extracted(e, w, i).1),
        all_added(w, calls_extracted(e, w, i).0, calls_extracted(e, w, i).1),
        calls_extracted(e, w, i).0.nodes.len() == w.nodes.len() + calls_in(e, i).len(),
{
    let none = Seq::<usize>::empty();
    lemma_refl(w, a);
    assert(a + none =~= a);
    lemma_calls_pushed(e, w, a, w, calls_in(e, i), 0, none);
    let (w1, ids) = calls_pushed(e, w, calls_in(e, i), 0, none);
    assert(among(ids, a + ids)) by {
        assert forall|j: int| 0 <= j < ids.len() implies (a + ids).contains(
            #[trigger] ids[j],
        ) by {
            assert((a + ids)[a.len() + j] == ids[j]);
        }
    }
    lemma_chain_more(w, a, w1, a + ids, ids, 0);
    lemma_calls_len(e, w, calls_in(e, i), 0, none);
    let w2 = chain_from(w1, ids, 0);
    assert(all_added(w, w2, ids)) by {
        assert forall|j: int| 0 <= j < ids.len() implies added(w, w2, #[trigger] ids[j]) by {
            assert(added(w, w1, ids[j]));
        }
    }
}

pub proof fn lemma_calls_of(e: Env, w: Walk, a: Seq<usize>, i: Option<int>)
    requires
        ranged(w),
        in_range(w, a),
    ensures
        good(w, a, calls_of(e, w, i).0, a + calls_of(e, w, i).1),
        all_added(w, calls_of(e, w, i).0, calls_of(e, w, i).1),
{
    match i {
        Some(n) => lemma_calls_extracted(e, w, a, n),
        None => {
            lemma_refl(w, a);
            assert(a + Seq::<usize>::empty() =~= a);
        },
    }
}

pub proof fn lemma_uses_of_quiet(e: Env, w: Walk, i: Option<int>)
    ensures
        quiet(w, uses_of(e, w, i).0),
{
    if let Some(n) = i {
        lemma_resolved_all_quiet(w, identifiers_in(e, n, None), 0, Seq::empty());
    }
}

pub proof fn lemma_defs_scanned_quiet(e: Env, w: Walk, i: int, declare: bool, out: Seq<VarId>)
    ensures
        quiet(w, defs_scanned(e, w, i, declare, out).0),
{
    lemma_resolved_all_quiet(w, identifiers_in(e, i, None), 0, out);
    lemma_declared_all_quiet(e, w, identifiers_in(e, i, None), 0, out);
}

/// A node behind its calls: control enters at a node that has been added.
proof fn lemma_behind(
    w: Walk,
    a: Seq<usize>,
    w1: Walk,
    calls: Seq<usize>,
    n: NodeView,
)
    requires
        good(w, a, w1, a + calls),
        all_added(w, w1, calls),
        n.succs.len() == 0,
    ensures
        ({
            let id = next_node(w1);
            let (w2, entry) = behind(pushed(w1, n), calls, id);
            &&& good(w, a, w2, a)
            &&& !ends(n) ==> good(w, a, w2, a.push(id))
            &&& added(w, w2, entry)
            &&& added(w, w2, id)
            &&& w2.nodes.len() == w1.nodes.len() + 1
            &&& w2.loops == w1.loops
        }),
{
    let id = next_node(w1);
    let all = a + calls;
    let w2 = pushed(w1, n);
    lemma_push_more(w, a, w1, all, n);
    let (w3, entry) = behind(w2, calls, id);
    if calls.len() > 0 {
        assert(all[a.len() + calls.len() - 1] == calls.last());
        assert(all.contains(calls.last()));
        lemma_edge_more(w, a, w2, all, calls.last(), id);
        if !ends(n) {
            let more = all.push(id);
            assert(more[a.len() + calls.len() - 1] == calls.last());
            assert(more.contains(calls.last()));
            lemma_edge_more(w, a, w2, more, calls.last(), id);
        }
        assert(added(w, w1, calls[0]));
    }
    assert(among(a, all)) by {
        assert forall|j: int| 0 <= j < a.len() implies all.contains(#[trigger] a[j]) by {
            assert(all[j] == a[j]);
        }
    }
    lemma_weaken(w, a, w3, all, a);
    if !ends(n) {
        let more = all.push(id);
        assert(among(a.push(id), more)) by {
            assert forall|j: int| 0 <= j < a.push(id).len() implies more.contains(
                #[trigger] a.push(id)[j],
            ) by {
                if j < a.len() {
                    assert(more[j] == a[j]);
                } else {
                    assert(more[all.len() as int] == id);
                }
            }
        }
        lemma_weaken(w, a, w3, more, a.push(id));
    }
}

/// A node behind its calls, entered from the open nodes.
pub proof fn lemma_entered(
    w: Walk,
    a: Seq<usize>,
    w1: Walk,
    calls: Seq<usize>,
    n: NodeView,
)
    requires
        good(w, a, w1, a + calls),
        all_added(w, w1, calls),
        n.succs.len() == 0,
        !ends(n),
    ensures
        good(w, a, entered(w1, calls, n, a).0, seq![entered(w1, calls, n, a).1]),
        added(w, entered(w1, calls, n, a).0, entered(w1, calls, n, a).1),
        entered(w1, calls, n, a).0.nodes.len() == w1.nodes.len() + 1,
{
    lemma_behind(w, a, w1, calls, n);
    let id = next_node(w1);
    let (w2, entry) = behind(pushed(w1, n), calls, id);
    let b = a.push(id);
    assert(among(a, b)) by {
        assert forall|j: int| 0 <= j < a.len() implies b.contains(#[trigger] a[j]) by {
            assert(b[j] == a[j]);
        }
    }
    lemma_link_more(w, a, w2, b, a, 0, entry);
    let w3 = link(w2, a, entry);
    assert(b[a.len() as int] == id);
    lemma_weaken(w, a, w3, b, seq![id]);
}

/// A unit: control enters at an added node, and leaves at an added node unless
/// it leaves the function.
pub proof fn lemma_unit(e: Env, w: Walk, a: Seq<usize>, i: int, kind: KindView, defs: Seq<VarId>)
    requires
        ranged(w),
        in_range(w, a),
    ensures
        ({
            let (w1, entry, exit) = unit(e, w, i, kind, defs);
            &&& good(w, a, w1, a)
            &&& !(kind is Return || kind is Throw) ==> good(w, a, w1, a.push(exit))
            &&& added(w, w1, entry)
            &&& added(w, w1, exit)
        }),
{
    lemma_calls_extracted(e, w, a, i);
    let (w1, calls) = calls_extracted(e, w, i);
    let names = identifiers_in(e, i, None);
    lemma_resolved_all_quiet(w1, names, 0, Seq::empty());
    let (w2, uses) = uses_scanned(e, w1, i, Seq::empty());
    lemma_quiet_more(w, a, w1, a + calls, w2);
    assert(all_added(w, w2, calls)) by {
        assert forall|j: int| 0 <= j < calls.len() implies added(w, w2, #[trigger] calls[j]) by {
            assert(added(w, w1, calls[j]));
        }
    }
    lemma_behind(
        w,
        a,
        w2,
        calls,
        bare_node(line_at(e.t, i), kind, defs, uses, snippet_at(e, i)),
    );
}

pub proof fn lemma_unit_after(e: Env, w: Walk, i: int, kind: KindView, a: Seq<usize>)
    requires
        ranged(w),
        in_range(w, a),
    ensures
        good(w, a, unit_after(e, w, i, kind, a).0, Seq::empty()),
        !(kind is Return || kind is Throw) ==> good(
            w,
            a,
            unit_after(e, w, i, kind, a).0,
            seq![unit_after(e, w, i, kind, a).1],
        ),
        added(w, unit_after(e, w, i, kind, a).0, unit_after(e, w, i, kind, a).1),
{
    lemma_unit(e, w, a, i, kind, Seq::empty());
    let (w1, entry, exit) = unit(e, w, i, kind, Seq::empty());
    assert(among(a, a));
    lemma_link_more(w, a, w1, a, a, 0, entry);
    let w2 = link(w1, a, entry);
    lemma_weaken(w, a, w2, a, Seq::empty());
    if !(kind is Return || kind is Throw) {
        let b = a.push(exit);
        assert(among(a, b)) by {
            assert forall|j: int| 0 <= j < a.len() implies b.contains(#[trigger] a[j]) by {
                assert(b[j] == a[j]);
            }
        }
        lemma_link_more(w, a, w1, b, a, 0, entry);
        assert(b[a.len() as int] == exit);
        lemma_weaken(w, a, w2, b, seq![exit]);
    }
}

proof fn lemma_plain(e: Env, w: Walk, i: int, a: Seq<usize>)
    requires
        ranged(w),
        in_range(w, a),
    ensures
        good(w, a, plain(e, w, i, a).0, plain(e, w, i, a).1),
{
    lemma_unit_after(e, w, i, KindView::Pure, a);
}

/// What a block does, seen from around it: the scopes are as they were.
pub proof fn lemma_block(e: Env, w: Walk, a: Seq<usize>, w1: Walk, b: Seq<usize>)
    requires
        ranged(w),
        good(block_entered(e, w), a, w1, b),
    ensures
        good(w, a, block_left(e, w1), b),
{
    if e.g.block_scoped {
        let u = scope_pushed(w);
        let w2 = scope_popped(w1);
        assert(ranged(w2)) by {
            assert forall|k: int| 0 <= k < w2.loops.len() implies (
            #[trigger] w2.loops[k]).continue_target < w2.nodes.len() && in_range(
                w2,
                w2.loops[k].breaks,
            ) by {
                assert(w1.loops[k].continue_target < w1.nodes.len());
            }
        }
        if w2.nodes.len() <= usize::MAX && settled(w) && live(w, a) {
            assert(settled(u)) by {
                assert(sound(u)) by {
                    assert forall|k: int| 0 <= k < u.loops.len() implies (
                    #[trigger] u.loops[k]).continue_target < u.nodes.len() && in_range(
                        u,
                        u.loops[k].breaks,
                    ) by {
                        assert(w.loops[k].continue_target < w.nodes.len());
                    }
                }
                assert forall|k: int| 0 <= k < u.loops.len() implies live(
                    u,
                    (#[trigger] u.loops[k]).breaks,
                ) by {
                    assert(live(w, w.loops[k].breaks));
                }
            }
            assert(live(u, a));
            assert(kept(u, a, w1) && settled(w1));
            assert forall|v: usize| #[trigger] is_head(u, v) implies is_head(w, v) by {
                let k = choose|k: int|
                    0 <= k < u.loops.len() && (#[trigger] u.loops[k]).continue_target == v;
                assert(w.loops[k].continue_target == v);
            }
            assert forall|v: usize| #[trigger] enters(u, v) implies enters(w, v) by {
                if is_head(u, v) {
                }
            }
            assert(nodes_kept(w, a, w2.nodes)) by {
                assert forall|k: int| 0 <= k < w.nodes.len() implies same_node(
                    w.nodes[k],
                    #[trigger] w2.nodes[k],
                ) by {
                    assert(same_node(u.nodes[k], w1.nodes[k]));
                }
                assert forall|k: int, v: usize|
                    0 <= k < w.nodes.len() && #[trigger] w2.nodes[k].succs.contains(
                        v,
                    ) implies w.nodes[k].succs.contains(v) || (a.contains(k as usize) && enters(
                    w,
                    v,
                )) by {
                    assert(w1.nodes[k].succs.contains(v));
                }
                assert forall|k: int, v: usize|
                    0 <= k < w.nodes.len() && #[trigger] w.nodes[k].succs.contains(
                        v,
                    ) implies w2.nodes[k].succs.contains(v) by {
                    assert(u.nodes[k].succs.contains(v));
                }
                assert forall|k: int, v: usize|
                    w.nodes.len() <= k < w2.nodes.len() && #[trigger] w2.nodes[k].succs.contains(
                        v,
                    ) implies enters(w, v) by {
                    assert(w1.nodes[k].succs.contains(v));
                }
            }
            assert(loops_kept(w, w2.loops)) by {
                assert forall|k: int, x: usize|
                    0 <= k < w2.loops.len() && #[trigger] w2.loops[k].breaks.contains(
                        x,
                    ) implies w.loops[k].breaks.contains(x) || x >= w.nodes.len() by {
                    assert(w1.loops[k].breaks.contains(x));
                }
                assert forall|k: int| 0 <= k < w2.loops.len() implies (
                #[trigger] w2.loops[k]).continue_target == w.loops[k].continue_target by {
                    assert(w1.loops[k].continue_target == u.loops[k].continue_target);
                }
            }
            assert(w2.scopes =~= w.scopes) by {
                assert forall|k: int| 0 <= k < w.scopes.len() implies w2.scopes[k]
                    == #[trigger] w.scopes[k] by {
                    assert(u.scopes[k] == w1.scopes[k]);
                }
            }
            assert(settled(w2)) by {
                assert forall|k: int| 0 <= k < w2.loops.len() implies live(
                    w2,
                    (#[trigger] w2.loops[k]).breaks,
                ) by {
                    assert(live(w1, w1.loops[k].breaks));
                }
                assert forall|k: int|
                    0 <= k < w2.nodes.len() && ends(
                        #[trigger] w2.nodes[k],
                    ) implies w2.nodes[k].succs.len() == 0 by {
                    assert(ends(w1.nodes[k]));
                }
            }
        }
    }
}

pub proof fn lemma_block_ranged(e: Env, w: Walk, a: Seq<usize>)
    requires
        ranged(w),
        in_range(w, a),
    ensures
        ranged(block_entered(e, w)),
        in_range(block_entered(e, w), a),
        block_entered(e, w).nodes == w.nodes,
{
    let u = block_entered(e, w);
    assert forall|k: int| 0 <= k < u.loops.len() implies (#[trigger] u.loops[k]).continue_target
        < u.nodes.len() && in_range(u, u.loops[k].breaks) by {
        assert(w.loops[k].continue_target < w.nodes.len());
    }
}

pub proof fn lemma_loop_ranged(w: Walk, head: usize)
    requires
        ranged(w),
        head < w.nodes.len(),
    ensures
        ranged(loop_opened(w, head)),
        in_range(loop_opened(w, head), seq![head]),
{
    let u = loop_opened(w, head);
    assert forall|k: int| 0 <= k < u.loops.len() implies (#[trigger] u.loops[k]).continue_target
        < u.nodes.len() && in_range(u, u.loops[k].breaks) by {
        if k < w.loops.len() {
            assert(w.loops[k].continue_target < w.nodes.len());
        }
    }
}

/// A loop: its head has been added, its body is entered from the head, and the
/// ends of the body lead back to it.
proof fn lemma_loop(
    w: Walk,
    a: Seq<usize>,
    w1: Walk,
    head: usize,
    w2: Walk,
    exits: Seq<usize>,
)
    requires
        good(w, a, w1, seq![head]),
        added(w, w1, head),
        good(loop_opened(w1, head), seq![head], w2, exits),
    ensures
        good(w, a, loop_closed(w2, exits, head).0, loop_closed(w2, exits, head).1),
        loop_closed(w2, exits, head).0.nodes.len() == w2.nodes.len(),
{
    let u = loop_opened(w1, head);
    let n = w.loops.len() as int;
    let one = seq![head];
    let (w4, out) = loop_closed(w2, exits, head);
    assert(one[0] == head);
    assert(u.loops[n].continue_target == head);
    assert(is_head(u, head));
    // The edges back, seen from the opened loop.
    assert(among(exits, exits));
    lemma_link_more(u, one, w2, exits, exits, 0, head);
    let w3 = link(w2, exits, head);
    assert(w3.loops == w2.loops);
    assert(w2.loops[n].continue_target < w2.nodes.len() && in_range(w2, w2.loops[n].breaks));
    assert(ranged(w4)) by {
        assert forall|k: int| 0 <= k < w4.loops.len() implies (#[trigger] w4.loops[k]).continue_target
            < w4.nodes.len() && in_range(w4, w4.loops[k].breaks) by {
            assert(w2.loops[k].continue_target < w2.nodes.len());
        }
    }
    let breaks = w3.loops.last().breaks;
    assert(in_range(w4, out)) by {
        assert forall|j: int| 0 <= j < out.len() implies (#[trigger] out[j]) < w4.nodes.len() by {
            if j > 0 {
                assert(breaks[j - 1] < w2.nodes.len());
            }
        }
    }
    if w4.nodes.len() <= usize::MAX && settled(w) && live(w, a) {
        assert(settled(w1) && kept(w, a, w1) && live(w1, one));
        assert(!ends(w1.nodes[head as int]));
        assert(settled(u)) by {
            assert(sound(u)) by {
                assert forall|k: int| 0 <= k < u.loops.len() implies (
                #[trigger] u.loops[k]).continue_target < u.nodes.len() && in_range(
                    u,
                    u.loops[k].breaks,
                ) by {
                    if k < n {
                        assert(w1.loops[k].continue_target < w1.nodes.len());
                    }
                }
            }
            assert forall|k: int| 0 <= k < u.loops.len() implies live(
                u,
                (#[trigger] u.loops[k]).breaks,
            ) by {
                if k < n {
                    assert(live(w1, w1.loops[k].breaks));
                }
            }
        }
        assert(live(u, one));
        assert(settled(w3) && kept(u, one, w3));
        assert(came(w, a, one));
        lemma_same_heads(w, w1);
        assert forall|v: usize| #[trigger] is_head(u, v) implies enters(w, v) by {
            let k = choose|k: int|
                0 <= k < u.loops.len() && (#[trigger] u.loops[k]).continue_target == v;
            if k < n {
                assert(w1.loops[k].continue_target == v);
                assert(is_head(w1, v));
            }
        }
        lemma_nodes_trans(w, a, u, one, w3.nodes);
        assert(loops_kept(w, w4.loops)) by {
            assert forall|k: int| 0 <= k < w4.loops.len() implies (
            #[trigger] w4.loops[k]).continue_target == w.loops[k].continue_target by {
                assert(w3.loops[k].continue_target == u.loops[k].continue_target);
                assert(w1.loops[k].continue_target == w.loops[k].continue_target);
            }
            assert forall|k: int, x: usize|
                0 <= k < w4.loops.len() && #[trigger] w4.loops[k].breaks.contains(
                    x,
                ) implies w.loops[k].breaks.contains(x) || x >= w.nodes.len() by {
                assert(w3.loops[k].breaks.contains(x));
                if u.loops[k].breaks.contains(x) {
                    assert(w1.loops[k].breaks.contains(x));
                }
            }
        }
        assert(scopes_kept(w.scopes, w4.scopes)) by {
            assert forall|k: int| 0 <= k < w.scopes.len() - 1 implies w.scopes[k]
                == #[trigger] w4.scopes[k] by {
                assert(w.scopes[k] == w1.scopes[k]);
                assert(u.scopes[k] == w3.scopes[k]);
            }
        }
        assert(reports_kept(w.diagnostics, w4.diagnostics)) by {
            assert forall|k: int| 0 <= k < w.diagnostics.len() implies w.diagnostics[k]
                == #[trigger] w4.diagnostics[k] by {
                assert(w.diagnostics[k] == w1.diagnostics[k]);
                assert(u.diagnostics[k] == w3.diagnostics[k]);
            }
        }
        assert(settled(w4)) by {
            assert(sound(w4));
            assert forall|k: int| 0 <= k < w4.loops.len() implies live(
                w4,
                (#[trigger] w4.loops[k]).breaks,
            ) by {
                assert(live(w3, w3.loops[k].breaks));
            }
            assert forall|k: int|
                0 <= k < w4.nodes.len() && ends(#[trigger] w4.nodes[k]) implies w4.nodes[k].succs.len()
                == 0 by {
                assert(ends(w3.nodes[k]));
            }
        }
        assert(live(w3, w3.loops[n].breaks));
        assert(same_node(u.nodes[head as int], w3.nodes[head as int]));
        assert forall|j: int| 0 <= j < out.len() implies (#[trigger] out[j]) < w4.nodes.len()
            && !ends(w4.nodes[out[j] as int]) by {
            if j > 0 {
                assert(breaks[j - 1] < w3.nodes.len() && !ends(w3.nodes[breaks[j - 1] as int]));
            }
        }
        assert forall|j: int| 0 <= j < out.len() implies a.contains(#[trigger] out[j]) || out[j]
            >= w.nodes.len() by {
            if j > 0 {
                assert(w3.loops[n].breaks.contains(breaks[j - 1]));
                assert(!u.loops[n].breaks.contains(breaks[j - 1]));
            }
        }
    }
}

/// A node that leaves the innermost loop.
proof fn lemma_break(w: Walk, a: Seq<usize>, w1: Walk, exit: usize)
    requires
        good(w, a, w1, seq![exit]),
        added(w, w1, exit),
    ensures
        good(w, a, break_taken(w1, exit), Seq::empty()),
{
    let none = Seq::<usize>::empty();
    let one = seq![exit];
    assert(one[0] == exit);
    lemma_weaken(w, a, w1, one, none);
    if w1.loops.len() > 0 {
        let w2 = break_taken(w1, exit);
        let last = w1.loops.len() - 1;
        let old_breaks = w1.loops[last].breaks;
        assert(in_range(w1, old_breaks));
        assert(w2.loops[last].breaks =~= old_breaks.push(exit));
        assert(ranged(w2)) by {
            assert forall|k: int| 0 <= k < w2.loops.len() implies (
            #[trigger] w2.loops[k]).continue_target < w2.nodes.len() && in_range(
                w2,
                w2.loops[k].breaks,
            ) by {
                assert(w1.loops[k].continue_target < w1.nodes.len() && in_range(
                    w1,
                    w1.loops[k].breaks,
                ));
            }
        }
        if w2.nodes.len() <= usize::MAX && settled(w) && live(w, a) {
            assert(loops_kept(w, w2.loops)) by {
                assert forall|k: int, x: usize|
                    0 <= k < w2.loops.len() && #[trigger] w2.loops[k].breaks.contains(
                        x,
                    ) implies w.loops[k].breaks.contains(x) || x >= w.nodes.len() by {
                    if k < last {
                        assert(w1.loops[k].breaks.contains(x));
                    } else if x != exit {
                        let j = choose|j: int|
                            0 <= j < w2.loops[k].breaks.len() && w2.loops[k].breaks[j] == x;
                        assert(old_breaks[j] == x);
                        assert(w1.loops[k].breaks.contains(x));
                    }
                }
                assert forall|k: int| 0 <= k < w2.loops.len() implies (
                #[trigger] w2.loops[k]).continue_target == w.loops[k].continue_target by {
                    assert(w1.loops[k].continue_target == w.loops[k].continue_target);
                }
            }
            assert(settled(w2)) by {
                assert(sound(w2));
                assert forall|k: int| 0 <= k < w2.loops.len() implies live(
                    w2,
                    (#[trigger] w2.loops[k]).breaks,
                ) by {
                    assert(live(w1, w1.loops[k].breaks));
                    if k == last {
                        assert(!ends(w1.nodes[one[0] as int]));
                        assert forall|j: int| 0 <= j < w2.loops[k].breaks.len() implies (
                        #[trigger] w2.loops[k].breaks[j]) < w2.nodes.len() && !ends(
                            w2.nodes[w2.loops[k].breaks[j] as int],
                        ) by {
                            if j < old_breaks.len() {
                                assert(old_breaks[j] < w1.nodes.len() && !ends(
                                    w1.nodes[old_breaks[j] as int],
                                ));
                            }
                        }
                    }
                }
                assert forall|k: int|
                    0 <= k < w2.nodes.len() && ends(
                        #[trigger] w2.nodes[k],
                    ) implies w2.nodes[k].succs.len() == 0 by {
                    assert(ends(w1.nodes[k]));
                }
            }
        }
    }
}

/// A node that goes on with the innermost loop.
proof fn lemma_continue(w: Walk, a: Seq<usize>, w1: Walk, exit: usize)
    requires
        good(w, a, w1, seq![exit]),
    ensures
        good(w, a, continue_taken(w1, exit), Seq::empty()),
{
    let none = Seq::<usize>::empty();
    let one = seq![exit];
    assert(one[0] == exit);
    if w1.loops.len() > 0 {
        let last = w1.loops.len() - 1;
        let to = w1.loops[last].continue_target;
        assert(to < w1.nodes.len());
        if w1.nodes.len() <= usize::MAX && settled(w) && live(w, a) {
            assert(w.loops[last].continue_target == to);
            assert(is_head(w, to));
        }
        lemma_edge_more(w, a, w1, one, exit, to);
    }
    lemma_weaken(w, a, continue_taken(w1, exit), one, none);
}

proof fn lemma_fn_decl(e: Env, w: Walk, i: int, a: Seq<usize>)
    requires
        ranged(w),
        in_range(w, a),
    ensures
        good(w, a, fn_decl_lowered(e, w, i, a).0, fn_decl_lowered(e, w, i, a).1),
{
    let none = Seq::<usize>::empty();
    lemma_refl(w, a);
    let (w1, v) = declared(e, w, bare_name(e, i));
    lemma_declared_quiet(e, w, bare_name(e, i));
    lemma_quiet_more(w, a, w, a, w1);
    assert(a + none =~= a);
    let n = bare_node(line_at(e.t, i), KindView::Pure, seq![v], Seq::empty(), "<fndecl>"@);
    lemma_entered(w, a, w1, none, n);
}

pub proof fn lemma_one_binding(
    e: Env,
    w: Walk,
    span: int,
    pattern: Option<int>,
    value: Option<int>,
    kind: KindView,
    a: Seq<usize>,
)
    requires
        ranged(w),
        in_range(w, a),
        !(kind is Return || kind is Throw),
    ensures
        ({
            let (w1, id) = one_binding_lowered(e, w, span, pattern, value, kind, a);
            good(w, a, w1, seq![id]) && added(w, w1, id)
        }),
{
    lemma_calls_of(e, w, a, value);
    let (w1, calls) = calls_of(e, w, value);
    lemma_uses_of_quiet(e, w1, value);
    let (w2, uses) = uses_of(e, w1, value);
    lemma_quiet_more(w, a, w1, a + calls, w2);
    let (w3, defs) = match pattern {
        Some(p) => defs_scanned(e, w2, p, true, Seq::empty()),
        None => (w2, Seq::empty()),
    };
    if let Some(p) = pattern {
        lemma_defs_scanned_quiet(e, w2, p, true, Seq::empty());
    }
    lemma_quiet_more(w, a, w2, a + calls, w3);
    lemma_all_added_same(w, w1, w3, calls);
    lemma_entered(
        w,
        a,
        w3,
        calls,
        bare_node(line_at(e.t, span), kind, defs, uses, snippet_at(e, span)),
    );
}

pub proof fn lemma_all_added_same(w: Walk, w1: Walk, w2: Walk, ids: Seq<usize>)
    requires
        all_added(w, w1, ids),
        w2.nodes.len() == w1.nodes.len(),
    ensures
        all_added(w, w2, ids),
{
    assert forall|j: int| 0 <= j < ids.len() implies added(w, w2, #[trigger] ids[j]) by {
        assert(added(w, w1, ids[j]));
    }
}

pub proof fn lemma_declarators(e: Env, w: Walk, i: int, k: int, a: Seq<usize>)
    requires
        ranged(w),
        in_range(w, a),
        0 <= k,
    ensures
        good(w, a, declarators_lowered(e, w, i, k, a).0, declarators_lowered(e, w, i, k, a).1),
    decreases kids(e.t, i, Pick::Field(e.g.binding_declarator_field)).len() - k,
{
    let all = kids(e.t, i, Pick::Field(e.g.binding_declarator_field));
    if k >= all.len() {
        lemma_refl(w, a);
    } else {
        let pattern = child_by_field(e.t, all[k], e.g.binding_declarator_name_field);
        let value = child_by_field(e.t, all[k], e.g.binding_declarator_value_field);
        lemma_one_binding(e, w, all[k], pattern, value, KindView::Pure, a);
        let (w1, id) = one_binding_lowered(e, w, all[k], pattern, value, KindView::Pure, a);
        lemma_declarators(e, w1, i, k + 1, seq![id]);
        let (w2, exits) = declarators_lowered(e, w1, i, k + 1, seq![id]);
        lemma_seq(w, a, w1, seq![id], w2, exits);
    }
}

proof fn lemma_assign(e: Env, w: Walk, i: int, a: Seq<usize>, compound: bool)
    requires
        ranged(w),
        in_range(w, a),
    ensures
        good(w, a, assign_lowered(e, w, i, a, compound).0, assign_lowered(e, w, i, a, compound).1),
{
    match assign_target(e, i) {
        None => lemma_plain(e, w, i, a),
        Some(left) => {
            let right = child_by_field(e.t, i, e.g.assign_right_field);
            lemma_calls_of(e, w, a, right);
            let (w1, calls) = calls_of(e, w, right);
            lemma_uses_of_quiet(e, w1, right);
            let (w2, uses) = uses_of(e, w1, right);
            lemma_quiet_more(w, a, w1, a + calls, w2);
            if e.g.member_access_kinds.contains(e.t[left].kind) {
                let (w3, all) = uses_scanned(e, w2, left, uses);
                lemma_resolved_all_quiet(w2, identifiers_in(e, left, None), 0, uses);
                lemma_quiet_more(w, a, w2, a + calls, w3);
                lemma_all_added_same(w, w1, w3, calls);
                lemma_entered(
                    w,
                    a,
                    w3,
                    calls,
                    bare_node(
                        line_at(e.t, i),
                        KindView::StateWrite { target: snippet_at(e, left) },
                        Seq::empty(),
                        all,
                        snippet_at(e, i),
                    ),
                );
            } else {
                let (w3, defs) = defs_scanned(e, w2, left, e.g.assign_declares, Seq::empty());
                lemma_defs_scanned_quiet(e, w2, left, e.g.assign_declares, Seq::empty());
                lemma_quiet_more(w, a, w2, a + calls, w3);
                lemma_all_added_same(w, w1, w3, calls);
                let all = if compound {
                    with_vars(uses, defs, 0)
                } else {
                    uses
                };
                lemma_entered(
                    w,
                    a,
                    w3,
                    calls,
                    bare_node(line_at(e.t, i), KindView::Pure, defs, all, snippet_at(e, i)),
                );
            }
        },
    }
}

proof fn lemma_call_stmt(e: Env, w: Walk, i: int, a: Seq<usize>)
    requires
        ranged(w),
        in_range(w, a),
    ensures
        good(w, a, call_stmt_lowered(e, w, i, a).0, call_stmt_lowered(e, w, i, a).1),
{
    lemma_calls_extracted(e, w, a, i);
    let (w1, calls) = calls_extracted(e, w, i);
    let (w2, uses) = uses_scanned(e, w1, i, Seq::empty());
    lemma_resolved_all_quiet(w1, identifiers_in(e, i, None), 0, Seq::empty());
    lemma_quiet_more(w, a, w1, a + calls, w2);
    lemma_all_added_same(w, w1, w2, calls);
    lemma_entered(
        w,
        a,
        w2,
        calls,
        bare_node(line_at(e.t, i), KindView::Pure, Seq::empty(), uses, "<discard>"@),
    );
}

/// A node that reads nothing, entered from the open nodes.
pub proof fn lemma_bare(w: Walk, a: Seq<usize>, n: NodeView)
    requires
        ranged(w),
        in_range(w, a),
        n.succs.len() == 0,
        !ends(n),
    ensures
        good(w, a, link(pushed(w, n), a, next_node(w)), seq![next_node(w)]),
        added(w, link(pushed(w, n), a, next_node(w)), next_node(w)),
{
    let none = Seq::<usize>::empty();
    lemma_refl(w, a);
    assert(a + none =~= a);
    lemma_entered(w, a, w, none, n);
}

proof fn lemma_other(e: Env, w: Walk, i: int, a: Seq<usize>)
    requires
        ranged(w),
        in_range(w, a),
    ensures
        good(w, a, other_lowered(e, w, i, a).0, other_lowered(e, w, i, a).1),
{
    let u = block_entered(e, w);
    lemma_block_ranged(e, w, a);
    let w1 = if e.g.block_scoped {
        declared_all(e, u, bound_in(e, i), 0, Seq::empty()).0
    } else {
        w
    };
    lemma_declared_all_quiet(e, u, bound_in(e, i), 0, Seq::empty());
    lemma_refl(u, a);
    lemma_quiet_more(u, a, u, a, w1);
    lemma_unit(e, w1, a, i, KindView::Pure, Seq::empty());
    let (w2, entry, exit) = unit(e, w1, i, KindView::Pure, Seq::empty());
    let b = a.push(exit);
    lemma_seq(u, a, w1, a, w2, b);
    lemma_block(e, w, a, w2, b);
    let w3 = block_left(e, w2);
    assert(among(a, b)) by {
        assert forall|j: int| 0 <= j < a.len() implies b.contains(#[trigger] a[j]) by {
            assert(b[j] == a[j]);
        }
    }
    assert(w1.nodes.len() == w.nodes.len());
    assert(added(w, w3, entry));
    lemma_link_more(w, a, w3, b, a, 0, entry);
    assert(b[a.len() as int] == exit);
    lemma_weaken(w, a, link(w3, a, entry), b, seq![exit]);
}

pub proof fn lemma_error_noted(e: Env, w: Walk, i: int, a: Seq<usize>)
    requires
        ranged(w),
        in_range(w, a),
    ensures
        good(w, a, error_noted(e, w, i), a),
{
    lemma_refl(w, a);
    let w1 = error_noted(e, w, i);
    assert(ranged(w1)) by {
        assert forall|k: int| 0 <= k < w1.loops.len() implies (#[trigger] w1.loops[k]).continue_target
            < w1.nodes.len() && in_range(w1, w1.loops[k].breaks) by {
            assert(w.loops[k].continue_target < w.nodes.len());
        }
    }
    if w1.nodes.len() <= usize::MAX && settled(w) && live(w, a) {
        assert(settled(w1)) by {
            assert(sound(w1));
            assert forall|k: int| 0 <= k < w1.loops.len() implies live(
                w1,
                (#[trigger] w1.loops[k]).breaks,
            ) by {
                assert(live(w, w.loops[k].breaks));
            }
        }
    }
}

pub proof fn lemma_seq_lowered(e: Env, w: Walk, i: int, p: Pick, k: int, a: Seq<usize>)
    requires
        ranged(w),
        in_range(w, a),
        0 <= k,
    ensures
        good(w, a, seq_lowered(e, w, i, p, k, a).0, seq_lowered(e, w, i, p, k, a).1),
    decreases size(e.t, i), 1int, kids(e.t, i, p).len() - k,
{
    broadcast use lemma_kid;

    if k >= kids(e.t, i, p).len() {
        lemma_refl(w, a);
    } else {
        let c = kids(e.t, i, p)[k];
        lemma_stmt(e, w, c, a);
        let (w1, exits) = stmt_lowered(e, w, c, a);
        lemma_seq_lowered(e, w1, i, p, k + 1, exits);
        let (w2, out) = seq_lowered(e, w1, i, p, k + 1, exits);
        lemma_seq(w, a, w1, exits, w2, out);
    }
}

pub proof fn lemma_block_lowered(e: Env, w: Walk, i: int, a: Seq<usize>)
    requires
        ranged(w),
        in_range(w, a),
    ensures
        good(w, a, block_lowered(e, w, i, a).0, block_lowered(e, w, i, a).1),
    decreases size(e.t, i), 2int, 0int,
{
    lemma_block_ranged(e, w, a);
    let u = block_entered(e, w);
    lemma_seq_lowered(e, u, i, Pick::Named, 0, a);
    let (w1, exits) = seq_lowered(e, u, i, Pick::Named, 0, a);
    lemma_block(e, w, a, w1, exits);
}

proof fn lemma_class(e: Env, w: Walk, i: int, a: Seq<usize>)
    requires
        ranged(w),
        in_range(w, a),
    ensures
        good(w, a, class_lowered(e, w, i, a).0, class_lowered(e, w, i, a).1),
    decreases size(e.t, i), 4int, 0int,
{
    broadcast use lemma_kid;

    match field_or_kind(e.t, i, e.g.class_body_field, e.g.class_body_kind) {
        Some(body) => lemma_seq_lowered(e, w, body, Pick::Named, 0, a),
        None => lemma_refl(w, a),
    }
}

proof fn lemma_binding(e: Env, w: Walk, i: int, a: Seq<usize>)
    requires
        ranged(w),
        in_range(w, a),
    ensures
        good(w, a, binding_lowered(e, w, i, a).0, binding_lowered(e, w, i, a).1),
    decreases size(e.t, i), 4int, 0int,
{
    broadcast use lemma_kid;

    if e.g.binding_declarator_field.len() > 0 {
        lemma_declarators(e, w, i, 0, a);
    } else {
        let (pattern, value) = binding_parts(e, i);
        match child_by_field(e.t, i, e.g.binding_alt_field) {
            Some(alt) => {
                lemma_one_binding(e, w, i, pattern, value, KindView::Branch, a);
                let (w1, id) = one_binding_lowered(e, w, i, pattern, value, KindView::Branch, a);
                let one = seq![id];
                lemma_stmt(e, w1, alt, one);
                let (w2, exits) = stmt_lowered(e, w1, alt, one);
                let out = one + exits;
                assert forall|j: int| 0 <= j < out.len() implies one.contains(#[trigger] out[j])
                    || exits.contains(out[j]) by {
                    if j == 0 {
                        assert(one[0] == id);
                    } else {
                        assert(exits[j - 1] == out[j]);
                    }
                }
                assert(among(one, one));
                lemma_then(w, a, w1, one, one, w2, exits, out);
            },
            None => lemma_one_binding(e, w, i, pattern, value, KindView::Pure, a),
        }
    }
}

proof fn lemma_if(e: Env, w: Walk, i: int, a: Seq<usize>)
    requires
        ranged(w),
        in_range(w, a),
    ensures
        good(w, a, if_lowered(e, w, i, a).0, if_lowered(e, w, i, a).1),
    decreases size(e.t, i), 4int, 0int,
{
    match (
        field_or_nth(e.t, i, e.g.if_cond_field, 0),
        field_or_nth(e.t, i, e.g.if_then_field, 1),
    ) {
        (Some(cond), Some(then_)) => lemma_if_chain(
            e,
            w,
            i,
            cond,
            then_,
            if_alts(e, i),
            0,
            a,
        ),
        _ => lemma_plain(e, w, i, a),
    }
}

/// What is left open behind an alternative: the ends of the part before it and
/// its own.
proof fn lemma_either(
    w: Walk,
    a: Seq<usize>,
    w2: Walk,
    exits: Seq<usize>,
    branch: usize,
    w3: Walk,
    more: Seq<usize>,
)
    requires
        good(w, a, w2, exits.push(branch)),
        good(w2, seq![branch], w3, more),
    ensures
        good(w, a, w3, exits + more),
{
    let b = exits.push(branch);
    let one = seq![branch];
    assert(b[exits.len() as int] == branch);
    assert(among(one, b));
    let d = exits + more;
    assert forall|j: int| 0 <= j < d.len() implies b.contains(#[trigger] d[j]) || more.contains(
        d[j],
    ) by {
        if j < exits.len() {
            assert(b[j] == d[j]);
        } else {
            assert(more[j - exits.len()] == d[j]);
        }
    }
    lemma_then(w, a, w2, b, one, w3, more, d);
}

pub proof fn lemma_if_chain(
    e: Env,
    w: Walk,
    top: int,
    cond: int,
    then_: int,
    alts: Seq<int>,
    k: int,
    a: Seq<usize>,
)
    requires
        ranged(w),
        in_range(w, a),
        0 <= k,
    ensures
        ({
            let (w1, exits) = if_chain_lowered(e, w, top, cond, then_, alts, k, a);
            good(w, a, w1, exits)
        }),
    decreases size(e.t, top), 3int, alts.len() - k,
{
    broadcast use {lemma_kid, lemma_below, lemma_unwrapped};

    lemma_unit_after(e, w, cond, KindView::Branch, a);
    let (w1, branch) = unit_after(e, w, cond, KindView::Branch, a);
    let one = seq![branch];
    if below(e.t, top, then_) {
        lemma_stmt(e, w1, then_, one);
        let (w2, exits) = stmt_lowered(e, w1, then_, one);
        let b = exits.push(branch);
        assert forall|j: int| 0 <= j < b.len() implies one.contains(#[trigger] b[j])
            || exits.contains(b[j]) by {
            if j == exits.len() {
                assert(one[0] == b[j]);
            } else {
                assert(exits[j] == b[j]);
            }
        }
        assert(among(one, one));
        lemma_then(w, a, w1, one, one, w2, exits, b);
        assert(b[exits.len() as int] == branch);
        assert(branch < w2.nodes.len());
        assert(in_range(w2, one));
        if k < alts.len() && below(e.t, top, alts[k]) {
            let alt = unwrapped(e.g, e.t, alts[k]);
            if e.g.elif_kind == Some(e.t[alt].kind) {
                match (
                    child_by_field(e.t, alt, e.g.if_cond_field),
                    child_by_field(e.t, alt, e.g.if_then_field),
                ) {
                    (Some(c2), Some(t2)) => {
                        lemma_if_chain(e, w2, top, c2, t2, alts, k + 1, one);
                        let (w3, more) = if_chain_lowered(e, w2, top, c2, t2, alts, k + 1, one);
                        lemma_either(w, a, w2, exits, branch, w3, more);
                    },
                    _ => {},
                }
            } else {
                lemma_stmt(e, w2, alt, one);
                let (w3, more) = stmt_lowered(e, w2, alt, one);
                lemma_either(w, a, w2, exits, branch, w3, more);
            }
        }
    }
}

proof fn lemma_while(e: Env, w: Walk, i: int, a: Seq<usize>)
    requires
        ranged(w),
        in_range(w, a),
    ensures
        good(w, a, while_lowered(e, w, i, a).0, while_lowered(e, w, i, a).1),
    decreases size(e.t, i), 4int, 0int,
{
    broadcast use lemma_kid;

    match (
        field_or_nth(e.t, i, e.g.while_cond_field, 0),
        field_or_last(e.t, i, e.g.while_body_field),
    ) {
        (Some(cond), Some(body)) => {
            lemma_unit_after(e, w, cond, KindView::Branch, a);
            let (w1, head) = unit_after(e, w, cond, KindView::Branch, a);
            lemma_loop_ranged(w1, head);
            lemma_stmt(e, loop_opened(w1, head), body, seq![head]);
            let (w2, exits) = stmt_lowered(e, loop_opened(w1, head), body, seq![head]);
            lemma_loop(w, a, w1, head, w2, exits);
        },
        _ => lemma_plain(e, w, i, a),
    }
}

proof fn lemma_endless(e: Env, w: Walk, i: int, a: Seq<usize>)
    requires
        ranged(w),
        in_range(w, a),
    ensures
        good(w, a, loop_lowered(e, w, i, a).0, loop_lowered(e, w, i, a).1),
    decreases size(e.t, i), 4int, 0int,
{
    broadcast use lemma_kid;

    match field_or_kind(e.t, i, e.g.loop_body_field, Seq::empty()) {
        Some(body) => {
            let head = next_node(w);
            let n = bare_node(
                line_at(e.t, i),
                KindView::Branch,
                Seq::empty(),
                Seq::empty(),
                snippet_at(e, i),
            );
            lemma_bare(w, a, n);
            let w1 = link(pushed(w, n), a, head);
            lemma_loop_ranged(w1, head);
            lemma_stmt(e, loop_opened(w1, head), body, seq![head]);
            let (w2, exits) = stmt_lowered(e, loop_opened(w1, head), body, seq![head]);
            lemma_loop(w, a, w1, head, w2, exits);
        },
        None => lemma_plain(e, w, i, a),
    }
}

proof fn lemma_for(e: Env, w: Walk, i: int, a: Seq<usize>)
    requires
        ranged(w),
        in_range(w, a),
    ensures
        good(w, a, for_lowered(e, w, i, a).0, for_lowered(e, w, i, a).1),
    decreases size(e.t, i), 4int, 0int,
{
    broadcast use lemma_kid;

    let pattern = for_pattern(e, i);
    match (
        field_or_nth(e.t, for_clause(e, i), e.g.for_value_field, 1),
        field_or_last(e.t, i, e.g.for_body_field),
    ) {
        (Some(value), Some(body)) => if pattern is None && e.g.for_range_kind.len() == 0 {
            lemma_plain(e, w, i, a);
        } else {
            lemma_calls_extracted(e, w, a, value);
            let (w1, calls) = calls_extracted(e, w, value);
            let (w2, uses) = uses_scanned(e, w1, value, Seq::empty());
            lemma_resolved_all_quiet(w1, identifiers_in(e, value, None), 0, Seq::empty());
            let b = a + calls;
            lemma_quiet_more(w, a, w1, b, w2);
            assert(w2.scopes == w.scopes) by {
                let (w0, ids) = calls_pushed(e, w, calls_in(e, value), 0, Seq::empty());
                lemma_calls_pushed_scopes(e, w, calls_in(e, value), 0, Seq::empty());
                lemma_chain_scopes(w0, ids, 0);
                lemma_resolved_all_scopes(
                    w1,
                    identifiers_in(e, value, None),
                    0,
                    Seq::empty(),
                );
            }
            lemma_block_ranged(e, w2, b);
            let u = block_entered(e, w2);
            lemma_rebase(w, a, w2, b, u.scopes);
            let base = Walk { scopes: u.scopes, ..w };
            assert(u == Walk { scopes: u.scopes, ..w2 });
            let (w3, defs) = match pattern {
                Some(p) => defs_scanned(e, u, p, true, Seq::empty()),
                None => (u, Seq::empty()),
            };
            if let Some(p) = pattern {
                lemma_defs_scanned_quiet(e, u, p, true, Seq::empty());
                lemma_quiet_more(base, a, u, b, w3);
            }
            let n = bare_node(line_at(e.t, i), KindView::Branch, defs, uses, snippet_at(e, i));
            assert(all_added(base, w3, calls)) by {
                assert forall|j: int| 0 <= j < calls.len() implies added(
                    base,
                    w3,
                    #[trigger] calls[j],
                ) by {
                    assert(added(w, w1, calls[j]));
                }
            }
            lemma_entered(base, a, w3, calls, n);
            let (w4, head) = entered(w3, calls, n, a);
            lemma_loop_ranged(w4, head);
            lemma_stmt(e, loop_opened(w4, head), body, seq![head]);
            let (w5, exits) = stmt_lowered(e, loop_opened(w4, head), body, seq![head]);
            lemma_loop(base, a, w4, head, w5, exits);
            let (w6, out) = loop_closed(w5, exits, head);
            lemma_unbase(e, w, a, w2, b, w6, out);
        },
        _ => lemma_plain(e, w, i, a),
    }
}

/// The same nodes and loops under other scopes.
proof fn lemma_rebase(
    w: Walk,
    a: Seq<usize>,
    w1: Walk,
    b: Seq<usize>,
    scopes: Seq<Map<Seq<char>, VarId>>,
)
    requires
        ranged(w),
        good(w, a, w1, b),
        scopes.len() > 0,
    ensures
        good(Walk { scopes, ..w }, a, Walk { scopes, ..w1 }, b),
        ranged(Walk { scopes, ..w }),
{
    let u = Walk { scopes, ..w };
    let u1 = Walk { scopes, ..w1 };
    lemma_ranged_same(w, u);
    lemma_ranged_same(w1, u1);
    if u1.nodes.len() <= usize::MAX && settled(u) && live(u, a) {
        lemma_settled_same(u, w);
        assert(live(w, a));
        lemma_settled_same(w1, u1);
        lemma_nodes_kept_same(w, u, a, u1.nodes);
        assert(loops_kept(u, u1.loops)) by {
            assert forall|k: int, x: usize|
                0 <= k < u1.loops.len() && #[trigger] u1.loops[k].breaks.contains(
                    x,
                ) implies u.loops[k].breaks.contains(x) || x >= u.nodes.len() by {
                assert(w1.loops[k].breaks.contains(x));
            }
            assert forall|k: int| 0 <= k < u1.loops.len() implies (
            #[trigger] u1.loops[k]).continue_target == u.loops[k].continue_target by {
                assert(w1.loops[k].continue_target == w.loops[k].continue_target);
            }
        }
    }
}

proof fn lemma_ranged_same(w: Walk, u: Walk)
    requires
        ranged(w),
        u.nodes.len() == w.nodes.len(),
        u.loops == w.loops,
        u.scopes.len() > 0,
    ensures
        ranged(u),
{
    assert forall|k: int| 0 <= k < u.loops.len() implies (#[trigger] u.loops[k]).continue_target
        < u.nodes.len() && in_range(u, u.loops[k].breaks) by {
        assert(w.loops[k].continue_target < w.nodes.len() && in_range(w, w.loops[k].breaks));
    }
}

proof fn lemma_settled_same(w: Walk, u: Walk)
    requires
        settled(w),
        u.nodes == w.nodes,
        u.loops == w.loops,
        u.scopes.len() > 0,
    ensures
        settled(u),
{
    assert(sound(u)) by {
        assert forall|k: int| 0 <= k < u.loops.len() implies (#[trigger] u.loops[k]).continue_target
            < u.nodes.len() && in_range(u, u.loops[k].breaks) by {
            assert(w.loops[k].continue_target < w.nodes.len() && in_range(w, w.loops[k].breaks));
        }
    }
    assert forall|k: int| 0 <= k < u.loops.len() implies live(
        u,
        (#[trigger] u.loops[k]).breaks,
    ) by {
        assert(live(w, w.loops[k].breaks));
    }
}

proof fn lemma_nodes_kept_same(w: Walk, u: Walk, a: Seq<usize>, nodes: Seq<NodeView>)
    requires
        nodes_kept(w, a, nodes),
        u.nodes == w.nodes,
        u.loops == w.loops,
    ensures
        nodes_kept(u, a, nodes),
{
    assert forall|v: usize| #[trigger] enters(w, v) implies enters(u, v) by {
        if is_head(w, v) {
            let k = choose|k: int|
                0 <= k < w.loops.len() && (#[trigger] w.loops[k]).continue_target == v;
            assert(u.loops[k].continue_target == v);
        }
    }
    assert forall|k: int, v: usize|
        0 <= k < u.nodes.len() && #[trigger] nodes[k].succs.contains(v) implies u.nodes[k].succs.contains(
        v,
    ) || (a.contains(k as usize) && enters(u, v)) by {
        if !w.nodes[k].succs.contains(v) {
            assert(enters(w, v));
        }
    }
    assert forall|k: int, v: usize|
        u.nodes.len() <= k < nodes.len() && #[trigger] nodes[k].succs.contains(v) implies enters(
        u,
        v,
    ) by {
        assert(enters(w, v));
    }
}

/// A scope that was opened on the way is closed.
proof fn lemma_unbase(
    e: Env,
    w: Walk,
    a: Seq<usize>,
    w2: Walk,
    b: Seq<usize>,
    w6: Walk,
    out: Seq<usize>,
)
    requires
        ranged(w),
        good(w, a, w2, b),
        good(Walk { scopes: block_entered(e, w2).scopes, ..w }, a, w6, out),
        w2.scopes == w.scopes,
        w6.nodes.len() >= w2.nodes.len(),
    ensures
        good(w, a, block_left(e, w6), out),
{
    let base = Walk { scopes: block_entered(e, w2).scopes, ..w };
    let w7 = block_left(e, w6);
    lemma_ranged_same(w6, w7);
    if scopes_below(w.scopes, w.next_var) {
        assert(scopes_below(base.scopes, base.next_var));
    }
    if scopes_below(w6.scopes, w6.next_var) {
        assert(scopes_below(w7.scopes, w7.next_var));
    }
    assert(in_range(w7, out)) by {
        assert forall|j: int| 0 <= j < out.len() implies (#[trigger] out[j]) < w7.nodes.len() by {
            assert(out[j] < w6.nodes.len());
        }
    }
    if w7.nodes.len() <= usize::MAX && settled(w) && live(w, a) {
        lemma_settled_same(w, base);
        assert(live(base, a));
        assert(settled(w6) && kept(base, a, w6) && live(w6, out) && came(base, a, out));
        lemma_settled_same(w6, w7);
        lemma_nodes_kept_same(base, w, a, w7.nodes);
        assert(loops_kept(w, w7.loops)) by {
            assert forall|k: int, x: usize|
                0 <= k < w7.loops.len() && #[trigger] w7.loops[k].breaks.contains(
                    x,
                ) implies w.loops[k].breaks.contains(x) || x >= w.nodes.len() by {
                assert(w6.loops[k].breaks.contains(x));
            }
            assert forall|k: int| 0 <= k < w7.loops.len() implies (
            #[trigger] w7.loops[k]).continue_target == w.loops[k].continue_target by {
                assert(w6.loops[k].continue_target == base.loops[k].continue_target);
            }
        }
        assert(scopes_kept(w.scopes, w7.scopes)) by {
            assert forall|k: int| 0 <= k < w.scopes.len() - 1 implies w.scopes[k]
                == #[trigger] w7.scopes[k] by {
                assert(w.scopes[k] == w2.scopes[k]);
                assert(base.scopes[k] == w6.scopes[k]);
            }
        }
        assert(live(w7, out)) by {
            assert forall|j: int| 0 <= j < out.len() implies (#[trigger] out[j]) < w7.nodes.len()
                && !ends(w7.nodes[out[j] as int]) by {
                assert(out[j] < w6.nodes.len() && !ends(w6.nodes[out[j] as int]));
            }
        }
        assert(came(w, a, out)) by {
            assert forall|j: int| 0 <= j < out.len() implies a.contains(#[trigger] out[j])
                || out[j] >= w.nodes.len() by {
                assert(a.contains(out[j]) || out[j] >= base.nodes.len());
            }
        }
    }
}

pub proof fn lemma_label_scanned_quiet(
    e: Env,
    w: Walk,
    label: int,
    defs: Seq<VarId>,
    uses: Seq<VarId>,
)
    ensures
        quiet(w, label_scanned(e, w, label, defs, uses).0),
{
    let guard = child_by_field(e.t, label, e.g.match_pattern_guard_field);
    let (w1, d, u) = if e.g.match_arm_pattern_declares {
        let (w1, d) = declared_all(e, w, identifiers_in(e, label, guard), 0, defs);
        (w1, d, uses)
    } else {
        let (w1, u) = uses_scanned(e, w, label, uses);
        (w1, defs, u)
    };
    lemma_declared_all_quiet(e, w, identifiers_in(e, label, guard), 0, defs);
    lemma_resolved_all_quiet(w, identifiers_in(e, label, None), 0, uses);
    if let Some(g) = guard {
        lemma_resolved_all_quiet(w1, identifiers_in(e, g, None), 0, u);
        lemma_quiet_trans(w, w1, uses_scanned(e, w1, g, u).0);
    }
}

pub proof fn lemma_labels_scanned_quiet(
    e: Env,
    w: Walk,
    labels: Seq<int>,
    k: int,
    defs: Seq<VarId>,
    uses: Seq<VarId>,
)
    requires
        0 <= k,
    ensures
        quiet(w, labels_scanned(e, w, labels, k, defs, uses).0),
    decreases labels.len() - k,
{
    if k < labels.len() {
        let (w1, d, u) = label_scanned(e, w, labels[k], defs, uses);
        lemma_label_scanned_quiet(e, w, labels[k], defs, uses);
        lemma_labels_scanned_quiet(e, w1, labels, k + 1, d, u);
        lemma_quiet_trans(w, w1, labels_scanned(e, w, labels, k, defs, uses).0);
    }
}

/// The head of a match arm, in the scope of the arm.
pub open spec fn arm_head(e: Env, w: Walk, arm: int, disc: usize) -> (Walk, usize) {
    let labels = arm_labels(e, arm);
    let (w1, defs, uses) = labels_scanned(
        e,
        block_entered(e, w),
        labels,
        0,
        Seq::empty(),
        Seq::empty(),
    );
    let (w2, all) = match child_by_field(e.t, arm, e.g.match_arm_guard_field) {
        Some(g) => uses_scanned(e, w1, g, uses),
        None => (w1, uses),
    };
    let head = next_node(w2);
    (
        edge(
            pushed(w2, bare_node(line_at(e.t, arm), KindView::Pure, defs, all, snippet_at(e, arm))),
            disc,
            head,
        ),
        head,
    )
}

pub proof fn lemma_arm_head(e: Env, w: Walk, arm: int, disc: usize)
    requires
        ranged(w),
        disc < w.nodes.len(),
    ensures
        ({
            let (w3, head) = arm_head(e, w, arm, disc);
            &&& good(block_entered(e, w), seq![disc], w3, seq![head])
            &&& w3.nodes.len() == w.nodes.len() + 1
            &&& head == w.nodes.len() as usize
            &&& w.nodes.len() < usize::MAX ==> w3.nodes[head as int].kind is Pure
                && w3.nodes[head as int].line == Some(line_at(e.t, arm))
                && w3.nodes[disc as int].succs.contains(head)
        }),
{
    let one = seq![disc];
    let labels = arm_labels(e, arm);
    lemma_block_ranged(e, w, one);
    let u = block_entered(e, w);
    let (w1, defs, uses) = labels_scanned(e, u, labels, 0, Seq::empty(), Seq::empty());
    lemma_labels_scanned_quiet(e, u, labels, 0, Seq::empty(), Seq::empty());
    let guard = child_by_field(e.t, arm, e.g.match_arm_guard_field);
    let (w2, all) = match guard {
        Some(g) => uses_scanned(e, w1, g, uses),
        None => (w1, uses),
    };
    if let Some(g) = guard {
        lemma_resolved_all_quiet(w1, identifiers_in(e, g, None), 0, uses);
        lemma_quiet_trans(u, w1, w2);
    }
    lemma_refl(u, one);
    lemma_quiet_more(u, one, u, one, w2);
    let n = bare_node(line_at(e.t, arm), KindView::Pure, defs, all, snippet_at(e, arm));
    let head = next_node(w2);
    lemma_push_more(u, one, w2, one, n);
    let b = one.push(head);
    assert(b[0] == disc);
    assert(b.contains(disc));
    let x = pushed(w2, n);
    lemma_edge_more(u, one, x, b, disc, head);
    let w3 = edge(x, disc, head);
    assert(b[1] == head);
    lemma_weaken(u, one, w3, b, seq![head]);
    if w.nodes.len() < usize::MAX {
        assert(x.nodes[head as int] == n);
        let from = x.nodes[disc as int];
        if !from.succs.contains(head) {
            assert(from.succs.push(head)[from.succs.len() as int] == head);
        }
    }
}

pub proof fn lemma_arm(e: Env, w: Walk, arm: int, disc: usize)
    requires
        ranged(w),
        disc < w.nodes.len(),
    ensures
        good(w, seq![disc], arm_lowered(e, w, arm, disc).0, arm_lowered(e, w, arm, disc).1),
    decreases size(e.t, arm), 3int, 0int,
{
    let one = seq![disc];
    let labels = arm_labels(e, arm);
    lemma_block_ranged(e, w, one);
    let u = block_entered(e, w);
    let (w1, defs, uses) = labels_scanned(e, u, labels, 0, Seq::empty(), Seq::empty());
    lemma_labels_scanned_quiet(e, u, labels, 0, Seq::empty(), Seq::empty());
    let guard = child_by_field(e.t, arm, e.g.match_arm_guard_field);
    let (w2, all) = match guard {
        Some(g) => uses_scanned(e, w1, g, uses),
        None => (w1, uses),
    };
    if let Some(g) = guard {
        lemma_resolved_all_quiet(w1, identifiers_in(e, g, None), 0, uses);
        lemma_quiet_trans(u, w1, w2);
    }
    lemma_refl(u, one);
    lemma_quiet_more(u, one, u, one, w2);
    let n = bare_node(line_at(e.t, arm), KindView::Pure, defs, all, snippet_at(e, arm));
    let head = next_node(w2);
    lemma_push_more(u, one, w2, one, n);
    let b = one.push(head);
    assert(b[0] == disc);
    assert(b.contains(disc));
    lemma_edge_more(u, one, pushed(w2, n), b, disc, head);
    let w3 = edge(pushed(w2, n), disc, head);
    assert(b[1] == head);
    lemma_weaken(u, one, w3, b, seq![head]);
    let p = Pick::Except(arm_head_nodes(e, arm));
    lemma_seq_lowered(e, w3, arm, p, 0, seq![head]);
    let (w4, exits) = seq_lowered(e, w3, arm, p, 0, seq![head]);
    lemma_seq(u, one, w3, seq![head], w4, exits);
    lemma_block(e, w, one, w4, exits);
}

pub proof fn lemma_arms(
    e: Env,
    w: Walk,
    a: Seq<usize>,
    w1: Walk,
    container: int,
    k: int,
    disc: usize,
    exits: Seq<usize>,
    default: bool,
)
    requires
        ranged(w),
        good(w, a, w1, exits.push(disc)),
        0 <= k,
    ensures
        ({
            let (w2, out, _d) = arms_lowered(e, w1, container, k, disc, exits, default);
            good(w, a, w2, out.push(disc))
        }),
    decreases size(e.t, container), 2int,
        kids(e.t, container, Pick::Kinds(e.g.match_arm_kinds)).len() - k,
{
    broadcast use lemma_kid;

    let arms = kids(e.t, container, Pick::Kinds(e.g.match_arm_kinds));
    if k < arms.len() {
        let b = exits.push(disc);
        let one = seq![disc];
        assert(b[exits.len() as int] == disc);
        assert(disc < w1.nodes.len());
        lemma_arm(e, w1, arms[k], disc);
        let (w2, more) = arm_lowered(e, w1, arms[k], disc);
        let d = (exits + more).push(disc);
        assert(among(one, b));
        assert forall|j: int| 0 <= j < d.len() implies b.contains(#[trigger] d[j])
            || more.contains(d[j]) by {
            if j < exits.len() {
                assert(b[j] == d[j]);
            } else if j < exits.len() + more.len() {
                assert(more[j - exits.len()] == d[j]);
            }
        }
        lemma_then(w, a, w1, b, one, w2, more, d);
        lemma_arms(
            e,
            w,
            a,
            w2,
            container,
            k + 1,
            disc,
            exits + more,
            default || arm_is_default(e, arm_labels(e, arms[k])),
        );
    }
}

proof fn lemma_match(e: Env, w: Walk, i: int, a: Seq<usize>)
    requires
        ranged(w),
        in_range(w, a),
    ensures
        good(w, a, match_lowered(e, w, i, a).0, match_lowered(e, w, i, a).1),
    decreases size(e.t, i), 4int, 0int,
{
    broadcast use lemma_kid;

    let none = Seq::<usize>::empty();
    let subject = field_or_kind(e.t, i, e.g.match_subject_field, e.g.match_subject_kind);
    lemma_calls_of(e, w, a, subject);
    let (w1, calls) = calls_of(e, w, subject);
    lemma_uses_of_quiet(e, w1, subject);
    let (w2, uses) = uses_of(e, w1, subject);
    lemma_quiet_more(w, a, w1, a + calls, w2);
    lemma_all_added_same(w, w1, w2, calls);
    let n = bare_node(line_at(e.t, i), KindView::Branch, Seq::empty(), uses, snippet_at(e, i));
    lemma_entered(w, a, w2, calls, n);
    let (w3, disc) = entered(w2, calls, n, a);
    let container = match field_or_kind(e.t, i, e.g.match_body_field, e.g.match_body_kind) {
        Some(c) => c,
        None => i,
    };
    assert(none.push(disc) =~= seq![disc]);
    lemma_arms(e, w, a, w3, container, 0, disc, none, false);
    let (w4, exits, default) = arms_lowered(e, w3, container, 0, disc, none, false);
    let b = exits.push(disc);
    assert(among(exits, b)) by {
        assert forall|j: int| 0 <= j < exits.len() implies b.contains(#[trigger] exits[j]) by {
            assert(b[j] == exits[j]);
        }
    }
    lemma_weaken(w, a, w4, b, exits);
}

pub proof fn lemma_catch(e: Env, w: Walk, i: int)
    requires
        ranged(w),
    ensures
        good(w, Seq::empty(), catch_lowered(e, w, i), Seq::empty()),
    decreases size(e.t, i), 3int, 0int,
{
    broadcast use lemma_kid;

    let none = Seq::<usize>::empty();
    lemma_refl(w, none);
    match field_or_kind(e.t, i, e.g.catch_body_field, e.g.catch_body_kind) {
        None => {},
        Some(body) => {
            lemma_block_ranged(e, w, none);
            let u = block_entered(e, w);
            lemma_refl(u, none);
            let (w1, defs) = match catch_param(e, i) {
                Some(p) => declared_all(e, u, identifiers_in(e, p, None), 0, Seq::empty()),
                None => (u, Seq::empty()),
            };
            if let Some(p) = catch_param(e, i) {
                lemma_declared_all_quiet(e, u, identifiers_in(e, p, None), 0, Seq::empty());
                lemma_quiet_more(u, none, u, none, w1);
            }
            let entry = next_node(w1);
            let n = bare_node(line_at(e.t, i), KindView::Pure, defs, Seq::empty(), "<catch>"@);
            lemma_push_more(u, none, w1, none, n);
            let w2 = pushed(w1, n);
            assert(none.push(entry) =~= seq![entry]);
            lemma_block_lowered(e, w2, body, seq![entry]);
            let (w3, exits) = block_lowered(e, w2, body, seq![entry]);
            lemma_seq(u, none, w2, seq![entry], w3, exits);
            lemma_weaken(u, none, w3, exits, none);
            lemma_block(e, w, none, w3, none);
        },
    }
}

pub proof fn lemma_catches(e: Env, w: Walk, i: int, k: int)
    requires
        ranged(w),
        0 <= k,
    ensures
        good(w, Seq::empty(), catches_lowered(e, w, i, k), Seq::empty()),
    decreases size(e.t, i), 3int, kids(e.t, i, Pick::Kinds(e.g.catch_kinds)).len() - k,
{
    broadcast use lemma_kid;

    let none = Seq::<usize>::empty();
    let all = kids(e.t, i, Pick::Kinds(e.g.catch_kinds));
    if k >= all.len() {
        lemma_refl(w, none);
    } else {
        lemma_catch(e, w, all[k]);
        let w1 = catch_lowered(e, w, all[k]);
        lemma_catches(e, w1, i, k + 1);
        lemma_seq(w, none, w1, none, catches_lowered(e, w1, i, k + 1), none);
    }
}

proof fn lemma_try(e: Env, w: Walk, i: int, a: Seq<usize>)
    requires
        ranged(w),
        in_range(w, a),
    ensures
        good(w, a, try_lowered(e, w, i, a).0, try_lowered(e, w, i, a).1),
    decreases size(e.t, i), 4int, 0int,
{
    broadcast use lemma_kid;

    let none = Seq::<usize>::empty();
    match field_or_kind(e.t, i, e.g.try_body_field, e.g.try_body_kind) {
        None => lemma_plain(e, w, i, a),
        Some(body) => {
            lemma_block_lowered(e, w, body, a);
            let (w1, exits) = block_lowered(e, w, body, a);
            lemma_catches(e, w1, i, 0);
            let w2 = catches_lowered(e, w1, i, 0);
            lemma_then(w, a, w1, exits, none, w2, none, exits);
            let (w3, exits3) = match try_else_body(e, i) {
                Some(b) => block_lowered(e, w2, b, exits),
                None => (w2, exits),
            };
            if let Some(b) = try_else_body(e, i) {
                lemma_block_lowered(e, w2, b, exits);
                lemma_seq(w, a, w2, exits, w3, exits3);
            }
            if let Some(b) = finally_body(e, i) {
                lemma_block_lowered(e, w3, b, exits3);
                let (w4, exits4) = block_lowered(e, w3, b, exits3);
                lemma_seq(w, a, w3, exits3, w4, exits4);
            }
        },
    }
}

proof fn lemma_word(e: Env, w: Walk, i: int, a: Seq<usize>)
    requires
        ranged(w),
        in_range(w, a),
    ensures
        good(w, a, word_lowered(e, w, i, a).0, seq![word_lowered(e, w, i, a).1]),
        added(w, word_lowered(e, w, i, a).0, word_lowered(e, w, i, a).1),
{
    lemma_bare(
        w,
        a,
        bare_node(
            line_at(e.t, i),
            KindView::Pure,
            Seq::empty(),
            Seq::empty(),
            snippet_at(e, i),
        ),
    );
}

/// Every statement does what is shown of every construct.
pub proof fn lemma_stmt(e: Env, w0: Walk, i0: int, a: Seq<usize>)
    requires
        ranged(w0),
        in_range(w0, a),
    ensures
        good(w0, a, stmt_lowered(e, w0, i0, a).0, stmt_lowered(e, w0, i0, a).1),
        good(
            error_noted(e, w0, unwrapped(e.g, e.t, i0)),
            a,
            stmt_lowered(e, w0, i0, a).0,
            stmt_lowered(e, w0, i0, a).1,
        ),
    decreases size(e.t, i0), 5int, 0int,
{
    broadcast use {lemma_kid, lemma_below, lemma_unwrapped};

    let i = unwrapped(e.g, e.t, i0);
    let kind = e.t[i].kind;
    let w = error_noted(e, w0, i);
    lemma_error_noted(e, w0, i, a);
    let (w1, exits) = stmt_lowered(e, w0, i0, a);
    if e.g.block_kinds.contains(kind) {
        lemma_block_lowered(e, w, i, a);
    } else if e.g.flatten_kinds.contains(kind) {
        lemma_seq_lowered(e, w, i, Pick::Named, 0, a);
    } else if e.g.class_kinds.contains(kind) {
        lemma_class(e, w, i, a);
    } else if e.g.function_kinds.contains(kind) {
        lemma_fn_decl(e, w, i, a);
    } else if e.g.binding_kinds.contains(kind) {
        lemma_binding(e, w, i, a);
    } else if e.g.compound_assign_kinds.contains(kind) {
        lemma_assign(e, w, i, a, true);
    } else if e.g.assign_kinds.contains(kind) {
        lemma_assign(e, w, i, a, compound_assign(e, i));
    } else if e.g.call_kinds.contains(kind) {
        lemma_call_stmt(e, w, i, a);
    } else if e.g.if_kinds.contains(kind) {
        lemma_if(e, w, i, a);
    } else if e.g.while_kinds.contains(kind) {
        lemma_while(e, w, i, a);
    } else if e.g.loop_kinds.contains(kind) {
        lemma_endless(e, w, i, a);
    } else if e.g.for_kinds.contains(kind) {
        match for_shape(e, i) {
            ForShape::Each => lemma_for(e, w, i, a),
            ForShape::Counted => lemma_other(e, w, i, a),
            ForShape::While => lemma_while(e, w, i, a),
            ForShape::Endless => lemma_endless(e, w, i, a),
        }
    } else if e.g.return_kinds.contains(kind) {
        lemma_unit_after(e, w, i, KindView::Return, a);
    } else if e.g.throw_kinds.contains(kind) {
        lemma_unit_after(e, w, i, KindView::Throw, a);
    } else if e.g.break_kinds.contains(kind) {
        lemma_unit_after(e, w, i, KindView::Pure, a);
        let (w2, exit) = unit_after(e, w, i, KindView::Pure, a);
        lemma_break(w, a, w2, exit);
    } else if e.g.continue_kinds.contains(kind) {
        lemma_unit_after(e, w, i, KindView::Pure, a);
        let (w2, exit) = unit_after(e, w, i, KindView::Pure, a);
        lemma_continue(w, a, w2, exit);
    } else if e.g.match_kinds.contains(kind) {
        lemma_match(e, w, i, a);
    } else if e.g.try_kinds.contains(kind) {
        lemma_try(e, w, i, a);
    } else if is_word(e, i, e.g.break_texts) {
        lemma_word(e, w, i, a);
        let (w2, exit) = word_lowered(e, w, i, a);
        lemma_break(w, a, w2, exit);
    } else if is_word(e, i, e.g.continue_texts) {
        lemma_word(e, w, i, a);
        let (w2, exit) = word_lowered(e, w, i, a);
        lemma_continue(w, a, w2, exit);
    } else {
        lemma_other(e, w, i, a);
    }
    lemma_seq(w0, a, w, a, w1, exits);
}

/// Whether control may come to a stretch of nodes from the stretch alone.
pub open spec fn closed_off(nodes: Seq<NodeView>, from: int, to: int) -> bool {
    forall|k: int, v: usize|
        0 <= k < nodes.len() && !(from <= k < to) && from <= v < to
            ==> !(#[trigger] nodes[k].succs.contains(v))
}

/// Whether none of the ids lies in a stretch.
pub open spec fn outside(ids: Seq<usize>, from: int, to: int) -> bool {
    forall|j: int| 0 <= j < ids.len() ==> !(from <= #[trigger] ids[j] < to)
}

proof fn lemma_stays_closed(w: Walk, open: Seq<usize>, w1: Walk, from: int, to: int)
    requires
        kept(w, open, w1),
        closed_off(w.nodes, from, to),
        0 <= from <= to <= w.nodes.len(),
        outside(open, from, to),
        forall|k: int|
            0 <= k < w.loops.len() ==> !(from <= (#[trigger] w.loops[k]).continue_target < to),
    ensures
        closed_off(w1.nodes, from, to),
{
    assert forall|k: int, v: usize|
        0 <= k < w1.nodes.len() && !(from <= k < to) && from <= v < to implies !(
    #[trigger] w1.nodes[k].succs.contains(v)) by {
        if w1.nodes[k].succs.contains(v) {
            if is_head(w, v) {
                let l = choose|l: int|
                    0 <= l < w.loops.len() && (#[trigger] w.loops[l]).continue_target == v;
                assert(!(from <= w.loops[l].continue_target < to));
            }
            assert(!enters(w, v));
        }
    }
}

/// A statement only adds: the nodes that were there keep what they hold and
/// their edges, control enters what is added from the open nodes alone, and
/// leaves it from the returned ones, to what is added later or to the head of
/// an open loop.
pub proof fn a_statement_only_adds(e: Env, w: Walk, i: int, open: Seq<usize>)
    requires
        settled(w),
        live(w, open),
        stmt_lowered(e, w, i, open).0.nodes.len() <= usize::MAX,
    ensures
        settled(stmt_lowered(e, w, i, open).0),
        kept(w, open, stmt_lowered(e, w, i, open).0),
        live(stmt_lowered(e, w, i, open).0, stmt_lowered(e, w, i, open).1),
        came(w, open, stmt_lowered(e, w, i, open).1),
{
    lemma_stmt(e, w, i, open);
}

/// What a block declares ends with it: a name that is bound inside never
/// changes what the name is outside.
pub proof fn a_block_leaves_the_scopes_around_it(e: Env, w: Walk, i: int, open: Seq<usize>)
    requires
        e.g.block_scoped,
        settled(w),
        live(w, open),
        block_lowered(e, w, i, open).0.nodes.len() <= usize::MAX,
    ensures
        block_lowered(e, w, i, open).0.scopes == w.scopes,
{
    let u = scope_pushed(w);
    lemma_block_ranged(e, w, open);
    lemma_seq_lowered(e, u, i, Pick::Named, 0, open);
    let w1 = seq_lowered(e, u, i, Pick::Named, 0, open).0;
    lemma_settled_same(w, u);
    assert(live(u, open));
    assert(kept(u, open, w1));
    assert forall|k: int| 0 <= k < w.scopes.len() implies scope_popped(w1).scopes[k]
        == #[trigger] w.scopes[k] by {
        assert(u.scopes[k] == w1.scopes[k]);
    }
    assert(scope_popped(w1).scopes =~= w.scopes);
}

/// No handler is entered: the nodes of a `try`'s handlers are led to from the
/// handlers alone, and control does not leave the `try` from them.
pub proof fn handlers_are_not_entered(e: Env, w: Walk, i: int, open: Seq<usize>, body: int)
    requires
        settled(w),
        live(w, open),
        field_or_kind(e.t, i, e.g.try_body_field, e.g.try_body_kind) == Some(body),
        try_lowered(e, w, i, open).0.nodes.len() <= usize::MAX,
    ensures
        ({
            let w1 = block_lowered(e, w, body, open).0;
            let w2 = catches_lowered(e, w1, i, 0);
            let (w3, exits) = try_lowered(e, w, i, open);
            &&& closed_off(w3.nodes, w1.nodes.len() as int, w2.nodes.len() as int)
            &&& outside(exits, w1.nodes.len() as int, w2.nodes.len() as int)
        }),
{
    let none = Seq::<usize>::empty();
    lemma_block_lowered(e, w, body, open);
    let (w1, exits) = block_lowered(e, w, body, open);
    lemma_catches(e, w1, i, 0);
    let w2 = catches_lowered(e, w1, i, 0);
    lemma_then(w, open, w1, exits, none, w2, none, exits);
    let from = w1.nodes.len() as int;
    let to = w2.nodes.len() as int;
    let (w3, exits3) = match try_else_body(e, i) {
        Some(b) => block_lowered(e, w2, b, exits),
        None => (w2, exits),
    };
    match try_else_body(e, i) {
        Some(b) => {
            lemma_block_lowered(e, w2, b, exits);
        },
        None => lemma_refl(w2, exits),
    }
    lemma_seq(w, open, w2, exits, w3, exits3);
    let (w4, exits4) = match finally_body(e, i) {
        Some(b) => block_lowered(e, w3, b, exits3),
        None => (w3, exits3),
    };
    match finally_body(e, i) {
        Some(b) => {
            lemma_block_lowered(e, w3, b, exits3);
        },
        None => lemma_refl(w3, exits3),
    }
    assert(w4.nodes.len() <= usize::MAX);
    assert(settled(w1) && live(w1, exits));
    assert(live(w1, none));
    assert(kept(w1, none, w2) && settled(w2) && live(w2, exits));
    assert(closed_off(w2.nodes, from, to)) by {
        assert forall|k: int, v: usize|
            0 <= k < w2.nodes.len() && !(from <= k < to) && from <= v < to implies !(
        #[trigger] w2.nodes[k].succs.contains(v)) by {
            if w2.nodes[k].succs.contains(v) {
                assert(!none.contains(k as usize));
                assert(w1.nodes[k].succs.contains(v));
                let x = choose|x: int|
                    0 <= x < w1.nodes[k].succs.len() && w1.nodes[k].succs[x] == v;
                assert(w1.nodes[k].succs[x] < w1.nodes.len());
            }
        }
    }
    assert(outside(exits, from, to)) by {
        assert forall|j: int| 0 <= j < exits.len() implies !(from <= #[trigger] exits[j] < to) by {
            assert(exits[j] < w1.nodes.len());
        }
    }
    assert forall|k: int| 0 <= k < w2.loops.len() implies !(from <= (
    #[trigger] w2.loops[k]).continue_target < to) by {
        assert(w2.loops[k].continue_target == w1.loops[k].continue_target);
        assert(w1.loops[k].continue_target < w1.nodes.len());
    }
    assert(kept(w2, exits, w3) && settled(w3) && live(w3, exits3) && came(w2, exits, exits3));
    lemma_stays_closed(w2, exits, w3, from, to);
    assert(outside(exits3, from, to)) by {
        assert forall|j: int| 0 <= j < exits3.len() implies !(from <= #[trigger] exits3[j]
            < to) by {
            if exits.contains(exits3[j]) {
                let x = choose|x: int| 0 <= x < exits.len() && exits[x] == exits3[j];
                assert(!(from <= exits[x] < to));
            }
        }
    }
    assert forall|k: int| 0 <= k < w3.loops.len() implies !(from <= (
    #[trigger] w3.loops[k]).continue_target < to) by {
        assert(w3.loops[k].continue_target == w2.loops[k].continue_target);
    }
    assert(kept(w3, exits3, w4) && came(w3, exits3, exits4));
    lemma_stays_closed(w3, exits3, w4, from, to);
    assert(outside(exits4, from, to)) by {
        assert forall|j: int| 0 <= j < exits4.len() implies !(from <= #[trigger] exits4[j]
            < to) by {
            if exits3.contains(exits4[j]) {
                let x = choose|x: int| 0 <= x < exits3.len() && exits3[x] == exits4[j];
                assert(!(from <= exits3[x] < to));
            }
        }
    }
}

/// What is closed off stays so: no later statement leads into it.
pub proof fn what_is_closed_off_stays_so(
    e: Env,
    w: Walk,
    i: int,
    open: Seq<usize>,
    from: int,
    to: int,
)
    requires
        settled(w),
        live(w, open),
        stmt_lowered(e, w, i, open).0.nodes.len() <= usize::MAX,
        closed_off(w.nodes, from, to),
        0 <= from <= to <= w.nodes.len(),
        outside(open, from, to),
        forall|k: int|
            0 <= k < w.loops.len() ==> !(from <= (#[trigger] w.loops[k]).continue_target < to),
    ensures
        closed_off(stmt_lowered(e, w, i, open).0.nodes, from, to),
        outside(stmt_lowered(e, w, i, open).1, from, to),
{
    lemma_stmt(e, w, i, open);
    let (w1, exits) = stmt_lowered(e, w, i, open);
    lemma_stays_closed(w, open, w1, from, to);
    assert forall|j: int| 0 <= j < exits.len() implies !(from <= #[trigger] exits[j] < to) by {
        if open.contains(exits[j]) {
            let x = choose|x: int| 0 <= x < open.len() && open[x] == exits[j];
            assert(!(from <= open[x] < to));
        }
    }
}

/// A parse error is reported: the reports of a lowering hold one for every
/// statement with an error that it comes to.
pub proof fn a_parse_error_is_reported(e: Env, w: Walk, i: int, open: Seq<usize>)
    requires
        settled(w),
        live(w, open),
        stmt_lowered(e, w, i, open).0.nodes.len() <= usize::MAX,
        e.t[unwrapped(e.g, e.t, i)].has_error,
    ensures
        stmt_lowered(e, w, i, open).0.diagnostics.len() > w.diagnostics.len(),
        stmt_lowered(e, w, i, open).0.diagnostics[w.diagnostics.len() as int] == (DiagnosticView {
            function: e.name,
            message: "statement contains a parse error; lowered as an opaque unit"@,
        }),
{
    let noted = error_noted(e, w, unwrapped(e.g, e.t, i));
    lemma_error_noted(e, w, unwrapped(e.g, e.t, i), open);
    lemma_stmt(e, w, i, open);
    assert(settled(noted) && live(noted, open));
    let w1 = stmt_lowered(e, w, i, open).0;
    assert(reports_kept(noted.diagnostics, w1.diagnostics));
    assert(noted.diagnostics[w.diagnostics.len() as int]
        == w1.diagnostics[w.diagnostics.len() as int]);
}

pub proof fn lemma_params(e: Env, params: Option<int>, line: u32)
    ensures
        settled(params_lowered(e, fresh(), params, line)),
        live(params_lowered(e, fresh(), params, line), seq![0usize]),
        ranged(params_lowered(e, fresh(), params, line)),
        in_range(params_lowered(e, fresh(), params, line), seq![0usize]),
        numbered(params_lowered(e, fresh(), params, line)),
{
    let none = Seq::<usize>::empty();
    let w = fresh();
    assert(settled(w)) by {
        assert(sound(w));
    }
    lemma_refl(w, none);
    let (w1, defs) = match params {
        Some(p) => defs_scanned(e, w, p, true, Seq::empty()),
        None => (w, Seq::empty()),
    };
    if let Some(p) = params {
        lemma_defs_scanned_quiet(e, w, p, true, Seq::empty());
        lemma_quiet_more(w, none, w, none, w1);
    }
    let n = bare_node(line, KindView::Pure, defs, Seq::empty(), "<params>"@);
    lemma_push_more(w, none, w1, none, n);
    assert(next_node(w1) == 0);
    assert(none.push(0usize) =~= seq![0usize]);
}

/// The state after a function's parameters and body.
proof fn lemma_body(e: Env, i: int, closure: bool)
    ensures
        numbered(body_lowered(e, i, closure)),
        body_lowered(e, i, closure).nodes.len() <= usize::MAX ==> settled(
            body_lowered(e, i, closure),
        ),
{
    let params = params_of(e, i, closure);
    let w = params_lowered(e, fresh(), params, line_at(e.t, i));
    let one = seq![0usize];
    lemma_params(e, params, line_at(e.t, i));
    if closure && e.g.closure_body_is_bare_children {
        lemma_seq_lowered(e, w, i, Pick::Except(one_node(params)), 0, one);
    } else if let Some(raw) = body_of(e, i, closure) {
        let body = unwrapped(e.g, e.t, raw);
        if e.g.block_kinds.contains(e.t[body].kind) {
            lemma_seq_lowered(e, w, body, Pick::Named, 0, one);
        } else {
            lemma_unit(e, w, one, body, KindView::Return, Seq::empty());
            let (w1, entry, _exit) = unit(e, w, body, KindView::Return, Seq::empty());
            assert(one[0] == 0);
            assert(one.contains(0usize));
            lemma_edge_more(w, one, w1, one, 0, entry);
        }
    }
}

/// Nothing comes behind a `return` or a `throw`: control leaves the function
/// there.
pub proof fn nothing_comes_behind_a_return(e: Env, i: int, closure: bool, k: int)
    requires
        body_lowered(e, i, closure).nodes.len() <= usize::MAX,
        0 <= k < body_lowered(e, i, closure).nodes.len(),
        ends(body_lowered(e, i, closure).nodes[k]),
    ensures
        body_lowered(e, i, closure).nodes[k].succs.len() == 0,
{
    lemma_body(e, i, closure);
    assert(settled(body_lowered(e, i, closure)));
}

/// Nothing comes behind a `throw` at the top of a module either.
pub proof fn nothing_comes_behind_a_return_at_the_top(e: Env, k: int)
    requires
        top_lowered(e).nodes.len() <= usize::MAX,
        0 <= k < top_lowered(e).nodes.len(),
        ends(top_lowered(e).nodes[k]),
    ensures
        top_lowered(e).nodes[k].succs.len() == 0,
{
    lemma_params(e, None, 1);
    let w = params_lowered(e, fresh(), None, 1);
    lemma_seq_lowered(e, w, 0, Pick::Named, 0, seq![0usize]);
    assert(settled(top_lowered(e)));
}

/// Nothing is lowered yet, and there is no variable that could be numbered
/// wrongly; and a statement keeps all variables numbered below the next one,
/// those of names in scope and those of ambient names. Only when all numbers
/// have been used do they start again.
pub proof fn variables_are_numbered_below_the_next(e: Env, w: Walk, i: int, open: Seq<usize>)
    requires
        ranged(w),
        in_range(w, open),
        numbered(w),
    ensures
        numbered(fresh()),
        numbered(stmt_lowered(e, w, i, open).0),
{
    lemma_stmt(e, w, i, open);
}

/// The variables of a function's whole body are numbered below the next one.
pub proof fn a_body_is_numbered(e: Env, i: int, closure: bool)
    ensures
        numbered(body_lowered(e, i, closure)),
        numbered(top_lowered(e)),
{
    lemma_body(e, i, closure);
    lemma_params(e, None, 1);
    lemma_seq_lowered(
        e,
        params_lowered(e, fresh(), None, 1),
        0,
        Pick::Named,
        0,
        seq![0usize],
    );
}

/// A name that is declared where blocks are scopes is a variable of its own: it
/// is none that a name in scope or an ambient name has, and the name means it
/// from then on.
pub proof fn a_declared_name_is_a_new_variable(e: Env, w: Walk, name: Seq<char>)
    requires
        e.g.block_scoped,
        w.scopes.len() > 0,
        numbered(w),
        !w.spent,
    ensures
        forall|k: int, n: Seq<char>|
            0 <= k < w.scopes.len() && #[trigger] w.scopes[k].contains_key(n) ==> w.scopes[k][n]
                != declared(e, w, name).1,
        forall|n: Seq<char>| #[trigger]
            w.globals.contains_key(n) ==> w.globals[n] != declared(e, w, name).1,
        resolved(declared(e, w, name).0, name).1 == declared(e, w, name).1,
        resolved(declared(e, w, name).0, name).0 == declared(e, w, name).0,
{
    let w1 = declared(e, w, name).0;
    assert(w1.scopes[w1.scopes.len() - 1].contains_key(name));
    assert forall|k: int, n: Seq<char>|
        0 <= k < w.scopes.len() && #[trigger] w.scopes[k].contains_key(n) implies w.scopes[k][n]
        != declared(e, w, name).1 by {
        assert(vars_below(w.scopes[k], w.next_var));
    }
}

proof fn lemma_in_scopes_below(
    scopes: Seq<Map<Seq<char>, VarId>>,
    k: int,
    name: Seq<char>,
    n: VarId,
)
    requires
        scopes_below(scopes, n),
        0 <= k <= scopes.len(),
    ensures
        in_scopes(scopes, k, name) matches Some(v) ==> v < n,
    decreases k,
{
    if k > 0 {
        assert(vars_below(scopes[k - 1], n));
        lemma_in_scopes_below(scopes, k - 1, name, n);
    }
}

pub proof fn lemma_in_outer_scopes(
    a: Seq<Map<Seq<char>, VarId>>,
    b: Seq<Map<Seq<char>, VarId>>,
    k: int,
    name: Seq<char>,
)
    requires
        0 <= k <= a.len(),
        k <= b.len(),
        forall|j: int| 0 <= j < k ==> a[j] == b[j],
    ensures
        in_scopes(a, k, name) == in_scopes(b, k, name),
    decreases k,
{
    if k > 0 {
        lemma_in_outer_scopes(a, b, k - 1, name);
    }
}

/// A declaration in an inner block hides the name of the outer one for as long
/// as the block is open: the variable is new, the name means it inside, and
/// means what it meant before once the block is closed.
pub proof fn an_inner_declaration_hides_the_outer(e: Env, w: Walk, name: Seq<char>)
    requires
        e.g.block_scoped,
        w.scopes.len() > 0,
        numbered(w),
        !resolved(w, name).0.spent,
    ensures
        ({
            let (w0, outer) = resolved(w, name);
            let (w1, inner) = declared(e, scope_pushed(w0), name);
            let (w2, inside) = resolved(w1, name);
            let (_, after) = resolved(scope_popped(w2), name);
            inner != outer && inside == inner && after == outer
        }),
{
    let (w0, outer) = resolved(w, name);
    let n = w.scopes.len() as int;
    if !w.spent {
        lemma_in_scopes_below(w.scopes, n, name, w.next_var);
    }
    let open = scope_pushed(w0);
    let (w1, inner) = declared(e, open, name);
    assert(w1.scopes[n].contains_key(name));
    let (w2, inside) = resolved(w1, name);
    assert(w2 == w1);
    let w3 = scope_popped(w2);
    assert(w3.scopes =~= w.scopes);
}

/// A name that nothing in scope binds is one variable throughout the function.
pub proof fn an_ambient_name_is_one_variable(w: Walk, name: Seq<char>)
    requires
        in_scopes(w.scopes, w.scopes.len() as int, name) is None,
    ensures
        resolved(resolved(w, name).0, name) == resolved(w, name),
{
    let w1 = resolved(w, name).0;
    assert(w1.scopes == w.scopes);
}

} // verus!
