//! Structural importance: which nodes the dependence graph is entered at, and
//! how often a component has to be swept until its values settle.

use vstd::prelude::*;

use crate::components::{
    component, edge_links, is_numbering, linked, linked_is_reflexive, linked_is_transitive,
    strongly, strongly_connected,
};
use crate::dependence::{dependence_successors, dependents};
use crate::graph::{
    members, members_are_marked, pred_lists, predecessors_have_the_edge, preds, preds_before, Graph,
};
use crate::ir::{FunctionIr, FunctionView, NodeId};
use crate::search::{has_edge, rows};

verus! {

/// How often a dependence cycle is swept.
pub const SWEEPS: u32 = 64;

/// Whether a member has an edge to a member.
pub open spec fn has_internal_edge(members: Seq<usize>, adj: Seq<Vec<usize>>) -> bool {
    exists|i: int, k: int|
        0 <= i < members.len() && 0 <= k < adj[members[i] as int]@.len() && members.contains(
            #[trigger] adj[members[i] as int]@[k],
        )
}

/// How often a component is swept.
pub open spec fn sweeps(members: Seq<usize>, adj: Seq<Vec<usize>>) -> u32 {
    if has_internal_edge(members, adj) {
        SWEEPS
    } else {
        1
    }
}

fn holds(list: &Vec<usize>, x: usize) -> (r: bool)
    ensures
        r == list@.contains(x),
{
    crate::ts::tree::has_index(list.as_slice(), x)
}

/// One sweep for a component with no internal edge, `SWEEPS` for a genuine
/// dependence cycle.
pub fn sweep_count(members: &Vec<NodeId>, adj: &Vec<Vec<NodeId>>) -> (r: u32)
    requires
        forall|i: int| 0 <= i < members@.len() ==> #[trigger] members@[i] < adj.len(),
    ensures
        r == sweeps(members@, adj@),
{
    let mut i: usize = 0;
    while i < members.len()
        invariant
            forall|i: int| 0 <= i < members@.len() ==> #[trigger] members@[i] < adj.len(),
            i <= members.len(),
            forall|j: int, k: int|
                0 <= j < i && 0 <= k < adj@[members@[j] as int]@.len() ==> !members@.contains(
                    #[trigger] adj@[members@[j] as int]@[k],
                ),
        decreases members.len() - i,
    {
        let row = &adj[members[i]];
        let mut k: usize = 0;
        while k < row.len()
            invariant
                i < members.len(),
                row@ == adj@[members@[i as int] as int]@,
                k <= row.len(),
                forall|j: int| 0 <= j < k ==> !members@.contains(#[trigger] row@[j]),
            decreases row.len() - k,
        {
            if holds(members, row[k]) {
                assert(members@.contains(adj@[members@[i as int] as int]@[k as int]));
                return SWEEPS;
            }
            k += 1;
        }
        i += 1;
    }
    1
}

/// Whether a component has an edge into it from another one.
pub open spec fn fed_from_outside(pred: Seq<Vec<usize>>, comp_of: Seq<usize>, c: int) -> bool {
    exists|v: int, k: int|
        0 <= v < pred.len() && comp_of[v] == c && 0 <= k < pred[v]@.len() && comp_of[
            #[trigger] pred[v]@[k] as int
        ] != c
}

/// Whether a component has a member without predecessors.
pub open spec fn has_root(pred: Seq<Vec<usize>>, comp_of: Seq<usize>, c: int) -> bool {
    exists|v: int| 0 <= v < pred.len() && comp_of[v] == c && (#[trigger] pred[v])@.len() == 0
}

/// Whether the graph is entered at a node: it has no predecessors, or it is
/// part of a component that nothing feeds and that holds no such node.
pub open spec fn is_entry(pred: Seq<Vec<usize>>, comp_of: Seq<usize>, v: int) -> bool {
    pred[v]@.len() == 0 || (!fed_from_outside(pred, comp_of, comp_of[v] as int) && !has_root(
        pred,
        comp_of,
        comp_of[v] as int,
    ))
}

fn outside_feeds(pred: &Vec<Vec<NodeId>>, comp_of: &Vec<usize>, c: usize) -> (r: bool)
    requires
        comp_of.len() == pred.len(),
        forall|v: int, k: int|
            0 <= v < pred.len() && 0 <= k < pred@[v]@.len() ==> #[trigger] pred@[v]@[k]
                < pred.len(),
    ensures
        r == fed_from_outside(pred@, comp_of@, c as int),
{
    let mut v: usize = 0;
    while v < pred.len()
        invariant
            comp_of.len() == pred.len(),
            forall|v: int, k: int|
                0 <= v < pred.len() && 0 <= k < pred@[v]@.len() ==> #[trigger] pred@[v]@[k]
                    < pred.len(),
            v <= pred.len(),
            forall|x: int, k: int|
                0 <= x < v && comp_of@[x] == c && 0 <= k < pred@[x]@.len() ==> comp_of@[
                    #[trigger] pred@[x]@[k] as int
                ] == c,
        decreases pred.len() - v,
    {
        if comp_of[v] == c {
            let row = &pred[v];
            let mut k: usize = 0;
            while k < row.len()
                invariant
                    comp_of.len() == pred.len(),
                    v < pred.len(),
                    comp_of@[v as int] == c,
                    row@ == pred@[v as int]@,
                    forall|k: int|
                        0 <= k < row@.len() ==> #[trigger] pred@[v as int]@[k] < pred.len(),
                    k <= row.len(),
                    forall|j: int| 0 <= j < k ==> comp_of@[#[trigger] row@[j] as int] == c,
                decreases row.len() - k,
            {
                assert(pred@[v as int]@[k as int] < pred.len());
                if comp_of[row[k]] != c {
                    assert(comp_of@[pred@[v as int]@[k as int] as int] != c);
                    return true;
                }
                k += 1;
            }
        }
        v += 1;
    }
    false
}

fn root_inside(pred: &Vec<Vec<NodeId>>, comp_of: &Vec<usize>, c: usize) -> (r: bool)
    requires
        comp_of.len() == pred.len(),
    ensures
        r == has_root(pred@, comp_of@, c as int),
{
    let mut v: usize = 0;
    while v < pred.len()
        invariant
            comp_of.len() == pred.len(),
            v <= pred.len(),
            forall|x: int|
                0 <= x < v ==> !(comp_of@[x] == c && (#[trigger] pred@[x])@.len() == 0),
        decreases pred.len() - v,
    {
        if comp_of[v] == c && pred[v].is_empty() {
            assert(comp_of@[v as int] == c && pred@[v as int]@.len() == 0);
            return true;
        }
        v += 1;
    }
    false
}

/// Every node can be reached from a node at which the graph is entered, so
/// there is such a node wherever there is a node.
pub proof fn every_node_is_reached_from_an_entry(
    succ: Seq<Seq<usize>>,
    pred: Seq<Vec<usize>>,
    comp_of: Seq<usize>,
    count: nat,
    v: int,
)
    requires
        succ.len() <= usize::MAX,
        is_numbering(succ, comp_of, count),
        rows(pred) == preds(succ),
        0 <= v < succ.len(),
    ensures
        exists|e: int|
            0 <= e < succ.len() && is_entry(pred, comp_of, e) && #[trigger] linked(succ, e, v),
    decreases count - comp_of[v],
{
    let c = comp_of[v] as int;
    assert(rows(pred).len() == pred.len());
    linked_is_reflexive(succ, v);
    if is_entry(pred, comp_of, v) {
    } else if fed_from_outside(pred, comp_of, c) {
        let (w, k) = choose|w: int, k: int|
            0 <= w < pred.len() && comp_of[w] == c && 0 <= k < pred[w]@.len() && comp_of[
                #[trigger] pred[w]@[k] as int
            ] != c;
        let p = pred[w]@[k];
        assert(rows(pred)[w] == preds_before(succ, w, succ.len() as int));
        assert(pred[w]@.contains(p));
        predecessors_have_the_edge(succ, w, succ.len() as int, p);
        assert(has_edge(succ, p as int, w));
        assert(comp_of[w] <= comp_of[p as int]);
        assert(comp_of[p as int] < count);
        every_node_is_reached_from_an_entry(succ, pred, comp_of, count, p as int);
        let e = choose|e: int|
            0 <= e < succ.len() && is_entry(pred, comp_of, e) && #[trigger] linked(
                succ,
                e,
                p as int,
            );
        edge_links(succ, p as int, w);
        linked_is_transitive(succ, e, p as int, w);
        assert(strongly(succ, w, v)) by {
            assert(comp_of[w] == comp_of[v]);
        }
        linked_is_transitive(succ, e, w, v);
    } else {
        let r = choose|r: int|
            0 <= r < pred.len() && comp_of[r] == c && (#[trigger] pred[r])@.len() == 0;
        assert(strongly(succ, r, v)) by {
            assert(comp_of[r] == comp_of[v]);
        }
        assert(is_entry(pred, comp_of, r) && linked(succ, r, v));
    }
}

/// For each node, whether the dependence graph is entered there: the nodes
/// without predecessors, plus every member of a component that nothing feeds
/// and that holds none of those.
pub fn entry_set(pred: &Vec<Vec<NodeId>>, comp_of: &Vec<usize>) -> (r: Vec<bool>)
    requires
        comp_of.len() == pred.len(),
        forall|v: int, k: int|
            0 <= v < pred.len() && 0 <= k < pred@[v]@.len() ==> #[trigger] pred@[v]@[k]
                < pred.len(),
    ensures
        r.len() == pred.len(),
        forall|v: int| 0 <= v < r.len() ==> #[trigger] r@[v] == is_entry(pred@, comp_of@, v),
{
    let mut out: Vec<bool> = Vec::new();
    let mut v: usize = 0;
    while v < pred.len()
        invariant
            comp_of.len() == pred.len(),
            forall|v: int, k: int|
                0 <= v < pred.len() && 0 <= k < pred@[v]@.len() ==> #[trigger] pred@[v]@[k]
                    < pred.len(),
            v <= pred.len(),
            out.len() == v,
            forall|x: int| 0 <= x < v ==> #[trigger] out@[x] == is_entry(pred@, comp_of@, x),
        decreases pred.len() - v,
    {
        let entry: bool = pred[v].is_empty() || (!outside_feeds(pred, comp_of, comp_of[v])
            && !root_inside(pred, comp_of, comp_of[v]));
        out.push(entry);
        v += 1;
    }
    out
}

/// What the two delivery passes walk: the forward pass takes the components in
/// order, the backward pass from the last to the first.
#[derive(Debug, Clone)]
pub struct Plan {
    /// The dependence edges.
    pub succ: Vec<Vec<NodeId>>,
    /// The same edges, by target.
    pub pred: Vec<Vec<NodeId>>,
    /// Whether a node is an output.
    pub outputs: Vec<bool>,
    /// The component of each node.
    pub comp_of: Vec<usize>,
    /// The members of each component, in order.
    pub comps: Vec<Vec<NodeId>>,
    /// How often each component is swept on the way forward.
    pub forward: Vec<u32>,
    /// How often each component is swept on the way back.
    pub backward: Vec<u32>,
    /// Whether the graph is entered at a node.
    pub entries: Vec<bool>,
}

/// Whether a plan is that of a function's graph.
pub open spec fn is_plan(f: FunctionView, g: Graph, p: Plan) -> bool {
    &&& p.succ@.len() == g.n
    &&& forall|i: int|
        0 <= i < g.n ==> (#[trigger] p.succ@[i])@ == members(
            dependents(g.n as nat, g.defs_at@, g.def_users@, g.ctrl_deps@, i),
        )
    &&& rows(p.pred@) == preds(rows(p.succ@))
    &&& p.outputs@.len() == g.n
    &&& forall|v: int| 0 <= v < g.n ==> #[trigger] p.outputs@[v] == f.nodes[v].kind.effect()
    &&& is_numbering(rows(p.succ@), p.comp_of@, p.comps@.len())
    &&& forall|c: int|
        0 <= c < p.comps@.len() ==> (#[trigger] p.comps@[c])@ == component(p.comp_of@, c)
    &&& p.forward@.len() == p.comps@.len()
    &&& forall|c: int|
        0 <= c < p.comps@.len() ==> #[trigger] p.forward@[c] == sweeps(p.comps@[c]@, p.succ@)
    &&& p.backward@.len() == p.comps@.len()
    &&& forall|c: int|
        0 <= c < p.comps@.len() ==> #[trigger] p.backward@[c] == sweeps(p.comps@[c]@, p.pred@)
    &&& p.entries@.len() == g.n
    &&& forall|v: int|
        0 <= v < g.n ==> #[trigger] p.entries@[v] == is_entry(p.pred@, p.comp_of@, v)
}

fn sweep_counts(comps: &Vec<Vec<NodeId>>, adj: &Vec<Vec<NodeId>>) -> (r: Vec<u32>)
    requires
        forall|c: int, i: int|
            0 <= c < comps@.len() && 0 <= i < comps@[c]@.len() ==> #[trigger] comps@[c]@[i]
                < adj.len(),
    ensures
        r@.len() == comps@.len(),
        forall|c: int| 0 <= c < r@.len() ==> #[trigger] r@[c] == sweeps(comps@[c]@, adj@),
{
    let mut out: Vec<u32> = Vec::new();
    let mut c: usize = 0;
    while c < comps.len()
        invariant
            forall|c: int, i: int|
                0 <= c < comps@.len() && 0 <= i < comps@[c]@.len() ==> #[trigger] comps@[c]@[i]
                    < adj.len(),
            c <= comps.len(),
            out.len() == c,
            forall|x: int| 0 <= x < c ==> #[trigger] out@[x] == sweeps(comps@[x]@, adj@),
        decreases comps.len() - c,
    {
        let row = &comps[c];
        assert forall|i: int| 0 <= i < row@.len() implies #[trigger] row@[i] < adj.len() by {
            assert(comps@[c as int]@[i] < adj.len());
        }
        out.push(sweep_count(row, adj));
        c += 1;
    }
    out
}

/// Lays out the two delivery passes over a function's dependence graph.
pub fn plan(ir: &FunctionIr, graph: &Graph) -> (r: Plan)
    requires
        graph.ok(),
        graph.n == ir@.nodes.len(),
    ensures
        is_plan(ir@, *graph, r),
{
    let n: usize = graph.n;
    let succ = dependence_successors(
        n,
        &graph.defs,
        &graph.defs_at,
        &graph.def_users,
        &graph.ctrl_deps,
    );
    let pred = pred_lists(&succ);
    let (comp_of, comps) = strongly_connected(n, &succ);
    proof {
        assert(rows(succ@).len() == n);
        assert forall|c: int, i: int|
            0 <= c < comps@.len() && 0 <= i < comps@[c]@.len() implies #[trigger] comps@[c]@[i]
            < n by {
            let m = crate::components::in_component(comp_of@, c);
            assert(comps@[c]@.contains(comps@[c]@[i]));
            members_are_marked(m, comps@[c]@[i]);
        }
        assert forall|v: int, k: int|
            0 <= v < pred.len() && 0 <= k < pred@[v]@.len() implies #[trigger] pred@[v]@[k]
            < pred.len() by {
            assert(rows(pred@)[v][k] < rows(pred@).len());
        }
    }
    let forward = sweep_counts(&comps, &succ);
    let backward = sweep_counts(&comps, &pred);
    let entries = entry_set(&pred, &comp_of);
    let mut outputs: Vec<bool> = Vec::new();
    let mut v: usize = 0;
    while v < n
        invariant
            n == ir@.nodes.len(),
            v <= n,
            outputs.len() == v,
            forall|x: int|
                0 <= x < v ==> #[trigger] outputs@[x] == ir@.nodes[x].kind.effect(),
        decreases n - v,
    {
        outputs.push(ir.nodes[v].kind.is_effect());
        v += 1;
    }
    Plan { succ, pred, outputs, comp_of, comps, forward, backward, entries }
}

} // verus!
