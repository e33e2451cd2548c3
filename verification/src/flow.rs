//! How control flows through the nodes of a function, apart from how the nodes
//! came about.

use vstd::prelude::*;

use crate::ir::NodeView;
use crate::ts::laws::same_node;

verus! {

/// Whether the nodes of one list still stand in another: each holds what it
/// held, and leads at least to where it led.
pub open spec fn stands(a: Seq<NodeView>, b: Seq<NodeView>) -> bool {
    &&& a.len() <= b.len()
    &&& forall|k: int| 0 <= k < a.len() ==> same_node(a[k], #[trigger] b[k])
    &&& forall|k: int, v: usize|
        0 <= k < a.len() && #[trigger] a[k].succs.contains(v) ==> b[k].succs.contains(v)
}

/// Whether a list of nodes is a way along the edges.
pub open spec fn is_way(nodes: Seq<NodeView>, p: Seq<usize>) -> bool {
    &&& p.len() > 0
    &&& forall|k: int| 0 <= k < p.len() ==> (#[trigger] p[k]) < nodes.len()
    &&& forall|k: int|
        0 <= k < p.len() - 1 ==> nodes[(#[trigger] p[k]) as int].succs.contains(p[k + 1])
}

/// Whether control can come from one node to another.
pub open spec fn leads(nodes: Seq<NodeView>, a: usize, b: usize) -> bool {
    exists|p: Seq<usize>| #[trigger] is_way(nodes, p) && p[0] == a && p.last() == b
}

/// Whether control goes from each of the nodes straight to another.
pub open spec fn all_lead(nodes: Seq<NodeView>, from: Seq<usize>, to: usize) -> bool {
    forall|j: int|
        0 <= j < from.len() ==> nodes[(#[trigger] from[j]) as int].succs.contains(to)
}

/// What stood and still stands, stands.
pub proof fn lemma_stands_on(a: Seq<NodeView>, b: Seq<NodeView>, c: Seq<NodeView>)
    requires
        stands(a, b),
        stands(b, c),
    ensures
        stands(a, c),
{
    assert forall|k: int| 0 <= k < a.len() implies same_node(a[k], #[trigger] c[k]) by {
        assert(same_node(a[k], b[k]));
        assert(same_node(b[k], c[k]));
    }
    assert forall|k: int, v: usize|
        0 <= k < a.len() && #[trigger] a[k].succs.contains(v) implies c[k].succs.contains(v) by {
        assert(b[k].succs.contains(v));
    }
}

/// A way stays a way.
pub proof fn lemma_leads_on(a: Seq<NodeView>, b: Seq<NodeView>, x: usize, y: usize)
    requires
        leads(a, x, y),
        stands(a, b),
    ensures
        leads(b, x, y),
{
    let p = choose|p: Seq<usize>| #[trigger] is_way(a, p) && p[0] == x && p.last() == y;
    assert forall|k: int| 0 <= k < p.len() implies (#[trigger] p[k]) < b.len() by {
        assert(p[k] < a.len());
    }
    assert forall|k: int| 0 <= k < p.len() - 1 implies b[(
    #[trigger] p[k]) as int].succs.contains(p[k + 1]) by {
        assert(p[k] < a.len());
        assert(a[p[k] as int].succs.contains(p[k + 1]));
    }
    assert(is_way(b, p));
}

/// Edges stay edges.
pub proof fn lemma_all_lead_on(a: Seq<NodeView>, b: Seq<NodeView>, from: Seq<usize>, to: usize)
    requires
        all_lead(a, from, to),
        stands(a, b),
        forall|j: int| 0 <= j < from.len() ==> (#[trigger] from[j]) < a.len(),
    ensures
        all_lead(b, from, to),
{
    assert forall|j: int| 0 <= j < from.len() implies b[(
    #[trigger] from[j]) as int].succs.contains(to) by {
        assert(from[j] < a.len());
        assert(a[from[j] as int].succs.contains(to));
    }
}

/// A node leads to itself, by no step at all.
pub proof fn lemma_leads_itself(nodes: Seq<NodeView>, a: usize)
    requires
        a < nodes.len(),
    ensures
        leads(nodes, a, a),
{
    let p = seq![a];
    assert(is_way(nodes, p));
}

} // verus!
