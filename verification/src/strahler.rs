//! Convergence scorer: where does this function's dataflow converge?
//!
//! The Strahler number of the data-dependence graph: constants and
//! parameters are order-1 springs; where two order-`k` derivations meet the
//! stream continues as `k + 1`; a higher order absorbs lower tributaries
//! unchanged.
//!
//! Data edges only: predicates contribute no edges. Strongly connected
//! components condense to one node, and upstream orders count once per
//! distinct upstream component.

use vstd::prelude::*;

use crate::confluence::is_orders;
use crate::graph::{list_marked, members, members_are_marked, Graph};
use crate::ir::NodeId;
use crate::search::{edges_in_range, rows};

verus! {

/// Whether `v` reads a definition that another node `u` made.
pub open spec fn feeds(g: Graph, u: int, v: int) -> bool {
    u != v && exists|k: int|
        0 <= k < g.uses_defs@[v]@.len() && g.defs@[#[trigger] g.uses_defs@[v]@[k] as int].node == u
}

/// The nodes that read a definition of `u`.
pub open spec fn fed_by(g: Graph, u: int) -> Seq<bool> {
    Seq::new(g.n as nat, |v: int| feeds(g, u, v))
}

/// A score as an exact fraction.
#[derive(Debug, Clone, Copy, PartialEq, Eq, Structural)]
pub struct Score {
    pub num: u32,
    pub den: u32,
}

/// The least of the values.
pub open spec fn least(v: Seq<u32>) -> u32
    recommends
        v.len() > 0,
    decreases v.len(),
{
    if v.len() <= 1 {
        v[0]
    } else {
        let rest = least(v.drop_last());
        if v.last() < rest {
            v.last()
        } else {
            rest
        }
    }
}

/// The greatest of the values.
pub open spec fn greatest(v: Seq<u32>) -> u32
    recommends
        v.len() > 0,
    decreases v.len(),
{
    if v.len() <= 1 {
        v[0]
    } else {
        let rest = greatest(v.drop_last());
        if v.last() > rest {
            v.last()
        } else {
            rest
        }
    }
}

/// Where a value stands between the least and the greatest; the middle when
/// all are equal.
pub open spec fn normalized(v: Seq<u32>, x: u32) -> Score {
    if least(v) == greatest(v) {
        Score { num: 1, den: 2 }
    } else {
        Score { num: (x - least(v)) as u32, den: (greatest(v) - least(v)) as u32 }
    }
}

/// Every value normalized.
pub open spec fn all_normalized(v: Seq<u32>) -> Seq<Score> {
    Seq::new(v.len(), |i: int| normalized(v, v[i]))
}

proof fn lemma_extremes(v: Seq<u32>)
    requires
        v.len() > 0,
    ensures
        forall|i: int| 0 <= i < v.len() ==> least(v) <= #[trigger] v[i] <= greatest(v),
    decreases v.len(),
{
    if v.len() > 1 {
        lemma_extremes(v.drop_last());
        assert forall|i: int| 0 <= i < v.len() implies least(v) <= #[trigger] v[i]
            <= greatest(v) by {
            if i < v.len() - 1 {
                assert(v[i] == v.drop_last()[i]);
            } else {
                assert(least(v.drop_last()) <= v.drop_last()[0] <= greatest(v.drop_last()));
            }
        }
    }
}

/// A normalized score lies between zero and one.
pub proof fn scores_lie_between_zero_and_one(v: Seq<u32>, i: int)
    requires
        0 <= i < v.len(),
    ensures
        0 <= normalized(v, v[i]).num <= normalized(v, v[i]).den,
        normalized(v, v[i]).den > 0,
{
    lemma_extremes(v);
}

/// A function whose order never varies scores one half everywhere.
pub proof fn equal_orders_score_one_half(v: Seq<u32>, i: int)
    requires
        0 <= i < v.len(),
        forall|j: int, k: int| 0 <= j < v.len() && 0 <= k < v.len() ==> v[j] == v[k],
    ensures
        normalized(v, v[i]) == (Score { num: 1, den: 2 }),
{
    lemma_extremes_occur(v);
}

proof fn lemma_extremes_occur(v: Seq<u32>)
    requires
        v.len() > 0,
    ensures
        exists|i: int| 0 <= i < v.len() && v[i] == least(v),
        exists|i: int| 0 <= i < v.len() && v[i] == greatest(v),
    decreases v.len(),
{
    if v.len() > 1 {
        let r = v.drop_last();
        lemma_extremes_occur(r);
        let a = choose|i: int| 0 <= i < r.len() && r[i] == least(r);
        let b = choose|i: int| 0 <= i < r.len() && r[i] == greatest(r);
        assert(v[a] == least(r) && v[b] == greatest(r));
        assert(v[v.len() - 1] == v.last());
    } else {
        assert(v[0] == least(v) && v[0] == greatest(v));
    }
}

/// Whether a definition among those that `v` may read was made at `u`.
fn reads_from(graph: &Graph, u: usize, v: usize) -> (r: bool)
    requires
        graph.ok(),
        v < graph.n,
    ensures
        r == feeds(*graph, u as int, v as int),
{
    if u == v {
        return false;
    }
    let row = &graph.uses_defs[v];
    let mut k: usize = 0;
    while k < row.len()
        invariant
            graph.ok(),
            u != v,
            v < graph.n,
            row@ == graph.uses_defs@[v as int]@,
            k <= row.len(),
            forall|j: int|
                0 <= j < k ==> graph.defs@[#[trigger] graph.uses_defs@[v as int]@[j] as int].node
                    != u,
        decreases row.len() - k,
    {
        assert(graph.uses_defs@[v as int]@[k as int] < graph.defs@.len());
        if graph.defs[row[k]].node == u {
            return true;
        }
        k += 1;
    }
    false
}

/// Data-only dependence edges `u -> v`: `v` reads a definition `u` made, in
/// order. Control edges are exactly what this scorer excludes.
pub fn data_edges(graph: &Graph) -> (r: Vec<Vec<NodeId>>)
    requires
        graph.ok(),
    ensures
        r.len() == graph.n,
        forall|u: int| 0 <= u < graph.n ==> (#[trigger] r@[u])@ == members(fed_by(*graph, u)),
        edges_in_range(rows(r@)),
{
    let n: usize = graph.n;
    let mut out: Vec<Vec<NodeId>> = Vec::new();
    let mut u: usize = 0;
    while u < n
        invariant
            graph.ok(),
            n == graph.n,
            u <= n,
            out.len() == u,
            forall|x: int| 0 <= x < u ==> (#[trigger] out@[x])@ == members(fed_by(*graph, x)),
        decreases n - u,
    {
        let mut marks: Vec<bool> = Vec::new();
        let mut v: usize = 0;
        while v < n
            invariant
                graph.ok(),
                n == graph.n,
                u < n,
                v <= n,
                marks.len() == v,
                forall|x: int| 0 <= x < v ==> #[trigger] marks@[x] == feeds(*graph, u as int, x),
            decreases n - v,
        {
            marks.push(reads_from(graph, u, v));
            v += 1;
        }
        assert(marks@ =~= fed_by(*graph, u as int));
        out.push(list_marked(&marks));
        u += 1;
    }
    proof {
        let s = rows(out@);
        assert forall|a: int, k: int| 0 <= a < s.len() && 0 <= k < s[a].len() implies
            #[trigger] s[a][k] < s.len() by {
            assert(s[a] == members(fed_by(*graph, a)));
            members_are_marked(fed_by(*graph, a), s[a][k]);
            assert(s[a].contains(s[a][k]));
        }
    }
    out
}

/// Per-node Strahler order: condenses `succ` into strongly connected
/// components, orders the condensation by the confluence rule, and gives each
/// component's order to its members.
pub fn component_orders(n: usize, succ: &Vec<Vec<NodeId>>) -> (r: Vec<u32>)
    requires
        succ.len() == n,
        edges_in_range(rows(succ@)),
        n < u32::MAX,
    ensures
        is_orders(rows(succ@), false, r@),
{
    crate::confluence::component_orders(n, succ, false)
}

/// Min-max normalisation. Equal values all score one half.
pub fn normalize(values: &Vec<u32>) -> (r: Vec<Score>)
    ensures
        r@ == all_normalized(values@),
{
    let mut out: Vec<Score> = Vec::new();
    if values.len() == 0 {
        assert(out@ =~= all_normalized(values@));
        return out;
    }
    let mut min: u32 = values[0];
    let mut max: u32 = values[0];
    let mut i: usize = 1;
    assert(values@.take(1)[0] == values@[0]);
    while i < values.len()
        invariant
            1 <= i <= values.len(),
            min == least(values@.take(i as int)),
            max == greatest(values@.take(i as int)),
        decreases values.len() - i,
    {
        assert(values@.take(i + 1).drop_last() =~= values@.take(i as int));
        if values[i] < min {
            min = values[i];
        }
        if values[i] > max {
            max = values[i];
        }
        i += 1;
    }
    assert(values@.take(i as int) =~= values@);
    proof {
        lemma_extremes(values@);
    }
    let mut k: usize = 0;
    while k < values.len()
        invariant
            k <= values.len(),
            min == least(values@),
            max == greatest(values@),
            forall|i: int| 0 <= i < values@.len() ==> min <= #[trigger] values@[i] <= max,
            out.len() == k,
            forall|i: int| 0 <= i < k ==> #[trigger] out@[i] == normalized(values@, values@[i]),
        decreases values.len() - k,
    {
        if min == max {
            out.push(Score { num: 1, den: 2 });
        } else {
            let v: u32 = values[k];
            assert(min <= values@[k as int] <= max);
            out.push(Score { num: v - min, den: max - min });
        }
        k += 1;
    }
    assert(out@ =~= all_normalized(values@));
    out
}

/// Whether the edges of `succ` are the data edges of a graph.
pub open spec fn is_data_edges(g: Graph, succ: Seq<Seq<usize>>) -> bool {
    &&& succ.len() == g.n
    &&& forall|u: int| 0 <= u < g.n ==> #[trigger] succ[u] == members(fed_by(g, u))
}

/// Per-node confluence score, min-max normalised. All nodes equal (including
/// the single-node case) score one half.
#[must_use]
pub fn score(graph: &Graph) -> (r: Vec<Score>)
    requires
        graph.ok(),
        graph.n < u32::MAX,
    ensures
        exists|succ: Seq<Seq<usize>>, orders: Seq<u32>| #[trigger]
            is_data_edges(*graph, succ) && #[trigger] is_orders(succ, false, orders) && r@
                == all_normalized(orders),
{
    let succ = data_edges(graph);
    let orders = component_orders(graph.n, &succ);
    proof {
        assert(is_data_edges(*graph, rows(succ@)));
    }
    normalize(&orders)
}

} // verus!
