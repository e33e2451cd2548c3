//! Derivation depth: how many layers of transformation lie beneath a
//! statement. The dependence graph read as a food web: a node's level rests
//! on the levels of what it reads (data edges) and of what decides if it runs
//! (control edges). This module collects those edges; self-edges are dropped.

use vstd::prelude::*;

use crate::graph::Graph;
use crate::ir::NodeId;

verus! {

/// What a node takes in from one source: how many of the source's definitions
/// it may read, and how often the source decides if it runs.
#[derive(Debug, Clone, Copy, PartialEq, Eq, Structural)]
pub struct InEdge {
    pub source: NodeId,
    pub data: usize,
    pub ctrl: usize,
}

/// How many of the first `k` definitions that a node may read were made at
/// `source`.
pub open spec fn data_edges_from(g: Graph, node: int, source: int, k: int) -> nat
    decreases k,
{
    if k <= 0 || k > g.uses_defs@[node]@.len() {
        0
    } else {
        data_edges_from(g, node, source, k - 1) + if g.defs@[g.uses_defs@[node]@[k - 1] as int].node
            == source {
            1nat
        } else {
            0nat
        }
    }
}

/// How many of the first `k` deciders of a node are `source`.
pub open spec fn ctrl_edges_from(g: Graph, node: int, source: int, k: int) -> nat
    decreases k,
{
    if k <= 0 || k > g.ctrl_deps@[node]@.len() {
        0
    } else {
        ctrl_edges_from(g, node, source, k - 1) + if g.ctrl_deps@[node]@[k - 1] == source {
            1nat
        } else {
            0nat
        }
    }
}

/// What a node takes in from a source.
pub open spec fn in_edge(g: Graph, node: int, source: int) -> InEdge {
    InEdge {
        source: source as usize,
        data: data_edges_from(g, node, source, g.uses_defs@[node]@.len() as int) as usize,
        ctrl: ctrl_edges_from(g, node, source, g.ctrl_deps@[node]@.len() as int) as usize,
    }
}

/// What a node takes in from the first `k` nodes other than itself, in order.
pub open spec fn in_edges(g: Graph, node: int, k: int) -> Seq<InEdge>
    decreases k,
{
    if k <= 0 || k > g.n {
        Seq::empty()
    } else {
        let rest = in_edges(g, node, k - 1);
        let here = in_edge(g, node, k - 1);
        if k - 1 != node && (here.data > 0 || here.ctrl > 0) {
            rest.push(here)
        } else {
            rest
        }
    }
}

fn count_edges(graph: &Graph, node: usize, source: usize) -> (r: InEdge)
    requires
        graph.ok(),
        node < graph.n,
    ensures
        r == in_edge(*graph, node as int, source as int),
{
    let reads = &graph.uses_defs[node];
    let mut data: usize = 0;
    let mut k: usize = 0;
    while k < reads.len()
        invariant
            graph.ok(),
            node < graph.n,
            reads@ == graph.uses_defs@[node as int]@,
            data <= k <= reads.len(),
            data == data_edges_from(*graph, node as int, source as int, k as int),
        decreases reads.len() - k,
    {
        assert(graph.uses_defs@[node as int]@[k as int] < graph.defs@.len());
        if graph.defs[reads[k]].node == source {
            data += 1;
        }
        k += 1;
    }
    let deciders = &graph.ctrl_deps[node];
    let mut ctrl: usize = 0;
    let mut j: usize = 0;
    while j < deciders.len()
        invariant
            deciders@ == graph.ctrl_deps@[node as int]@,
            ctrl <= j <= deciders.len(),
            ctrl == ctrl_edges_from(*graph, node as int, source as int, j as int),
        decreases deciders.len() - j,
    {
        if deciders[j] == source {
            ctrl += 1;
        }
        j += 1;
    }
    InEdge { source, data, ctrl }
}

/// What each node takes in, by source: the data and control edges of the
/// dependence graph, aggregated per source and with self-edges dropped.
pub fn weighted_in_edges(graph: &Graph) -> (r: Vec<Vec<InEdge>>)
    requires
        graph.ok(),
    ensures
        r.len() == graph.n,
        forall|v: int|
            0 <= v < graph.n ==> (#[trigger] r@[v])@ == in_edges(*graph, v, graph.n as int),
{
    let n: usize = graph.n;
    let mut out: Vec<Vec<InEdge>> = Vec::new();
    let mut v: usize = 0;
    while v < n
        invariant
            graph.ok(),
            n == graph.n,
            v <= n,
            out.len() == v,
            forall|x: int|
                0 <= x < v ==> (#[trigger] out@[x])@ == in_edges(*graph, x, n as int),
        decreases n - v,
    {
        let mut row: Vec<InEdge> = Vec::new();
        let mut u: usize = 0;
        while u < n
            invariant
                graph.ok(),
                n == graph.n,
                v < n,
                u <= n,
                row@ == in_edges(*graph, v as int, u as int),
            decreases n - u,
        {
            let e = count_edges(graph, v, u);
            if u != v && (e.data > 0 || e.ctrl > 0) {
                row.push(e);
            }
            u += 1;
        }
        out.push(row);
        v += 1;
    }
    out
}

/// The weight of a data edge, in tenths.
pub const DATA_WEIGHT: i128 = 10;

/// The weight of a control edge, in tenths.
pub const CTRL_WEIGHT: i128 = 6;

impl InEdge {
    /// What the edge weighs, in tenths.
    pub open spec fn tenths(self) -> int {
        DATA_WEIGHT * self.data + CTRL_WEIGHT * self.ctrl
    }

    /// What the edge weighs, in tenths.
    pub fn weight(self) -> (r: i128)
        ensures
            r == self.tenths(),
    {
        10 * self.data as i128 + 6 * self.ctrl as i128
    }
}

/// What a node takes in from another, in tenths. It takes in nothing from
/// itself.
pub open spec fn taken(g: Graph, node: int, source: int) -> int {
    if node == source {
        0
    } else {
        in_edge(g, node, source).tenths()
    }
}

/// What a node takes in from the first `k` nodes.
pub open spec fn total_taken(g: Graph, node: int, k: int) -> int
    decreases k,
{
    if k <= 0 {
        0
    } else {
        total_taken(g, node, k - 1) + taken(g, node, k - 1)
    }
}

/// What a node takes in from those of the first `k` nodes that are not
/// members.
pub open spec fn outside_taken(g: Graph, members: Seq<usize>, node: int, k: int) -> int
    decreases k,
{
    if k <= 0 {
        0
    } else {
        outside_taken(g, members, node, k - 1) + if members.contains((k - 1) as usize) {
            0
        } else {
            taken(g, node, k - 1)
        }
    }
}

/// What a node takes in from each of the first `k` nodes that is not a member,
/// where it takes in anything.
pub open spec fn outside_list(g: Graph, members: Seq<usize>, node: int, k: int) -> Seq<
    (usize, i128),
>
    decreases k,
{
    if k <= 0 {
        Seq::empty()
    } else {
        let rest = outside_list(g, members, node, k - 1);
        if !members.contains((k - 1) as usize) && taken(g, node, k - 1) > 0 {
            rest.push(((k - 1) as usize, taken(g, node, k - 1) as i128))
        } else {
            rest
        }
    }
}

/// The coefficient of a member's level in a member's equation.
pub open spec fn coefficient(g: Graph, members: Seq<usize>, i: int, j: int) -> int {
    if i == j {
        total_taken(g, members[i] as int, g.n as int)
    } else {
        -taken(g, members[i] as int, members[j] as int)
    }
}

/// The equation of a component's member: the coefficients times the members'
/// levels come to the total plus each outside weight times its source's level.
#[derive(Debug, Clone)]
pub struct Equation {
    pub coefficients: Vec<i128>,
    pub total: i128,
    pub outside: Vec<(NodeId, i128)>,
}

/// Whether an equation is the `i`-th member's.
pub open spec fn is_equation(g: Graph, members: Seq<usize>, i: int, e: Equation) -> bool {
    let v = members[i] as int;
    &&& e.coefficients@.len() == members.len()
    &&& forall|j: int|
        0 <= j < members.len() ==> #[trigger] e.coefficients@[j] == coefficient(g, members, i, j)
    &&& e.total == total_taken(g, v, g.n as int)
    &&& e.outside@ == outside_list(g, members, v, g.n as int)
}

/// Whether a component takes in anything from outside.
pub open spec fn is_fed(g: Graph, members: Seq<usize>) -> bool {
    exists|i: int|
        0 <= i < members.len() && #[trigger] outside_list(
            g,
            members,
            members[i] as int,
            g.n as int,
        ).len() > 0
}

/// How many of the first `k` definitions that a node may read were made at one
/// of the first `n` nodes.
spec fn data_below(g: Graph, node: int, n: int, k: int) -> nat
    decreases k,
{
    if k <= 0 {
        0
    } else {
        data_below(g, node, n, k - 1) + if g.defs@[g.uses_defs@[node]@[k - 1] as int].node < n {
            1nat
        } else {
            0nat
        }
    }
}

/// How many of the first `k` deciders of a node are among the first `n` nodes.
spec fn ctrl_below(g: Graph, node: int, n: int, k: int) -> nat
    decreases k,
{
    if k <= 0 {
        0
    } else {
        ctrl_below(g, node, n, k - 1) + if g.ctrl_deps@[node]@[k - 1] < n {
            1nat
        } else {
            0nat
        }
    }
}

proof fn lemma_data_below(g: Graph, node: int, n: int, k: int)
    requires
        0 <= k <= g.uses_defs@[node]@.len(),
        n > 0,
    ensures
        data_below(g, node, n, k) == data_below(g, node, n - 1, k) + data_edges_from(
            g,
            node,
            n - 1,
            k,
        ),
        data_below(g, node, n, k) <= k,
        data_edges_from(g, node, n - 1, k) <= k,
    decreases k,
{
    if k > 0 {
        lemma_data_below(g, node, n, k - 1);
    }
}

proof fn lemma_ctrl_below(g: Graph, node: int, n: int, k: int)
    requires
        0 <= k <= g.ctrl_deps@[node]@.len(),
        n > 0,
    ensures
        ctrl_below(g, node, n, k) == ctrl_below(g, node, n - 1, k) + ctrl_edges_from(
            g,
            node,
            n - 1,
            k,
        ),
        ctrl_below(g, node, n, k) <= k,
        ctrl_edges_from(g, node, n - 1, k) <= k,
    decreases k,
{
    if k > 0 {
        lemma_ctrl_below(g, node, n, k - 1);
    }
}

proof fn lemma_total_bound(g: Graph, node: int, n: int)
    requires
        0 <= node,
        0 <= n,
        g.uses_defs@[node]@.len() <= usize::MAX,
        g.ctrl_deps@[node]@.len() <= usize::MAX,
    ensures
        0 <= total_taken(g, node, n) <= DATA_WEIGHT * data_below(
            g,
            node,
            n,
            g.uses_defs@[node]@.len() as int,
        ) + CTRL_WEIGHT * ctrl_below(g, node, n, g.ctrl_deps@[node]@.len() as int),
        total_taken(g, node, n) <= 16 * usize::MAX,
    decreases n,
{
    if n > 0 {
        lemma_total_bound(g, node, n - 1);
        lemma_data_below(g, node, n, g.uses_defs@[node]@.len() as int);
        lemma_ctrl_below(g, node, n, g.ctrl_deps@[node]@.len() as int);
    }
}

fn is_member(members: &Vec<NodeId>, x: usize) -> (r: bool)
    ensures
        r == members@.contains(x),
{
    crate::ts::tree::has_index(members.as_slice(), x)
}

fn equation(graph: &Graph, members: &Vec<NodeId>, i: usize) -> (r: Equation)
    requires
        graph.ok(),
        i < members.len(),
        forall|k: int| 0 <= k < members@.len() ==> #[trigger] members@[k] < graph.n,
    ensures
        is_equation(*graph, members@, i as int, r),
{
    let v: usize = members[i];
    let n: usize = graph.n;
    let ghost g = *graph;
    let row_reads: usize = graph.uses_defs[v].len();
    let row_deciders: usize = graph.ctrl_deps[v].len();
    let mut total: i128 = 0;
    let mut outside: Vec<(NodeId, i128)> = Vec::new();
    let mut u: usize = 0;
    while u < n
        invariant
            graph.ok(),
            g == *graph,
            n == graph.n,
            v < n,
            u <= n,
            row_reads == g.uses_defs@[v as int]@.len(),
            row_deciders == g.ctrl_deps@[v as int]@.len(),
            total == total_taken(g, v as int, u as int),
            outside@ == outside_list(g, members@, v as int, u as int),
        decreases n - u,
    {
        proof {
            lemma_total_bound(g, v as int, u + 1);
        }
        if u != v {
            let w: i128 = count_edges(graph, v, u).weight();
            total = total + w;
            if w > 0 && !is_member(members, u) {
                outside.push((u, w));
            }
        }
        u += 1;
    }
    let mut coefficients: Vec<i128> = Vec::new();
    let mut j: usize = 0;
    while j < members.len()
        invariant
            graph.ok(),
            g == *graph,
            n == graph.n,
            v < n,
            i < members.len(),
            v == members@[i as int],
            total == total_taken(g, v as int, n as int),
            forall|k: int| 0 <= k < members@.len() ==> #[trigger] members@[k] < n,
            j <= members.len(),
            coefficients.len() == j,
            forall|x: int|
                0 <= x < j ==> #[trigger] coefficients@[x] == coefficient(
                    g,
                    members@,
                    i as int,
                    x,
                ),
        decreases members.len() - j,
    {
        if j == i {
            coefficients.push(total);
        } else if members[j] == v {
            coefficients.push(0);
        } else {
            coefficients.push(0 - count_edges(graph, v, members[j]).weight());
        }
        j += 1;
    }
    Equation { coefficients, total, outside }
}

/// The equations of a component's members, one for each, or nothing when no
/// weight comes from outside: then the levels are not determined, and every
/// member is basal.
pub fn component_equations(graph: &Graph, members: &Vec<NodeId>) -> (r: Option<Vec<Equation>>)
    requires
        graph.ok(),
        forall|k: int| 0 <= k < members@.len() ==> #[trigger] members@[k] < graph.n,
    ensures
        match r {
            Some(v) => is_fed(*graph, members@) && v@.len() == members@.len() && forall|i: int|
                0 <= i < v@.len() ==> is_equation(*graph, members@, i, #[trigger] v@[i]),
            None => !is_fed(*graph, members@),
        },
{
    let mut out: Vec<Equation> = Vec::new();
    let mut fed: bool = false;
    let mut i: usize = 0;
    while i < members.len()
        invariant
            graph.ok(),
            forall|k: int| 0 <= k < members@.len() ==> #[trigger] members@[k] < graph.n,
            i <= members.len(),
            out.len() == i,
            forall|k: int| 0 <= k < i ==> is_equation(*graph, members@, k, #[trigger] out@[k]),
            fed == exists|k: int|
                0 <= k < i && #[trigger] outside_list(
                    *graph,
                    members@,
                    members@[k] as int,
                    graph.n as int,
                ).len() > 0,
        decreases members.len() - i,
    {
        let e = equation(graph, members, i);
        if e.outside.len() > 0 {
            assert(outside_list(
                *graph,
                members@,
                members@[i as int] as int,
                graph.n as int,
            ).len() > 0);
            fed = true;
        }
        out.push(e);
        i += 1;
    }
    if fed {
        Some(out)
    } else {
        None
    }
}

/// The sum of the first `k` coefficients of a member's equation.
pub open spec fn coefficient_sum(g: Graph, members: Seq<usize>, i: int, k: int) -> int
    decreases k,
{
    if k <= 0 {
        0
    } else {
        coefficient_sum(g, members, i, k - 1) + coefficient(g, members, i, k - 1)
    }
}

/// What a node takes in from those of the first `n` nodes that are among the
/// first `k` members.
spec fn inside_taken(g: Graph, members: Seq<usize>, node: int, k: int, n: int) -> int
    decreases n,
{
    if n <= 0 {
        0
    } else {
        inside_taken(g, members, node, k, n - 1) + if members.take(k).contains((n - 1) as usize) {
            taken(g, node, n - 1)
        } else {
            0
        }
    }
}

proof fn lemma_one_more(g: Graph, members: Seq<usize>, node: int, k: int, n: int)
    requires
        members.no_duplicates(),
        0 <= k < members.len(),
        0 <= n <= usize::MAX,
    ensures
        inside_taken(g, members, node, k + 1, n) == inside_taken(g, members, node, k, n) + if members[k]
            < n {
            taken(g, node, members[k] as int)
        } else {
            0
        },
    decreases n,
{
    if n > 0 {
        lemma_one_more(g, members, node, k, n - 1);
        let u = (n - 1) as usize;
        let a = members.take(k);
        let b = members.take(k + 1);
        assert(b =~= a.push(members[k]));
        if a.contains(u) {
            let x = choose|x: int| 0 <= x < a.len() && a[x] == u;
            assert(b[x] == u);
            assert(members[x] != members[k]);
        }
        if b.contains(u) && u != members[k] {
            let x = choose|x: int| 0 <= x < b.len() && b[x] == u;
            assert(a[x] == u);
        }
        if u == members[k] {
            assert(b[k] == u);
        }
    }
}

proof fn lemma_none_inside(g: Graph, members: Seq<usize>, node: int, n: int)
    ensures
        inside_taken(g, members, node, 0, n) == 0,
    decreases n,
{
    if n > 0 {
        lemma_none_inside(g, members, node, n - 1);
        assert(members.take(0).len() == 0);
    }
}

proof fn lemma_split(g: Graph, members: Seq<usize>, node: int, n: int)
    ensures
        total_taken(g, node, n) == outside_taken(g, members, node, n) + inside_taken(
            g,
            members,
            node,
            members.len() as int,
            n,
        ),
    decreases n,
{
    assert(members.take(members.len() as int) =~= members);
    if n > 0 {
        lemma_split(g, members, node, n - 1);
    }
}

proof fn lemma_coefficients(g: Graph, members: Seq<usize>, i: int, k: int)
    requires
        members.no_duplicates(),
        0 <= i < members.len(),
        0 <= k <= members.len(),
        forall|x: int| 0 <= x < members.len() ==> #[trigger] members[x] < g.n,
    ensures
        coefficient_sum(g, members, i, k) == (if i < k {
            total_taken(g, members[i] as int, g.n as int)
        } else {
            0
        }) - inside_taken(g, members, members[i] as int, k, g.n as int),
    decreases k,
{
    let v = members[i] as int;
    if k == 0 {
        lemma_none_inside(g, members, v, g.n as int);
    } else {
        lemma_coefficients(g, members, i, k - 1);
        lemma_one_more(g, members, v, k - 1, g.n as int);
        assert(members[k - 1] < g.n);
        if i == k - 1 {
            assert(taken(g, v, members[k - 1] as int) == 0);
        }
    }
}

/// The coefficients of a member's equation come to what the member takes in
/// from outside its component. So where a component takes in nothing from
/// outside, adding a constant to every level leaves each equation as it was.
pub proof fn coefficients_come_to_the_outside_weight(g: Graph, members: Seq<usize>, i: int)
    requires
        members.no_duplicates(),
        0 <= i < members.len(),
        forall|x: int| 0 <= x < members.len() ==> #[trigger] members[x] < g.n,
    ensures
        coefficient_sum(g, members, i, members.len() as int) == outside_taken(
            g,
            members,
            members[i] as int,
            g.n as int,
        ),
{
    lemma_coefficients(g, members, i, members.len() as int);
    lemma_split(g, members, members[i] as int, g.n as int);
}

/// The nodes that take in anything from a node, among the first `k`.
pub open spec fn consumers_of(g: Graph, source: int, k: int) -> Seq<usize>
    decreases k,
{
    if k <= 0 {
        Seq::empty()
    } else {
        let rest = consumers_of(g, source, k - 1);
        if taken(g, k - 1, source) > 0 {
            rest.push((k - 1) as usize)
        } else {
            rest
        }
    }
}

/// For each node, those that take in anything from it, in order.
pub fn consumers(graph: &Graph) -> (r: Vec<Vec<NodeId>>)
    requires
        graph.ok(),
    ensures
        r.len() == graph.n,
        forall|u: int|
            0 <= u < graph.n ==> (#[trigger] r@[u])@ == consumers_of(*graph, u, graph.n as int),
{
    let n: usize = graph.n;
    let mut out: Vec<Vec<NodeId>> = Vec::new();
    let mut u: usize = 0;
    while u < n
        invariant
            graph.ok(),
            n == graph.n,
            u <= n,
            out.len() == u,
            forall|x: int|
                0 <= x < u ==> (#[trigger] out@[x])@ == consumers_of(*graph, x, n as int),
        decreases n - u,
    {
        let mut row: Vec<NodeId> = Vec::new();
        let mut v: usize = 0;
        while v < n
            invariant
                graph.ok(),
                n == graph.n,
                u < n,
                v <= n,
                row@ == consumers_of(*graph, u as int, v as int),
            decreases n - v,
        {
            if v != u && count_edges(graph, v, u).weight() > 0 {
                row.push(v);
            }
            v += 1;
        }
        out.push(row);
        u += 1;
    }
    out
}

} // verus!
