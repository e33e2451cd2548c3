//! Graph facts of one lowered function: dominance, control dependence,
//! natural loops, reaching definitions and def-use chains, and the strongly
//! connected components of a dependence graph.
//!
//! Everything is computed from the per-instruction facts alone, so it does
//! not matter whether a frontend's variables are in SSA form.

use vstd::prelude::*;

use crate::ir::{FunctionIr, FunctionView, NodeId, NodeView, VarId};
use crate::search::{edges_in_range, has_edge, rows, search, Quest};

verus! {

/// One definition: which node defines which variable.
#[derive(Debug, Clone, Copy, PartialEq, Eq, Structural)]
pub struct Def {
    /// The defining node.
    pub node: NodeId,
    /// The defined variable.
    pub var: VarId,
}

/// A natural loop.
#[derive(Debug, Clone)]
pub struct Loop {
    /// The node every iteration enters through.
    pub header: NodeId,
    /// Every node of the loop, the header included, in order.
    pub body: Vec<NodeId>,
}

/// A loop as plain values.
#[verifier::ext_equal]
pub struct LoopView {
    pub header: NodeId,
    pub body: Seq<NodeId>,
}

impl View for Loop {
    type V = LoopView;

    open spec fn view(&self) -> LoopView {
        LoopView { header: self.header, body: self.body@ }
    }
}

/// The successors of each node.
pub open spec fn succs(f: FunctionView) -> Seq<Seq<usize>> {
    f.nodes.map_values(|n: NodeView| n.succs)
}

/// The nodes among the first `k` that have an edge to `b`, in order.
pub open spec fn preds_before(succ: Seq<Seq<usize>>, b: int, k: int) -> Seq<usize>
    decreases k,
{
    if k <= 0 || k > succ.len() {
        Seq::empty()
    } else {
        let rest = preds_before(succ, b, k - 1);
        if succ[k - 1].contains(b as usize) {
            rest.push((k - 1) as usize)
        } else {
            rest
        }
    }
}

/// The predecessors of each node, in order.
pub open spec fn preds(succ: Seq<Seq<usize>>) -> Seq<Seq<usize>> {
    Seq::new(succ.len(), |b: int| preds_before(succ, b, succ.len() as int))
}

/// A mark on one node.
pub open spec fn only(n: nat, k: int) -> Seq<bool> {
    Seq::new(n, |i: int| i == k)
}

/// A mark on every node but one.
pub open spec fn all_but(n: nat, k: int) -> Seq<bool> {
    Seq::new(n, |i: int| i != k)
}

/// A mark on every node.
pub open spec fn all(n: nat) -> Seq<bool> {
    Seq::new(n, |i: int| true)
}

/// The marked indices, in order.
pub open spec fn members(m: Seq<bool>) -> Seq<usize>
    decreases m.len(),
{
    if m.len() == 0 {
        Seq::empty()
    } else {
        let rest = members(m.drop_last());
        if m.last() {
            rest.push((m.len() - 1) as usize)
        } else {
            rest
        }
    }
}

/// Whether control can come to `b`.
pub open spec fn reachable(f: FunctionView, b: int) -> bool {
    let n = f.nodes.len();
    (Quest { succ: succs(f), start: only(n, f.entry as int), open: all(n) }).reaches(b)
}

/// Whether every way to `b` goes through `a`, and there is one.
pub open spec fn dominates(f: FunctionView, a: int, b: int) -> bool {
    let n = f.nodes.len();
    reachable(f, b) && (a == b || !(Quest {
        succ: succs(f),
        start: only(n, f.entry as int),
        open: all_but(n, a),
    }).reaches(b))
}

/// The nodes that control leaves the function from.
pub open spec fn exits(f: FunctionView) -> Seq<bool> {
    Seq::new(f.nodes.len(), |i: int| f.nodes[i].succs.len() == 0)
}

/// Whether every way from `s` out of the function goes through `y`, and there
/// is one.
pub open spec fn post_dominates(f: FunctionView, y: int, s: int) -> bool {
    let n = f.nodes.len();
    (Quest { succ: preds(succs(f)), start: exits(f), open: all(n) }).reaches(s) && (y == s
        || !(Quest { succ: preds(succs(f)), start: exits(f), open: all_but(n, y) }).reaches(s))
}

/// Whether `x` decides if `y` runs: `y` is certain behind one of the edges of
/// `x`, and not already certain at `x`.
pub open spec fn depends_on(f: FunctionView, y: int, x: int) -> bool {
    &&& x == y || !post_dominates(f, y, x)
    &&& exists|s: int| #[trigger] has_edge(succs(f), x, s) && post_dominates(f, y, s)
}

/// Whether the edge from `t` to `h` closes a loop: `h` dominates `t`.
pub open spec fn back_edge(f: FunctionView, t: int, h: int) -> bool {
    has_edge(succs(f), t, h) && dominates(f, h, t)
}

/// The nodes that an edge back to `h` starts from.
pub open spec fn back_edges(f: FunctionView, h: int) -> Seq<bool> {
    Seq::new(f.nodes.len(), |t: int| back_edge(f, t, h))
}

/// Whether `u` is part of the loop at `h`: the header, or a node that an edge
/// back to it can be reached from without passing the header.
pub open spec fn in_loop(f: FunctionView, h: int, u: int) -> bool {
    u == h || (Quest {
        succ: preds(succs(f)),
        start: back_edges(f, h),
        open: all_but(f.nodes.len(), h),
    }).reaches(u)
}

/// The natural loops whose headers are among the first `k` nodes, in order.
pub open spec fn loops_before(f: FunctionView, k: int) -> Seq<LoopView>
    decreases k,
{
    if k <= 0 || k > f.nodes.len() {
        Seq::empty()
    } else {
        let rest = loops_before(f, k - 1);
        if members(back_edges(f, k - 1)).len() > 0 {
            rest.push(
                LoopView {
                    header: (k - 1) as usize,
                    body: members(Seq::new(f.nodes.len(), |u: int| in_loop(f, k - 1, u))),
                },
            )
        } else {
            rest
        }
    }
}

/// The definitions of the first `k` nodes, in order.
pub open spec fn defs_before(f: FunctionView, k: int) -> Seq<Def>
    decreases k,
{
    if k <= 0 || k > f.nodes.len() {
        Seq::empty()
    } else {
        defs_before(f, k - 1) + f.nodes[k - 1].defs.map_values(
            |v: VarId| Def { node: (k - 1) as usize, var: v },
        )
    }
}

/// Every definition of the function.
pub open spec fn all_defs(f: FunctionView) -> Seq<Def> {
    defs_before(f, f.nodes.len() as int)
}

/// The nodes that control goes to from `k`.
pub open spec fn after(f: FunctionView, k: int) -> Seq<bool> {
    Seq::new(f.nodes.len(), |i: int| f.nodes[k].succs.contains(i as usize))
}

/// The nodes that do not define a variable.
pub open spec fn not_defining(f: FunctionView, var: VarId) -> Seq<bool> {
    Seq::new(f.nodes.len(), |i: int| !f.nodes[i].defs.contains(var))
}

/// Whether a use at `u` may read the definition: `u` reads the variable, and
/// some way from the definition to `u` does not define it again.
pub open spec fn may_read(f: FunctionView, d: Def, u: int) -> bool {
    f.nodes[u].uses.contains(d.var) && (Quest {
        succ: succs(f),
        start: after(f, d.node as int),
        open: not_defining(f, d.var),
    }).reaches(u)
}

/// The definitions made at `k`.
pub open spec fn made_at(f: FunctionView, k: int) -> Seq<usize> {
    members(Seq::new(all_defs(f).len(), |d: int| all_defs(f)[d].node == k))
}

/// The definitions that `u` may read.
pub open spec fn read_at(f: FunctionView, u: int) -> Seq<usize> {
    members(Seq::new(all_defs(f).len(), |d: int| may_read(f, all_defs(f)[d], u)))
}

/// The nodes that may read the `d`-th definition.
pub open spec fn readers(f: FunctionView, d: int) -> Seq<usize> {
    members(Seq::new(f.nodes.len(), |u: int| may_read(f, all_defs(f)[d], u)))
}

/// The nodes that decide if `y` runs.
pub open spec fn deciders(f: FunctionView, y: int) -> Seq<usize> {
    members(Seq::new(f.nodes.len(), |x: int| depends_on(f, y, x)))
}

/// What a graph is built from a function: every field is what the function's
/// nodes determine.
pub open spec fn is_graph_of(g: Graph, f: FunctionView) -> bool {
    &&& g.n == f.nodes.len()
    &&& g.defs@ == all_defs(f)
    &&& g.defs_at@.len() == g.n && forall|k: int|
        0 <= k < g.n ==> (#[trigger] g.defs_at@[k])@ == made_at(f, k)
    &&& g.uses_defs@.len() == g.n && forall|u: int|
        0 <= u < g.n ==> (#[trigger] g.uses_defs@[u])@ == read_at(f, u)
    &&& g.def_users@.len() == g.defs@.len() && forall|d: int|
        0 <= d < g.defs@.len() ==> (#[trigger] g.def_users@[d])@ == readers(f, d)
    &&& g.ctrl_deps@.len() == g.n && forall|y: int|
        0 <= y < g.n ==> (#[trigger] g.ctrl_deps@[y])@ == deciders(f, y)
    &&& g.loops@.map_values(|l: Loop| l@) == loops_before(f, f.nodes.len() as int)
    &&& g.dom@.len() == g.n && forall|a: int|
        0 <= a < g.n ==> (#[trigger] g.dom@[a])@ == Seq::new(
            g.n as nat,
            |b: int| dominates(f, a, b),
        )
}

/// The graph facts of one function.
#[derive(Debug, Clone)]
pub struct Graph {
    /// Number of nodes.
    pub n: usize,
    /// Every definition, in node order.
    pub defs: Vec<Def>,
    /// The definitions made at each node, as indices into `defs`.
    pub defs_at: Vec<Vec<usize>>,
    /// The definitions each node may read, as indices into `defs`.
    pub uses_defs: Vec<Vec<usize>>,
    /// The nodes that may read each definition.
    pub def_users: Vec<Vec<NodeId>>,
    /// The nodes that decide if each node runs.
    pub ctrl_deps: Vec<Vec<NodeId>>,
    /// The natural loops, by header.
    pub loops: Vec<Loop>,
    /// For each node, which nodes it dominates.
    pub dom: Vec<Vec<bool>>,
}

proof fn lemma_members(m: Seq<bool>)
    requires
        m.len() <= usize::MAX,
    ensures
        forall|i: int| 0 <= i < m.len() ==> #[trigger] m[i] == members(m).contains(i as usize),
        forall|k: int| 0 <= k < members(m).len() ==> #[trigger] members(m)[k] < m.len(),
    decreases m.len(),
{
    if m.len() > 0 {
        let r = m.drop_last();
        lemma_members(r);
        let n = m.len() - 1;
        assert forall|i: int| 0 <= i < m.len() implies #[trigger] m[i] == members(m).contains(
            i as usize,
        ) by {
            if i < n {
                assert(m[i] == r[i]);
                if r[i] {
                    let k = choose|k: int| 0 <= k < members(r).len() && members(r)[k] == i as usize;
                    assert(members(m)[k] == i as usize);
                }
                if members(m).contains(i as usize) {
                    let k = choose|k: int| 0 <= k < members(m).len() && members(m)[k] == i as usize;
                    assert(k < members(r).len());
                    assert(members(r)[k] == i as usize);
                }
            } else {
                if m[i] {
                    assert(members(m)[members(m).len() - 1] == i as usize);
                }
                if members(m).contains(i as usize) && !m[i] {
                    let k = choose|k: int| 0 <= k < members(m).len() && members(m)[k] == i as usize;
                    assert(members(r)[k] < r.len());
                }
            }
        }
        assert forall|k: int| 0 <= k < members(m).len() implies #[trigger] members(m)[k]
            < m.len() by {
            if k < members(r).len() {
                assert(members(m)[k] == members(r)[k]);
            }
        }
    }
}

/// The predecessors of a node are the nodes with an edge to it.
pub proof fn predecessors_have_the_edge(succ: Seq<Seq<usize>>, b: int, k: int, a: usize)
    requires
        0 <= k <= succ.len() <= usize::MAX,
    ensures
        preds_before(succ, b, k).contains(a) <==> a < k && succ[a as int].contains(b as usize),
    decreases k,
{
    if k > 0 {
        predecessors_have_the_edge(succ, b, k - 1, a);
        let rest = preds_before(succ, b, k - 1);
        let all = preds_before(succ, b, k);
        if rest.contains(a) {
            let i = choose|i: int| 0 <= i < rest.len() && rest[i] == a;
            assert(all[i] == a);
        }
        if all.contains(a) {
            let i = choose|i: int| 0 <= i < all.len() && all[i] == a;
            if i < rest.len() {
                assert(rest[i] == a);
            }
        }
        if succ[k - 1].contains(b as usize) {
            assert(all[all.len() - 1] == (k - 1) as usize);
        }
    }
}

/// A list of marked indices holds exactly those.
pub broadcast proof fn members_are_marked(m: Seq<bool>, i: usize)
    requires
        m.len() <= usize::MAX,
    ensures
        #[trigger] members(m).contains(i) <==> i < m.len() && m[i as int],
{
    lemma_members(m);
    if members(m).contains(i) {
        let k = choose|k: int| 0 <= k < members(m).len() && members(m)[k] == i;
        assert(members(m)[k] < m.len());
    }
}

/// The marked indices, in order.
pub fn list_marked(m: &Vec<bool>) -> (r: Vec<usize>)
    ensures
        r@ == members(m@),
{
    let mut out: Vec<usize> = Vec::new();
    let mut i: usize = 0;
    assert(m@.take(0) =~= Seq::empty());
    while i < m.len()
        invariant
            i <= m.len(),
            out@ == members(m@.take(i as int)),
        decreases m.len() - i,
    {
        assert(m@.take(i + 1).drop_last() =~= m@.take(i as int));
        if m[i] {
            out.push(i);
        }
        i += 1;
    }
    assert(m@.take(i as int) =~= m@);
    out
}

fn mark_only(n: usize, k: usize) -> (r: Vec<bool>)
    ensures
        r@ == only(n as nat, k as int),
{
    let mut out: Vec<bool> = Vec::new();
    let mut i: usize = 0;
    while i < n
        invariant
            i <= n,
            out@ =~= only(n as nat, k as int).take(i as int),
        decreases n - i,
    {
        out.push(i == k);
        i += 1;
    }
    assert(out@ =~= only(n as nat, k as int));
    out
}

fn mark_all_but(n: usize, k: usize) -> (r: Vec<bool>)
    ensures
        r@ == all_but(n as nat, k as int),
{
    let mut out: Vec<bool> = Vec::new();
    let mut i: usize = 0;
    while i < n
        invariant
            i <= n,
            out@ =~= all_but(n as nat, k as int).take(i as int),
        decreases n - i,
    {
        out.push(i != k);
        i += 1;
    }
    assert(out@ =~= all_but(n as nat, k as int));
    out
}

fn mark_all(n: usize) -> (r: Vec<bool>)
    ensures
        r@ == all(n as nat),
{
    let mut out: Vec<bool> = Vec::new();
    let mut i: usize = 0;
    while i < n
        invariant
            i <= n,
            out@ =~= all(n as nat).take(i as int),
        decreases n - i,
    {
        out.push(true);
        i += 1;
    }
    assert(out@ =~= all(n as nat));
    out
}

fn contains(list: &Vec<usize>, x: usize) -> (r: bool)
    ensures
        r == list@.contains(x),
{
    crate::ts::tree::has_index(list.as_slice(), x)
}

fn contains_var(list: &Vec<VarId>, x: VarId) -> (r: bool)
    ensures
        r == list@.contains(x),
{
    let mut k: usize = 0;
    while k < list.len()
        invariant
            k <= list.len(),
            forall|j: int| 0 <= j < k ==> list@[j] != x,
        decreases list.len() - k,
    {
        if list[k] == x {
            return true;
        }
        k += 1;
    }
    false
}

/// The successors of each node, copied out.
pub(crate) fn succ_lists(ir: &FunctionIr) -> (r: Vec<Vec<usize>>)
    ensures
        rows(r@) == succs(ir@),
{
    let mut out: Vec<Vec<usize>> = Vec::new();
    let mut i: usize = 0;
    while i < ir.nodes.len()
        invariant
            i <= ir.nodes.len(),
            rows(out@) =~= succs(ir@).take(i as int),
        decreases ir.nodes.len() - i,
    {
        let node = &ir.nodes[i];
        assert(ir@.nodes[i as int] == node@);
        let mut row: Vec<usize> = Vec::new();
        let mut k: usize = 0;
        while k < node.succs.len()
            invariant
                k <= node.succs.len(),
                row@ =~= node.succs@.take(k as int),
            decreases node.succs.len() - k,
        {
            row.push(node.succs[k]);
            k += 1;
        }
        assert(row@ =~= node.succs@);
        let ghost before = out@;
        out.push(row);
        assert(rows(out@) =~= rows(before).push(row@));
        i += 1;
    }
    assert(rows(out@) =~= succs(ir@));
    out
}

/// The predecessors of each node.
pub fn pred_lists(succ: &Vec<Vec<usize>>) -> (r: Vec<Vec<usize>>)
    ensures
        rows(r@) == preds(rows(succ@)),
        r.len() == succ.len(),
        edges_in_range(rows(r@)),
{
    let ghost s = rows(succ@);
    let n: usize = succ.len();
    let mut out: Vec<Vec<usize>> = Vec::new();
    let mut b: usize = 0;
    while b < n
        invariant
            b <= n,
            n == succ.len(),
            s == rows(succ@),
            rows(out@) =~= preds(s).take(b as int),
            forall|x: int, k: int|
                0 <= x < b && 0 <= k < out@[x]@.len() ==> #[trigger] out@[x]@[k] < n,
        decreases n - b,
    {
        let mut row: Vec<usize> = Vec::new();
        let mut a: usize = 0;
        while a < n
            invariant
                a <= n,
                n == succ.len(),
                s == rows(succ@),
                row@ == preds_before(s, b as int, a as int),
                forall|k: int| 0 <= k < row@.len() ==> #[trigger] row@[k] < n,
            decreases n - a,
        {
            assert(s[a as int] == succ@[a as int]@);
            if contains(&succ[a], b) {
                row.push(a);
            }
            a += 1;
        }
        let ghost before = out@;
        out.push(row);
        assert(rows(out@) =~= rows(before).push(row@));
        b += 1;
    }
    assert(rows(out@) =~= preds(s));
    proof {
        assert forall|x: int, k: int|
            0 <= x < rows(out@).len() && 0 <= k < rows(out@)[x].len() implies #[trigger] rows(
            out@,
        )[x][k] < rows(out@).len() by {
            assert(out@[x]@[k] < n);
        }
    }
    out
}

/// For each node `a`, the nodes that the quest reaches when `a` is closed.
fn search_without(succ: &Vec<Vec<usize>>, start: &Vec<bool>) -> (r: Vec<Vec<bool>>)
    requires
        edges_in_range(rows(succ@)),
        start.len() == succ.len(),
    ensures
        r.len() == succ.len(),
        forall|a: int|
            0 <= a < r.len() ==> (#[trigger] r@[a])@ == Seq::new(
                succ.len() as nat,
                |b: int|
                    (Quest {
                        succ: rows(succ@),
                        start: start@,
                        open: all_but(succ.len() as nat, a),
                    }).reaches(b),
            ),
{
    let n: usize = succ.len();
    let mut out: Vec<Vec<bool>> = Vec::new();
    let mut a: usize = 0;
    while a < n
        invariant
            n == succ.len(),
            start.len() == n,
            edges_in_range(rows(succ@)),
            a <= n,
            out.len() == a,
            forall|x: int|
                0 <= x < a ==> (#[trigger] out@[x])@ == Seq::new(
                    n as nat,
                    |b: int|
                        (Quest {
                            succ: rows(succ@),
                            start: start@,
                            open: all_but(n as nat, x),
                        }).reaches(b),
                ),
        decreases n - a,
    {
        let open = mark_all_but(n, a);
        let row = search(succ, start, &open);
        assert(row@ =~= Seq::new(
            n as nat,
            |b: int|
                (Quest {
                    succ: rows(succ@),
                    start: start@,
                    open: all_but(n as nat, a as int),
                }).reaches(b),
        ));
        out.push(row);
        a += 1;
    }
    out
}

/// Turns "reached at all" and "reached without `a`" into "only through `a`".
fn through(reached: &Vec<bool>, without: &Vec<Vec<bool>>) -> (r: Vec<Vec<bool>>)
    requires
        without.len() == reached.len(),
        forall|a: int| 0 <= a < without.len() ==> (#[trigger] without@[a])@.len() == reached.len(),
    ensures
        r.len() == reached.len(),
        forall|a: int|
            0 <= a < r.len() ==> (#[trigger] r@[a])@ == Seq::new(
                reached.len() as nat,
                |b: int| reached@[b] && (a == b || !without@[a]@[b]),
            ),
{
    let n: usize = reached.len();
    let mut out: Vec<Vec<bool>> = Vec::new();
    let mut a: usize = 0;
    while a < n
        invariant
            n == reached.len(),
            without.len() == n,
            forall|x: int| 0 <= x < without.len() ==> (#[trigger] without@[x])@.len() == n,
            a <= n,
            out.len() == a,
            forall|x: int|
                0 <= x < a ==> (#[trigger] out@[x])@ == Seq::new(
                    n as nat,
                    |b: int| reached@[b] && (x == b || !without@[x]@[b]),
                ),
        decreases n - a,
    {
        let mut row: Vec<bool> = Vec::new();
        let mut b: usize = 0;
        assert(without@[a as int]@.len() == n);
        while b < n
            invariant
                n == reached.len(),
                a < n,
                without.len() == n,
                without@[a as int]@.len() == n,
                b <= n,
                row.len() == b,
                forall|x: int|
                    0 <= x < b ==> #[trigger] row@[x] == (reached@[x] && (a == x
                        || !without@[a as int]@[x])),
            decreases n - b,
        {
            row.push(reached[b] && (a == b || !without[a][b]));
            b += 1;
        }
        assert(row@ =~= Seq::new(
            n as nat,
            |b: int| reached@[b] && (a == b || !without@[a as int]@[b]),
        ));
        out.push(row);
        a += 1;
    }
    out
}

/// For each node, which nodes it dominates.
fn dominators(ir: &FunctionIr, succ: &Vec<Vec<usize>>) -> (r: Vec<Vec<bool>>)
    requires
        ir@.valid(),
        rows(succ@) == succs(ir@),
        edges_in_range(rows(succ@)),
    ensures
        r.len() == ir@.nodes.len(),
        forall|a: int|
            0 <= a < r.len() ==> (#[trigger] r@[a])@ == Seq::new(
                ir@.nodes.len(),
                |b: int| dominates(ir@, a, b),
            ),
{
    let ghost f = ir@;
    let n: usize = succ.len();
    assert(rows(succ@).len() == n);
    let start = mark_only(n, ir.entry);
    let every = mark_all(n);
    let reached = search(succ, &start, &every);
    let without = search_without(succ, &start);
    let r = through(&reached, &without);
    proof {
        assert forall|a: int| 0 <= a < r.len() implies (#[trigger] r@[a])@ == Seq::new(
            f.nodes.len(),
            |b: int| dominates(f, a, b),
        ) by {
            assert(without@[a]@.len() == n);
            assert(r@[a]@ =~= Seq::new(f.nodes.len(), |b: int| dominates(f, a, b)));
        }
    }
    r
}

/// For each node, which nodes it post-dominates.
fn post_dominators(ir: &FunctionIr, pred: &Vec<Vec<usize>>) -> (r: Vec<Vec<bool>>)
    requires
        rows(pred@) == preds(succs(ir@)),
        edges_in_range(rows(pred@)),
    ensures
        r.len() == ir@.nodes.len(),
        forall|a: int|
            0 <= a < r.len() ==> (#[trigger] r@[a])@ == Seq::new(
                ir@.nodes.len(),
                |b: int| post_dominates(ir@, a, b),
            ),
{
    let ghost f = ir@;
    let n: usize = pred.len();
    assert(rows(pred@).len() == n);
    let mut start: Vec<bool> = Vec::new();
    let mut i: usize = 0;
    while i < n
        invariant
            f == ir@,
            n == f.nodes.len(),
            n == ir.nodes.len(),
            i <= n,
            start@ =~= exits(f).take(i as int),
        decreases n - i,
    {
        assert(f.nodes[i as int] == ir.nodes@[i as int]@);
        start.push(ir.nodes[i].succs.is_empty());
        i += 1;
    }
    assert(start@ =~= exits(f));
    let every = mark_all(n);
    let reached = search(pred, &start, &every);
    let without = search_without(pred, &start);
    let r = through(&reached, &without);
    proof {
        assert forall|a: int| 0 <= a < r.len() implies (#[trigger] r@[a])@ == Seq::new(
            f.nodes.len(),
            |b: int| post_dominates(f, a, b),
        ) by {
            assert(without@[a]@.len() == n);
            assert(r@[a]@ =~= Seq::new(f.nodes.len(), |b: int| post_dominates(f, a, b)));
        }
    }
    r
}

fn decides(succ: &Vec<Vec<usize>>, pdom: &Vec<Vec<bool>>, y: usize, x: usize) -> (r: bool)
    requires
        edges_in_range(rows(succ@)),
        pdom.len() == succ.len(),
        y < succ.len(),
        x < succ.len(),
        pdom@[y as int]@.len() == succ.len(),
    ensures
        r == ((x == y || !pdom@[y as int]@[x as int]) && exists|s: int| #[trigger]
            has_edge(rows(succ@), x as int, s) && pdom@[y as int]@[s]),
{
    let ghost sr = rows(succ@);
    if x != y && pdom[y][x] {
        return false;
    }
    let row = &succ[x];
    assert(sr[x as int] == row@);
    let mut k: usize = 0;
    while k < row.len()
        invariant
            sr == rows(succ@),
            edges_in_range(sr),
            pdom.len() == succ.len(),
            y < succ.len(),
            x < succ.len(),
            pdom@[y as int]@.len() == succ.len(),
            sr[x as int] == row@,
            x == y || !pdom@[y as int]@[x as int],
            k <= row.len(),
            forall|j: int| 0 <= j < k ==> !pdom@[y as int]@[#[trigger] row@[j] as int],
        decreases row.len() - k,
    {
        assert(sr[x as int][k as int] < sr.len());
        let s: usize = row[k];
        if pdom[y][s] {
            assert(sr[x as int].contains(s));
            assert(has_edge(sr, x as int, s as int));
            return true;
        }
        k += 1;
    }
    proof {
        assert forall|s: int| #[trigger] has_edge(sr, x as int, s) implies !pdom@[y as int]@[s] by {
            let j = choose|j: int| 0 <= j < sr[x as int].len() && sr[x as int][j] == s as usize;
            assert(!pdom@[y as int]@[row@[j] as int]);
        }
    }
    false
}

/// The nodes that decide if each node runs.
fn control_dependence(ir: &FunctionIr, succ: &Vec<Vec<usize>>, pdom: &Vec<Vec<bool>>) -> (r: Vec<
    Vec<usize>,
>)
    requires
        rows(succ@) == succs(ir@),
        edges_in_range(rows(succ@)),
        pdom.len() == ir@.nodes.len(),
        forall|a: int|
            0 <= a < pdom.len() ==> (#[trigger] pdom@[a])@ == Seq::new(
                ir@.nodes.len(),
                |b: int| post_dominates(ir@, a, b),
            ),
    ensures
        r.len() == ir@.nodes.len(),
        forall|y: int| 0 <= y < r.len() ==> (#[trigger] r@[y])@ == deciders(ir@, y),
{
    let ghost f = ir@;
    let n: usize = succ.len();
    assert(rows(succ@).len() == n);
    let mut out: Vec<Vec<usize>> = Vec::new();
    let mut y: usize = 0;
    while y < n
        invariant
            f == ir@,
            n == f.nodes.len(),
            n == succ.len(),
            rows(succ@) == succs(f),
            edges_in_range(rows(succ@)),
            pdom.len() == n,
            forall|a: int|
                0 <= a < pdom.len() ==> (#[trigger] pdom@[a])@ == Seq::new(
                    f.nodes.len(),
                    |b: int| post_dominates(f, a, b),
                ),
            y <= n,
            out.len() == y,
            forall|x: int| 0 <= x < y ==> (#[trigger] out@[x])@ == deciders(f, x),
        decreases n - y,
    {
        let mut marks: Vec<bool> = Vec::new();
        let mut x: usize = 0;
        assert(pdom@[y as int]@ == Seq::new(
            f.nodes.len(),
            |b: int| post_dominates(f, y as int, b),
        ));
        while x < n
            invariant
                f == ir@,
                n == f.nodes.len(),
                n == succ.len(),
                y < n,
                rows(succ@) == succs(f),
                edges_in_range(rows(succ@)),
                pdom.len() == n,
                pdom@[y as int]@ == Seq::new(
                    f.nodes.len(),
                    |b: int| post_dominates(f, y as int, b),
                ),
                x <= n,
                marks.len() == x,
                forall|k: int| 0 <= k < x ==> #[trigger] marks@[k] == depends_on(f, y as int, k),
            decreases n - x,
        {
            let d: bool = decides(succ, pdom, y, x);
            proof {
                let p = pdom@[y as int]@;
                if depends_on(f, y as int, x as int) {
                    let s = choose|s: int| #[trigger]
                        has_edge(succs(f), x as int, s) && post_dominates(f, y as int, s);
                    assert(has_edge(rows(succ@), x as int, s) && p[s]);
                }
                if d {
                    let s = choose|s: int| #[trigger]
                        has_edge(rows(succ@), x as int, s) && p[s];
                    assert(has_edge(succs(f), x as int, s) && post_dominates(f, y as int, s));
                }
            }
            marks.push(d);
            x += 1;
        }
        assert(marks@ =~= Seq::new(f.nodes.len(), |x: int| depends_on(f, y as int, x)));
        out.push(list_marked(&marks));
        y += 1;
    }
    out
}

/// The natural loops, by header.
fn natural_loops(
    ir: &FunctionIr,
    succ: &Vec<Vec<usize>>,
    pred: &Vec<Vec<usize>>,
    dom: &Vec<Vec<bool>>,
) -> (r: Vec<Loop>)
    requires
        rows(succ@) == succs(ir@),
        edges_in_range(rows(succ@)),
        rows(pred@) == preds(succs(ir@)),
        edges_in_range(rows(pred@)),
        dom.len() == ir@.nodes.len(),
        forall|a: int|
            0 <= a < dom.len() ==> (#[trigger] dom@[a])@ == Seq::new(
                ir@.nodes.len(),
                |b: int| dominates(ir@, a, b),
            ),
    ensures
        r@.map_values(|l: Loop| l@) == loops_before(ir@, ir@.nodes.len() as int),
{
    let ghost f = ir@;
    let n: usize = succ.len();
    assert(rows(succ@).len() == n);
    assert(rows(pred@).len() == n);
    let mut out: Vec<Loop> = Vec::new();
    assert(out@.map_values(|l: Loop| l@) =~= Seq::empty());
    let mut h: usize = 0;
    while h < n
        invariant
            f == ir@,
            n == f.nodes.len(),
            n == succ.len(),
            n == pred.len(),
            rows(succ@) == succs(f),
            rows(pred@) == preds(succs(f)),
            edges_in_range(rows(pred@)),
            dom.len() == n,
            forall|a: int|
                0 <= a < dom.len() ==> (#[trigger] dom@[a])@ == Seq::new(
                    f.nodes.len(),
                    |b: int| dominates(f, a, b),
                ),
            h <= n,
            out@.map_values(|l: Loop| l@) == loops_before(f, h as int),
        decreases n - h,
    {
        let mut sources: Vec<bool> = Vec::new();
        let mut t: usize = 0;
        assert(dom@[h as int]@ == Seq::new(f.nodes.len(), |b: int| dominates(f, h as int, b)));
        while t < n
            invariant
                n == f.nodes.len(),
                n == succ.len(),
                h < n,
                rows(succ@) == succs(f),
                dom.len() == n,
                dom@[h as int]@ == Seq::new(f.nodes.len(), |b: int| dominates(f, h as int, b)),
                t <= n,
                sources.len() == t,
                forall|k: int|
                    0 <= k < t ==> #[trigger] sources@[k] == back_edge(f, k, h as int),
            decreases n - t,
        {
            assert(rows(succ@)[t as int] == succ@[t as int]@);
            sources.push(contains(&succ[t], h) && dom[h][t]);
            t += 1;
        }
        assert(sources@ =~= back_edges(f, h as int));
        if !list_marked(&sources).is_empty() {
            let open = mark_all_but(n, h);
            let reached = search(pred, &sources, &open);
            let mut inside: Vec<bool> = Vec::new();
            let mut u: usize = 0;
            while u < n
                invariant
                    n == f.nodes.len(),
                    reached.len() == n,
                    u <= n,
                    inside.len() == u,
                    forall|k: int|
                        0 <= k < n ==> #[trigger] reached@[k] == (Quest {
                            succ: preds(succs(f)),
                            start: back_edges(f, h as int),
                            open: all_but(f.nodes.len(), h as int),
                        }).reaches(k),
                    forall|k: int|
                        0 <= k < u ==> #[trigger] inside@[k] == in_loop(f, h as int, k),
                decreases n - u,
            {
                inside.push(u == h || reached[u]);
                u += 1;
            }
            assert(inside@ =~= Seq::new(f.nodes.len(), |u: int| in_loop(f, h as int, u)));
            let ghost before = out@;
            let l = Loop { header: h, body: list_marked(&inside) };
            out.push(l);
            assert(out@.map_values(|l: Loop| l@) =~= before.map_values(|l: Loop| l@).push(l@));
        }
        h += 1;
    }
    out
}

fn list_defs(ir: &FunctionIr) -> (r: Vec<Def>)
    ensures
        r@ == all_defs(ir@),
{
    let ghost f = ir@;
    let mut out: Vec<Def> = Vec::new();
    let mut i: usize = 0;
    while i < ir.nodes.len()
        invariant
            f == ir@,
            i <= ir.nodes.len(),
            out@ == defs_before(f, i as int),
        decreases ir.nodes.len() - i,
    {
        let node = &ir.nodes[i];
        assert(f.nodes[i as int] == node@);
        let ghost before = out@;
        let ghost mine = node@.defs.map_values(|v: VarId| Def { node: i, var: v });
        let mut k: usize = 0;
        while k < node.defs.len()
            invariant
                k <= node.defs.len(),
                mine == node@.defs.map_values(|v: VarId| Def { node: i, var: v }),
                out@ =~= before + mine.take(k as int),
            decreases node.defs.len() - k,
        {
            out.push(Def { node: i, var: node.defs[k] });
            k += 1;
        }
        assert(mine.take(k as int) =~= mine);
        assert(f.nodes[i as int].defs.map_values(|v: VarId| Def { node: i, var: v }) =~= mine);
        i += 1;
    }
    out
}

proof fn lemma_def_nodes(f: FunctionView, k: int)
    requires
        0 <= k <= f.nodes.len(),
        f.nodes.len() <= usize::MAX,
    ensures
        forall|d: int|
            0 <= d < defs_before(f, k).len() ==> (#[trigger] defs_before(f, k)[d]).node < k,
    decreases k,
{
    if k > 0 {
        lemma_def_nodes(f, k - 1);
        let rest = defs_before(f, k - 1);
        assert forall|d: int| 0 <= d < defs_before(f, k).len() implies (
        #[trigger] defs_before(f, k)[d]).node < k by {
            if d < rest.len() {
                assert(defs_before(f, k)[d] == rest[d]);
            }
        }
    }
}

/// The node of every definition is a node.
pub proof fn definitions_are_at_nodes(f: FunctionView, d: int)
    requires
        0 <= d < all_defs(f).len(),
        f.nodes.len() <= usize::MAX,
    ensures
        all_defs(f)[d].node < f.nodes.len(),
{
    lemma_def_nodes(f, f.nodes.len() as int);
}

/// Marks the nodes that may read a definition.
fn mark_readers(ir: &FunctionIr, succ: &Vec<Vec<usize>>, d: Def) -> (r: Vec<bool>)
    requires
        rows(succ@) == succs(ir@),
        edges_in_range(rows(succ@)),
        d.node < ir@.nodes.len(),
    ensures
        r@ == Seq::new(ir@.nodes.len(), |u: int| may_read(ir@, d, u)),
{
    let ghost f = ir@;
    let n: usize = succ.len();
    assert(rows(succ@).len() == n);
    let mut start: Vec<bool> = Vec::new();
    let mut open: Vec<bool> = Vec::new();
    let mut i: usize = 0;
    assert(f.nodes[d.node as int] == ir.nodes@[d.node as int]@);
    while i < n
        invariant
            f == ir@,
            n == f.nodes.len(),
            n == ir.nodes.len(),
            d.node < n,
            f.nodes[d.node as int] == ir.nodes@[d.node as int]@,
            i <= n,
            start@ =~= after(f, d.node as int).take(i as int),
            open@ =~= not_defining(f, d.var).take(i as int),
        decreases n - i,
    {
        assert(f.nodes[i as int] == ir.nodes@[i as int]@);
        start.push(contains(&ir.nodes[d.node].succs, i));
        open.push(!contains_var(&ir.nodes[i].defs, d.var));
        i += 1;
    }
    assert(start@ =~= after(f, d.node as int));
    assert(open@ =~= not_defining(f, d.var));
    let reached = search(succ, &start, &open);
    let mut out: Vec<bool> = Vec::new();
    let mut u: usize = 0;
    while u < n
        invariant
            f == ir@,
            n == f.nodes.len(),
            n == ir.nodes.len(),
            reached.len() == n,
            forall|k: int|
                0 <= k < n ==> #[trigger] reached@[k] == (Quest {
                    succ: succs(f),
                    start: after(f, d.node as int),
                    open: not_defining(f, d.var),
                }).reaches(k),
            u <= n,
            out.len() == u,
            forall|k: int| 0 <= k < u ==> #[trigger] out@[k] == may_read(f, d, k),
        decreases n - u,
    {
        assert(f.nodes[u as int] == ir.nodes@[u as int]@);
        out.push(contains_var(&ir.nodes[u].uses, d.var) && reached[u]);
        u += 1;
    }
    assert(out@ =~= Seq::new(f.nodes.len(), |u: int| may_read(f, d, u)));
    out
}

/// For each definition, marks on the nodes that may read it.
fn reader_marks(ir: &FunctionIr, succ: &Vec<Vec<usize>>, defs: &Vec<Def>) -> (r: Vec<Vec<bool>>)
    requires
        rows(succ@) == succs(ir@),
        edges_in_range(rows(succ@)),
        defs@ == all_defs(ir@),
    ensures
        r.len() == defs.len(),
        forall|d: int|
            0 <= d < r.len() ==> (#[trigger] r@[d])@ == Seq::new(
                ir@.nodes.len(),
                |u: int| may_read(ir@, all_defs(ir@)[d], u),
            ),
{
    let mut out: Vec<Vec<bool>> = Vec::new();
    let mut d: usize = 0;
    assert(ir@.nodes.len() == ir.nodes.len());
    while d < defs.len()
        invariant
            rows(succ@) == succs(ir@),
            edges_in_range(rows(succ@)),
            defs@ == all_defs(ir@),
            ir@.nodes.len() == ir.nodes.len(),
            d <= defs.len(),
            out.len() == d,
            forall|x: int|
                0 <= x < d ==> (#[trigger] out@[x])@ == Seq::new(
                    ir@.nodes.len(),
                    |u: int| may_read(ir@, all_defs(ir@)[x], u),
                ),
        decreases defs.len() - d,
    {
        proof {
            definitions_are_at_nodes(ir@, d as int);
        }
        let row = mark_readers(ir, succ, defs[d]);
        assert(row@ =~= Seq::new(
            ir@.nodes.len(),
            |u: int| may_read(ir@, all_defs(ir@)[d as int], u),
        ));
        out.push(row);
        d += 1;
    }
    out
}

/// A graph built from a function holds indices of nodes and definitions.
proof fn lemma_graph_ok(g: Graph, f: FunctionView)
    requires
        is_graph_of(g, f),
        f.nodes.len() <= usize::MAX,
        g.defs@.len() <= usize::MAX,
    ensures
        g.ok(),
{
    let ds = all_defs(f);
    assert forall|d: int| 0 <= d < g.defs@.len() implies (#[trigger] g.defs@[d]).node < g.n by {
        definitions_are_at_nodes(f, d);
    }
    assert forall|u: int, k: int| 0 <= u < g.n && 0 <= k < g.uses_defs@[u]@.len() implies
        #[trigger] g.uses_defs@[u]@[k] < g.defs@.len() by {
        let m = Seq::new(ds.len(), |d: int| may_read(f, ds[d], u));
        lemma_members(m);
        assert(g.uses_defs@[u]@ == read_at(f, u));
        assert(m =~= Seq::new(all_defs(f).len(), |d: int| may_read(f, all_defs(f)[d], u)));
        assert(members(m)[k] < m.len());
    }
    assert forall|u: int, k: int| 0 <= u < g.n && 0 <= k < g.defs_at@[u]@.len() implies
        #[trigger] g.defs_at@[u]@[k] < g.defs@.len() by {
        let m = Seq::new(ds.len(), |d: int| ds[d].node == u);
        lemma_members(m);
        assert(g.defs_at@[u]@ == made_at(f, u));
        assert(m =~= Seq::new(all_defs(f).len(), |d: int| all_defs(f)[d].node == u));
        assert(members(m)[k] < m.len());
    }
    assert forall|y: int, k: int| 0 <= y < g.n && 0 <= k < g.ctrl_deps@[y]@.len() implies
        #[trigger] g.ctrl_deps@[y]@[k] < g.n by {
        let m = Seq::new(f.nodes.len(), |x: int| depends_on(f, y, x));
        lemma_members(m);
        assert(g.ctrl_deps@[y]@ == deciders(f, y));
        assert(members(m)[k] < m.len());
    }
    assert forall|d: int, k: int|
        0 <= d < g.defs@.len() && 0 <= k < g.def_users@[d]@.len() implies
        #[trigger] g.def_users@[d]@[k] < g.n by {
        let m = Seq::new(f.nodes.len(), |u: int| may_read(f, ds[d], u));
        lemma_members(m);
        assert(g.def_users@[d]@ == readers(f, d));
        assert(m =~= Seq::new(f.nodes.len(), |u: int| may_read(f, all_defs(f)[d], u)));
        assert(members(m)[k] < m.len());
    }
}

impl Graph {
    /// Whether every index in the graph names what it should.
    pub open spec fn ok(self) -> bool {
        &&& self.defs_at@.len() == self.n
        &&& self.uses_defs@.len() == self.n
        &&& self.ctrl_deps@.len() == self.n
        &&& self.def_users@.len() == self.defs@.len()
        &&& forall|d: int| 0 <= d < self.defs@.len() ==> (#[trigger] self.defs@[d]).node < self.n
        &&& forall|u: int, k: int|
            0 <= u < self.n && 0 <= k < self.uses_defs@[u]@.len()
                ==> #[trigger] self.uses_defs@[u]@[k] < self.defs@.len()
        &&& forall|u: int, k: int|
            0 <= u < self.n && 0 <= k < self.defs_at@[u]@.len()
                ==> #[trigger] self.defs_at@[u]@[k] < self.defs@.len()
        &&& forall|y: int, k: int|
            0 <= y < self.n && 0 <= k < self.ctrl_deps@[y]@.len()
                ==> #[trigger] self.ctrl_deps@[y]@[k] < self.n
        &&& forall|d: int, k: int|
            0 <= d < self.defs@.len() && 0 <= k < self.def_users@[d]@.len()
                ==> #[trigger] self.def_users@[d]@[k] < self.n
    }

    /// Builds the graph facts of a function.
    pub fn build(ir: &FunctionIr) -> (r: Self)
        requires
            ir@.valid(),
        ensures
            is_graph_of(r, ir@),
            r.ok(),
    {
        let ghost f = ir@;
        let n: usize = ir.nodes.len();
        let succ = succ_lists(ir);
        proof {
            assert(rows(succ@).len() == n);
            assert forall|a: int, k: int|
                0 <= a < rows(succ@).len() && 0 <= k < rows(succ@)[a].len() implies
                #[trigger] rows(succ@)[a][k] < rows(succ@).len() by {
                assert(rows(succ@)[a] == f.nodes[a].succs);
                assert(f.nodes[a].succs[k] < f.nodes.len());
            }
        }
        let pred = pred_lists(&succ);
        let dom = dominators(ir, &succ);
        let pdom = post_dominators(ir, &pred);
        let ctrl_deps = control_dependence(ir, &succ, &pdom);
        let loops = natural_loops(ir, &succ, &pred, &dom);
        let defs = list_defs(ir);
        let marks = reader_marks(ir, &succ, &defs);
        let ghost ds = all_defs(f);
        let mut def_users: Vec<Vec<usize>> = Vec::new();
        let mut d: usize = 0;
        while d < defs.len()
            invariant
                defs.len() == ds.len(),
                ds == all_defs(f),
                marks.len() == defs.len(),
                forall|x: int|
                    0 <= x < marks.len() ==> (#[trigger] marks@[x])@ == Seq::new(
                        f.nodes.len(),
                        |u: int| may_read(f, all_defs(f)[x], u),
                    ),
                d <= defs.len(),
                def_users.len() == d,
                forall|x: int| 0 <= x < d ==> (#[trigger] def_users@[x])@ == readers(f, x),
            decreases defs.len() - d,
        {
            assert(marks@[d as int]@ == Seq::new(
                f.nodes.len(),
                |u: int| may_read(f, all_defs(f)[d as int], u),
            ));
            def_users.push(list_marked(&marks[d]));
            d += 1;
        }
        let mut defs_at: Vec<Vec<usize>> = Vec::new();
        let mut uses_defs: Vec<Vec<usize>> = Vec::new();
        let mut u: usize = 0;
        while u < n
            invariant
                n == f.nodes.len(),
                defs@ == ds,
                ds == all_defs(f),
                marks.len() == defs.len(),
                forall|x: int|
                    0 <= x < marks.len() ==> (#[trigger] marks@[x])@ == Seq::new(
                        f.nodes.len(),
                        |u: int| may_read(f, all_defs(f)[x], u),
                    ),
                u <= n,
                defs_at.len() == u,
                uses_defs.len() == u,
                forall|x: int| 0 <= x < u ==> (#[trigger] defs_at@[x])@ == made_at(f, x),
                forall|x: int| 0 <= x < u ==> (#[trigger] uses_defs@[x])@ == read_at(f, x),
            decreases n - u,
        {
            let mut here: Vec<bool> = Vec::new();
            let mut read: Vec<bool> = Vec::new();
            let mut d: usize = 0;
            while d < defs.len()
                invariant
                    n == f.nodes.len(),
                    u < n,
                    defs@ == ds,
                    ds == all_defs(f),
                    marks.len() == defs.len(),
                    forall|x: int|
                        0 <= x < marks.len() ==> (#[trigger] marks@[x])@ == Seq::new(
                            f.nodes.len(),
                            |u: int| may_read(f, all_defs(f)[x], u),
                        ),
                    d <= defs.len(),
                    here.len() == d,
                    read.len() == d,
                    forall|x: int| 0 <= x < d ==> #[trigger] here@[x] == (ds[x].node == u),
                    forall|x: int|
                        0 <= x < d ==> #[trigger] read@[x] == may_read(f, ds[x], u as int),
                decreases defs.len() - d,
            {
                assert(marks@[d as int]@ == Seq::new(
                    f.nodes.len(),
                    |u: int| may_read(f, all_defs(f)[d as int], u),
                ));
                here.push(defs[d].node == u);
                read.push(marks[d][u]);
                d += 1;
            }
            assert(here@ =~= Seq::new(ds.len(), |d: int| all_defs(f)[d].node == u));
            assert(read@ =~= Seq::new(ds.len(), |d: int| may_read(f, all_defs(f)[d], u as int)));
            defs_at.push(list_marked(&here));
            uses_defs.push(list_marked(&read));
            u += 1;
        }
        let g = Graph { n, defs, defs_at, uses_defs, def_users, ctrl_deps, loops, dom };
        proof {
            lemma_graph_ok(g, f);
        }
        g
    }

    /// Whether every way to `b` goes through `a`, and there is one.
    pub fn dominates(&self, a: NodeId, b: NodeId) -> (r: bool)
        requires
            a < self.dom.len(),
            b < self.dom@[a as int].len(),
        ensures
            r == self.dom@[a as int]@[b as int],
    {
        self.dom[a][b]
    }
}

} // verus!
