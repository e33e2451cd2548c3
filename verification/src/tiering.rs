//! Tiering: rules, not weights.
//!
//! - `boundary`: returns, throws, state writes and calls into opaque
//!   dependencies: the frontier where behavior leaves the body.
//! - `inert`: a denylisted call, everything that feeds one and reaches no
//!   return, throw or state write, and the discard of its result.
//! - `core`: a branch that decides whether something runs, a definition that a
//!   loop carries round, whatever an effect rests on.
//! - `plumbing`: everything else.
//!
//! The inert rule is backward reachability, not "every consumer is inert": a
//! counter that is incremented only to be logged reads its own previous value.

use vstd::prelude::*;

use crate::denylist::{denies, Denylist};
use crate::dependence::{dependence_successors, dependents};
use crate::graph::{
    after, all, all_defs, deciders, depends_on, in_loop, is_graph_of, loops_before, made_at,
    may_read, members, members_are_marked, only, pred_lists, preds, readers, succ_lists, succs, Def,
    Graph, Loop, LoopView,
};
use crate::importance::{NodeImportance, Tier};
use crate::ir::{CallOpacity, FunctionIr, FunctionView, KindView, NodeId, NodeKind, VarId};
use crate::search::{edges_in_range, rows, search, Quest};

verus! {

/// Whether `j` may read a definition that `i` makes.
pub open spec fn reads_from(f: FunctionView, i: int, j: int) -> bool {
    exists|d: int|
        0 <= d < all_defs(f).len() && (#[trigger] all_defs(f)[d]).node == i && may_read(
            f,
            all_defs(f)[d],
            j,
        )
}

/// Who may read the definitions of each node.
pub open spec fn data_rows(f: FunctionView) -> Seq<Seq<usize>> {
    let n = f.nodes.len();
    Seq::new(n, |i: int| members(Seq::new(n, |j: int| reads_from(f, i, j))))
}

/// What rests on each node: what may read its definitions, and what it decides
/// over.
pub open spec fn dependence_rows(f: FunctionView) -> Seq<Seq<usize>> {
    let n = f.nodes.len();
    Seq::new(n, |i: int| members(Seq::new(n, |j: int| reads_from(f, i, j) || depends_on(f, j, i))))
}

/// The nodes that decide over each node.
pub open spec fn decider_rows(f: FunctionView) -> Seq<Seq<usize>> {
    Seq::new(f.nodes.len(), |y: int| deciders(f, y))
}

/// Whether some way along the edges leads from `i` to a sink; a sink leads to
/// itself.
pub open spec fn leads_to(edges: Seq<Seq<usize>>, sinks: Seq<bool>, i: int) -> bool {
    (Quest { succ: preds(edges), start: sinks, open: all(edges.len()) }).reaches(i)
}

/// Whether a node is a call that is known to carry no behavior.
pub open spec fn is_denied(f: FunctionView, patterns: Seq<Seq<char>>, i: int) -> bool {
    f.nodes[i].kind matches KindView::Call { callee, opacity } && (opacity is Inert || denies(
        patterns,
        callee,
    ))
}

pub open spec fn denied(f: FunctionView, patterns: Seq<Seq<char>>) -> Seq<bool> {
    Seq::new(f.nodes.len(), |i: int| is_denied(f, patterns, i))
}

/// Whether a node is an effect that is observable without seeing inside any
/// callee: a return, a throw or a state write.
pub open spec fn is_hard(k: KindView) -> bool {
    k is Return || k is Throw || k is StateWrite
}

pub open spec fn hard(f: FunctionView) -> Seq<bool> {
    Seq::new(f.nodes.len(), |i: int| is_hard(f.nodes[i].kind))
}

/// Whether a node reaches a return, a throw or a state write.
pub open spec fn reaches_hard(f: FunctionView, i: int) -> bool {
    leads_to(dependence_rows(f), hard(f), i)
}

/// Whether a node's values go into a denylisted call, or it is one.
pub open spec fn feeds_denied(f: FunctionView, patterns: Seq<Seq<char>>, i: int) -> bool {
    leads_to(data_rows(f), denied(f, patterns), i)
}

/// Whether a node only takes up the results of denylisted calls.
pub open spec fn takes_up(f: FunctionView, patterns: Seq<Seq<char>>, i: int) -> bool {
    &&& f.nodes[i].kind is Pure
    &&& exists|j: int| 0 <= j < f.nodes.len() && #[trigger] reads_from(f, j, i)
    &&& forall|j: int|
        0 <= j < f.nodes.len() && #[trigger] reads_from(f, j, i) ==> is_denied(f, patterns, j)
}

/// Why a node is inert, if it is.
pub open spec fn inert_reason(f: FunctionView, patterns: Seq<Seq<char>>, i: int) -> Option<Reason> {
    if is_denied(f, patterns, i) {
        Some(Reason::Denylisted)
    } else if reaches_hard(f, i) {
        None
    } else if feeds_denied(f, patterns, i) {
        Some(Reason::FeedsDenylisted)
    } else if takes_up(f, patterns, i) {
        Some(Reason::DiscardsDenylisted)
    } else {
        None
    }
}

/// Whether a node is inert.
pub open spec fn inert(f: FunctionView, patterns: Seq<Seq<char>>, i: int) -> bool {
    inert_reason(f, patterns, i) is Some
}

/// The effects that count: those that are not inert.
pub open spec fn effects(f: FunctionView, patterns: Seq<Seq<char>>) -> Seq<bool> {
    Seq::new(f.nodes.len(), |i: int| f.nodes[i].kind.effect() && !inert(f, patterns, i))
}

/// Whether an effect that counts rests on a node, or it is one.
pub open spec fn reaches_effect(f: FunctionView, patterns: Seq<Seq<char>>, i: int) -> bool {
    leads_to(dependence_rows(f), effects(f, patterns), i)
}

/// The nodes that a branch decides over, directly or through what it decides
/// over; itself left out.
pub open spec fn governed_by(deciders: Seq<Seq<usize>>, i: int) -> Seq<bool> {
    let n = deciders.len();
    Seq::new(
        n,
        |j: int|
            j != i && (Quest {
                succ: preds(deciders),
                start: Seq::new(n, |k: int| deciders[k].contains(i as usize)),
                open: all(n),
            }).reaches(j),
    )
}

/// The nodes of a function that a branch governs.
pub open spec fn governed(f: FunctionView, i: int) -> Seq<bool> {
    governed_by(decider_rows(f), i)
}

/// How many marks are set.
pub open spec fn marked(m: Seq<bool>) -> nat
    decreases m.len(),
{
    if m.len() == 0 {
        0
    } else {
        marked(m.drop_last()) + if m.last() {
            1nat
        } else {
            0nat
        }
    }
}

/// The nodes of the loop at `h` that do not define a variable.
pub open spec fn stays(f: FunctionView, h: int, var: VarId) -> Seq<bool> {
    Seq::new(f.nodes.len(), |i: int| in_loop(f, h, i) && !f.nodes[i].defs.contains(var))
}

/// Whether the loop at `h` carries a definition round to `u`: inside the loop
/// the definition comes to the header, and from there to `u`, which reads it.
pub open spec fn carried_to(f: FunctionView, h: int, d: Def, u: int) -> bool {
    let n = f.nodes.len();
    let open = stays(f, h, d.var);
    &&& in_loop(f, h, d.node as int)
    &&& in_loop(f, h, u)
    &&& f.nodes[u].uses.contains(d.var)
    &&& (Quest { succ: succs(f), start: after(f, d.node as int), open }).reaches(h)
    &&& (Quest { succ: succs(f), start: only(n, h), open }).reaches(u)
}

/// Whether the loop at `h` carries a definition of `i` round.
pub open spec fn carries(f: FunctionView, h: int, i: int) -> bool {
    exists|d: int, u: int|
        0 <= d < all_defs(f).len() && 0 <= u < f.nodes.len() && (#[trigger] all_defs(f)[d]).node
            == i && #[trigger] carried_to(f, h, all_defs(f)[d], u)
}

/// Whether one of the first `k` loops carries a definition of `i` round.
pub open spec fn carried_by(f: FunctionView, loops: Seq<LoopView>, i: int, k: int) -> bool {
    exists|j: int| 0 <= j < k && carries(f, (#[trigger] loops[j]).header as int, i)
}

/// Whether some loop carries a definition of `i` round.
pub open spec fn loop_carried(f: FunctionView, i: int) -> bool {
    let loops = loops_before(f, f.nodes.len() as int);
    carried_by(f, loops, i, loops.len() as int)
}

/// How many of the first `k` loops a node lies in.
pub open spec fn depth_before(loops: Seq<LoopView>, i: usize, k: int) -> nat
    decreases k,
{
    if k <= 0 || k > loops.len() {
        0
    } else {
        depth_before(loops, i, k - 1) + if loops[k - 1].body.contains(i) {
            1nat
        } else {
            0nat
        }
    }
}

/// How deep a node lies in loops.
pub open spec fn loop_depth(f: FunctionView, i: int) -> nat {
    let loops = loops_before(f, f.nodes.len() as int);
    depth_before(loops, i as usize, loops.len() as int)
}

/// Why a node got its tier.
#[derive(Debug, Clone, Copy, PartialEq, Eq, Structural)]
pub enum Reason {
    /// It is a denylisted call.
    Denylisted,
    /// It builds arguments for a denylisted call only.
    FeedsDenylisted,
    /// It discards the result of a denylisted call.
    DiscardsDenylisted,
    /// Behavior leaves the body here.
    Effect,
    /// It decides whether other nodes run.
    Governs {
        /// How many.
        nodes: usize,
    },
    /// A loop carries its definition round.
    LoopCarried {
        /// How many loops it lies in.
        depth: usize,
    },
    /// An effect rests on it.
    ReachesEffect,
    /// Nothing of the kind: no effect rests on it.
    ReachesNothing,
}

/// Why a node got its tier.
pub open spec fn reasons_of(f: FunctionView, patterns: Seq<Seq<char>>, i: int) -> Seq<Reason> {
    match inert_reason(f, patterns, i) {
        Some(r) => seq![r],
        None => if f.nodes[i].kind.effect() {
            seq![Reason::Effect]
        } else {
            let a = if f.nodes[i].kind is Branch && marked(governed(f, i)) > 0 {
                seq![Reason::Governs { nodes: marked(governed(f, i)) as usize }]
            } else {
                Seq::empty()
            };
            let b = if loop_carried(f, i) {
                a.push(Reason::LoopCarried { depth: loop_depth(f, i) as usize })
            } else {
                a
            };
            if reaches_effect(f, patterns, i) {
                b.push(Reason::ReachesEffect)
            } else if b.len() > 0 {
                b
            } else {
                seq![Reason::ReachesNothing]
            }
        },
    }
}

/// The tier of a node.
pub open spec fn tier_of(f: FunctionView, patterns: Seq<Seq<char>>, i: int) -> Tier {
    if inert(f, patterns, i) {
        Tier::Inert
    } else if f.nodes[i].kind.effect() {
        Tier::Boundary
    } else if (f.nodes[i].kind is Branch && marked(governed(f, i)) > 0) || loop_carried(f, i)
        || reaches_effect(f, patterns, i) {
        Tier::Core
    } else {
        Tier::Plumbing
    }
}

/// A return, a throw or a state write is never inert.
pub proof fn hard_effects_are_boundary(f: FunctionView, patterns: Seq<Seq<char>>, i: int)
    requires
        0 <= i < f.nodes.len(),
        is_hard(f.nodes[i].kind),
    ensures
        tier_of(f, patterns, i) == Tier::Boundary,
{
    let q = Quest {
        succ: preds(dependence_rows(f)),
        start: hard(f),
        open: all(dependence_rows(f).len()),
    };
    assert(q.walk(seq![i]));
    assert(seq![i].last() == i);
    assert(reaches_hard(f, i));
}

/// Every tier has its reason.
pub proof fn every_node_carries_a_reason(f: FunctionView, patterns: Seq<Seq<char>>, i: int)
    ensures
        reasons_of(f, patterns, i).len() > 0,
{
}

/// What feeds a denylisted call and reaches no return, throw or state write is
/// inert, though it be a cycle: a counter that is only ever logged reads its own
/// value.
pub proof fn what_only_feeds_the_denylist_is_inert(
    f: FunctionView,
    patterns: Seq<Seq<char>>,
    i: int,
)
    requires
        feeds_denied(f, patterns, i),
        !reaches_hard(f, i),
    ensures
        tier_of(f, patterns, i) == Tier::Inert,
{
}

/// A node on whose value or decision a return, a throw or a state write rests
/// carries behavior: unless it is a denylisted call, it is core, or boundary
/// where it is an effect itself.
pub proof fn what_a_hard_effect_rests_on_carries_behavior(
    f: FunctionView,
    patterns: Seq<Seq<char>>,
    i: int,
)
    requires
        0 <= i < f.nodes.len(),
        reaches_hard(f, i),
        !is_denied(f, patterns, i),
    ensures
        tier_of(f, patterns, i) == (if f.nodes[i].kind.effect() {
            Tier::Boundary
        } else {
            Tier::Core
        }),
{
    let rows = dependence_rows(f);
    let q = Quest { succ: preds(rows), start: hard(f), open: all(rows.len()) };
    let p = choose|p: Seq<int>| #[trigger] q.walk(p) && p.last() == i;
    assert(0 <= p[0] < q.succ.len());
    assert(q.start[p[0]]);
    hard_effects_are_boundary(f, patterns, p[0]);
    let e = Quest { succ: preds(rows), start: effects(f, patterns), open: all(rows.len()) };
    assert(e.start[p[0]]);
    assert(e.walk(p));
}

/// A denylisted call is inert, whatever rests on it.
pub proof fn denylisted_calls_are_inert(f: FunctionView, patterns: Seq<Seq<char>>, i: int)
    requires
        is_denied(f, patterns, i),
    ensures
        tier_of(f, patterns, i) == Tier::Inert,
{
}

/// A call that is not denylisted and that nothing denylisted rests on is never
/// absorbed, though nothing reads its result.
pub proof fn an_opaque_call_that_feeds_nothing_is_boundary(
    f: FunctionView,
    patterns: Seq<Seq<char>>,
    i: int,
)
    requires
        f.nodes[i].kind is Call,
        !is_denied(f, patterns, i),
        !feeds_denied(f, patterns, i),
    ensures
        tier_of(f, patterns, i) == Tier::Boundary,
{
}

/// A value that reaches a return, a throw or a state write is not absorbed by
/// the denylisted calls that share it.
pub proof fn shared_values_are_not_absorbed(f: FunctionView, patterns: Seq<Seq<char>>, i: int)
    requires
        reaches_hard(f, i),
        !is_denied(f, patterns, i),
    ensures
        tier_of(f, patterns, i) != Tier::Inert,
{
}

/// Without a denylist, and with no call said to be inert, nothing is inert.
pub proof fn nothing_is_inert_without_a_denylist(f: FunctionView, i: int)
    requires
        0 <= i < f.nodes.len(),
        forall|k: int|
            0 <= k < f.nodes.len() ==> !((#[trigger] f.nodes[k]).kind matches KindView::Call {
                opacity,
                ..
            } && opacity is Inert),
    ensures
        tier_of(f, Seq::empty(), i) != Tier::Inert,
{
    let none = Seq::<Seq<char>>::empty();
    assert forall|k: int| 0 <= k < f.nodes.len() implies !is_denied(f, none, k) by {
        assert(!(f.nodes[k].kind matches KindView::Call { opacity, .. } && opacity is Inert));
    }
    if feeds_denied(f, none, i) {
        let q = Quest {
            succ: preds(data_rows(f)),
            start: denied(f, none),
            open: all(data_rows(f).len()),
        };
        let p = choose|p: Seq<int>| #[trigger] q.walk(p) && p.last() == i;
        assert(0 <= p[0] < q.succ.len());
        assert(!is_denied(f, none, p[0]));
    }
}

/// What was found out about a function.
#[derive(Debug, Clone)]
pub struct FunctionImportance {
    /// Its graph facts.
    pub graph: Graph,
    /// The tier of every node.
    pub nodes: Vec<NodeImportance>,
    /// The score of every node: that of the scorer, zero where it is inert.
    pub scores: Vec<i64>,
    /// Why every node got its tier.
    pub reasons: Vec<Vec<Reason>>,
}

/// Whether an importance is that of a function under a denylist and a scorer:
/// tiers never vary with the scorer, and an inert node scores nothing under
/// any.
pub open spec fn is_importance_of(
    r: FunctionImportance,
    f: FunctionView,
    patterns: Seq<Seq<char>>,
    scores: Seq<i64>,
) -> bool {
    let n = f.nodes.len();
    &&& is_graph_of(r.graph, f)
    &&& r.nodes@.len() == n && forall|i: int|
        0 <= i < n ==> #[trigger] r.nodes@[i] == (NodeImportance {
            node: i as usize,
            tier: tier_of(f, patterns, i),
        })
    &&& r.scores@.len() == n && forall|i: int|
        0 <= i < n ==> #[trigger] r.scores@[i] == (if inert(f, patterns, i) {
            0
        } else {
            scores[i]
        })
    &&& r.reasons@.len() == n && forall|i: int|
        0 <= i < n ==> (#[trigger] r.reasons@[i])@ == reasons_of(f, patterns, i)
}

/// An inert node scores nothing, and no other tier depends on the scores.
pub proof fn tiers_do_not_vary_with_the_scorer(
    a: FunctionImportance,
    b: FunctionImportance,
    f: FunctionView,
    patterns: Seq<Seq<char>>,
    x: Seq<i64>,
    y: Seq<i64>,
    i: int,
)
    requires
        is_importance_of(a, f, patterns, x),
        is_importance_of(b, f, patterns, y),
        0 <= i < f.nodes.len(),
    ensures
        a.nodes@[i] == b.nodes@[i],
        a.reasons@[i]@ == b.reasons@[i]@,
        a.nodes@[i].tier == Tier::Inert ==> a.scores@[i] == 0,
{
}

proof fn lemma_reads(g: Graph, f: FunctionView, i: int, j: int)
    requires
        is_graph_of(g, f),
        g.ok(),
        0 <= i < g.n,
        0 <= j < g.n,
    ensures
        (exists|k: int|
            0 <= k < g.defs_at@[i]@.len()
                && g.def_users@[#[trigger] g.defs_at@[i]@[k] as int]@.contains(j as usize))
            == reads_from(f, i, j),
        g.ctrl_deps@[j]@.contains(i as usize) == depends_on(f, j, i),
{
    let ds = all_defs(f);
    let made = Seq::new(ds.len(), |d: int| ds[d].node == i);
    assert(g.defs_at@[i]@ == made_at(f, i));
    assert(made_at(f, i) == members(made)) by {
        assert(made =~= Seq::new(all_defs(f).len(), |d: int| all_defs(f)[d].node == i));
    }
    assert(g.def_users.len() == ds.len());
    if exists|k: int|
        0 <= k < g.defs_at@[i]@.len() && g.def_users@[#[trigger] g.defs_at@[i]@[k] as int]@.contains(
            j as usize,
        ) {
        let k = choose|k: int|
            0 <= k < g.defs_at@[i]@.len()
                && g.def_users@[#[trigger] g.defs_at@[i]@[k] as int]@.contains(j as usize);
        let d = g.defs_at@[i]@[k];
        assert(members(made).contains(d));
        members_are_marked(made, d);
        let users = Seq::new(f.nodes.len(), |u: int| may_read(f, all_defs(f)[d as int], u));
        assert(g.def_users@[d as int]@ == readers(f, d as int));
        assert(members(users).contains(j as usize));
        members_are_marked(users, j as usize);
        assert(ds[d as int].node == i && may_read(f, ds[d as int], j));
    }
    if reads_from(f, i, j) {
        let d = choose|d: int|
            0 <= d < all_defs(f).len() && (#[trigger] all_defs(f)[d]).node == i && may_read(
                f,
                all_defs(f)[d],
                j,
            );
        members_are_marked(made, d as usize);
        assert(made[d]);
        assert(members(made).contains(d as usize));
        let k = choose|k: int| 0 <= k < members(made).len() && members(made)[k] == d as usize;
        assert(g.defs_at@[i]@[k] == d as usize);
        let users = Seq::new(f.nodes.len(), |u: int| may_read(f, all_defs(f)[d], u));
        assert(g.def_users@[d]@ == readers(f, d));
        members_are_marked(users, j as usize);
        assert(users[j]);
        assert(g.def_users@[g.defs_at@[i]@[k] as int]@.contains(j as usize));
    }
    let who = Seq::new(f.nodes.len(), |x: int| depends_on(f, j, x));
    assert(g.ctrl_deps@[j]@ == deciders(f, j));
    members_are_marked(who, i as usize);
}

/// Who may read the definitions of each node.
fn data_lists(g: &Graph, Ghost(f): Ghost<FunctionView>) -> (r: Vec<Vec<NodeId>>)
    requires
        is_graph_of(*g, f),
        g.ok(),
    ensures
        rows(r@) == data_rows(f),
        r.len() == g.n,
        edges_in_range(rows(r@)),
{
    let mut none: Vec<Vec<NodeId>> = Vec::new();
    let mut k: usize = 0;
    while k < g.n
        invariant
            k <= g.n,
            none.len() == k,
            forall|j: int| 0 <= j < k ==> (#[trigger] none@[j])@ == Seq::<usize>::empty(),
        decreases g.n - k,
    {
        none.push(Vec::new());
        k += 1;
    }
    let r = dependence_successors(g.n, &g.defs, &g.defs_at, &g.def_users, &none);
    proof {
        let n = f.nodes.len();
        assert forall|i: int| 0 <= i < n implies (#[trigger] rows(r@)[i]) == data_rows(f)[i] by {
            assert(rows(r@)[i] == r@[i]@);
            let m = dependents(g.n as nat, g.defs_at@, g.def_users@, none@, i);
            let w = Seq::new(n, |j: int| reads_from(f, i, j));
            assert forall|j: int| 0 <= j < n implies m[j] == w[j] by {
                lemma_reads(*g, f, i, j);
                assert(none@[j]@ == Seq::<usize>::empty());
            }
            assert(m =~= w);
        }
        assert(rows(r@) =~= data_rows(f));
    }
    r
}

/// What rests on each node.
fn dependence_lists(g: &Graph, Ghost(f): Ghost<FunctionView>) -> (r: Vec<Vec<NodeId>>)
    requires
        is_graph_of(*g, f),
        g.ok(),
    ensures
        rows(r@) == dependence_rows(f),
        r.len() == g.n,
        edges_in_range(rows(r@)),
{
    let r = dependence_successors(g.n, &g.defs, &g.defs_at, &g.def_users, &g.ctrl_deps);
    proof {
        let n = f.nodes.len();
        assert forall|i: int| 0 <= i < n implies (#[trigger] rows(r@)[i])
            == dependence_rows(f)[i] by {
            assert(rows(r@)[i] == r@[i]@);
            let m = dependents(g.n as nat, g.defs_at@, g.def_users@, g.ctrl_deps@, i);
            let w = Seq::new(n, |j: int| reads_from(f, i, j) || depends_on(f, j, i));
            assert forall|j: int| 0 <= j < n implies m[j] == w[j] by {
                lemma_reads(*g, f, i, j);
            }
            assert(m =~= w);
        }
        assert(rows(r@) =~= dependence_rows(f));
    }
    r
}

/// A mark on every node.
fn every(n: usize) -> (r: Vec<bool>)
    ensures
        r@ == all(n as nat),
{
    let mut out: Vec<bool> = Vec::new();
    let mut k: usize = 0;
    while k < n
        invariant
            k <= n,
            out.len() == k,
            forall|j: int| 0 <= j < k ==> #[trigger] out@[j],
        decreases n - k,
    {
        out.push(true);
        k += 1;
    }
    assert(out@ =~= all(n as nat));
    out
}

/// Marks the nodes that lead to a sink.
fn leading_to(edges: &Vec<Vec<NodeId>>, sinks: &Vec<bool>) -> (r: Vec<bool>)
    requires
        sinks.len() == edges.len(),
    ensures
        r.len() == edges.len(),
        forall|i: int|
            0 <= i < edges.len() ==> #[trigger] r@[i] == leads_to(rows(edges@), sinks@, i),
{
    let back = pred_lists(edges);
    let open = every(edges.len());
    search(&back, sinks, &open)
}

fn call_denied(node: &NodeKind, denylist: &Denylist) -> (r: bool)
    ensures
        r == (node@ matches KindView::Call { callee, opacity } && (opacity is Inert || denies(
            denylist@,
            callee,
        ))),
{
    match node {
        NodeKind::Call { callee, opacity } => *opacity == CallOpacity::Inert || denylist.matches(
            callee.as_str(),
        ),
        _ => false,
    }
}

/// Marks the denylisted calls.
fn mark_denied(ir: &FunctionIr, denylist: &Denylist) -> (r: Vec<bool>)
    ensures
        r@ == denied(ir@, denylist@),
{
    let ghost f = ir@;
    let mut out: Vec<bool> = Vec::new();
    let mut k: usize = 0;
    while k < ir.nodes.len()
        invariant
            k <= ir.nodes.len(),
            f == ir@,
            out.len() == k,
            forall|j: int| 0 <= j < k ==> #[trigger] out@[j] == is_denied(f, denylist@, j),
        decreases ir.nodes.len() - k,
    {
        assert(f.nodes[k as int] == ir.nodes@[k as int]@);
        out.push(call_denied(&ir.nodes[k].kind, denylist));
        k += 1;
    }
    assert(out@ =~= denied(f, denylist@));
    out
}

/// Marks the returns, throws and state writes.
fn mark_hard(ir: &FunctionIr) -> (r: Vec<bool>)
    ensures
        r@ == hard(ir@),
{
    let ghost f = ir@;
    let mut out: Vec<bool> = Vec::new();
    let mut k: usize = 0;
    while k < ir.nodes.len()
        invariant
            k <= ir.nodes.len(),
            f == ir@,
            out.len() == k,
            forall|j: int| 0 <= j < k ==> #[trigger] out@[j] == is_hard(f.nodes[j].kind),
        decreases ir.nodes.len() - k,
    {
        assert(f.nodes[k as int] == ir.nodes@[k as int]@);
        let is: bool = match &ir.nodes[k].kind {
            NodeKind::Return | NodeKind::Throw | NodeKind::StateWrite { .. } => true,
            _ => false,
        };
        out.push(is);
        k += 1;
    }
    assert(out@ =~= hard(f));
    out
}

/// Whether a node only takes up the results of denylisted calls.
fn only_takes_up(
    ir: &FunctionIr,
    data: &Vec<Vec<NodeId>>,
    denied_at: &Vec<bool>,
    i: usize,
    Ghost(patterns): Ghost<Seq<Seq<char>>>,
) -> (r: bool)
    requires
        i < ir.nodes.len(),
        rows(data@) == data_rows(ir@),
        denied_at@ == denied(ir@, patterns),
    ensures
        r == takes_up(ir@, patterns, i as int),
{
    let ghost f = ir@;
    let n: usize = ir.nodes.len();
    assert(f.nodes[i as int] == ir.nodes@[i as int]@);
    assert(data@.len() == rows(data@).len());
    let pure: bool = match &ir.nodes[i].kind {
        NodeKind::Pure => true,
        _ => false,
    };
    if !pure {
        return false;
    }
    let mut any: bool = false;
    let mut j: usize = 0;
    while j < n
        invariant
            j <= n,
            i < n,
            n == f.nodes.len(),
            n == ir.nodes.len(),
            f == ir@,
            f.nodes[i as int].kind is Pure,
            rows(data@) == data_rows(f),
            data@.len() == n,
            denied_at@ == denied(f, patterns),
            any == (exists|k: int| 0 <= k < j && #[trigger] reads_from(f, k, i as int)),
            forall|k: int|
                0 <= k < j && #[trigger] reads_from(f, k, i as int) ==> is_denied(f, patterns, k),
        decreases n - j,
    {
        let ghost w = Seq::new(f.nodes.len(), |x: int| reads_from(f, j as int, x));
        proof {
            assert(rows(data@)[j as int] == data@[j as int]@);
            assert(data_rows(f)[j as int] == members(w));
            members_are_marked(w, i);
        }
        if crate::ts::tree::has_index(data[j].as_slice(), i) {
            assert(reads_from(f, j as int, i as int));
            if !denied_at[j] {
                return false;
            }
            any = true;
        }
        j += 1;
    }
    any
}

/// Why each node is inert, if it is.
fn inert_reasons(
    ir: &FunctionIr,
    g: &Graph,
    denylist: &Denylist,
    data: &Vec<Vec<NodeId>>,
    dependence: &Vec<Vec<NodeId>>,
) -> (r: Vec<Option<Reason>>)
    requires
        is_graph_of(*g, ir@),
        g.ok(),
        rows(data@) == data_rows(ir@),
        rows(dependence@) == dependence_rows(ir@),
    ensures
        r.len() == ir.nodes.len(),
        forall|i: int|
            0 <= i < r.len() ==> #[trigger] r@[i] == inert_reason(ir@, denylist@, i),
{
    let ghost f = ir@;
    let ghost patterns = denylist@;
    let n: usize = ir.nodes.len();
    assert(data@.len() == rows(data@).len());
    assert(dependence@.len() == rows(dependence@).len());
    let denied_at = mark_denied(ir, denylist);
    let hard_at = mark_hard(ir);
    let reaching = leading_to(dependence, &hard_at);
    let feeding = leading_to(data, &denied_at);
    let mut out: Vec<Option<Reason>> = Vec::new();
    let mut i: usize = 0;
    while i < n
        invariant
            i <= n,
            n == ir.nodes.len(),
            n == f.nodes.len(),
            f == ir@,
            patterns == denylist@,
            rows(data@) == data_rows(f),
            denied_at@ == denied(f, patterns),
            reaching.len() == n,
            feeding.len() == n,
            forall|k: int| 0 <= k < n ==> #[trigger] reaching@[k] == reaches_hard(f, k),
            forall|k: int| 0 <= k < n ==> #[trigger] feeding@[k] == feeds_denied(f, patterns, k),
            out.len() == i,
            forall|k: int| 0 <= k < i ==> #[trigger] out@[k] == inert_reason(f, patterns, k),
        decreases n - i,
    {
        let r = if denied_at[i] {
            Some(Reason::Denylisted)
        } else if reaching[i] {
            None
        } else if feeding[i] {
            Some(Reason::FeedsDenylisted)
        } else if only_takes_up(ir, data, &denied_at, i, Ghost(patterns)) {
            Some(Reason::DiscardsDenylisted)
        } else {
            None
        };
        out.push(r);
        i += 1;
    }
    out
}

/// Marks the effects that count.
fn mark_effects(ir: &FunctionIr, inert_at: &Vec<Option<Reason>>, Ghost(patterns): Ghost<
    Seq<Seq<char>>,
>) -> (r: Vec<bool>)
    requires
        inert_at.len() == ir.nodes.len(),
        forall|i: int|
            0 <= i < inert_at.len() ==> #[trigger] inert_at@[i] == inert_reason(ir@, patterns, i),
    ensures
        r@ == effects(ir@, patterns),
{
    let ghost f = ir@;
    let mut out: Vec<bool> = Vec::new();
    let mut k: usize = 0;
    while k < ir.nodes.len()
        invariant
            k <= ir.nodes.len(),
            f == ir@,
            inert_at.len() == ir.nodes.len(),
            forall|i: int|
                0 <= i < inert_at.len() ==> #[trigger] inert_at@[i] == inert_reason(f, patterns, i),
            out.len() == k,
            forall|j: int|
                0 <= j < k ==> #[trigger] out@[j] == (f.nodes[j].kind.effect() && !inert(
                    f,
                    patterns,
                    j,
                )),
        decreases ir.nodes.len() - k,
    {
        assert(f.nodes[k as int] == ir.nodes@[k as int]@);
        assert(inert_at@[k as int] == inert_reason(f, patterns, k as int));
        out.push(ir.nodes[k].kind.is_effect() && inert_at[k].is_none());
        k += 1;
    }
    assert(out@ =~= effects(f, patterns));
    out
}

fn count_marked(m: &Vec<bool>) -> (r: usize)
    ensures
        r == marked(m@),
{
    let mut count: usize = 0;
    let mut k: usize = 0;
    assert(m@.take(0) =~= Seq::empty());
    while k < m.len()
        invariant
            k <= m.len(),
            count == marked(m@.take(k as int)),
            count <= k,
        decreases m.len() - k,
    {
        assert(m@.take(k + 1).drop_last() =~= m@.take(k as int));
        if m[k] {
            count += 1;
        }
        k += 1;
    }
    assert(m@.take(k as int) =~= m@);
    count
}

impl Graph {
    /// How many nodes a branch governs, of how many there are.
    pub fn control_weight(&self, i: NodeId) -> (r: (usize, usize))
        requires
            self.ok(),
            i < self.n,
        ensures
            r.0 == marked(governed_by(rows(self.ctrl_deps@), i as int)),
            r.1 == self.n,
    {
        let ghost deps = rows(self.ctrl_deps@);
        let n: usize = self.n;
        let forward = pred_lists(&self.ctrl_deps);
        let mut start: Vec<bool> = Vec::new();
        let mut k: usize = 0;
        while k < n
            invariant
                k <= n,
                n == self.ctrl_deps@.len(),
                deps == rows(self.ctrl_deps@),
                start.len() == k,
                forall|j: int| 0 <= j < k ==> #[trigger] start@[j] == deps[j].contains(i),
            decreases n - k,
        {
            assert(deps[k as int] == self.ctrl_deps@[k as int]@);
            start.push(crate::ts::tree::has_index(self.ctrl_deps[k].as_slice(), i));
            k += 1;
        }
        assert(start@ =~= Seq::new(deps.len(), |k: int| deps[k].contains(i)));
        let open = every(n);
        let mut marks = search(&forward, &start, &open);
        marks.set(i, false);
        assert(marks@ =~= governed_by(deps, i as int));
        (count_marked(&marks), n)
    }
}

/// Marks the nodes of a loop that do not define a variable.
fn mark_stays(ir: &FunctionIr, inside: &Vec<bool>, var: VarId, Ghost(h): Ghost<int>) -> (r: Vec<bool>)
    requires
        inside.len() == ir.nodes.len(),
        forall|i: int| 0 <= i < inside.len() ==> #[trigger] inside@[i] == in_loop(ir@, h, i),
    ensures
        r@ == stays(ir@, h, var),
{
    let ghost f = ir@;
    let mut out: Vec<bool> = Vec::new();
    let mut k: usize = 0;
    while k < ir.nodes.len()
        invariant
            k <= ir.nodes.len(),
            f == ir@,
            inside.len() == ir.nodes.len(),
            forall|i: int| 0 <= i < inside.len() ==> #[trigger] inside@[i] == in_loop(f, h, i),
            out.len() == k,
            forall|j: int|
                0 <= j < k ==> #[trigger] out@[j] == (in_loop(f, h, j) && !f.nodes[j].defs.contains(
                    var,
                )),
        decreases ir.nodes.len() - k,
    {
        assert(f.nodes[k as int] == ir.nodes@[k as int]@);
        assert(inside@[k as int] == in_loop(f, h, k as int));
        out.push(inside[k] && !has_var(&ir.nodes[k].defs, var));
        k += 1;
    }
    assert(out@ =~= stays(f, h, var));
    out
}

fn has_var(list: &Vec<VarId>, v: VarId) -> (r: bool)
    ensures
        r == list@.contains(v),
{
    let mut k: usize = 0;
    while k < list.len()
        invariant
            k <= list.len(),
            forall|j: int| 0 <= j < k ==> #[trigger] list@[j] != v,
        decreases list.len() - k,
    {
        if list[k] == v {
            return true;
        }
        k += 1;
    }
    false
}

/// Marks given indices.
fn mark_listed(n: usize, list: &Vec<usize>) -> (r: Vec<bool>)
    requires
        forall|k: int| 0 <= k < list@.len() ==> #[trigger] list@[k] < n,
    ensures
        r.len() == n,
        forall|i: int| 0 <= i < n ==> #[trigger] r@[i] == list@.contains(i as usize),
{
    let mut out: Vec<bool> = Vec::new();
    let mut k: usize = 0;
    while k < n
        invariant
            k <= n,
            out.len() == k,
            forall|j: int| 0 <= j < k ==> !(#[trigger] out@[j]),
        decreases n - k,
    {
        out.push(false);
        k += 1;
    }
    let mut k: usize = 0;
    while k < list.len()
        invariant
            k <= list.len(),
            out.len() == n,
            forall|k: int| 0 <= k < list@.len() ==> #[trigger] list@[k] < n,
            forall|i: int|
                0 <= i < n ==> #[trigger] out@[i] == list@.take(k as int).contains(i as usize),
        decreases list.len() - k,
    {
        assert(list@[k as int] < n);
        let ghost before = out@;
        out.set(list[k], true);
        proof {
            let a = list@.take(k as int);
            let b = list@.take(k + 1);
            assert(b =~= a.push(list@[k as int]));
            assert forall|i: int| 0 <= i < n implies #[trigger] out@[i] == b.contains(
                i as usize,
            ) by {
                assert(before[i] == a.contains(i as usize));
                if a.contains(i as usize) {
                    let j = choose|j: int| 0 <= j < a.len() && a[j] == i as usize;
                    assert(b[j] == i as usize);
                }
                if b.contains(i as usize) {
                    let j = choose|j: int| 0 <= j < b.len() && b[j] == i as usize;
                    if j < k {
                        assert(a[j] == i as usize);
                    }
                }
                assert(b[k as int] == list@[k as int]);
            }
        }
        k += 1;
    }
    assert(list@.take(k as int) =~= list@);
    out
}

/// Whether the loop at `h` carries a definition round to some node.
fn carries_definition(
    ir: &FunctionIr,
    succ: &Vec<Vec<usize>>,
    inside: &Vec<bool>,
    h: usize,
    d: Def,
) -> (r: bool)
    requires
        h < ir.nodes.len(),
        d.node < ir.nodes.len(),
        rows(succ@) == succs(ir@),
        edges_in_range(rows(succ@)),
        inside.len() == ir.nodes.len(),
        forall|i: int| 0 <= i < inside.len() ==> #[trigger] inside@[i] == in_loop(ir@, h as int, i),
    ensures
        r == (exists|u: int| 0 <= u < ir@.nodes.len() && #[trigger] carried_to(ir@, h as int, d, u)),
{
    let ghost f = ir@;
    let n: usize = ir.nodes.len();
    assert(succ@.len() == rows(succ@).len());
    assert(inside@[d.node as int] == in_loop(f, h as int, d.node as int));
    if !inside[d.node] {
        return false;
    }
    let open = mark_stays(ir, inside, d.var, Ghost(h as int));
    assert(f.nodes[d.node as int] == ir.nodes@[d.node as int]@);
    proof {
        assert forall|k: int| 0 <= k < ir.nodes@[d.node as int].succs@.len() implies #[trigger]
            ir.nodes@[d.node as int].succs@[k] < n by {
            let s = rows(succ@);
            assert(s[d.node as int] == f.nodes[d.node as int].succs);
            assert(s[d.node as int][k] < s.len());
        }
    }
    let start = mark_listed(n, &ir.nodes[d.node].succs);
    assert(start@ =~= after(f, d.node as int));
    let round = search(succ, &start, &open);
    if !round[h] {
        return false;
    }
    let here: Vec<usize> = vec![h];
    assert(here@ =~= seq![h]);
    let from = mark_listed(n, &here);
    assert(from@ =~= only(n as nat, h as int));
    let reach = search(succ, &from, &open);
    let mut u: usize = 0;
    while u < n
        invariant
            u <= n,
            n == ir.nodes.len(),
            f == ir@,
            n == f.nodes.len(),
            reach.len() == n,
            inside.len() == n,
            in_loop(f, h as int, d.node as int),
            (Quest {
                succ: succs(f),
                start: after(f, d.node as int),
                open: stays(f, h as int, d.var),
            }).reaches(h as int),
            forall|i: int| 0 <= i < n ==> #[trigger] inside@[i] == in_loop(f, h as int, i),
            forall|i: int|
                0 <= i < n ==> #[trigger] reach@[i] == (Quest {
                    succ: succs(f),
                    start: only(n as nat, h as int),
                    open: stays(f, h as int, d.var),
                }).reaches(i),
            forall|j: int| 0 <= j < u ==> !(#[trigger] carried_to(f, h as int, d, j)),
        decreases n - u,
    {
        assert(f.nodes[u as int] == ir.nodes@[u as int]@);
        assert(inside@[u as int] == in_loop(f, h as int, u as int));
        assert(reach@[u as int] == (Quest {
            succ: succs(f),
            start: only(n as nat, h as int),
            open: stays(f, h as int, d.var),
        }).reaches(u as int));
        if inside[u] && reach[u] && has_var(&ir.nodes[u].uses, d.var) {
            assert(carried_to(f, h as int, d, u as int));
            return true;
        }
        u += 1;
    }
    false
}

proof fn lemma_loop(f: FunctionView, k: int, j: int)
    requires
        f.nodes.len() <= usize::MAX,
        0 <= k <= f.nodes.len(),
        0 <= j < loops_before(f, k).len(),
    ensures
        loops_before(f, k)[j].header < k,
        loops_before(f, k)[j].body == members(
            Seq::new(
                f.nodes.len(),
                |u: int| in_loop(f, loops_before(f, k)[j].header as int, u),
            ),
        ),
    decreases k,
{
    let rest = loops_before(f, k - 1);
    if j < rest.len() {
        lemma_loop(f, k - 1, j);
        assert(loops_before(f, k)[j] == rest[j]);
    } else {
        let h = loops_before(f, k)[j].header as int;
        assert(h == k - 1);
    }
}

/// Marks the nodes whose definitions some loop carries round.
fn mark_carried(ir: &FunctionIr, g: &Graph) -> (r: Vec<bool>)
    requires
        ir@.valid(),
        is_graph_of(*g, ir@),
        g.ok(),
    ensures
        r.len() == ir.nodes.len(),
        forall|i: int| 0 <= i < r.len() ==> #[trigger] r@[i] == loop_carried(ir@, i),
{
    let ghost f = ir@;
    let n: usize = ir.nodes.len();
    let ghost loops = loops_before(f, n as int);
    let succ = succ_lists(ir);
    proof {
        let s = rows(succ@);
        assert(s.len() == n);
        assert forall|a: int, k: int| 0 <= a < s.len() && 0 <= k < s[a].len() implies #[trigger]
            s[a][k] < s.len() by {
            assert(s[a] == f.nodes[a].succs);
            assert(f.nodes[a].succs[k] < f.nodes.len());
        }
    }
    let nothing: Vec<usize> = Vec::new();
    let mut out = mark_listed(n, &nothing);
    assert(g.loops@.len() == loops.len()) by {
        assert(g.loops@.map_values(|l: Loop| l@).len() == g.loops@.len());
    }
    assert forall|i: int| 0 <= i < n implies #[trigger] out@[i] == carried_by(f, loops, i, 0) by {}
    let mut k: usize = 0;
    while k < g.loops.len()
        invariant
            k <= g.loops.len(),
            f == ir@,
            n == ir.nodes.len(),
            n == f.nodes.len(),
            n == g.n,
            is_graph_of(*g, f),
            g.ok(),
            loops == loops_before(f, n as int),
            g.loops@.len() == loops.len(),
            rows(succ@) == succs(f),
            edges_in_range(rows(succ@)),
            out.len() == n,
            forall|i: int|
                0 <= i < n ==> #[trigger] out@[i] == carried_by(f, loops, i, k as int),
        decreases g.loops.len() - k,
    {
        let l = &g.loops[k];
        let h: usize = l.header;
        proof {
            assert(loops[k as int] == l@) by {
                assert(g.loops@.map_values(|l: Loop| l@)[k as int] == l@);
            }
            lemma_loop(f, n as int, k as int);
            let m = Seq::new(f.nodes.len(), |u: int| in_loop(f, h as int, u));
            assert forall|j: int| 0 <= j < l.body@.len() implies #[trigger] l.body@[j] < n by {
                assert(l.body@.contains(l.body@[j]));
                members_are_marked(m, l.body@[j]);
            }
        }
        let inside = mark_listed(n, &l.body);
        proof {
            let m = Seq::new(f.nodes.len(), |u: int| in_loop(f, h as int, u));
            assert forall|i: int| 0 <= i < inside.len() implies #[trigger] inside@[i] == in_loop(
                f,
                h as int,
                i,
            ) by {
                members_are_marked(m, i as usize);
            }
        }
        let ghost before = out@;
        let mut d: usize = 0;
        assert(forall|i: int|
            0 <= i < n ==> #[trigger] out@[i] == (before[i] || carries_within(f, h as int, i, 0)));
        while d < g.defs.len()
            invariant
                d <= g.defs.len(),
                f == ir@,
                n == ir.nodes.len(),
                n == f.nodes.len(),
                n == g.n,
                h < n,
                g.defs@ == all_defs(f),
                g.ok(),
                rows(succ@) == succs(f),
                edges_in_range(rows(succ@)),
                inside.len() == n,
                forall|i: int|
                    0 <= i < inside.len() ==> #[trigger] inside@[i] == in_loop(f, h as int, i),
                out.len() == n,
                before.len() == n,
                forall|i: int|
                    0 <= i < n ==> #[trigger] out@[i] == (before[i] || carries_within(
                        f,
                        h as int,
                        i,
                        d as int,
                    )),
            decreases g.defs.len() - d,
        {
            let def: Def = g.defs[d];
            assert(g.defs@[d as int].node < g.n);
            let carried: bool = carries_definition(ir, &succ, &inside, h, def);
            let ghost mid = out@;
            if carried {
                out.set(def.node, true);
            }
            proof {
                assert forall|i: int|
                    0 <= i < n implies #[trigger] out@[i] == (before[i] || carries_within(
                    f,
                    h as int,
                    i,
                    d + 1,
                )) by {
                    assert(mid[i] == (before[i] || carries_within(f, h as int, i, d as int)));
                    lemma_carries_step(f, h as int, i, d as int);
                    assert(all_defs(f)[d as int] == def);
                }
            }
            d += 1;
        }
        proof {
            assert forall|i: int| 0 <= i < n implies #[trigger] out@[i] == carried_by(
                f,
                loops,
                i,
                k + 1,
            ) by {
                assert(before[i] == carried_by(f, loops, i, k as int));
                assert(carries_within(f, h as int, i, all_defs(f).len() as int) == carries(
                    f,
                    h as int,
                    i,
                )) by {
                    lemma_carries_all(f, h as int, i);
                }
                assert(loops[k as int].header == h);
                if carried_by(f, loops, i, k + 1) {
                    let j = choose|j: int|
                        0 <= j < k + 1 && carries(f, (#[trigger] loops[j]).header as int, i);
                    if j < k {
                        assert(carries(f, loops[j].header as int, i));
                        assert(carried_by(f, loops, i, k as int));
                    }
                }
                if carried_by(f, loops, i, k as int) {
                    let j = choose|j: int|
                        0 <= j < k && carries(f, (#[trigger] loops[j]).header as int, i);
                    assert(carries(f, loops[j].header as int, i));
                }
            }
        }
        k += 1;
    }
    out
}

/// Whether the loop at `h` carries one of the first `k` definitions round,
/// made at `i`.
spec fn carries_within(f: FunctionView, h: int, i: int, k: int) -> bool {
    exists|d: int, u: int|
        0 <= d < k && 0 <= u < f.nodes.len() && (#[trigger] all_defs(f)[d]).node == i && #[trigger]
            carried_to(f, h, all_defs(f)[d], u)
}

proof fn lemma_carries_all(f: FunctionView, h: int, i: int)
    ensures
        carries_within(f, h, i, all_defs(f).len() as int) == carries(f, h, i),
{
}

proof fn lemma_carries_step(f: FunctionView, h: int, i: int, k: int)
    requires
        0 <= k < all_defs(f).len(),
    ensures
        carries_within(f, h, i, k + 1) == (carries_within(f, h, i, k) || (all_defs(f)[k].node == i
            && exists|u: int|
            0 <= u < f.nodes.len() && #[trigger] carried_to(f, h, all_defs(f)[k], u))),
{
    if carries_within(f, h, i, k + 1) {
        let (d, u) = choose|d: int, u: int|
            0 <= d < k + 1 && 0 <= u < f.nodes.len() && (#[trigger] all_defs(f)[d]).node == i
                && #[trigger] carried_to(f, h, all_defs(f)[d], u);
        if d < k {
            assert(carries_within(f, h, i, k));
        }
    }
}

/// How many loops a node lies in.
fn count_loops(g: &Graph, i: usize, Ghost(f): Ghost<FunctionView>) -> (r: usize)
    requires
        is_graph_of(*g, f),
    ensures
        r == loop_depth(f, i as int),
{
    let ghost loops = loops_before(f, f.nodes.len() as int);
    assert(g.loops@.len() == loops.len()) by {
        assert(g.loops@.map_values(|l: Loop| l@).len() == g.loops@.len());
    }
    let mut count: usize = 0;
    let mut k: usize = 0;
    while k < g.loops.len()
        invariant
            k <= g.loops.len(),
            is_graph_of(*g, f),
            loops == loops_before(f, f.nodes.len() as int),
            g.loops@.len() == loops.len(),
            count == depth_before(loops, i, k as int),
            count <= k,
        decreases g.loops.len() - k,
    {
        assert(g.loops@.map_values(|l: Loop| l@)[k as int] == g.loops@[k as int]@);
        if crate::ts::tree::has_index(g.loops[k].body.as_slice(), i) {
            count += 1;
        }
        k += 1;
    }
    count
}

/// Classifies every node of a function. `scores` is what a scorer gives each
/// node; an inert node scores nothing under any.
pub fn analyze(ir: &FunctionIr, denylist: &Denylist, scores: &Vec<i64>) -> (r: FunctionImportance)
    requires
        ir@.valid(),
        scores@.len() == ir@.nodes.len(),
    ensures
        is_importance_of(r, ir@, denylist@, scores@),
{
    let ghost f = ir@;
    let ghost patterns = denylist@;
    let n: usize = ir.nodes.len();
    let g = Graph::build(ir);
    let data = data_lists(&g, Ghost(f));
    let dependence = dependence_lists(&g, Ghost(f));
    let inert_at = inert_reasons(ir, &g, denylist, &data, &dependence);
    let effects_at = mark_effects(ir, &inert_at, Ghost(patterns));
    let reaching = leading_to(&dependence, &effects_at);
    let carried = mark_carried(ir, &g);
    assert(rows(g.ctrl_deps@) =~= decider_rows(f)) by {
        assert forall|y: int| 0 <= y < n implies (#[trigger] rows(g.ctrl_deps@)[y])
            == decider_rows(f)[y] by {
            assert(rows(g.ctrl_deps@)[y] == g.ctrl_deps@[y]@);
        }
    }
    let mut nodes: Vec<NodeImportance> = Vec::new();
    let mut kept: Vec<i64> = Vec::new();
    let mut reasons: Vec<Vec<Reason>> = Vec::new();
    let mut i: usize = 0;
    while i < n
        invariant
            i <= n,
            n == ir.nodes.len(),
            n == f.nodes.len(),
            n == g.n,
            f == ir@,
            patterns == denylist@,
            is_graph_of(g, f),
            g.ok(),
            scores@.len() == n,
            rows(g.ctrl_deps@) == decider_rows(f),
            inert_at.len() == n,
            reaching.len() == n,
            carried.len() == n,
            forall|k: int| 0 <= k < n ==> #[trigger] inert_at@[k] == inert_reason(f, patterns, k),
            forall|k: int| 0 <= k < n ==> #[trigger] reaching@[k] == reaches_effect(f, patterns, k),
            forall|k: int| 0 <= k < n ==> #[trigger] carried@[k] == loop_carried(f, k),
            nodes.len() == i,
            kept.len() == i,
            reasons.len() == i,
            forall|k: int|
                0 <= k < i ==> #[trigger] nodes@[k] == (NodeImportance {
                    node: k as usize,
                    tier: tier_of(f, patterns, k),
                }),
            forall|k: int|
                0 <= k < i ==> #[trigger] kept@[k] == (if inert(f, patterns, k) {
                    0
                } else {
                    scores@[k]
                }),
            forall|k: int| 0 <= k < i ==> (#[trigger] reasons@[k])@ == reasons_of(f, patterns, k),
        decreases n - i,
    {
        assert(f.nodes[i as int] == ir.nodes@[i as int]@);
        assert(inert_at@[i as int] == inert_reason(f, patterns, i as int));
        assert(reaching@[i as int] == reaches_effect(f, patterns, i as int));
        assert(carried@[i as int] == loop_carried(f, i as int));
        let mut why: Vec<Reason> = Vec::new();
        let mut score: i64 = scores[i];
        let tier = match inert_at[i] {
            Some(r) => {
                why.push(r);
                score = 0;
                Tier::Inert
            },
            None => if ir.nodes[i].kind.is_effect() {
                why.push(Reason::Effect);
                Tier::Boundary
            } else {
                let branch: bool = match &ir.nodes[i].kind {
                    NodeKind::Branch => true,
                    _ => false,
                };
                if branch {
                    let (governs, _) = g.control_weight(i);
                    if governs > 0 {
                        why.push(Reason::Governs { nodes: governs });
                    }
                }
                if carried[i] {
                    why.push(Reason::LoopCarried { depth: count_loops(&g, i, Ghost(f)) });
                }
                if reaching[i] {
                    why.push(Reason::ReachesEffect);
                }
                if why.len() > 0 {
                    Tier::Core
                } else {
                    why.push(Reason::ReachesNothing);
                    Tier::Plumbing
                }
            },
        };
        assert(why@ =~= reasons_of(f, patterns, i as int));
        nodes.push(NodeImportance { node: i, tier });
        kept.push(score);
        reasons.push(why);
        i += 1;
    }
    FunctionImportance { graph: g, nodes, scores: kept, reasons }
}

} // verus!
