//! What the tiers promise, said of the nodes and edges of a function alone.

use vstd::prelude::*;

use crate::denylist::denies;
use crate::graph::{
    after, all, all_but, all_defs, back_edge, back_edges, defs_before, depends_on, dominates,
    exits, in_loop, loops_before, may_read, members, members_are_marked, not_defining, only,
    post_dominates, preds, predecessors_have_the_edge, succs, Def,
};
use crate::importance::Tier;
use crate::ir::{CallOpacity, FunctionView, KindView, VarId};
use crate::search::{has_edge, Quest};
use crate::tiering::{
    carried_to, carries, data_rows, decider_rows, denied, dependence_rows, feeds_denied, governed,
    hard, hard_effects_are_boundary, inert, is_denied, marked, reaches_hard, reads_from,
    reasons_of, stays, takes_up, tier_of, what_a_hard_effect_rests_on_carries_behavior,
};

verus! {

/// A return, a throw and a write of state are boundary, whatever the denylist
/// says and whatever rests on what.
pub proof fn returns_throws_and_writes_are_boundary(
    f: FunctionView,
    patterns: Seq<Seq<char>>,
    i: int,
)
    requires
        0 <= i < f.nodes.len(),
        f.nodes[i].kind is Return || f.nodes[i].kind is Throw || f.nodes[i].kind is StateWrite,
    ensures
        tier_of(f, patterns, i) == Tier::Boundary,
{
    hard_effects_are_boundary(f, patterns, i);
}

/// A call of something that a pattern denies, or that a frontend knows to be
/// inert, is inert.
pub proof fn denied_calls_are_inert(
    f: FunctionView,
    patterns: Seq<Seq<char>>,
    i: int,
    callee: Seq<char>,
    opacity: CallOpacity,
)
    requires
        0 <= i < f.nodes.len(),
        f.nodes[i].kind == (KindView::Call { callee, opacity }),
        opacity is Inert || denies(patterns, callee),
    ensures
        tier_of(f, patterns, i) == Tier::Inert,
{
}

/// Where a function makes no call that is denied, every call into something
/// opaque is boundary, and nothing in the function is inert.
pub proof fn calls_that_nothing_denies_are_boundary(
    f: FunctionView,
    patterns: Seq<Seq<char>>,
    i: int,
)
    requires
        0 <= i < f.nodes.len(),
        forall|k: int|
            0 <= k < f.nodes.len() ==> !((#[trigger] f.nodes[k]).kind matches KindView::Call {
                callee,
                opacity,
            } && (opacity is Inert || denies(patterns, callee))),
    ensures
        tier_of(f, patterns, i) != Tier::Inert,
        f.nodes[i].kind is Call ==> tier_of(f, patterns, i) == Tier::Boundary,
{
    assert forall|k: int| 0 <= k < f.nodes.len() implies !is_denied(f, patterns, k) by {
        assert(!(f.nodes[k].kind matches KindView::Call { callee, opacity } && (opacity is Inert
            || denies(patterns, callee))));
    }
    if feeds_denied(f, patterns, i) {
        let q = Quest {
            succ: preds(data_rows(f)),
            start: denied(f, patterns),
            open: all(data_rows(f).len()),
        };
        let p = choose|p: Seq<int>| #[trigger] q.walk(p) && p.last() == i;
        assert(0 <= p[0] < q.succ.len());
        assert(!is_denied(f, patterns, p[0]));
    }
    assert(!is_denied(f, patterns, i));
}

/// Nothing but an effect is boundary: what only computes or branches is not.
pub proof fn only_effects_are_boundary(f: FunctionView, patterns: Seq<Seq<char>>, i: int)
    requires
        0 <= i < f.nodes.len(),
        f.nodes[i].kind is Pure || f.nodes[i].kind is Branch,
    ensures
        tier_of(f, patterns, i) != Tier::Boundary,
{
}

/// Whether a value that `i` gives a variable can come along a way to `j`, which
/// reads it: no node in between gives the variable another.
pub open spec fn value_comes_to(
    f: FunctionView,
    i: int,
    j: int,
    var: VarId,
    way: Seq<int>,
) -> bool {
    &&& way.len() >= 2
    &&& way[0] == i
    &&& way.last() == j
    &&& forall|k: int| 0 <= k < way.len() ==> 0 <= #[trigger] way[k] < f.nodes.len()
    &&& forall|k: int|
        0 <= k < way.len() - 1 ==> f.nodes[#[trigger] way[k]].succs.contains(way[k + 1] as usize)
    &&& forall|k: int|
        0 < k < way.len() - 1 ==> !f.nodes[#[trigger] way[k]].defs.contains(var)
    &&& f.nodes[i].defs.contains(var)
    &&& f.nodes[j].uses.contains(var)
}

proof fn lemma_def_listed(f: FunctionView, k: int, i: int, var: VarId)
    requires
        0 <= i < k <= f.nodes.len(),
        f.nodes[i].defs.contains(var),
    ensures
        defs_before(f, k).contains(Def { node: i as usize, var }),
    decreases k,
{
    let d = Def { node: i as usize, var };
    let rest = defs_before(f, k - 1);
    let here = f.nodes[k - 1].defs.map_values(|v: VarId| Def { node: (k - 1) as usize, var: v });
    if i < k - 1 {
        lemma_def_listed(f, k - 1, i, var);
        let x = choose|x: int| 0 <= x < rest.len() && rest[x] == d;
        assert((rest + here)[x] == d);
    } else {
        let x = choose|x: int| 0 <= x < f.nodes[i].defs.len() && f.nodes[i].defs[x] == var;
        assert(here[x] == d);
        assert((rest + here)[rest.len() + x] == d);
    }
}

proof fn lemma_value_read(f: FunctionView, i: int, j: int, var: VarId, way: Seq<int>)
    requires
        f.nodes.len() <= usize::MAX,
        value_comes_to(f, i, j, var, way),
    ensures
        reads_from(f, i, j),
{
    assert(0 <= way[0] < f.nodes.len());
    assert(0 <= way[way.len() - 1] < f.nodes.len());
    lemma_def_listed(f, f.nodes.len() as int, i, var);
    let d = Def { node: i as usize, var };
    let x = choose|x: int| 0 <= x < all_defs(f).len() && all_defs(f)[x] == d;
    let q = Quest { succ: succs(f), start: after(f, i), open: not_defining(f, var) };
    let p = way.skip(1);
    assert forall|k: int| 0 <= k < p.len() implies 0 <= #[trigger] p[k] < q.succ.len() by {
        assert(p[k] == way[k + 1]);
    }
    assert(p[0] == way[1]);
    let zero: int = 0;
    assert(f.nodes[way[zero]].succs.contains(way[zero + 1] as usize));
    assert(q.start[p[0]]);
    assert forall|k: int| 0 <= k < p.len() - 1 implies q.open[#[trigger] p[k]] && has_edge(
        q.succ,
        p[k],
        p[k + 1],
    ) by {
        assert(p[k] == way[k + 1] && p[k + 1] == way[k + 2]);
        assert(f.nodes[way[k + 1]].succs.contains(way[k + 1 + 1] as usize));
        assert(0 <= way[k + 1] < f.nodes.len() && 0 <= way[k + 2] < f.nodes.len());
        assert(q.succ[p[k]] == f.nodes[p[k]].succs);
    }
    assert(q.walk(p));
    assert(p.last() == j);
    assert(may_read(f, all_defs(f)[x], j));
}

/// A step back along a row of a table of edges.
proof fn lemma_row_leads(rows: Seq<Seq<usize>>, marks: Seq<bool>, sinks: Seq<bool>, i: int, j: int)
    requires
        rows.len() <= usize::MAX,
        0 <= i < rows.len(),
        0 <= j < rows.len(),
        rows[i] == members(marks),
        marks.len() == rows.len(),
        marks[j],
        sinks[j],
    ensures
        crate::tiering::leads_to(rows, sinks, i),
{
    members_are_marked(marks, j as usize);
    let q = Quest { succ: preds(rows), start: sinks, open: all(rows.len()) };
    let p = seq![j, i];
    predecessors_have_the_edge(rows, j, rows.len() as int, i as usize);
    assert(has_edge(q.succ, j, i));
    assert(q.walk(p));
    assert(p.last() == i);
}

/// What a return, a throw or a write of state reads is behavior: a node whose
/// value comes to one is core, unless it is an effect or denied itself.
pub proof fn what_a_return_reads_is_core(
    f: FunctionView,
    patterns: Seq<Seq<char>>,
    i: int,
    j: int,
    var: VarId,
    way: Seq<int>,
)
    requires
        f.nodes.len() <= usize::MAX,
        value_comes_to(f, i, j, var, way),
        f.nodes[j].kind is Return || f.nodes[j].kind is Throw || f.nodes[j].kind is StateWrite,
        f.nodes[i].kind is Pure || f.nodes[i].kind is Branch,
    ensures
        tier_of(f, patterns, i) == Tier::Core,
{
    assert(0 <= way[0] < f.nodes.len());
    assert(0 <= way[way.len() - 1] < f.nodes.len());
    lemma_value_read(f, i, j, var, way);
    let n = f.nodes.len();
    let marks = Seq::new(n, |x: int| reads_from(f, i, x) || depends_on(f, x, i));
    assert(dependence_rows(f)[i] == members(marks));
    lemma_row_leads(dependence_rows(f), marks, hard(f), i, j);
    assert(reaches_hard(f, i));
    what_a_hard_effect_rests_on_carries_behavior(f, patterns, i);
}

/// What only a denied call reads is inert: where a function returns, throws and
/// writes nothing, a node whose value comes to a denied call is inert.
pub proof fn what_only_a_denied_call_reads_is_inert(
    f: FunctionView,
    patterns: Seq<Seq<char>>,
    i: int,
    j: int,
    var: VarId,
    way: Seq<int>,
    callee: Seq<char>,
    opacity: CallOpacity,
)
    requires
        f.nodes.len() <= usize::MAX,
        value_comes_to(f, i, j, var, way),
        f.nodes[j].kind == (KindView::Call { callee, opacity }),
        opacity is Inert || denies(patterns, callee),
        forall|k: int|
            0 <= k < f.nodes.len() ==> !((#[trigger] f.nodes[k]).kind is Return)
                && !(f.nodes[k].kind is Throw) && !(f.nodes[k].kind is StateWrite),
    ensures
        tier_of(f, patterns, i) == Tier::Inert,
{
    assert(0 <= way[0] < f.nodes.len());
    assert(0 <= way[way.len() - 1] < f.nodes.len());
    lemma_value_read(f, i, j, var, way);
    let n = f.nodes.len();
    let marks = Seq::new(n, |x: int| reads_from(f, i, x));
    assert(data_rows(f)[i] == members(marks));
    assert(is_denied(f, patterns, j));
    lemma_row_leads(data_rows(f), marks, denied(f, patterns), i, j);
    assert(feeds_denied(f, patterns, i));
    lemma_nothing_hard(f, i);
}

/// Where nothing returns, throws or writes, nothing rests on such a node.
proof fn lemma_nothing_hard(f: FunctionView, i: int)
    requires
        forall|k: int|
            0 <= k < f.nodes.len() ==> !((#[trigger] f.nodes[k]).kind is Return)
                && !(f.nodes[k].kind is Throw) && !(f.nodes[k].kind is StateWrite),
    ensures
        !reaches_hard(f, i),
{
    if reaches_hard(f, i) {
        let q = Quest {
            succ: preds(dependence_rows(f)),
            start: hard(f),
            open: all(dependence_rows(f).len()),
        };
        let p = choose|p: Seq<int>| #[trigger] q.walk(p) && p.last() == i;
        assert(0 <= p[0] < q.succ.len());
        assert(!(f.nodes[p[0]].kind is Return));
    }
}

proof fn lemma_listed_def(f: FunctionView, k: int, d: int)
    requires
        0 <= k <= f.nodes.len() <= usize::MAX,
        0 <= d < defs_before(f, k).len(),
    ensures
        defs_before(f, k)[d].node < k,
        f.nodes[defs_before(f, k)[d].node as int].defs.contains(defs_before(f, k)[d].var),
    decreases k,
{
    let rest = defs_before(f, k - 1);
    if d < rest.len() {
        lemma_listed_def(f, k - 1, d);
    } else {
        let x = d - rest.len();
        assert(f.nodes[k - 1].defs[x] == defs_before(f, k)[d].var);
    }
}

/// A node that does nothing but take up the result of a denied call is inert,
/// where nothing returns, throws or writes: all that it reads comes from calls of
/// that sort.
pub proof fn what_discards_a_denied_result_is_inert(
    f: FunctionView,
    patterns: Seq<Seq<char>>,
    i: int,
    j: int,
    var: VarId,
    way: Seq<int>,
)
    requires
        f.nodes.len() <= usize::MAX,
        value_comes_to(f, i, j, var, way),
        f.nodes[j].kind is Pure,
        forall|k: int, v: VarId|
            0 <= k < f.nodes.len() && #[trigger] f.nodes[k].defs.contains(v)
                && f.nodes[j].uses.contains(v) ==> (f.nodes[k].kind matches KindView::Call {
                callee,
                opacity,
            } && (opacity is Inert || denies(patterns, callee))),
        forall|k: int|
            0 <= k < f.nodes.len() ==> !((#[trigger] f.nodes[k]).kind is Return)
                && !(f.nodes[k].kind is Throw) && !(f.nodes[k].kind is StateWrite),
    ensures
        tier_of(f, patterns, j) == Tier::Inert,
{
    assert(0 <= way[0] < f.nodes.len());
    assert(0 <= way[way.len() - 1] < f.nodes.len());
    lemma_value_read(f, i, j, var, way);
    assert forall|k: int| 0 <= k < f.nodes.len() && #[trigger] reads_from(f, k, j) implies is_denied(
        f,
        patterns,
        k,
    ) by {
        let d = choose|d: int|
            0 <= d < all_defs(f).len() && (#[trigger] all_defs(f)[d]).node == k && may_read(
                f,
                all_defs(f)[d],
                j,
            );
        lemma_listed_def(f, f.nodes.len() as int, d);
        let v = all_defs(f)[d].var;
        assert(f.nodes[k].defs.contains(v));
        assert(f.nodes[j].uses.contains(v));
    }
    assert(takes_up(f, patterns, j));
    lemma_nothing_hard(f, j);
}

/// A branch decides over a node where control ends, when another way ends
/// somewhere else.
proof fn lemma_decides(f: FunctionView, x: int, a: int, b: int)
    requires
        f.nodes.len() <= usize::MAX,
        0 <= x < f.nodes.len(),
        0 <= a < f.nodes.len(),
        0 <= b < f.nodes.len(),
        a != b,
        x != a,
        f.nodes[x].succs.contains(a as usize),
        f.nodes[x].succs.contains(b as usize),
        f.nodes[a].succs.len() == 0,
        f.nodes[b].succs.len() == 0,
    ensures
        depends_on(f, a, x),
{
    let n = f.nodes.len();
    let back = preds(succs(f));
    let every = Quest { succ: back, start: exits(f), open: all(n) };
    let without = Quest { succ: back, start: exits(f), open: all_but(n, a) };
    // The way through `a` ends there.
    assert(every.walk(seq![a]));
    assert(seq![a].last() == a);
    assert(post_dominates(f, a, a));
    assert(succs(f)[x] == f.nodes[x].succs);
    assert(has_edge(succs(f), x, a));
    // The way through `b` does not pass `a`.
    predecessors_have_the_edge(succs(f), b, n as int, x as usize);
    let p = seq![b, x];
    assert(has_edge(back, b, x));
    assert(without.walk(p));
    assert(p.last() == x);
    assert(without.reaches(x));
    assert(!post_dominates(f, a, x));
}

/// A branch that decides whether a function returns, throws or writes is core:
/// one way leads straight to such a node, where control ends, and another ends
/// somewhere else.
pub proof fn a_branch_over_a_return_is_core(
    f: FunctionView,
    patterns: Seq<Seq<char>>,
    x: int,
    a: int,
    b: int,
)
    requires
        f.nodes.len() <= usize::MAX,
        0 <= x < f.nodes.len(),
        0 <= a < f.nodes.len(),
        0 <= b < f.nodes.len(),
        a != b,
        x != a,
        f.nodes[x].kind is Branch,
        f.nodes[x].succs.contains(a as usize),
        f.nodes[x].succs.contains(b as usize),
        f.nodes[a].kind is Return || f.nodes[a].kind is Throw || f.nodes[a].kind is StateWrite,
        f.nodes[a].succs.len() == 0,
        f.nodes[b].succs.len() == 0,
    ensures
        tier_of(f, patterns, x) == Tier::Core,
{
    let n = f.nodes.len();
    lemma_decides(f, x, a, b);
    let marks = Seq::new(n, |y: int| reads_from(f, x, y) || depends_on(f, y, x));
    assert(dependence_rows(f)[x] == members(marks));
    lemma_row_leads(dependence_rows(f), marks, hard(f), x, a);
    assert(reaches_hard(f, x));
    what_a_hard_effect_rests_on_carries_behavior(f, patterns, x);
}

proof fn lemma_marked(m: Seq<bool>, i: int)
    requires
        0 <= i < m.len(),
        m[i],
    ensures
        marked(m) > 0,
    decreases m.len(),
{
    if i < m.len() - 1 {
        assert(m.drop_last()[i]);
        lemma_marked(m.drop_last(), i);
    }
}

/// A branch that decides over anything at all is core, unless it is inert.
pub proof fn a_branch_that_decides_is_core(
    f: FunctionView,
    patterns: Seq<Seq<char>>,
    x: int,
    a: int,
    b: int,
)
    requires
        f.nodes.len() <= usize::MAX,
        0 <= x < f.nodes.len(),
        0 <= a < f.nodes.len(),
        0 <= b < f.nodes.len(),
        a != b,
        x != a,
        f.nodes[x].kind is Branch,
        f.nodes[x].succs.contains(a as usize),
        f.nodes[x].succs.contains(b as usize),
        f.nodes[a].succs.len() == 0,
        f.nodes[b].succs.len() == 0,
        tier_of(f, patterns, x) != Tier::Inert,
    ensures
        tier_of(f, patterns, x) == Tier::Core,
{
    let n = f.nodes.len();
    lemma_decides(f, x, a, b);
    let marks = Seq::new(n, |y: int| depends_on(f, a, y));
    members_are_marked(marks, x as usize);
    let rows = decider_rows(f);
    assert(rows[a] == members(marks));
    let q = Quest {
        succ: preds(rows),
        start: Seq::new(n, |k: int| rows[k].contains(x as usize)),
        open: all(n),
    };
    assert(q.walk(seq![a]));
    assert(seq![a].last() == a);
    assert(q.reaches(a));
    assert(governed(f, x)[a]);
    lemma_marked(governed(f, x), a);
}

proof fn lemma_loop_listed(f: FunctionView, k: int, h: int) -> (j: int)
    requires
        f.nodes.len() <= usize::MAX,
        0 <= h < k <= f.nodes.len(),
        members(back_edges(f, h)).len() > 0,
    ensures
        0 <= j < loops_before(f, k).len(),
        loops_before(f, k)[j].header == h,
    decreases k,
{
    if h == k - 1 {
        loops_before(f, k - 1).len() as int
    } else {
        lemma_loop_listed(f, k - 1, h)
    }
}

/// A value that a loop computes from its own last value is core, unless it is
/// inert or an effect: the node reads what it defined one round before.
pub proof fn what_a_loop_carries_round_is_core(
    f: FunctionView,
    patterns: Seq<Seq<char>>,
    h: int,
    c: int,
    var: VarId,
)
    requires
        f.nodes.len() <= usize::MAX,
        0 <= h < f.nodes.len(),
        0 <= c < f.nodes.len(),
        c != h,
        f.nodes[h].succs.contains(c as usize),
        f.nodes[c].succs.contains(h as usize),
        dominates(f, h, c),
        f.nodes[c].defs.contains(var),
        f.nodes[c].uses.contains(var),
        !f.nodes[h].defs.contains(var),
        tier_of(f, patterns, c) != Tier::Inert,
        tier_of(f, patterns, c) != Tier::Boundary,
    ensures
        tier_of(f, patterns, c) == Tier::Core,
{
    let n = f.nodes.len();
    assert(succs(f)[h] == f.nodes[h].succs);
    assert(succs(f)[c] == f.nodes[c].succs);
    assert(has_edge(succs(f), c, h));
    assert(has_edge(succs(f), h, c));
    assert(back_edge(f, c, h));
    members_are_marked(back_edges(f, h), c as usize);
    let j = lemma_loop_listed(f, n as int, h);
    // The node lies in the loop.
    let back = Quest { succ: preds(succs(f)), start: back_edges(f, h), open: all_but(n, h) };
    assert(back.walk(seq![c]));
    assert(seq![c].last() == c);
    assert(in_loop(f, h, c));
    // What it defines comes to the header, and from there to it.
    let open = stays(f, h, var);
    let up = Quest { succ: succs(f), start: after(f, c), open };
    assert(up.walk(seq![h]));
    assert(seq![h].last() == h);
    let down = Quest { succ: succs(f), start: only(n, h), open };
    assert(down.walk(seq![h, c]));
    assert(seq![h, c].last() == c);
    lemma_def_listed(f, n as int, c, var);
    let def = Def { node: c as usize, var };
    let d = choose|d: int| 0 <= d < all_defs(f).len() && all_defs(f)[d] == def;
    assert(carried_to(f, h, all_defs(f)[d], c));
    assert(carries(f, h, c));
    assert(carries(f, loops_before(f, n as int)[j].header as int, c));
}

/// A reason tells the tier: what is denied, feeds what is denied or discards its
/// result is inert, an effect is boundary, what reaches nothing is plumbing, and
/// whatever else is said is said of core.
pub proof fn a_reason_tells_the_tier(f: FunctionView, patterns: Seq<Seq<char>>, i: int, k: int)
    requires
        0 <= k < reasons_of(f, patterns, i).len(),
    ensures
        ({
            let r = reasons_of(f, patterns, i)[k];
            &&& tier_of(f, patterns, i) == Tier::Inert <==> r is Denylisted || r is FeedsDenylisted
                || r is DiscardsDenylisted
            &&& tier_of(f, patterns, i) == Tier::Boundary <==> r is Effect
            &&& tier_of(f, patterns, i) == Tier::Plumbing <==> r is ReachesNothing
            &&& tier_of(f, patterns, i) == Tier::Core <==> r is Governs || r is LoopCarried
                || r is ReachesEffect
        }),
{
}

/// Core is the strongest tier, then boundary, then plumbing, then inert.
pub proof fn tiers_are_ordered(t: Tier)
    ensures
        Tier::Core.strength() > Tier::Boundary.strength(),
        Tier::Boundary.strength() > Tier::Plumbing.strength(),
        Tier::Plumbing.strength() > Tier::Inert.strength(),
        Tier::Inert.strength() <= t.strength() <= Tier::Core.strength(),
{
}

/// A tier reads back from its name in an artifact.
pub proof fn a_tier_reads_back_from_its_name(t: Tier)
    ensures
        crate::artifact::tier_of(t.text()) == t,
{
    reveal_strlit("core");
    reveal_strlit("boundary");
    reveal_strlit("plumbing");
    reveal_strlit("inert");
    assert("core"@.len() == 4 && "boundary"@.len() == 8 && "inert"@.len() == 5);
    assert("boundary"@[0] == 'b' && "plumbing"@[0] == 'p');
}

} // verus!
