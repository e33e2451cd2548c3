//! What holds of dominance, loops, control dependence and def-use chains in
//! every function.

use vstd::prelude::*;

use crate::graph::{
    all, all_but, all_defs, back_edge, back_edges, depends_on, dominates, exits, in_loop, may_read,
    members_are_marked, only, post_dominates, predecessors_have_the_edge, preds, preds_before,
    reachable, read_at, readers, succs,
};
use crate::ir::FunctionView;
use crate::search::{has_edge, walk_goes_on, Quest};

verus! {

/// The ways into a function.
spec fn ways_in(f: FunctionView, open: Seq<bool>) -> Quest {
    Quest { succ: succs(f), start: only(f.nodes.len(), f.entry as int), open }
}

/// The ways out of a function, walked from the exits.
spec fn ways_out(f: FunctionView, open: Seq<bool>) -> Quest {
    Quest { succ: preds(succs(f)), start: exits(f), open }
}

/// The beginning of a walk is a walk, whatever is open behind it.
proof fn lemma_prefix(q: Quest, r: Quest, p: Seq<int>, k: int)
    requires
        q.walk(p),
        0 <= k < p.len(),
        r.succ == q.succ,
        r.start == q.start,
        forall|j: int| 0 <= j < k ==> r.open[#[trigger] p[j]],
    ensures
        r.walk(p.take(k + 1)),
        r.reaches(p[k]),
{
    let t = p.take(k + 1);
    assert forall|j: int| 0 <= j < t.len() implies 0 <= #[trigger] t[j] < r.succ.len() by {
        assert(t[j] == p[j]);
    }
    assert forall|j: int| 0 <= j < t.len() - 1 implies r.open[#[trigger] t[j]] && has_edge(
        r.succ,
        t[j],
        t[j + 1],
    ) by {
        assert(t[j] == p[j]);
        assert(t[j + 1] == p[j + 1]);
        assert(has_edge(q.succ, p[j], p[j + 1]));
    }
    assert(t[0] == p[0]);
    assert(r.walk(t));
    assert(t.last() == p[k]);
}

/// A walk to a node passes each of the node's dominators.
proof fn lemma_passes(f: FunctionView, p: Seq<int>, a: int, b: int) -> (k: int)
    requires
        ways_in(f, all(f.nodes.len())).walk(p),
        p.last() == b,
        dominates(f, a, b),
        a != b,
    ensures
        0 <= k < p.len() - 1,
        p[k] == a,
{
    let q = ways_in(f, all(f.nodes.len()));
    let r = ways_in(f, all_but(f.nodes.len(), a));
    if forall|k: int| 0 <= k < p.len() - 1 ==> p[k] != a {
        assert forall|j: int| 0 <= j < p.len() - 1 implies r.open[#[trigger] p[j]] by {
            assert(0 <= p[j] < q.succ.len());
        }
        lemma_prefix(q, r, p, p.len() - 1);
        0
    } else {
        choose|k: int| 0 <= k < p.len() - 1 && p[k] == a
    }
}

/// A node that control can come to dominates itself.
pub proof fn dominance_is_reflexive(f: FunctionView, b: int)
    requires
        reachable(f, b),
    ensures
        dominates(f, b, b),
{
}

/// The entry dominates every node that control can come to.
pub proof fn the_entry_dominates_every_reached_node(f: FunctionView, b: int)
    requires
        reachable(f, b),
    ensures
        dominates(f, f.entry as int, b),
{
    let r = ways_in(f, all_but(f.nodes.len(), f.entry as int));
    if b != f.entry && r.reaches(b) {
        let p = choose|p: Seq<int>| #[trigger] r.walk(p) && p.last() == b;
        assert(0 <= p[0] < r.succ.len());
        assert(r.start[p[0]]);
        if p.len() > 1 {
            assert(r.open[p[0]]);
        }
    }
}

/// What dominates a dominator dominates.
pub proof fn dominance_is_transitive(f: FunctionView, a: int, b: int, c: int)
    requires
        dominates(f, a, b),
        dominates(f, b, c),
    ensures
        dominates(f, a, c),
{
    let r = ways_in(f, all_but(f.nodes.len(), a));
    if a != c && r.reaches(c) {
        let p = choose|p: Seq<int>| #[trigger] r.walk(p) && p.last() == c;
        if b != c {
            let q = ways_in(f, all(f.nodes.len()));
            assert forall|j: int| 0 <= j < p.len() - 1 implies q.open[#[trigger] p[j]] by {
                assert(0 <= p[j] < r.succ.len());
            }
            lemma_prefix(r, q, p, p.len() - 1);
            assert(p.take(p.len() - 1 + 1) =~= p);
            let k = lemma_passes(f, p, b, c);
            if a != b {
                assert forall|j: int| 0 <= j < k implies r.open[#[trigger] p[j]] by {
                    assert(j < p.len() - 1);
                }
                lemma_prefix(r, r, p, k);
            } else {
                assert(r.open[p[k]]);
                assert(0 <= p[k] < r.succ.len());
            }
        }
    }
}

proof fn lemma_no_descent(f: FunctionView, p: Seq<int>, a: int, b: int)
    requires
        ways_in(f, all(f.nodes.len())).walk(p),
        p.last() == a,
        dominates(f, a, b),
        dominates(f, b, a),
    ensures
        a == b,
    decreases p.len(),
{
    if a != b {
        let q = ways_in(f, all(f.nodes.len()));
        let k = lemma_passes(f, p, b, a);
        assert forall|j: int| 0 <= j < k implies q.open[#[trigger] p[j]] by {
            assert(j < p.len() - 1);
        }
        lemma_prefix(q, q, p, k);
        let t = p.take(k + 1);
        assert(t.last() == b);
        lemma_no_descent(f, t, b, a);
    }
}

/// No two nodes dominate each other.
pub proof fn dominance_is_antisymmetric(f: FunctionView, a: int, b: int)
    requires
        dominates(f, a, b),
        dominates(f, b, a),
    ensures
        a == b,
{
    let q = ways_in(f, all(f.nodes.len()));
    let p = choose|p: Seq<int>| #[trigger] q.walk(p) && p.last() == a;
    lemma_no_descent(f, p, a, b);
}

proof fn lemma_pred_edge(f: FunctionView, s: int, x: int)
    requires
        f.nodes.len() <= usize::MAX,
    ensures
        has_edge(preds(succs(f)), s, x) <==> has_edge(succs(f), x, s),
{
    let g = succs(f);
    if 0 <= x < g.len() && 0 <= s < g.len() {
        predecessors_have_the_edge(g, s, g.len() as int, x as usize);
        assert(preds(g)[s] == preds_before(g, s, g.len() as int));
    }
}

/// From a node of a loop other than the header, the loop comes back to the
/// header: a way in that avoids the header leads on to an edge back.
proof fn lemma_on_to_the_back_edge(f: FunctionView, h: int, p: Seq<int>)
    requires
        f.nodes.len() <= usize::MAX,
        (Quest {
            succ: preds(succs(f)),
            start: back_edges(f, h),
            open: all_but(f.nodes.len(), h),
        }).walk(p),
        p.last() != h,
        ways_in(f, all_but(f.nodes.len(), h)).reaches(p.last()),
    ensures
        exists|t: int| #[trigger] back_edge(f, t, h) && t != h && ways_in(
            f,
            all_but(f.nodes.len(), h),
        ).reaches(t),
    decreases p.len(),
{
    let q = Quest {
        succ: preds(succs(f)),
        start: back_edges(f, h),
        open: all_but(f.nodes.len(), h),
    };
    let w = ways_in(f, all_but(f.nodes.len(), h));
    let u = p.last();
    assert(0 <= p[p.len() - 1] < q.succ.len());
    if p.len() == 1 {
        assert(back_edge(f, u, h));
    } else {
        let k = p.len() - 2;
        let v = p[k];
        assert(q.open[p[k]] && has_edge(q.succ, p[k], p[k + 1]));
        assert(0 <= p[k] < q.succ.len());
        lemma_pred_edge(f, v, u);
        walk_goes_on(w, u, v);
        assert forall|j: int| 0 <= j < k implies q.open[#[trigger] p[j]] by {
            assert(j < p.len() - 1);
        }
        lemma_prefix(q, q, p, k);
        lemma_on_to_the_back_edge(f, h, p.take(k + 1));
    }
}

/// A loop is entered through its header: the header dominates every node of
/// the loop that control can come to.
pub proof fn a_loop_is_entered_through_its_header(f: FunctionView, h: int, u: int)
    requires
        f.nodes.len() <= usize::MAX,
        in_loop(f, h, u),
        reachable(f, u),
    ensures
        dominates(f, h, u),
{
    let w = ways_in(f, all_but(f.nodes.len(), h));
    if u != h && w.reaches(u) {
        let q = Quest {
            succ: preds(succs(f)),
            start: back_edges(f, h),
            open: all_but(f.nodes.len(), h),
        };
        let p = choose|p: Seq<int>| #[trigger] q.walk(p) && p.last() == u;
        lemma_on_to_the_back_edge(f, h, p);
        let t = choose|t: int| #[trigger] back_edge(f, t, h) && t != h && w.reaches(t);
        assert(dominates(f, h, t));
    }
}

/// Only a node with two ways out decides whether another node runs: where every
/// edge leads to one node, what is certain behind the edge is certain before it.
pub proof fn only_a_fork_decides(f: FunctionView, y: int, x: int, s: int)
    requires
        f.nodes.len() <= usize::MAX,
        x != y,
        has_edge(succs(f), x, s),
        forall|t: int| #[trigger] has_edge(succs(f), x, t) ==> t == s,
    ensures
        !depends_on(f, y, x),
{
    let n = f.nodes.len();
    if post_dominates(f, y, s) {
        let every = ways_out(f, all(n));
        let without = ways_out(f, all_but(n, y));
        lemma_pred_edge(f, s, x);
        assert(has_edge(succs(f), x, s));
        walk_goes_on(every, s, x);
        if without.reaches(x) {
            let p = choose|p: Seq<int>| #[trigger] without.walk(p) && p.last() == x;
            assert(0 <= p[0] < without.succ.len());
            if p.len() == 1 {
                assert(exits(f)[x]);
                assert(succs(f)[x].len() == 0);
                assert(succs(f)[x].contains(s as usize));
            } else {
                let k = p.len() - 2;
                assert(without.open[p[k]] && has_edge(without.succ, p[k], p[k + 1]));
                lemma_pred_edge(f, p[k], x);
                assert(p[k] == s);
                assert forall|j: int| 0 <= j < k implies without.open[#[trigger] p[j]] by {
                    assert(j < p.len() - 1);
                }
                lemma_prefix(without, without, p, k);
                assert(0 <= p[k] < without.succ.len());
            }
        }
        assert(post_dominates(f, y, x));
    }
}

/// Def-use chains read the same from both ends.
pub proof fn chains_read_the_same_from_both_ends(f: FunctionView, d: int, u: int)
    requires
        f.nodes.len() <= usize::MAX,
        all_defs(f).len() <= usize::MAX,
        0 <= d < all_defs(f).len(),
        0 <= u < f.nodes.len(),
    ensures
        read_at(f, u).contains(d as usize) <==> readers(f, d).contains(u as usize),
{
    let at = Seq::new(all_defs(f).len(), |e: int| may_read(f, all_defs(f)[e], u));
    let by = Seq::new(f.nodes.len(), |v: int| may_read(f, all_defs(f)[d], v));
    members_are_marked(at, d as usize);
    members_are_marked(by, u as usize);
}

} // verus!
