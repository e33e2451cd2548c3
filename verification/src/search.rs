//! Reachability in finite graphs.
//!
//! A quest starts at some nodes and goes along edges; it may only go on from
//! nodes that are open. Dominance, loops, reaching definitions and strongly
//! connected components all come down to such quests.

use vstd::prelude::*;

verus! {

/// Where a search starts and which nodes it may go on from.
pub struct Quest {
    pub succ: Seq<Seq<usize>>,
    pub start: Seq<bool>,
    pub open: Seq<bool>,
}

/// Whether there is an edge from `a` to `b`.
pub open spec fn has_edge(succ: Seq<Seq<usize>>, a: int, b: int) -> bool {
    0 <= a < succ.len() && 0 <= b < succ.len() && succ[a].contains(b as usize)
}

impl Quest {
    /// Whether `p` is a walk: it starts at a start node, and each node but
    /// the last is open and has an edge to the next.
    pub open spec fn walk(self, p: Seq<int>) -> bool {
        &&& p.len() > 0
        &&& forall|k: int| 0 <= k < p.len() ==> 0 <= #[trigger] p[k] < self.succ.len()
        &&& self.start[p[0]]
        &&& forall|k: int|
            0 <= k < p.len() - 1 ==> self.open[#[trigger] p[k]] && has_edge(
                self.succ,
                p[k],
                p[k + 1],
            )
    }

    /// Whether some walk ends at `u`.
    pub open spec fn reaches(self, u: int) -> bool {
        exists|p: Seq<int>| #[trigger] self.walk(p) && p.last() == u
    }
}

/// Whether every edge of an adjacency leads to a node.
pub open spec fn edges_in_range(succ: Seq<Seq<usize>>) -> bool {
    forall|a: int, k: int|
        0 <= a < succ.len() && 0 <= k < succ[a].len() ==> #[trigger] succ[a][k] < succ.len()
}

/// The views of a list of lists.
pub open spec fn rows(v: Seq<Vec<usize>>) -> Seq<Seq<usize>> {
    v.map_values(|r: Vec<usize>| r@)
}

/// How many marks are unset.
pub open spec fn unset(m: Seq<bool>) -> nat
    decreases m.len(),
{
    if m.len() == 0 {
        0
    } else {
        unset(m.drop_last()) + if m.last() {
            0nat
        } else {
            1nat
        }
    }
}

proof fn lemma_unset_update(m: Seq<bool>, i: int)
    requires
        0 <= i < m.len(),
        !m[i],
    ensures
        unset(m.update(i, true)) + 1 == unset(m),
    decreases m.len(),
{
    let u = m.update(i, true);
    if i == m.len() - 1 {
        assert(u.drop_last() =~= m.drop_last());
    } else {
        assert(u.drop_last() =~= m.drop_last().update(i, true));
        lemma_unset_update(m.drop_last(), i);
    }
}

/// Marks that are closed under going on along edges hold every node that a
/// walk ends at.
proof fn lemma_closed(q: Quest, marks: Seq<bool>, p: Seq<int>)
    requires
        q.walk(p),
        marks.len() == q.succ.len(),
        forall|u: int| 0 <= u < q.succ.len() && q.start[u] ==> #[trigger] marks[u],
        forall|u: int, v: int|
            0 <= u < q.succ.len() && #[trigger] marks[u] && q.open[u] && #[trigger] has_edge(
                q.succ,
                u,
                v,
            ) ==> marks[v],
    ensures
        marks[p.last()],
    decreases p.len(),
{
    if p.len() == 1 {
        assert(marks[p[0]]);
    } else {
        let r = p.drop_last();
        assert(q.walk(r)) by {
            assert forall|k: int| 0 <= k < r.len() implies 0 <= #[trigger] r[k]
                < q.succ.len() by {
                assert(r[k] == p[k]);
            }
            assert forall|k: int| 0 <= k < r.len() - 1 implies q.open[#[trigger] r[k]]
                && has_edge(q.succ, r[k], r[k + 1]) by {
                assert(r[k] == p[k]);
                assert(r[k + 1] == p[k + 1]);
            }
        }
        lemma_closed(q, marks, r);
        let k = p.len() - 2;
        assert(r.last() == p[k]);
        assert(q.open[p[k]] && has_edge(q.succ, p[k], p[k + 1]));
        assert(marks[p[k]]);
    }
}

/// A walk goes on from an open node.
pub proof fn walk_goes_on(q: Quest, u: int, v: int)
    requires
        q.reaches(u),
        q.open[u],
        has_edge(q.succ, u, v),
    ensures
        q.reaches(v),
{
    let p = choose|p: Seq<int>| #[trigger] q.walk(p) && p.last() == u;
    let r = p.push(v);
    assert(q.walk(r)) by {
        assert forall|k: int| 0 <= k < r.len() implies 0 <= #[trigger] r[k] < q.succ.len() by {
            if k < p.len() {
                assert(r[k] == p[k]);
            }
        }
        assert(r[0] == p[0]);
        assert forall|k: int| 0 <= k < r.len() - 1 implies q.open[#[trigger] r[k]] && has_edge(
            q.succ,
            r[k],
            r[k + 1],
        ) by {
            assert(r[k] == p[k]);
            if k + 1 < p.len() {
                assert(r[k + 1] == p[k + 1]);
            } else {
                assert(p[k] == p.last());
                assert(r[k + 1] == v);
            }
        }
    }
    assert(r.last() == v);
}

/// A start node is reached.
pub proof fn start_is_reached(q: Quest, u: int)
    requires
        0 <= u < q.succ.len(),
        q.start[u],
    ensures
        q.reaches(u),
{
    let p = seq![u];
    assert(q.walk(p));
    assert(p.last() == u);
}

/// Marks the nodes that a quest reaches.
pub fn search(succ: &Vec<Vec<usize>>, start: &Vec<bool>, open: &Vec<bool>) -> (r: Vec<bool>)
    requires
        edges_in_range(rows(succ@)),
        start.len() == succ.len(),
        open.len() == succ.len(),
    ensures
        r.len() == succ.len(),
        forall|u: int|
            0 <= u < succ.len() ==> #[trigger] r@[u] == (Quest {
                succ: rows(succ@),
                start: start@,
                open: open@,
            }).reaches(u),
{
    let n: usize = succ.len();
    let ghost q = Quest { succ: rows(succ@), start: start@, open: open@ };
    let mut marks: Vec<bool> = Vec::new();
    let mut queue: Vec<usize> = Vec::new();
    let mut i: usize = 0;
    while i < n
        invariant
            i <= n,
            n == succ.len(),
            start.len() == n,
            q == (Quest { succ: rows(succ@), start: start@, open: open@ }),
            marks.len() == i,
            forall|u: int| 0 <= u < i ==> #[trigger] marks@[u] == start@[u],
            forall|u: int| 0 <= u < i && #[trigger] marks@[u] ==> queue@.contains(u as usize),
            forall|k: int| 0 <= k < queue@.len() ==> #[trigger] queue@[k] < i && start@[
                queue@[k] as int
            ],
        decreases n - i,
    {
        let ghost before = queue@;
        marks.push(start[i]);
        if start[i] {
            queue.push(i);
        }
        proof {
            assert forall|u: int| 0 <= u < i + 1 && #[trigger] marks@[u] implies queue@.contains(
                u as usize,
            ) by {
                if u < i {
                    let k = choose|k: int| 0 <= k < before.len() && before[k] == u as usize;
                    assert(queue@[k] == u as usize);
                } else {
                    assert(queue@[queue@.len() - 1] == i);
                }
            }
        }
        i += 1;
    }
    proof {
        assert forall|u: int| 0 <= u < n && #[trigger] marks@[u] implies q.reaches(u) by {
            start_is_reached(q, u);
        }
        assert forall|k: int| 0 <= k < queue@.len() implies marks@[#[trigger] queue@[k] as int] by {
            assert(start@[queue@[k] as int]);
        }
    }
    let mut h: usize = 0;
    while h < queue.len()
        invariant
            n == succ.len(),
            open.len() == n,
            start.len() == n,
            marks.len() == n,
            q == (Quest { succ: rows(succ@), start: start@, open: open@ }),
            edges_in_range(q.succ),
            h <= queue.len(),
            forall|u: int| 0 <= u < n && q.start[u] ==> #[trigger] marks@[u],
            forall|u: int| 0 <= u < n && #[trigger] marks@[u] ==> q.reaches(u),
            forall|u: int| 0 <= u < n && #[trigger] marks@[u] ==> queue@.contains(u as usize),
            forall|k: int| 0 <= k < queue@.len() ==> #[trigger] queue@[k] < n,
            forall|k: int| 0 <= k < queue@.len() ==> marks@[#[trigger] queue@[k] as int],
            forall|k: int, v: int|
                0 <= k < h && q.open[queue@[k] as int] && #[trigger] has_edge(
                    q.succ,
                    #[trigger] queue@[k] as int,
                    v,
                ) ==> marks@[v],
        decreases unset(marks@) + (queue.len() - h),
    {
        let u: usize = queue[h];
        assert(marks@[u as int]);
        if open[u] {
            let row = &succ[u];
            assert(q.succ[u as int] == row@);
            let ghost old_marks = marks@;
            let ghost old_queue = queue@;
            let mut j: usize = 0;
            while j < row.len()
                invariant
                    n == succ.len(),
                    open.len() == n,
                    start.len() == n,
                    marks.len() == n,
                    q == (Quest { succ: rows(succ@), start: start@, open: open@ }),
                    edges_in_range(q.succ),
                    u < n,
                    q.open[u as int],
                    q.succ[u as int] == row@,
                    j <= row.len(),
                    h < queue.len(),
                    queue@[h as int] == u,
                    forall|w: int| 0 <= w < n && q.start[w] ==> #[trigger] marks@[w],
                    forall|w: int| 0 <= w < n && #[trigger] marks@[w] ==> q.reaches(w),
                    forall|w: int|
                        0 <= w < n && #[trigger] marks@[w] ==> queue@.contains(w as usize),
                    forall|k: int| 0 <= k < queue@.len() ==> #[trigger] queue@[k] < n,
                    forall|k: int| 0 <= k < queue@.len() ==> marks@[#[trigger] queue@[k] as int],
                    forall|k: int, v: int|
                        0 <= k < h && q.open[queue@[k] as int] && #[trigger] has_edge(
                            q.succ,
                            #[trigger] queue@[k] as int,
                            v,
                        ) ==> marks@[v],
                    forall|k: int| 0 <= k < j ==> marks@[#[trigger] row@[k] as int],
                    unset(marks@) + (queue.len() - h) <= unset(old_marks) + (old_queue.len() - h),
                    h < old_queue.len(),
                decreases row.len() - j,
            {
                let v: usize = row[j];
                assert(q.succ[u as int][j as int] == v);
                assert(v < n);
                if !marks[v] {
                    let ghost ms = marks@;
                    let ghost qs = queue@;
                    proof {
                        assert(has_edge(q.succ, u as int, v as int)) by {
                            assert(q.succ[u as int].contains(v));
                        }
                        assert(marks@[u as int]);
                        walk_goes_on(q, u as int, v as int);
                        lemma_unset_update(ms, v as int);
                    }
                    marks.set(v, true);
                    queue.push(v);
                    proof {
                        assert(queue@[qs.len() as int] == v);
                        assert forall|w: int| 0 <= w < n && #[trigger] marks@[w] implies
                            queue@.contains(w as usize) by {
                            if w != v {
                                let k = choose|k: int| 0 <= k < qs.len() && qs[k] == w as usize;
                                assert(queue@[k] == w as usize);
                            }
                        }
                        assert forall|k: int| 0 <= k < queue@.len() implies #[trigger] queue@[k]
                            < n by {
                            if k < qs.len() {
                                assert(queue@[k] == qs[k]);
                            }
                        }
                        assert forall|k: int| 0 <= k < queue@.len() implies marks@[
                            #[trigger] queue@[k] as int
                        ] by {
                            if k < qs.len() {
                                assert(queue@[k] == qs[k]);
                            }
                        }
                        assert forall|k: int, w: int|
                            0 <= k < h && q.open[queue@[k] as int] && #[trigger] has_edge(
                                q.succ,
                                #[trigger] queue@[k] as int,
                                w,
                            ) implies marks@[w] by {
                            assert(queue@[k] == qs[k]);
                            assert(ms[w]);
                        }
                    }
                }
                j += 1;
            }
            proof {
                assert forall|v: int| has_edge(q.succ, u as int, v) implies #[trigger] marks@[
                    v
                ] by {
                    let k = choose|k: int|
                        0 <= k < q.succ[u as int].len() && q.succ[u as int][k] == v as usize;
                    assert(marks@[row@[k] as int]);
                }
            }
        }
        h += 1;
    }
    proof {
        assert forall|u: int| 0 <= u < n implies #[trigger] marks@[u] == q.reaches(u) by {
            if q.reaches(u) {
                let p = choose|p: Seq<int>| #[trigger] q.walk(p) && p.last() == u;
                assert forall|a: int, v: int|
                    0 <= a < q.succ.len() && #[trigger] marks@[a] && q.open[a]
                        && #[trigger] has_edge(q.succ, a, v) implies marks@[v] by {
                    let k = choose|k: int| 0 <= k < queue@.len() && queue@[k] == a as usize;
                    assert(has_edge(q.succ, queue@[k] as int, v));
                }
                lemma_closed(q, marks@, p);
            }
        }
    }
    marks
}

/// What is reached from reached nodes is reached.
pub proof fn reaching_is_transitive(q: Quest, r: Quest, u: int)
    requires
        q.succ == r.succ,
        q.open == r.open,
        forall|s: int| 0 <= s < r.succ.len() && #[trigger] r.start[s] ==> q.reaches(s),
        r.reaches(u),
    ensures
        q.reaches(u),
{
    let p = choose|p: Seq<int>| #[trigger] r.walk(p) && p.last() == u;
    let marks = Seq::new(r.succ.len(), |x: int| q.reaches(x));
    assert forall|a: int, v: int|
        0 <= a < r.succ.len() && #[trigger] marks[a] && r.open[a] && #[trigger] has_edge(
            r.succ,
            a,
            v,
        ) implies marks[v] by {
        walk_goes_on(q, a, v);
    }
    assert forall|s: int| 0 <= s < r.succ.len() && r.start[s] implies #[trigger] marks[s] by {
        assert(r.start[s]);
    }
    lemma_closed(r, marks, p);
    assert(p[p.len() - 1] == u);
}

} // verus!
