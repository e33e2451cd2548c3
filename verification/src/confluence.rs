//! Orders over a condensed graph: each strongly connected component gets one
//! number, from the numbers of the components with an edge into it.
//!
//! Under the rule of confluence the number grows only where two equally high
//! tributaries meet; under the rule of depth it grows with every step.

use vstd::prelude::*;

use crate::components::{
    edge_links, is_numbering, lemma_reach_counts, linked_is_transitive, marked, reach, strongly,
    strongly_connected,
};
use crate::search::{edges_in_range, has_edge, rows};

verus! {

/// Whether `p` is a tributary of `v`: it has an edge into the component of
/// `v` and lies outside it.
pub open spec fn tributary(succ: Seq<Seq<usize>>, p: int, v: int) -> bool {
    !strongly(succ, p, v) && exists|w: int| #[trigger] has_edge(succ, p, w) && strongly(succ, w, v)
}

/// Whether `m` is the highest order among the tributaries of `v`.
pub open spec fn highest(succ: Seq<Seq<usize>>, orders: Seq<u32>, v: int, m: u32) -> bool {
    &&& exists|p: int| #[trigger] tributary(succ, p, v) && orders[p] == m
    &&& forall|p: int| #[trigger] tributary(succ, p, v) ==> orders[p] <= m
}

/// Whether two tributaries of `v` in different components have order `m`.
pub open spec fn meets(succ: Seq<Seq<usize>>, orders: Seq<u32>, v: int, m: u32) -> bool {
    exists|p: int, q: int|
        #[trigger] tributary(succ, p, v) && #[trigger] tributary(succ, q, v) && !strongly(
            succ,
            p,
            q,
        ) && orders[p] == m && orders[q] == m
}

/// Whether a node without tributaries has order 1, and another one the
/// highest order of its tributaries, or one more where two of them meet. A
/// deep order always grows by one.
pub open spec fn order_holds(
    succ: Seq<Seq<usize>>,
    deep: bool,
    orders: Seq<u32>,
    v: int,
) -> bool {
    if forall|p: int| !#[trigger] tributary(succ, p, v) {
        orders[v] == 1
    } else {
        exists|m: u32| #[trigger]
            highest(succ, orders, v, m) && orders[v] == (if deep || meets(succ, orders, v, m) {
                m + 1
            } else {
                m as int
            })
    }
}

/// What the orders of a graph are: one per component, by the rule of
/// confluence.
pub open spec fn is_orders(succ: Seq<Seq<usize>>, deep: bool, orders: Seq<u32>) -> bool {
    &&& orders.len() == succ.len()
    &&& forall|a: int, b: int|
        0 <= a < succ.len() && 0 <= b < succ.len() && #[trigger] strongly(succ, a, b)
            ==> orders[a] == orders[b]
    &&& forall|v: int| 0 <= v < succ.len() ==> #[trigger] order_holds(succ, deep, orders, v)
}

/// A tributary reaches more nodes than the node that it feeds.
proof fn lemma_tributary_reaches_more(succ: Seq<Seq<usize>>, p: int, v: int)
    requires
        tributary(succ, p, v),
        0 <= v < succ.len(),
    ensures
        0 <= p < succ.len(),
        marked(reach(succ, v)) < marked(reach(succ, p)) <= succ.len(),
{
    let w = choose|w: int| #[trigger] has_edge(succ, p, w) && strongly(succ, w, v);
    edge_links(succ, p, w);
    linked_is_transitive(succ, p, w, v);
    lemma_reach_counts(succ, p, v);
}

/// Every order is at least one.
pub proof fn orders_start_at_one(
    succ: Seq<Seq<usize>>,
    deep: bool,
    orders: Seq<u32>,
    v: int,
)
    requires
        is_orders(succ, deep, orders),
        0 <= v < succ.len(),
    ensures
        orders[v] >= 1,
    decreases succ.len() - marked(reach(succ, v)),
{
    assert(order_holds(succ, deep, orders, v));
    if exists|p: int| #[trigger] tributary(succ, p, v) {
        let m = choose|m: u32| #[trigger]
            highest(succ, orders, v, m) && orders[v] == (if deep || meets(succ, orders, v, m) {
                m + 1
            } else {
                m as int
            });
        let p = choose|p: int| #[trigger] tributary(succ, p, v) && orders[p] == m;
        lemma_tributary_reaches_more(succ, p, v);
        orders_start_at_one(succ, deep, orders, p);
    }
}

/// The rule of confluence leaves no choice: a graph has one assignment of
/// orders.
pub proof fn orders_are_determined(
    succ: Seq<Seq<usize>>,
    deep: bool,
    a: Seq<u32>,
    b: Seq<u32>,
    v: int,
)
    requires
        is_orders(succ, deep, a),
        is_orders(succ, deep, b),
        0 <= v < succ.len(),
    ensures
        a[v] == b[v],
    decreases succ.len() - marked(reach(succ, v)),
{
    assert(order_holds(succ, deep, a, v));
    assert(order_holds(succ, deep, b, v));
    assert forall|p: int| #[trigger] tributary(succ, p, v) implies a[p] == b[p] by {
        lemma_tributary_reaches_more(succ, p, v);
        orders_are_determined(succ, deep, a, b, p);
    }
    if exists|p: int| #[trigger] tributary(succ, p, v) {
        lemma_rule_agrees(succ, deep, a, b, v);
    }
}

proof fn lemma_rule_agrees(
    succ: Seq<Seq<usize>>,
    deep: bool,
    a: Seq<u32>,
    b: Seq<u32>,
    v: int,
)
    requires
        order_holds(succ, deep, a, v),
        order_holds(succ, deep, b, v),
        forall|p: int| #[trigger] tributary(succ, p, v) ==> a[p] == b[p],
        exists|p: int| #[trigger] tributary(succ, p, v),
    ensures
        a[v] == b[v],
{
    let m = choose|m: u32| #[trigger]
        highest(succ, a, v, m) && a[v] == (if deep || meets(succ, a, v, m) {
            m + 1
        } else {
            m as int
        });
    let k = choose|k: u32| #[trigger]
        highest(succ, b, v, k) && b[v] == (if deep || meets(succ, b, v, k) {
            k + 1
        } else {
            k as int
        });
    let p = choose|p: int| #[trigger] tributary(succ, p, v) && a[p] == m;
    let q = choose|q: int| #[trigger] tributary(succ, q, v) && b[q] == k;
    assert(b[p] <= k && a[q] <= m);
    if meets(succ, a, v, m) {
        let (x, y) = choose|x: int, y: int|
            #[trigger] tributary(succ, x, v) && #[trigger] tributary(succ, y, v) && !strongly(
                succ,
                x,
                y,
            ) && a[x] == m && a[y] == m;
        assert(tributary(succ, x, v) && tributary(succ, y, v) && b[x] == m && b[y] == m);
    }
    if meets(succ, b, v, m) {
        let (x, y) = choose|x: int, y: int|
            #[trigger] tributary(succ, x, v) && #[trigger] tributary(succ, y, v) && !strongly(
                succ,
                x,
                y,
            ) && b[x] == m && b[y] == m;
        assert(tributary(succ, x, v) && tributary(succ, y, v) && a[x] == m && a[y] == m);
    }
}

/// Whether the list holds exactly the components with an edge into `c`.
spec fn is_upstream(succ: Seq<Seq<usize>>, comp_of: Seq<usize>, c: int, list: Seq<usize>) -> bool {
    forall|k: usize| #[trigger]
        list.contains(k) <==> feeds_component(succ, comp_of, k, c)
}

spec fn feeds_component(succ: Seq<Seq<usize>>, comp_of: Seq<usize>, k: usize, c: int) -> bool {
    k != c && exists|p: int, w: int| #[trigger]
        has_edge(succ, p, w) && comp_of[p] == k && comp_of[w] == c
}

/// The components with an edge into each component.
fn upstream_lists(succ: &Vec<Vec<usize>>, comp_of: &Vec<usize>, count: usize) -> (r: Vec<
    Vec<usize>,
>)
    requires
        edges_in_range(rows(succ@)),
        is_numbering(rows(succ@), comp_of@, count as nat),
    ensures
        r.len() == count,
        forall|c: int| 0 <= c < count ==> is_upstream(rows(succ@), comp_of@, c, (#[trigger] r@[c])@),
{
    let ghost s = rows(succ@);
    let n: usize = succ.len();
    assert(s.len() == n);
    let mut out: Vec<Vec<usize>> = Vec::new();
    let mut c: usize = 0;
    while c < count
        invariant
            s == rows(succ@),
            s.len() == n,
            n == succ.len(),
            edges_in_range(s),
            is_numbering(s, comp_of@, count as nat),
            c <= count,
            out.len() == c,
            forall|x: int| 0 <= x < c ==> is_upstream(s, comp_of@, x, (#[trigger] out@[x])@),
        decreases count - c,
    {
        let mut list: Vec<usize> = Vec::new();
        let mut p: usize = 0;
        while p < n
            invariant
                s == rows(succ@),
                s.len() == n,
                n == succ.len(),
                edges_in_range(s),
                is_numbering(s, comp_of@, count as nat),
                c < count,
                p <= n,
                forall|k: usize| #[trigger]
                    list@.contains(k) ==> feeds_component(s, comp_of@, k, c as int),
                forall|a: int, w: int|
                    a < p && #[trigger] has_edge(s, a, w) && comp_of@[w] == c && comp_of@[a] != c
                        ==> list@.contains(comp_of@[a]),
            decreases n - p,
        {
            let row = &succ[p];
            assert(s[p as int] == row@);
            let from: usize = comp_of[p];
            let ghost before = list@;
            let mut k: usize = 0;
            let mut into: bool = false;
            while k < row.len()
                invariant
                    s == rows(succ@),
                    s.len() == n,
                    p < n,
                    edges_in_range(s),
                    comp_of.len() == n,
                    s[p as int] == row@,
                    k <= row.len(),
                    into == exists|j: int|
                        0 <= j < k && comp_of@[#[trigger] row@[j] as int] == c,
                decreases row.len() - k,
            {
                assert(s[p as int][k as int] < s.len());
                if comp_of[row[k]] == c {
                    into = true;
                    assert(comp_of@[row@[k as int] as int] == c);
                }
                k += 1;
            }
            if into && from != c {
                list.push(from);
                proof {
                    let j = choose|j: int|
                        0 <= j < row@.len() && comp_of@[#[trigger] row@[j] as int] == c;
                    let w = row@[j] as int;
                    assert(s[p as int][j] < s.len());
                    assert(s[p as int].contains(row@[j]));
                    assert(has_edge(s, p as int, w));
                    assert forall|x: usize| #[trigger] list@.contains(x) implies feeds_component(
                        s,
                        comp_of@,
                        x,
                        c as int,
                    ) by {
                        let i = choose|i: int| 0 <= i < list@.len() && list@[i] == x;
                        if i < before.len() {
                            assert(before[i] == x);
                            assert(before.contains(x));
                        }
                    }
                    assert forall|x: usize| before.contains(x) implies list@.contains(x) by {
                        let i = choose|i: int| 0 <= i < before.len() && before[i] == x;
                        assert(list@[i] == x);
                    }
                    assert(list@[before.len() as int] == from);
                }
            }
            proof {
                assert forall|a: int, w: int|
                    a < p + 1 && #[trigger] has_edge(s, a, w) && comp_of@[w] == c && comp_of@[a]
                        != c implies list@.contains(comp_of@[a]) by {
                    if a == p {
                        let j = choose|j: int|
                            0 <= j < s[a].len() && s[a][j] == w as usize;
                        assert(comp_of@[row@[j] as int] == c);
                    } else {
                        assert(before.contains(comp_of@[a]));
                    }
                }
            }
            p += 1;
        }
        proof {
            assert forall|k: usize| #[trigger] list@.contains(k) <==> feeds_component(
                s,
                comp_of@,
                k,
                c as int,
            ) by {
                if feeds_component(s, comp_of@, k, c as int) {
                    let (p2, w) = choose|p2: int, w: int| #[trigger]
                        has_edge(s, p2, w) && comp_of@[p2] == k && comp_of@[w] == c;
                    assert(list@.contains(comp_of@[p2]));
                }
            }
        }
        out.push(list);
        c += 1;
    }
    out
}

/// The order of a component from those upstream of it: one for a spring, else
/// the highest, or one more where two distinct components have it.
fn confluence(list: &Vec<usize>, order: &Vec<u32>, bound: u32, deep: bool) -> (r: u32)
    requires
        forall|j: int| 0 <= j < list@.len() ==> #[trigger] list@[j] < order@.len(),
        forall|j: int| 0 <= j < list@.len() ==> order@[#[trigger] list@[j] as int] <= bound,
        bound < u32::MAX,
    ensures
        r <= bound + 1,
        list@.len() == 0 ==> r == 1,
        list@.len() > 0 ==> exists|m: u32, b: int|
            #![trigger list@[b], top(list@, order@, m)]
            0 <= b < list@.len() && order@[list@[b] as int] == m && top(list@, order@, m) && r == (
            if deep || twice(list@, order@, m) {
                m + 1
            } else {
                m as int
            }),
{
    if list.len() == 0 {
        return 1;
    }
    let mut m: u32 = order[list[0]];
    let mut best: usize = 0;
    let mut k: usize = 1;
    while k < list.len()
        invariant
            forall|j: int| 0 <= j < list@.len() ==> #[trigger] list@[j] < order@.len(),
            1 <= k <= list.len(),
            best < k,
            m == order@[list@[best as int] as int],
            forall|j: int| 0 <= j < k ==> order@[#[trigger] list@[j] as int] <= m,
        decreases list.len() - k,
    {
        let o: u32 = order[list[k]];
        if o > m {
            m = o;
            best = k;
        }
        k += 1;
    }
    let mut two: bool = false;
    let mut j: usize = 0;
    while j < list.len()
        invariant
            forall|i: int| 0 <= i < list@.len() ==> #[trigger] list@[i] < order@.len(),
            best < list.len(),
            m == order@[list@[best as int] as int],
            j <= list.len(),
            two == exists|i: int|
                0 <= i < j && #[trigger] list@[i] != list@[best as int] && order@[list@[i] as int]
                    == m,
        decreases list.len() - j,
    {
        if list[j] != list[best] && order[list[j]] == m {
            two = true;
            assert(list@[j as int] != list@[best as int] && order@[list@[j as int] as int] == m);
        }
        j += 1;
    }
    proof {
        assert(two == twice(list@, order@, m)) by {
            if twice(list@, order@, m) {
                let (x, y) = choose|x: int, y: int|
                    0 <= x < list@.len() && 0 <= y < list@.len() && #[trigger] list@[x]
                        != #[trigger] list@[y] && order@[list@[x] as int] == m
                        && order@[list@[y] as int] == m;
                if list@[x] != list@[best as int] {
                } else {
                    assert(list@[y] != list@[best as int]);
                }
            }
            if two {
                let i = choose|i: int|
                    0 <= i < list@.len() && #[trigger] list@[i] != list@[best as int]
                        && order@[list@[i] as int] == m;
                assert(list@[i] != list@[best as int]);
            }
        }
        assert(top(list@, order@, m));
    }
    if deep || two {
        m + 1
    } else {
        m
    }
}

spec fn top(list: Seq<usize>, order: Seq<u32>, m: u32) -> bool {
    forall|j: int| 0 <= j < list.len() ==> order[#[trigger] list[j] as int] <= m
}

spec fn twice(list: Seq<usize>, order: Seq<u32>, m: u32) -> bool {
    exists|x: int, y: int|
        0 <= x < list.len() && 0 <= y < list.len() && #[trigger] list[x] != #[trigger] list[y]
            && order[list[x] as int] == m && order[list[y] as int] == m
}

/// Per-node Strahler order: condenses `succ` into strongly connected
/// components, orders the condensation by the confluence rule, and gives each
/// component's order to its members.
pub fn component_orders(n: usize, succ: &Vec<Vec<usize>>, deep: bool) -> (r: Vec<u32>)
    requires
        succ.len() == n,
        edges_in_range(rows(succ@)),
        n < u32::MAX,
    ensures
        is_orders(rows(succ@), deep, r@),
{
    let ghost s = rows(succ@);
    assert(s.len() == n);
    let (comp_of, comps) = strongly_connected(n, succ);
    let count: usize = comps.len();
    let upstream = upstream_lists(succ, &comp_of, count);
    let mut order: Vec<u32> = Vec::new();
    let mut i: usize = 0;
    while i < count
        invariant
            i <= count,
            order.len() == i,
        decreases count - i,
    {
        order.push(0);
        i += 1;
    }
    let mut c: usize = count;
    while c > 0
        invariant
            s == rows(succ@),
            s.len() == n,
            n < u32::MAX,
            count <= n,
            is_numbering(s, comp_of@, count as nat),
            upstream.len() == count,
            order.len() == count,
            forall|x: int|
                0 <= x < count ==> is_upstream(s, comp_of@, x, (#[trigger] upstream@[x])@),
            c <= count,
            forall|x: int| c <= x < count ==> #[trigger] order@[x] <= count - x,
            forall|x: int|
                c <= x < count ==> component_order_holds(s, comp_of@, deep, order@, #[trigger] order@[x], x),
        decreases c,
    {
        c -= 1;
        let list = &upstream[c];
        assert(is_upstream(s, comp_of@, c as int, list@));
        proof {
            assert forall|j: int| 0 <= j < list@.len() implies c < #[trigger] list@[j]
                < count by {
                assert(list@.contains(list@[j]));
                lemma_upstream_higher(s, comp_of@, count as nat, list@[j], c as int);
            }
        }
        let ghost before = order@;
        let o: u32 = confluence(list, &order, (count - 1 - c) as u32, deep);
        order.set(c, o);
        proof {
            lemma_component_order(
                s,
                comp_of@,
                count as nat,
                deep,
                list@,
                before,
                order@,
                c as int,
            );
            assert forall|x: int| c <= x < count implies component_order_holds(
                s,
                comp_of@,
                deep,
                order@,
                #[trigger] order@[x],
                x,
            ) by {
                if x > c {
                    assert(component_order_holds(s, comp_of@, deep, before, before[x], x));
                    lemma_component_order_kept(
                        s,
                        comp_of@,
                        count as nat,
                        deep,
                        before,
                        order@,
                        c as int,
                        x,
                    );
                }
            }
        }
    }
    let mut out: Vec<u32> = Vec::new();
    let mut v: usize = 0;
    while v < n
        invariant
            s.len() == n,
            is_numbering(s, comp_of@, count as nat),
            order.len() == count,
            v <= n,
            out.len() == v,
            forall|x: int| 0 <= x < v ==> #[trigger] out@[x] == order@[comp_of@[x] as int],
        decreases n - v,
    {
        assert(comp_of@[v as int] < count);
        out.push(order[comp_of[v]]);
        v += 1;
    }
    proof {
        assert forall|v: int| 0 <= v < s.len() implies #[trigger] order_holds(s, deep, out@, v) by {
            let x = comp_of@[v] as int;
            assert(comp_of@[v] < count);
            assert(component_order_holds(s, comp_of@, deep, order@, order@[x], x));
            reveal(numbering);
            lemma_node_order(s, comp_of@, count as nat, deep, order@, out@, v);
        }
        assert forall|a: int, b: int|
            0 <= a < s.len() && 0 <= b < s.len() && #[trigger] strongly(s, a, b) implies out@[a]
            == out@[b] by {
            assert(comp_of@[a] == comp_of@[b]);
        }
    }
    out
}

spec fn highest_upstream(
    succ: Seq<Seq<usize>>,
    comp_of: Seq<usize>,
    order: Seq<u32>,
    c: int,
    m: u32,
) -> bool {
    &&& exists|k: usize| #[trigger] feeds_component(succ, comp_of, k, c) && order[k as int] == m
    &&& forall|k: usize| #[trigger]
        feeds_component(succ, comp_of, k, c) ==> order[k as int] <= m
}

spec fn meets_upstream(
    succ: Seq<Seq<usize>>,
    comp_of: Seq<usize>,
    order: Seq<u32>,
    c: int,
    m: u32,
) -> bool {
    exists|k: usize, l: usize|
        #[trigger] feeds_component(succ, comp_of, k, c) && #[trigger] feeds_component(
            succ,
            comp_of,
            l,
            c,
        ) && k != l && order[k as int] == m && order[l as int] == m
}

/// The rule of confluence for a component whose order is `o`.
spec fn component_order_holds(
    succ: Seq<Seq<usize>>,
    comp_of: Seq<usize>,
    deep: bool,
    order: Seq<u32>,
    o: u32,
    c: int,
) -> bool {
    if forall|k: usize| !#[trigger] feeds_component(succ, comp_of, k, c) {
        o == 1
    } else {
        exists|m: u32| #[trigger]
            highest_upstream(succ, comp_of, order, c, m) && o == (if deep || meets_upstream(succ, comp_of, order, c, m) {
                m + 1
            } else {
                m as int
            })
    }
}

proof fn lemma_upstream_higher(
    succ: Seq<Seq<usize>>,
    comp_of: Seq<usize>,
    count: nat,
    k: usize,
    c: int,
)
    requires
        is_numbering(succ, comp_of, count),
        feeds_component(succ, comp_of, k, c),
    ensures
        c < k < count,
{
    let (p, w) = choose|p: int, w: int| #[trigger]
        has_edge(succ, p, w) && comp_of[p] == k && comp_of[w] == c;
    assert(comp_of[w] <= comp_of[p]);
    assert(comp_of[p] < count);
}

proof fn lemma_component_order(
    succ: Seq<Seq<usize>>,
    comp_of: Seq<usize>,
    count: nat,
    deep: bool,
    list: Seq<usize>,
    before: Seq<u32>,
    order: Seq<u32>,
    c: int,
)
    requires
        is_numbering(succ, comp_of, count),
        is_upstream(succ, comp_of, c, list),
        0 <= c < count,
        before.len() == count,
        order == before.update(c, order[c]),
        list.len() == 0 ==> order[c] == 1,
        list.len() > 0 ==> exists|m: u32, b: int|
            #![trigger list[b], top(list, before, m)]
            0 <= b < list.len() && before[list[b] as int] == m && top(list, before, m)
                && order[c] == (if deep || twice(list, before, m) {
                m + 1
            } else {
                m as int
            }),
    ensures
        component_order_holds(succ, comp_of, deep, order, order[c], c),
{
    if list.len() == 0 {
        assert forall|k: usize| !#[trigger] feeds_component(succ, comp_of, k, c) by {
            assert(!list.contains(k));
        }
    } else {
        let (m, b) = choose|m: u32, b: int|
            #![trigger list[b], top(list, before, m)]
            0 <= b < list.len() && before[list[b] as int] == m && top(list, before, m)
                && order[c] == (if deep || twice(list, before, m) {
                m + 1
            } else {
                m as int
            });
        assert(list.contains(list[b]));
        assert(feeds_component(succ, comp_of, list[b], c));
        assert forall|k: usize| #[trigger] feeds_component(succ, comp_of, k, c) implies order[k as int]
            <= m by {
            assert(list.contains(k));
            lemma_upstream_higher(succ, comp_of, count, k, c);
            let j = choose|j: int| 0 <= j < list.len() && list[j] == k;
            assert(before[list[j] as int] <= m);
        }
        lemma_upstream_higher(succ, comp_of, count, list[b], c);
        assert(highest_upstream(succ, comp_of, order, c, m));
        assert(meets_upstream(succ, comp_of, order, c, m) == twice(list, before, m)) by {
            if twice(list, before, m) {
                let (x, y) = choose|x: int, y: int|
                    0 <= x < list.len() && 0 <= y < list.len() && #[trigger] list[x]
                        != #[trigger] list[y] && before[list[x] as int] == m
                        && before[list[y] as int] == m;
                assert(list.contains(list[x]) && list.contains(list[y]));
                lemma_upstream_higher(succ, comp_of, count, list[x], c);
                lemma_upstream_higher(succ, comp_of, count, list[y], c);
                assert(feeds_component(succ, comp_of, list[x], c) && feeds_component(
                    succ,
                    comp_of,
                    list[y],
                    c,
                ));
            }
            if meets_upstream(succ, comp_of, order, c, m) {
                let (k, l) = choose|k: usize, l: usize|
                    #[trigger] feeds_component(succ, comp_of, k, c) && #[trigger] feeds_component(
                        succ,
                        comp_of,
                        l,
                        c,
                    ) && k != l && order[k as int] == m && order[l as int] == m;
                assert(list.contains(k) && list.contains(l));
                lemma_upstream_higher(succ, comp_of, count, k, c);
                lemma_upstream_higher(succ, comp_of, count, l, c);
                let x = choose|x: int| 0 <= x < list.len() && list[x] == k;
                let y = choose|y: int| 0 <= y < list.len() && list[y] == l;
                assert(list[x] != list[y]);
            }
        }
    }
}

proof fn lemma_component_order_kept(
    succ: Seq<Seq<usize>>,
    comp_of: Seq<usize>,
    count: nat,
    deep: bool,
    before: Seq<u32>,
    order: Seq<u32>,
    c: int,
    x: int,
)
    requires
        is_numbering(succ, comp_of, count),
        0 <= c < x < count,
        before.len() == count,
        order == before.update(c, order[c]),
        component_order_holds(succ, comp_of, deep, before, before[x], x),
    ensures
        component_order_holds(succ, comp_of, deep, order, order[x], x),
{
    assert forall|k: usize| #[trigger] feeds_component(succ, comp_of, k, x) implies order[k as int]
        == before[k as int] by {
        lemma_upstream_higher(succ, comp_of, count, k, x);
    }
    if exists|k: usize| #[trigger] feeds_component(succ, comp_of, k, x) {
        let m = choose|m: u32| #[trigger]
            highest_upstream(succ, comp_of, before, x, m) && before[x] == (if deep || meets_upstream(succ, comp_of, before, x, m) {
                m + 1
            } else {
                m as int
            });
        let k = choose|k: usize| #[trigger]
            feeds_component(succ, comp_of, k, x) && before[k as int] == m;
        assert(feeds_component(succ, comp_of, k, x) && order[k as int] == m);
        assert(highest_upstream(succ, comp_of, order, x, m));
        assert(meets_upstream(succ, comp_of, order, x, m) == meets_upstream(
            succ,
            comp_of,
            before,
            x,
            m,
        )) by {
            if meets_upstream(succ, comp_of, before, x, m) {
                let (a, b) = choose|a: usize, b: usize|
                    #[trigger] feeds_component(succ, comp_of, a, x) && #[trigger] feeds_component(
                        succ,
                        comp_of,
                        b,
                        x,
                    ) && a != b && before[a as int] == m && before[b as int] == m;
                assert(feeds_component(succ, comp_of, a, x) && feeds_component(
                    succ,
                    comp_of,
                    b,
                    x,
                ) && order[a as int] == m && order[b as int] == m);
            }
            if meets_upstream(succ, comp_of, order, x, m) {
                let (a, b) = choose|a: usize, b: usize|
                    #[trigger] feeds_component(succ, comp_of, a, x) && #[trigger] feeds_component(
                        succ,
                        comp_of,
                        b,
                        x,
                    ) && a != b && order[a as int] == m && order[b as int] == m;
                assert(feeds_component(succ, comp_of, a, x) && feeds_component(
                    succ,
                    comp_of,
                    b,
                    x,
                ) && before[a as int] == m && before[b as int] == m);
            }
        }
    }
}

/// The numbering of the components, kept closed where only its consequences
/// matter.
#[verifier::opaque]
spec fn numbering(succ: Seq<Seq<usize>>, comp_of: Seq<usize>, count: nat) -> bool {
    is_numbering(succ, comp_of, count)
}

/// A tributary's component feeds the node's component.
proof fn lemma_tributary_feeds(
    succ: Seq<Seq<usize>>,
    comp_of: Seq<usize>,
    count: nat,
    p: int,
    v: int,
)
    requires
        numbering(succ, comp_of, count),
        0 <= v < succ.len(),
        tributary(succ, p, v),
    ensures
        0 <= p < succ.len(),
        feeds_component(succ, comp_of, comp_of[p], comp_of[v] as int),
{
    reveal(numbering);
    let w = choose|w: int| #[trigger] has_edge(succ, p, w) && strongly(succ, w, v);
    assert(comp_of[w] == comp_of[v]);
    assert(comp_of[p] != comp_of[v]);
}

/// A component that feeds the node's component holds a tributary.
proof fn lemma_feeding_tributary(
    succ: Seq<Seq<usize>>,
    comp_of: Seq<usize>,
    count: nat,
    k: usize,
    v: int,
) -> (p: int)
    requires
        numbering(succ, comp_of, count),
        0 <= v < succ.len(),
        feeds_component(succ, comp_of, k, comp_of[v] as int),
    ensures
        0 <= p < succ.len(),
        comp_of[p] == k,
        tributary(succ, p, v),
{
    reveal(numbering);
    let (p, w) = choose|p: int, w: int| #[trigger]
        has_edge(succ, p, w) && comp_of[p] == k && comp_of[w] == comp_of[v];
    assert(strongly(succ, w, v)) by {
        assert(comp_of[w] == comp_of[v]);
    }
    assert(!strongly(succ, p, v)) by {
        assert(comp_of[p] != comp_of[v]);
    }
    p
}

/// Nodes share a component exactly when they reach each other.
proof fn lemma_same_component(
    succ: Seq<Seq<usize>>,
    comp_of: Seq<usize>,
    count: nat,
    a: int,
    b: int,
)
    requires
        numbering(succ, comp_of, count),
        0 <= a < succ.len(),
        0 <= b < succ.len(),
    ensures
        comp_of[a] == comp_of[b] <==> strongly(succ, a, b),
{
    reveal(numbering);
}

/// Two tributaries of a node meet exactly when two components do.
proof fn lemma_meets(
    succ: Seq<Seq<usize>>,
    comp_of: Seq<usize>,
    count: nat,
    order: Seq<u32>,
    orders: Seq<u32>,
    v: int,
    m: u32,
)
    requires
        numbering(succ, comp_of, count),
        0 <= v < succ.len(),
        forall|x: int| 0 <= x < succ.len() ==> #[trigger] orders[x] == order[comp_of[x] as int],
    ensures
        meets(succ, orders, v, m) == meets_upstream(succ, comp_of, order, comp_of[v] as int, m),
{
    let c = comp_of[v] as int;
    if meets(succ, orders, v, m) {
        let (a, b) = choose|a: int, b: int|
            #[trigger] tributary(succ, a, v) && #[trigger] tributary(succ, b, v) && !strongly(
                succ,
                a,
                b,
            ) && orders[a] == m && orders[b] == m;
        lemma_tributary_feeds(succ, comp_of, count, a, v);
        lemma_tributary_feeds(succ, comp_of, count, b, v);
        lemma_same_component(succ, comp_of, count, a, b);
        assert(feeds_component(succ, comp_of, comp_of[a], c) && feeds_component(
            succ,
            comp_of,
            comp_of[b],
            c,
        ) && comp_of[a] != comp_of[b] && order[comp_of[a] as int] == m && order[comp_of[b] as int]
            == m);
    }
    if meets_upstream(succ, comp_of, order, c, m) {
        let (k, l) = choose|k: usize, l: usize|
            #[trigger] feeds_component(succ, comp_of, k, c) && #[trigger] feeds_component(
                succ,
                comp_of,
                l,
                c,
            ) && k != l && order[k as int] == m && order[l as int] == m;
        let a = lemma_feeding_tributary(succ, comp_of, count, k, v);
        let b = lemma_feeding_tributary(succ, comp_of, count, l, v);
        lemma_same_component(succ, comp_of, count, a, b);
        assert(tributary(succ, a, v) && tributary(succ, b, v) && !strongly(succ, a, b) && orders[a]
            == m && orders[b] == m);
    }
}

/// The rule for components is the rule for nodes.
proof fn lemma_node_order(
    succ: Seq<Seq<usize>>,
    comp_of: Seq<usize>,
    count: nat,
    deep: bool,
    order: Seq<u32>,
    orders: Seq<u32>,
    v: int,
)
    requires
        numbering(succ, comp_of, count),
        0 <= v < succ.len(),
        forall|x: int| 0 <= x < succ.len() ==> #[trigger] orders[x] == order[comp_of[x] as int],
        component_order_holds(
            succ,
            comp_of,
            deep,
            order,
            order[comp_of[v] as int],
            comp_of[v] as int,
        ),
    ensures
        order_holds(succ, deep, orders, v),
{
    let c = comp_of[v] as int;
    assert(orders[v] == order[c]);
    if exists|p: int| #[trigger] tributary(succ, p, v) {
        let p0 = choose|p: int| #[trigger] tributary(succ, p, v);
        lemma_tributary_feeds(succ, comp_of, count, p0, v);
        let m = choose|m: u32| #[trigger]
            highest_upstream(succ, comp_of, order, c, m) && order[c] == (if deep || meets_upstream(succ, comp_of, order, c, m) {
                m + 1
            } else {
                m as int
            });
        let k = choose|k: usize| #[trigger]
            feeds_component(succ, comp_of, k, c) && order[k as int] == m;
        let p = lemma_feeding_tributary(succ, comp_of, count, k, v);
        assert(tributary(succ, p, v) && orders[p] == m);
        assert forall|q: int| #[trigger] tributary(succ, q, v) implies orders[q] <= m by {
            lemma_tributary_feeds(succ, comp_of, count, q, v);
        }
        assert(highest(succ, orders, v, m));
        lemma_meets(succ, comp_of, count, order, orders, v, m);
    } else {
        assert forall|k: usize| !#[trigger] feeds_component(succ, comp_of, k, c) by {
            if feeds_component(succ, comp_of, k, c) {
                let p = lemma_feeding_tributary(succ, comp_of, count, k, v);
                assert(tributary(succ, p, v));
            }
        }
    }
}

} // verus!
