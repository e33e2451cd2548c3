//! Strongly connected components.

use vstd::prelude::*;

use crate::graph::{all, list_marked, members, only};
use crate::search::{
    edges_in_range, has_edge, reaching_is_transitive, rows, search, start_is_reached, walk_goes_on,
    Quest,
};

verus! {

/// Whether `b` can be reached from `a`. Every node reaches itself.
pub open spec fn linked(succ: Seq<Seq<usize>>, a: int, b: int) -> bool {
    (Quest { succ, start: only(succ.len(), a), open: all(succ.len()) }).reaches(b)
}

/// Whether two nodes reach each other.
pub open spec fn strongly(succ: Seq<Seq<usize>>, a: int, b: int) -> bool {
    linked(succ, a, b) && linked(succ, b, a)
}

/// Reaching is transitive.
pub proof fn linked_is_transitive(succ: Seq<Seq<usize>>, a: int, b: int, c: int)
    requires
        linked(succ, a, b),
        linked(succ, b, c),
    ensures
        linked(succ, a, c),
{
    let q = Quest { succ, start: only(succ.len(), a), open: all(succ.len()) };
    let r = Quest { succ, start: only(succ.len(), b), open: all(succ.len()) };
    reaching_is_transitive(q, r, c);
}

/// Every node reaches itself.
pub proof fn linked_is_reflexive(succ: Seq<Seq<usize>>, a: int)
    requires
        0 <= a < succ.len(),
    ensures
        linked(succ, a, a),
{
    start_is_reached(Quest { succ, start: only(succ.len(), a), open: all(succ.len()) }, a);
}

/// Every node reaches its successors.
pub proof fn edge_links(succ: Seq<Seq<usize>>, a: int, b: int)
    requires
        has_edge(succ, a, b),
    ensures
        linked(succ, a, b),
{
    linked_is_reflexive(succ, a);
    walk_goes_on(Quest { succ, start: only(succ.len(), a), open: all(succ.len()) }, a, b);
}

/// How many marks are set.
pub open spec fn marked(m: Seq<bool>) -> nat
    decreases m.len(),
{
    if m.len() == 0 {
        0
    } else {
        marked(m.drop_last()) + if m.last() {
            1nat
        } else {
            0nat
        }
    }
}

proof fn lemma_marked_le(a: Seq<bool>, b: Seq<bool>)
    requires
        a.len() == b.len(),
        forall|i: int| 0 <= i < a.len() && #[trigger] a[i] ==> b[i],
    ensures
        marked(a) <= marked(b) <= b.len(),
        (exists|i: int| 0 <= i < a.len() && !a[i] && #[trigger] b[i]) ==> marked(a) < marked(b),
    decreases a.len(),
{
    if a.len() > 0 {
        let x = a.drop_last();
        let y = b.drop_last();
        assert forall|i: int| 0 <= i < x.len() && #[trigger] x[i] implies y[i] by {
            assert(a[i]);
        }
        lemma_marked_le(x, y);
        if exists|i: int| 0 <= i < a.len() && !a[i] && #[trigger] b[i] {
            let i = choose|i: int| 0 <= i < a.len() && !a[i] && #[trigger] b[i];
            if i < x.len() {
                assert(!x[i] && y[i]);
            }
        }
        assert(a[a.len() - 1] == a.last());
        assert(b[b.len() - 1] == b.last());
    }
}

proof fn lemma_marked_some(m: Seq<bool>, i: int)
    requires
        0 <= i < m.len(),
        m[i],
    ensures
        marked(m) >= 1,
    decreases m.len(),
{
    if i < m.len() - 1 {
        lemma_marked_some(m.drop_last(), i);
    }
}

/// The nodes that `a` reaches.
pub open spec fn reach(succ: Seq<Seq<usize>>, a: int) -> Seq<bool> {
    Seq::new(succ.len(), |b: int| linked(succ, a, b))
}

pub proof fn lemma_reach_counts(succ: Seq<Seq<usize>>, a: int, b: int)
    requires
        0 <= a < succ.len(),
        0 <= b < succ.len(),
        linked(succ, a, b),
    ensures
        marked(reach(succ, b)) <= marked(reach(succ, a)) <= succ.len(),
        strongly(succ, a, b) ==> marked(reach(succ, b)) == marked(reach(succ, a)),
        !strongly(succ, a, b) ==> marked(reach(succ, b)) < marked(reach(succ, a)),
{
    let ra = reach(succ, a);
    let rb = reach(succ, b);
    assert forall|i: int| 0 <= i < rb.len() && #[trigger] rb[i] implies ra[i] by {
        linked_is_transitive(succ, a, b, i);
    }
    lemma_marked_le(rb, ra);
    if linked(succ, b, a) {
        assert forall|i: int| 0 <= i < ra.len() && #[trigger] ra[i] implies rb[i] by {
            linked_is_transitive(succ, b, a, i);
        }
        lemma_marked_le(ra, rb);
    } else {
        linked_is_reflexive(succ, a);
        assert(!rb[a] && ra[a]);
    }
}

/// What the component numbers say: nodes share one exactly when they reach
/// each other, and no edge leads to a component with a higher number.
pub open spec fn is_numbering(succ: Seq<Seq<usize>>, comp_of: Seq<usize>, count: nat) -> bool {
    &&& comp_of.len() == succ.len()
    &&& forall|a: int| 0 <= a < succ.len() ==> #[trigger] comp_of[a] < count
    &&& forall|a: int, b: int|
        0 <= a < succ.len() && 0 <= b < succ.len() ==> (#[trigger] comp_of[a]
            == #[trigger] comp_of[b] <==> strongly(succ, a, b))
    &&& forall|a: int, b: int| #[trigger] has_edge(succ, a, b) ==> comp_of[b] <= comp_of[a]
}

/// Marks on the members of a component.
pub open spec fn in_component(comp_of: Seq<usize>, c: int) -> Seq<bool> {
    Seq::new(comp_of.len(), |a: int| comp_of[a] == c)
}

/// The members of a component, in order.
pub open spec fn component(comp_of: Seq<usize>, c: int) -> Seq<usize> {
    members(in_component(comp_of, c))
}

fn count_marked(m: &Vec<bool>) -> (r: usize)
    ensures
        r == marked(m@),
        r <= m.len(),
{
    let mut n: usize = 0;
    let mut i: usize = 0;
    assert(m@.take(0) =~= Seq::empty());
    while i < m.len()
        invariant
            n <= i <= m.len(),
            n == marked(m@.take(i as int)),
        decreases m.len() - i,
    {
        assert(m@.take(i + 1).drop_last() =~= m@.take(i as int));
        if m[i] {
            n += 1;
        }
        i += 1;
    }
    assert(m@.take(i as int) =~= m@);
    n
}

fn reach_rows(succ: &Vec<Vec<usize>>) -> (r: Vec<Vec<bool>>)
    requires
        edges_in_range(rows(succ@)),
    ensures
        r.len() == succ.len(),
        forall|a: int| 0 <= a < r.len() ==> (#[trigger] r@[a])@ == reach(rows(succ@), a),
{
    let n: usize = succ.len();
    let ghost s = rows(succ@);
    let mut every: Vec<bool> = Vec::new();
    let mut i: usize = 0;
    while i < n
        invariant
            i <= n,
            every@ =~= all(n as nat).take(i as int),
        decreases n - i,
    {
        every.push(true);
        i += 1;
    }
    assert(every@ =~= all(n as nat));
    let mut out: Vec<Vec<bool>> = Vec::new();
    let mut a: usize = 0;
    while a < n
        invariant
            n == succ.len(),
            s == rows(succ@),
            s.len() == n,
            edges_in_range(s),
            every@ == all(n as nat),
            a <= n,
            out.len() == a,
            forall|x: int| 0 <= x < a ==> (#[trigger] out@[x])@ == reach(s, x),
        decreases n - a,
    {
        let mut start: Vec<bool> = Vec::new();
        let mut i: usize = 0;
        while i < n
            invariant
                i <= n,
                start@ =~= only(n as nat, a as int).take(i as int),
            decreases n - i,
        {
            start.push(i == a);
            i += 1;
        }
        assert(start@ =~= only(n as nat, a as int));
        let row = search(succ, &start, &every);
        assert(row@ =~= reach(s, a as int));
        out.push(row);
        a += 1;
    }
    out
}

/// Where the numbering stands: `next` components are numbered, exactly the
/// nodes below `next` in `comp_of` belong to them, and components that reach
/// fewer nodes have lower numbers.
spec fn numbered(succ: Seq<Seq<usize>>, comp_of: Seq<usize>, next: nat) -> bool {
    &&& comp_of.len() == succ.len()
    &&& forall|a: int, b: int|
        0 <= a < succ.len() && 0 <= b < succ.len() && comp_of[a] < next && comp_of[b] < next
            ==> (#[trigger] comp_of[a] == #[trigger] comp_of[b] <==> strongly(succ, a, b))
    &&& forall|a: int, b: int|
        0 <= a < succ.len() && 0 <= b < succ.len() && #[trigger] comp_of[a] < next && strongly(
            succ,
            a,
            b,
        ) ==> #[trigger] comp_of[b] < next
    &&& forall|a: int, b: int|
        0 <= a < succ.len() && 0 <= b < succ.len() && #[trigger] comp_of[a] < next
            && #[trigger] comp_of[b] < next && marked(reach(succ, a)) < marked(reach(succ, b))
            ==> comp_of[a] < comp_of[b]
    &&& forall|c: int|
        0 <= c < next ==> #[trigger] has_member(comp_of, c)
}

pub open spec fn has_member(comp_of: Seq<usize>, c: int) -> bool {
    exists|a: int| 0 <= a < comp_of.len() && #[trigger] comp_of[a] == c
}

/// Groups the nodes into components: the component of each node, and the
/// members of each component. Components come with sinks first: every edge
/// leads to the same or a lower number.
pub fn strongly_connected(n: usize, succ: &Vec<Vec<usize>>) -> (r: (Vec<usize>, Vec<Vec<usize>>))
    requires
        succ.len() == n,
        edges_in_range(rows(succ@)),
    ensures
        is_numbering(rows(succ@), r.0@, r.1@.len()),
        forall|c: int|
            0 <= c < r.1@.len() ==> (#[trigger] r.1@[c])@ == component(r.0@, c) && has_member(
                r.0@,
                c,
            ),
        r.1@.len() <= n,
{
    let ghost s = rows(succ@);
    assert(s.len() == n);
    let reach_of = reach_rows(succ);
    let mut counts: Vec<usize> = Vec::new();
    let mut comp_of: Vec<usize> = Vec::new();
    let mut i: usize = 0;
    while i < n
        invariant
            i <= n,
            s.len() == n,
            reach_of.len() == n,
            forall|x: int| 0 <= x < reach_of.len() ==> (#[trigger] reach_of@[x])@ == reach(s, x),
            counts.len() == i,
            comp_of.len() == i,
            forall|x: int| 0 <= x < i ==> #[trigger] counts@[x] == marked(reach(s, x)),
            forall|x: int| 0 <= x < i ==> #[trigger] counts@[x] <= n,
            forall|x: int| 0 <= x < i ==> #[trigger] comp_of@[x] == n,
        decreases n - i,
    {
        let row = &reach_of[i];
        assert(reach_of@[i as int]@ == reach(s, i as int));
        counts.push(count_marked(row));
        comp_of.push(n);
        i += 1;
    }
    let mut next: usize = 0;
    let mut c: usize = 0;
    proof {
        assert(numbered(s, comp_of@, 0));
        assert forall|x: int| 0 <= x < n implies #[trigger] counts@[x] >= 1 by {
            linked_is_reflexive(s, x);
            lemma_marked_some(reach(s, x), x);
        }
    }
    while c < n
        invariant
            s.len() == n,
            c <= n,
            next <= n,
            numbered(s, comp_of@, next as nat),
            comp_of.len() == n,
            counts.len() == n,
            reach_of.len() == n,
            forall|x: int| 0 <= x < reach_of.len() ==> (#[trigger] reach_of@[x])@ == reach(s, x),
            forall|x: int| 0 <= x < n ==> #[trigger] counts@[x] == marked(reach(s, x)),
            forall|x: int|
                0 <= x < n ==> (#[trigger] comp_of@[x] < next <==> counts@[x] <= c),
            forall|x: int| 0 <= x < n && comp_of@[x] >= next ==> #[trigger] comp_of@[x] == n,
        decreases n - c,
    {
        let mut a: usize = 0;
        while a < n
            invariant
                s.len() == n,
                c < n,
                next <= n,
                numbered(s, comp_of@, next as nat),
                comp_of.len() == n,
                counts.len() == n,
                reach_of.len() == n,
                forall|x: int|
                    0 <= x < reach_of.len() ==> (#[trigger] reach_of@[x])@ == reach(s, x),
                forall|x: int| 0 <= x < n ==> #[trigger] counts@[x] == marked(reach(s, x)),
                a <= n,
                forall|x: int|
                    0 <= x < n && counts@[x] <= c ==> #[trigger] comp_of@[x] < next,
                forall|x: int|
                    0 <= x < a && counts@[x] == c + 1 ==> #[trigger] comp_of@[x] < next,
                forall|x: int|
                    0 <= x < n && counts@[x] > c + 1 ==> #[trigger] comp_of@[x] >= next,
                forall|x: int| 0 <= x < n && comp_of@[x] >= next ==> #[trigger] comp_of@[x] == n,
            decreases n - a,
        {
            if counts[a] == c + 1 && comp_of[a] == n {
                proof {
                    lemma_next_below(s, comp_of@, next as nat, a as int);
                }
                let ghost before = comp_of@;
                let row = &reach_of[a];
                assert(row@ == reach(s, a as int));
                let mut b: usize = 0;
                while b < n
                    invariant
                        s.len() == n,
                        a < n,
                        next < n,
                        comp_of.len() == n,
                        before.len() == n,
                        reach_of.len() == n,
                        forall|x: int|
                            0 <= x < reach_of.len() ==> (#[trigger] reach_of@[x])@ == reach(s, x),
                        row@ == reach(s, a as int),
                        b <= n,
                        forall|x: int|
                            0 <= x < n ==> #[trigger] comp_of@[x] == (if x < b && strongly(
                                s,
                                a as int,
                                x,
                            ) {
                                next
                            } else {
                                before[x]
                            }),
                    decreases n - b,
                {
                    assert(reach_of@[b as int]@ == reach(s, b as int));
                    if row[b] && reach_of[b][a] {
                        comp_of.set(b, next);
                    }
                    b += 1;
                }
                proof {
                    lemma_number_one_more(s, before, comp_of@, next as nat, a as int);
                    assert forall|x: int| 0 <= x < n && counts@[x] > c + 1 implies
                        #[trigger] comp_of@[x] >= next + 1 by {
                        assert(before[x] >= next);
                        if strongly(s, a as int, x) {
                            lemma_reach_counts(s, a as int, x);
                        }
                    }
                    assert(comp_of@[a as int] == next) by {
                        linked_is_reflexive(s, a as int);
                    }
                    assert forall|x: int| 0 <= x < n && comp_of@[x] >= next + 1 implies
                        #[trigger] comp_of@[x] == n by {
                        assert(before[x] >= next);
                    }
                }
                next += 1;
            }
            a += 1;
        }
        c += 1;
    }
    proof {
        assert forall|x: int| 0 <= x < n implies #[trigger] comp_of@[x] < next by {
            linked_is_reflexive(s, x);
            lemma_reach_counts(s, x, x);
            assert(counts@[x] <= n);
        }
        assert forall|a: int, b: int| #[trigger] has_edge(s, a, b) implies comp_of@[b]
            <= comp_of@[a] by {
            edge_links(s, a, b);
            lemma_reach_counts(s, a, b);
            assert(comp_of@[a] < next && comp_of@[b] < next);
        }
    }
    let mut comps: Vec<Vec<usize>> = Vec::new();
    let mut k: usize = 0;
    while k < next
        invariant
            k <= next,
            comp_of.len() == n,
            comps.len() == k,
            forall|x: int| 0 <= x < k ==> (#[trigger] comps@[x])@ == component(comp_of@, x),
        decreases next - k,
    {
        let mut inside: Vec<bool> = Vec::new();
        let mut a: usize = 0;
        while a < n
            invariant
                a <= n,
                comp_of.len() == n,
                inside.len() == a,
                forall|x: int| 0 <= x < a ==> #[trigger] inside@[x] == (comp_of@[x] == k),
            decreases n - a,
        {
            inside.push(comp_of[a] == k);
            a += 1;
        }
        assert(inside@ =~= in_component(comp_of@, k as int));
        comps.push(list_marked(&inside));
        k += 1;
    }
    (comp_of, comps)
}

/// While a node has no number, fewer numbers than nodes are given out.
proof fn lemma_next_below(succ: Seq<Seq<usize>>, comp_of: Seq<usize>, next: nat, a: int)
    requires
        numbered(succ, comp_of, next),
        0 <= a < succ.len(),
        comp_of[a] >= next,
        next <= succ.len(),
    ensures
        next < succ.len(),
{
    if next == succ.len() {
        lemma_pigeons(comp_of, next, a);
    }
}

/// A list that is as long as there are numbers, and holds each, holds nothing
/// else.
proof fn lemma_pigeons(comp_of: Seq<usize>, next: nat, a: int)
    requires
        comp_of.len() == next,
        0 <= a < comp_of.len(),
        forall|c: int| 0 <= c < next ==> #[trigger] has_member(comp_of, c),
    ensures
        comp_of[a] < next,
{
    if comp_of[a] >= next {
        let at = Seq::new(
            next,
            |c: int| choose|x: int| 0 <= x < comp_of.len() && #[trigger] comp_of[x] == c,
        );
        assert forall|c: int| 0 <= c < next implies 0 <= #[trigger] at[c] < comp_of.len()
            && comp_of[at[c]] == c by {
            assert(has_member(comp_of, c));
        }
        let more = at.push(a);
        assert(more.no_duplicates()) by {
            assert forall|i: int, j: int|
                0 <= i < more.len() && 0 <= j < more.len() && i != j implies more[i] != more[j] by {
                if i < next {
                    assert(comp_of[at[i]] == i);
                }
                if j < next {
                    assert(comp_of[at[j]] == j);
                }
            }
        }
        more.unique_seq_to_set();
        let range = vstd::set_lib::set_int_range(0, next as int);
        vstd::set_lib::lemma_int_range(0, next as int);
        assert(more.to_set().subset_of(range)) by {
            assert forall|x: int| more.to_set().contains(x) implies range.contains(x) by {
                let i = choose|i: int| 0 <= i < more.len() && more[i] == x;
                if i < next {
                    assert(0 <= at[i] < comp_of.len());
                }
            }
        }
        vstd::set_lib::lemma_len_subset(more.to_set(), range);
    }
}

proof fn lemma_number_one_more(
    succ: Seq<Seq<usize>>,
    before: Seq<usize>,
    comp_of: Seq<usize>,
    next: nat,
    a: int,
)
    requires
        numbered(succ, before, next),
        0 <= a < succ.len(),
        before[a] >= next,
        next < succ.len() <= usize::MAX,
        comp_of.len() == succ.len(),
        forall|x: int|
            0 <= x < succ.len() ==> #[trigger] comp_of[x] == (if strongly(succ, a, x) {
                next as usize
            } else {
                before[x]
            }),
        forall|x: int|
            0 <= x < succ.len() && before[x] >= next ==> #[trigger] before[x] == succ.len(),
        forall|x: int|
            0 <= x < succ.len() && #[trigger] before[x] < next ==> marked(reach(succ, x))
                <= marked(reach(succ, a)),
    ensures
        numbered(succ, comp_of, next + 1),
{
    linked_is_reflexive(succ, a);
    assert forall|x: int| 0 <= x < succ.len() && strongly(succ, a, x) implies #[trigger] before[x]
        >= next by {
        if before[x] < next {
            assert(strongly(succ, x, a));
        }
    }
    assert forall|x: int, y: int|
        0 <= x < succ.len() && 0 <= y < succ.len() && comp_of[x] < next + 1 && comp_of[y] < next
            + 1 implies (#[trigger] comp_of[x] == #[trigger] comp_of[y] <==> strongly(
        succ,
        x,
        y,
    )) by {
        if strongly(succ, a, x) && strongly(succ, a, y) {
            linked_is_transitive(succ, x, a, y);
            linked_is_transitive(succ, y, a, x);
        } else if strongly(succ, a, x) {
            if strongly(succ, x, y) {
                linked_is_transitive(succ, a, x, y);
                linked_is_transitive(succ, y, x, a);
            }
        } else if strongly(succ, a, y) {
            if strongly(succ, x, y) {
                linked_is_transitive(succ, a, y, x);
                linked_is_transitive(succ, x, y, a);
            }
        } else {
            assert(before[x] == comp_of[x] && before[y] == comp_of[y]);
        }
    }
    assert forall|x: int, y: int|
        0 <= x < succ.len() && 0 <= y < succ.len() && #[trigger] comp_of[x] < next + 1
            && strongly(succ, x, y) implies #[trigger] comp_of[y] < next + 1 by {
        if strongly(succ, a, x) {
            linked_is_transitive(succ, a, x, y);
            linked_is_transitive(succ, y, x, a);
        } else {
            assert(before[x] < next);
            assert(before[y] < next);
            if strongly(succ, a, y) {
                assert(before[y] >= next);
            }
        }
    }
    assert forall|x: int, y: int|
        0 <= x < succ.len() && 0 <= y < succ.len() && #[trigger] comp_of[x] < next + 1
            && #[trigger] comp_of[y] < next + 1 && marked(reach(succ, x)) < marked(
            reach(succ, y),
        ) implies comp_of[x] < comp_of[y] by {
        if strongly(succ, a, x) {
            lemma_reach_counts(succ, a, x);
            if strongly(succ, a, y) {
                lemma_reach_counts(succ, a, y);
            } else {
                assert(before[y] < next);
            }
        } else if strongly(succ, a, y) {
            assert(before[x] < next);
        } else {
            assert(before[x] < next && before[y] < next);
        }
    }
    assert forall|c: int| 0 <= c < next + 1 implies #[trigger] has_member(comp_of, c) by {
        if c == next {
            assert(comp_of[a] == c);
        } else {
            assert(has_member(before, c));
            let x = choose|x: int| 0 <= x < before.len() && #[trigger] before[x] == c;
            assert(comp_of[x] == c);
        }
    }
}

} // verus!
