//! Sets of numbers as ascending lists.

use vstd::prelude::*;

use crate::ir::VarId;

verus! {

/// Two lists that hold the same and are strictly ordered by the same key are
/// one.
pub proof fn listing_is_unique<A>(p: Seq<A>, q: Seq<A>, key: spec_fn(A) -> int)
    requires
        forall|i: int, j: int|
            0 <= i < j < p.len() ==> key(#[trigger] p[i]) < key(#[trigger] p[j]),
        forall|i: int, j: int|
            0 <= i < j < q.len() ==> key(#[trigger] q[i]) < key(#[trigger] q[j]),
        forall|x: A| #[trigger] p.contains(x) == q.contains(x),
    ensures
        p == q,
    decreases p.len(),
{
    if p.len() == 0 || q.len() == 0 {
        if p.len() > 0 {
            assert(p.contains(p[0]));
        }
        if q.len() > 0 {
            assert(q.contains(q[0]));
            assert(p.contains(q[0]) == q.contains(q[0]));
        }
        assert(p =~= q);
    } else {
        let a = p.last();
        let b = q.last();
        assert(p.contains(a));
        assert(q.contains(b));
        assert(p.contains(b) == q.contains(b));
        let i = choose|i: int| 0 <= i < q.len() && q[i] == a;
        let j = choose|j: int| 0 <= j < p.len() && p[j] == b;
        if i < q.len() - 1 {
            assert(key(q[i]) < key(q[q.len() - 1]));
            if j < p.len() - 1 {
                assert(key(p[j]) < key(p[p.len() - 1]));
            }
        }
        assert(a == b);
        let p1 = p.drop_last();
        let q1 = q.drop_last();
        assert forall|x: A| #[trigger] p1.contains(x) == q1.contains(x) by {
            assert(p.contains(x) == q.contains(x));
            if p1.contains(x) {
                let k = choose|k: int| 0 <= k < p1.len() && p1[k] == x;
                assert(p[k] == x);
                assert(key(p[k]) < key(p[p.len() - 1]));
                let m = choose|m: int| 0 <= m < q.len() && q[m] == x;
                assert(q1[m] == x);
            }
            if q1.contains(x) {
                let k = choose|k: int| 0 <= k < q1.len() && q1[k] == x;
                assert(q[k] == x);
                assert(key(q[k]) < key(q[q.len() - 1]));
                let m = choose|m: int| 0 <= m < p.len() && p[m] == x;
                assert(p1[m] == x);
            }
        }
        assert forall|i: int, j: int| 0 <= i < j < p1.len() implies key(#[trigger] p1[i]) < key(
            #[trigger] p1[j],
        ) by {
            assert(p1[i] == p[i] && p1[j] == p[j]);
        }
        assert forall|i: int, j: int| 0 <= i < j < q1.len() implies key(#[trigger] q1[i]) < key(
            #[trigger] q1[j],
        ) by {
            assert(q1[i] == q[i] && q1[j] == q[j]);
        }
        listing_is_unique(p1, q1, key);
        assert(p =~= p1.push(a));
        assert(q =~= q1.push(b));
    }
}

/// Whether every number is greater than the one before it.
pub open spec fn vars_ascend(q: Seq<VarId>) -> bool {
    forall|i: int, j: int| 0 <= i < j < q.len() ==> #[trigger] q[i] < #[trigger] q[j]
}

/// The numbers of a finite set in ascending order.
pub open spec fn vars_listed(s: Set<VarId>) -> Seq<VarId> {
    choose|q: Seq<VarId>| vars_ascend(q) && #[trigger] q.to_set() == s
}

/// Only one ascending list holds the numbers of a set.
pub proof fn vars_listing_is_unique(p: Seq<VarId>, q: Seq<VarId>)
    requires
        vars_ascend(p),
        vars_ascend(q),
        p.to_set() == q.to_set(),
    ensures
        p == q,
{
    assert forall|x: VarId| #[trigger] p.contains(x) == q.contains(x) by {
        if p.contains(x) {
            assert(p.to_set().contains(x));
            assert(q.to_set().contains(x));
        }
        if q.contains(x) {
            assert(q.to_set().contains(x));
            assert(p.to_set().contains(x));
        }
    }
    listing_is_unique(p, q, |x: VarId| x as int);
}

/// An ascending list is the listing of its numbers.
pub proof fn lemma_vars_listed(q: Seq<VarId>)
    requires
        vars_ascend(q),
    ensures
        vars_listed(q.to_set()) == q,
{
    let s = q.to_set();
    assert(vars_ascend(q) && q.to_set() == s);
    vars_listing_is_unique(vars_listed(s), q);
}

/// A list that holds a number more, in ascending order.
pub proof fn with_var(q: Seq<VarId>, x: VarId) -> (r: Seq<VarId>)
    requires
        vars_ascend(q),
    ensures
        vars_ascend(r),
        r.to_set() == q.to_set().insert(x),
    decreases q.len(),
{
    if q.len() == 0 {
        let r = seq![x];
        assert(r[0] == x);
        assert(r.to_set() =~= q.to_set().insert(x)) by {
            assert forall|y: VarId| r.to_set().contains(y) == (y == x) by {
                if y == x {
                    assert(r.contains(x));
                }
            }
        }
        r
    } else if q.last() == x {
        assert(q.contains(x));
        assert(q.to_set() =~= q.to_set().insert(x));
        q
    } else if q.last() < x {
        let r = q.push(x);
        lemma_pushed_set(q, x);
        r
    } else {
        let rest = q.drop_last();
        let inner = with_var(rest, x);
        let r = inner.push(q.last());
        assert(q =~= rest.push(q.last()));
        lemma_pushed_set(rest, q.last());
        lemma_pushed_set(inner, q.last());
        assert(r.to_set() =~= q.to_set().insert(x));
        assert forall|i: int, j: int| 0 <= i < j < r.len() implies #[trigger] r[i]
            < #[trigger] r[j] by {
            if j == inner.len() {
                assert(inner.to_set().contains(inner[i]));
                if inner[i] != x {
                    assert(rest.contains(inner[i]));
                }
            }
        }
        r
    }
}

proof fn lemma_pushed_set(q: Seq<VarId>, x: VarId)
    ensures
        q.push(x).to_set() == q.to_set().insert(x),
{
    let r = q.push(x);
    assert forall|y: VarId| r.to_set().contains(y) == q.to_set().insert(x).contains(y) by {
        if q.contains(y) {
            let i = choose|i: int| 0 <= i < q.len() && q[i] == y;
            assert(r[i] == y);
        }
        if r.contains(y) && y != x {
            let i = choose|i: int| 0 <= i < r.len() && r[i] == y;
            assert(q[i] == y);
        }
        if y == x {
            assert(r[q.len() as int] == x);
        }
    }
    assert(r.to_set() =~= q.to_set().insert(x));
}

/// Puts a number into an ascending list, unless it is there.
pub fn put_var(q: &mut Vec<VarId>, x: VarId)
    requires
        vars_ascend(old(q)@),
    ensures
        vars_ascend(final(q)@),
        final(q)@.to_set() == old(q)@.to_set().insert(x),
{
    let ghost s = q@;
    let mut p: usize = q.len();
    while p > 0 && q[p - 1] > x
        invariant
            p <= q.len(),
            q@ == s,
            forall|k: int| p <= k < s.len() ==> #[trigger] s[k] > x,
        decreases p,
    {
        p -= 1;
    }
    if p > 0 && q[p - 1] == x {
        assert(s.to_set() =~= s.to_set().insert(x)) by {
            assert(s.contains(s[p - 1]));
        }
        return ;
    }
    q.insert(p, x);
    proof {
        let t = q@;
        assert(t =~= s.insert(p as int, x));
        assert forall|i: int, j: int| 0 <= i < j < t.len() implies #[trigger] t[i]
            < #[trigger] t[j] by {
            if p > 0 {
                assert(s[p - 1] < x);
                if i < p - 1 {
                    assert(s[i] < s[p - 1]);
                }
            }
            if i < p && j > p {
                assert(s[i] < s[j - 1]);
            }
            if j < p {
                assert(s[i] < s[j]);
            }
            if i > p {
                assert(s[i - 1] < s[j - 1]);
            }
        }
        assert forall|y: VarId| t.to_set().contains(y) == s.to_set().insert(x).contains(y) by {
            if t.contains(y) {
                let k = choose|k: int| 0 <= k < t.len() && t[k] == y;
                if k < p {
                    assert(s[k] == y);
                } else if k > p {
                    assert(s[k - 1] == y);
                }
            }
            if s.contains(y) {
                let k = choose|k: int| 0 <= k < s.len() && s[k] == y;
                if k < p {
                    assert(t[k] == y);
                } else {
                    assert(t[k + 1] == y);
                }
            }
            assert(t[p as int] == x);
        }
        assert(t.to_set() =~= s.to_set().insert(x));
    }
}

/// Whether every number is greater than the one before it.
pub open spec fn ids_ascend(q: Seq<usize>) -> bool {
    forall|i: int, j: int| 0 <= i < j < q.len() ==> #[trigger] q[i] < #[trigger] q[j]
}

/// The numbers of a finite set in ascending order.
pub open spec fn ids_listed(s: Set<usize>) -> Seq<usize> {
    choose|q: Seq<usize>| ids_ascend(q) && #[trigger] q.to_set() == s
}

/// Only one ascending list holds the numbers of a set.
pub proof fn ids_listing_is_unique(p: Seq<usize>, q: Seq<usize>)
    requires
        ids_ascend(p),
        ids_ascend(q),
        p.to_set() == q.to_set(),
    ensures
        p == q,
{
    assert forall|x: usize| #[trigger] p.contains(x) == q.contains(x) by {
        if p.contains(x) {
            assert(p.to_set().contains(x));
            assert(q.to_set().contains(x));
        }
        if q.contains(x) {
            assert(q.to_set().contains(x));
            assert(p.to_set().contains(x));
        }
    }
    listing_is_unique(p, q, |x: usize| x as int);
}

/// An ascending list is the listing of its numbers.
pub proof fn lemma_ids_listed(q: Seq<usize>)
    requires
        ids_ascend(q),
    ensures
        ids_listed(q.to_set()) == q,
{
    let s = q.to_set();
    assert(ids_ascend(q) && q.to_set() == s);
    ids_listing_is_unique(ids_listed(s), q);
}

/// Puts a number into an ascending list, unless it is there.
pub fn put_id(q: &mut Vec<usize>, x: usize)
    requires
        ids_ascend(old(q)@),
    ensures
        ids_ascend(final(q)@),
        final(q)@.to_set() == old(q)@.to_set().insert(x),
{
    let ghost s = q@;
    let mut p: usize = q.len();
    while p > 0 && q[p - 1] > x
        invariant
            p <= q.len(),
            q@ == s,
            forall|k: int| p <= k < s.len() ==> #[trigger] s[k] > x,
        decreases p,
    {
        p -= 1;
    }
    if p > 0 && q[p - 1] == x {
        assert(s.to_set() =~= s.to_set().insert(x)) by {
            assert(s.contains(s[p - 1]));
        }
        return ;
    }
    q.insert(p, x);
    proof {
        let t = q@;
        assert(t =~= s.insert(p as int, x));
        assert forall|i: int, j: int| 0 <= i < j < t.len() implies #[trigger] t[i]
            < #[trigger] t[j] by {
            if p > 0 {
                assert(s[p - 1] < x);
                if i < p - 1 {
                    assert(s[i] < s[p - 1]);
                }
            }
            if i < p && j > p {
                assert(s[i] < s[j - 1]);
            }
            if j < p {
                assert(s[i] < s[j]);
            }
            if i > p {
                assert(s[i - 1] < s[j - 1]);
            }
        }
        assert forall|y: usize| t.to_set().contains(y) == s.to_set().insert(x).contains(y) by {
            if t.contains(y) {
                let k = choose|k: int| 0 <= k < t.len() && t[k] == y;
                if k < p {
                    assert(s[k] == y);
                } else if k > p {
                    assert(s[k - 1] == y);
                }
            }
            if s.contains(y) {
                let k = choose|k: int| 0 <= k < s.len() && s[k] == y;
                if k < p {
                    assert(t[k] == y);
                } else {
                    assert(t[k + 1] == y);
                }
            }
            assert(t[p as int] == x);
        }
        assert(t.to_set() =~= s.to_set().insert(x));
    }
}

} // verus!
