//! Where a value stands among others, by counting.

use vstd::prelude::*;

verus! {

/// How many of the first `k` values are below `x`.
pub open spec fn below(v: Seq<int>, x: int, k: int) -> nat
    decreases k,
{
    if k <= 0 || k > v.len() {
        0
    } else {
        below(v, x, k - 1) + if v[k - 1] < x {
            1nat
        } else {
            0nat
        }
    }
}

/// How many of the first `k` values equal `x`.
pub open spec fn tied(v: Seq<int>, x: int, k: int) -> nat
    decreases k,
{
    if k <= 0 || k > v.len() {
        0
    } else {
        tied(v, x, k - 1) + if v[k - 1] == x {
            1nat
        } else {
            0nat
        }
    }
}

/// A value is counted once at most.
pub proof fn lemma_counts(v: Seq<int>, x: int, k: int)
    requires
        0 <= k <= v.len(),
    ensures
        below(v, x, k) + tied(v, x, k) <= k,
    decreases k,
{
    if k > 0 {
        lemma_counts(v, x, k - 1);
    }
}

/// A value equals itself.
pub proof fn lemma_tied_self(v: Seq<int>, i: int, k: int)
    requires
        0 <= i < k <= v.len(),
    ensures
        tied(v, v[i], k) >= 1,
    decreases k,
{
    if i < k - 1 {
        lemma_tied_self(v, i, k - 1);
    }
}

/// What is not above a value is below every greater one.
pub proof fn lemma_below_grows(v: Seq<int>, x: int, y: int, k: int)
    requires
        0 <= k <= v.len(),
        x < y,
    ensures
        below(v, x, k) + tied(v, x, k) <= below(v, y, k),
    decreases k,
{
    if k > 0 {
        lemma_below_grows(v, x, y, k - 1);
    }
}

proof fn lemma_without(v: Seq<int>, x: int, j: int, k: int)
    requires
        0 <= j < v.len(),
        0 <= k <= v.len(),
    ensures
        k <= j ==> below(v.remove(j), x, k) == below(v, x, k) && tied(v.remove(j), x, k) == tied(
            v,
            x,
            k,
        ),
        k > j ==> below(v.remove(j), x, k - 1) + (if v[j] < x {
            1nat
        } else {
            0nat
        }) == below(v, x, k) && tied(v.remove(j), x, k - 1) + (if v[j] == x {
            1nat
        } else {
            0nat
        }) == tied(v, x, k),
    decreases k,
{
    if k > 0 {
        lemma_without(v, x, j, k - 1);
    }
}

/// Counts over what a list holds are at most those over what a list with all
/// of it, and perhaps more, holds.
pub proof fn lemma_counts_of_part<A>(a: Seq<A>, b: Seq<A>, f: spec_fn(A) -> int, x: int)
    requires
        a.no_duplicates(),
        forall|i: int| 0 <= i < a.len() ==> b.contains(#[trigger] a[i]),
    ensures
        a.len() <= b.len(),
        below(a.map_values(f), x, a.len() as int) <= below(b.map_values(f), x, b.len() as int),
        tied(a.map_values(f), x, a.len() as int) <= tied(b.map_values(f), x, b.len() as int),
    decreases a.len(),
{
    if a.len() > 0 {
        let last = a.len() - 1;
        let rest = a.drop_last();
        let j = choose|j: int| 0 <= j < b.len() && b[j] == a[last];
        assert(b.contains(a[last]));
        let less = b.remove(j);
        assert forall|i: int| 0 <= i < rest.len() implies less.contains(#[trigger] rest[i]) by {
            assert(b.contains(a[i]));
            let n = choose|n: int| 0 <= n < b.len() && b[n] == a[i];
            assert(a[i] != a[last]);
            assert(less[if n < j { n } else { n - 1 }] == a[i]);
        }
        lemma_counts_of_part(rest, less, f, x);
        assert(less.map_values(f) =~= b.map_values(f).remove(j));
        assert(a.map_values(f).remove(last) =~= rest.map_values(f));
        lemma_without(b.map_values(f), x, j, b.len() as int);
        lemma_without(a.map_values(f), x, last, a.len() as int);
    }
}

} // verus!
