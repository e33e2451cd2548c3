//! The dependence graph: what a node's value or execution rests on.

use vstd::prelude::*;

use crate::graph::{list_marked, members, members_are_marked, Def};
use crate::ir::NodeId;
use crate::search::{edges_in_range, rows};

verus! {

/// Whether `j` reads a definition that `i` made, or `i` decides if `j` runs.
pub open spec fn depends(
    defs_at: Seq<Vec<usize>>,
    def_users: Seq<Vec<usize>>,
    ctrl_deps: Seq<Vec<usize>>,
    i: int,
    j: int,
) -> bool {
    ctrl_deps[j]@.contains(i as usize) || exists|k: int|
        0 <= k < defs_at[i]@.len() && def_users[#[trigger] defs_at[i]@[k] as int]@.contains(
            j as usize,
        )
}

/// The nodes that depend on `i`.
pub open spec fn dependents(
    n: nat,
    defs_at: Seq<Vec<usize>>,
    def_users: Seq<Vec<usize>>,
    ctrl_deps: Seq<Vec<usize>>,
    i: int,
) -> Seq<bool> {
    Seq::new(n, |j: int| depends(defs_at, def_users, ctrl_deps, i, j))
}

fn holds(list: &Vec<usize>, x: usize) -> (r: bool)
    ensures
        r == list@.contains(x),
{
    crate::ts::tree::has_index(list.as_slice(), x)
}

/// Dependence edges `i -> j`: a definition of `i` feeds a use of `j`, or the
/// branch `i` decides if `j` runs. In order, without duplicates.
pub fn dependence_successors(
    n: usize,
    defs: &Vec<Def>,
    defs_at: &Vec<Vec<usize>>,
    def_users: &Vec<Vec<NodeId>>,
    ctrl_deps: &Vec<Vec<NodeId>>,
) -> (r: Vec<Vec<NodeId>>)
    requires
        defs_at.len() == n,
        ctrl_deps.len() == n,
        def_users.len() == defs.len(),
        forall|i: int, k: int|
            0 <= i < n && 0 <= k < defs_at@[i]@.len() ==> #[trigger] defs_at@[i]@[k] < defs.len(),
    ensures
        r.len() == n,
        forall|i: int|
            0 <= i < n ==> (#[trigger] r@[i])@ == members(
                dependents(n as nat, defs_at@, def_users@, ctrl_deps@, i),
            ),
        edges_in_range(rows(r@)),
{
    let mut out: Vec<Vec<NodeId>> = Vec::new();
    let mut i: usize = 0;
    while i < n
        invariant
            defs_at.len() == n,
            ctrl_deps.len() == n,
            def_users.len() == defs.len(),
            forall|i: int, k: int|
                0 <= i < n && 0 <= k < defs_at@[i]@.len() ==> #[trigger] defs_at@[i]@[k]
                    < defs.len(),
            i <= n,
            out.len() == i,
            forall|x: int|
                0 <= x < i ==> (#[trigger] out@[x])@ == members(
                    dependents(n as nat, defs_at@, def_users@, ctrl_deps@, x),
                ),
        decreases n - i,
    {
        let mut marks: Vec<bool> = Vec::new();
        let mut j: usize = 0;
        while j < n
            invariant
                defs_at.len() == n,
                ctrl_deps.len() == n,
                def_users.len() == defs.len(),
                forall|i: int, k: int|
                    0 <= i < n && 0 <= k < defs_at@[i]@.len() ==> #[trigger] defs_at@[i]@[k]
                        < defs.len(),
                i < n,
                j <= n,
                marks.len() == j,
                forall|x: int|
                    0 <= x < j ==> #[trigger] marks@[x] == depends(
                        defs_at@,
                        def_users@,
                        ctrl_deps@,
                        i as int,
                        x,
                    ),
            decreases n - j,
        {
            let mut found: bool = holds(&ctrl_deps[j], i);
            let made = &defs_at[i];
            let mut k: usize = 0;
            while k < made.len()
                invariant
                    defs_at.len() == n,
                    ctrl_deps.len() == n,
                    def_users.len() == defs.len(),
                    i < n,
                    j < n,
                    made@ == defs_at@[i as int]@,
                    forall|k: int|
                        0 <= k < made@.len() ==> #[trigger] defs_at@[i as int]@[k] < defs.len(),
                    k <= made.len(),
                    found == (ctrl_deps@[j as int]@.contains(i) || exists|x: int|
                        0 <= x < k && def_users@[#[trigger] defs_at@[i as int]@[x] as int]@.contains(
                            j,
                        )),
                decreases made.len() - k,
            {
                assert(defs_at@[i as int]@[k as int] < defs.len());
                if holds(&def_users[made[k]], j) {
                    assert(def_users@[defs_at@[i as int]@[k as int] as int]@.contains(j));
                    found = true;
                }
                k += 1;
            }
            marks.push(found);
            j += 1;
        }
        assert(marks@ =~= dependents(n as nat, defs_at@, def_users@, ctrl_deps@, i as int));
        out.push(list_marked(&marks));
        i += 1;
    }
    proof {
        let s = rows(out@);
        assert forall|a: int, k: int| 0 <= a < s.len() && 0 <= k < s[a].len() implies
            #[trigger] s[a][k] < s.len() by {
            let m = dependents(n as nat, defs_at@, def_users@, ctrl_deps@, a);
            assert(s[a] == members(m));
            members_are_marked(m, s[a][k]);
            assert(s[a].contains(s[a][k]));
        }
    }
    out
}

} // verus!
