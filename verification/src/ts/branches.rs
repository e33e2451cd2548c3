//! What the branches of each language come to: `if`, matches and handlers, and
//! the blocks that hold statements.

use vstd::prelude::*;

use crate::flow::{lemma_stands_on, stands};
use crate::ir::{KindView, NodeView};
use crate::ts::constructs::{lemma_no_field, lemma_sorts, lemma_start};
use crate::ts::laws::{
    ends, lemma_block_lowered, lemma_catches, lemma_if_chain, lemma_refl, lemma_seq_lowered,
    lemma_stmt, lemma_then, lemma_unit_after, live, same_node, settled,
};
use crate::ts::model::{
    block_entered, block_lowered, catches_lowered, entered, error_noted, finally_body, if_alts,
    if_chain_lowered, seq_lowered, stmt_lowered, try_else_body, unit_after, unwrapped, Env, Walk,
};
use crate::ts::shapes::{
    came_to, lemma_came_stays, lemma_goes, lemma_ran, lemma_settled_ranged, lemma_unit_came, runs,
};
use crate::ts::statements::a_wrapper_adds_nothing;
use crate::ts::state::in_range;
use crate::ts::tree::{below, child_by_field, child_of_kind, kids, lemma_kid, Pick};
use crate::ts::Language;

verus! {

/// Whether a condition with what follows it and the alternatives from the
/// `k`-th on stands among the nodes, entered from `from` and left from `to`.
pub open spec fn chain_runs(
    e: Env,
    before: nat,
    nodes: Seq<NodeView>,
    top: int,
    cond: int,
    then_: int,
    alts: Seq<int>,
    k: int,
    from: Seq<usize>,
    to: Seq<usize>,
) -> bool {
    exists|u: Walk|
        u.nodes.len() >= before && stands(
            (#[trigger] if_chain_lowered(e, u, top, cond, then_, alts, k, from)).0.nodes,
            nodes,
        ) && if_chain_lowered(e, u, top, cond, then_, alts, k, from).1 == to
}

/// A condition, in an `if` or an `elif`, branches: one way leads through what
/// follows when it holds, the other through the next alternative, or past it
/// where there is none; control leaves from the ends of both ways.
pub open spec fn branches(
    e: Env,
    before: nat,
    nodes: Seq<NodeView>,
    top: int,
    cond: int,
    then_: int,
    alts: Seq<int>,
    k: int,
    open: Seq<usize>,
    branch: usize,
    held: Seq<usize>,
    other: Seq<usize>,
) -> bool {
    &&& came_to(e, before, nodes, cond, Some(cond), KindView::Branch, open, branch)
    &&& runs(e, before, nodes, then_, seq![branch], held)
    &&& if k >= alts.len() {
        other == seq![branch]
    } else if e.t[alts[k]].kind == "elif_clause"@ {
        match (
            child_by_field(e.t, alts[k], "condition"@),
            child_by_field(e.t, alts[k], "consequence"@),
        ) {
            (Some(c), Some(t)) => chain_runs(
                e,
                before,
                nodes,
                top,
                c,
                t,
                alts,
                k + 1,
                seq![branch],
                other,
            ),
            _ => other == seq![branch],
        }
    } else {
        runs(e, before, nodes, alts[k], seq![branch], other)
    }
}

proof fn lemma_chain_branches(
    e: Env,
    w: Walk,
    top: int,
    cond: int,
    then_: int,
    alts: Seq<int>,
    k: int,
    open: Seq<usize>,
) -> (r: (usize, Seq<usize>, Seq<usize>))
    requires
        settled(w),
        live(w, open),
        0 <= k,
        below(e.t, top, then_),
        forall|j: int| 0 <= j < alts.len() ==> below(e.t, top, #[trigger] alts[j]),
        if_chain_lowered(e, w, top, cond, then_, alts, k, open).0.nodes.len() <= usize::MAX,
        k < alts.len() ==> (e.t[alts[k]].kind == "elif_clause"@ ==> e.g.elif_kind == Some(
            "elif_clause"@,
        ) && !e.g.wrapper_kinds.contains("elif_clause"@) && e.g.if_cond_field == "condition"@
            && e.g.if_then_field == "consequence"@),
        k < alts.len() ==> (e.t[alts[k]].kind != "elif_clause"@ ==> e.g.elif_kind != Some(
            e.t[unwrapped(e.g, e.t, alts[k])].kind,
        )),
    ensures
        ({
            let (w1, exits) = if_chain_lowered(e, w, top, cond, then_, alts, k, open);
            &&& branches(
                e,
                w.nodes.len(),
                w1.nodes,
                top,
                cond,
                then_,
                alts,
                k,
                open,
                r.0,
                r.1,
                r.2,
            )
            &&& exits == r.1 + r.2
        }),
{
    let n = w.nodes.len();
    lemma_settled_ranged(w, open);
    let (w1, branch) = unit_after(e, w, cond, KindView::Branch, open);
    lemma_unit_after(e, w, cond, KindView::Branch, open);
    let one = seq![branch];
    assert(one[0] == branch);
    lemma_stmt(e, w1, then_, one);
    let (w2, held) = stmt_lowered(e, w1, then_, one);
    let (w3, exits) = if_chain_lowered(e, w, top, cond, then_, alts, k, open);
    assert(branch < w2.nodes.len());
    assert forall|j: int| 0 <= j < open.len() implies (#[trigger] open[j]) < w1.nodes.len() by {
        assert(open[j] < w.nodes.len());
    }
    assert(stands(w2.nodes, w2.nodes));
    if k >= alts.len() {
        lemma_unit_came(e, w, cond, KindView::Branch, open);
        lemma_goes(w, open, w1, one);
        lemma_goes(w1, one, w2, held);
        lemma_came_stays(
            e,
            n,
            n,
            w1.nodes,
            w2.nodes,
            cond,
            Some(cond),
            KindView::Branch,
            open,
            branch,
        );
        lemma_ran(e, n, w1, w2.nodes, then_, one, held);
        assert(held.push(branch) =~= held + one);
        (branch, held, one)
    } else {
        assert(below(e.t, top, alts[k]));
        let alt = unwrapped(e.g, e.t, alts[k]);
        let elif = e.t[alts[k]].kind == "elif_clause"@;
        let c2 = child_by_field(e.t, alt, e.g.if_cond_field);
        let t2 = child_by_field(e.t, alt, e.g.if_then_field);
        if elif && (c2 is None || t2 is None) {
            lemma_unit_came(e, w, cond, KindView::Branch, open);
            lemma_goes(w, open, w1, one);
            lemma_goes(w1, one, w2, held);
            lemma_came_stays(
                e,
                n,
                n,
                w1.nodes,
                w2.nodes,
                cond,
                Some(cond),
                KindView::Branch,
                open,
                branch,
            );
            lemma_ran(e, n, w1, w2.nodes, then_, one, held);
            assert(held.push(branch) =~= held + one);
            (branch, held, one)
        } else {
            let (x3, other) = if elif {
                if_chain_lowered(e, w2, top, c2->0, t2->0, alts, k + 1, one)
            } else {
                stmt_lowered(e, w2, alt, one)
            };
            if elif {
                lemma_if_chain(e, w2, top, c2->0, t2->0, alts, k + 1, one);
            } else {
                lemma_stmt(e, w2, alt, one);
            }
            assert(x3 == w3);
            lemma_unit_came(e, w, cond, KindView::Branch, open);
            lemma_goes(w, open, w1, one);
            lemma_goes(w1, one, w2, held);
            assert(same_node(w1.nodes[branch as int], w2.nodes[branch as int]));
            assert(live(w2, one));
            lemma_goes(w2, one, w3, other);
            lemma_stands_on(w1.nodes, w2.nodes, w3.nodes);
            lemma_came_stays(
                e,
                n,
                n,
                w1.nodes,
                w3.nodes,
                cond,
                Some(cond),
                KindView::Branch,
                open,
                branch,
            );
            lemma_ran(e, n, w1, w3.nodes, then_, one, held);
            assert(stands(w3.nodes, w3.nodes));
            if !elif {
                a_wrapper_adds_nothing(e, w2, alts[k], one);
                lemma_ran(e, n, w2, w3.nodes, alts[k], one, other);
            }
            (branch, held, other)
        }
    }
}

proof fn lemma_elif_texts()
    ensures
        "elif_clause"@ != "expression_statement"@,
        "elif_clause"@ != "else_clause"@,
{
    reveal_strlit("elif_clause");
    reveal_strlit("expression_statement");
    reveal_strlit("else_clause");
    assert("elif_clause"@.len() == 11 && "expression_statement"@.len() == 20);
    assert("elif_clause"@[2] == 'i' && "else_clause"@[2] == 's');
}

/// An `if`, in every language, branches on its condition: one way leads through
/// what it guards, the other through its `else` or `elif`, or past it.
pub proof fn an_if_branches(
    l: Language,
    e: Env,
    w: Walk,
    i: int,
    cond: int,
    then_: int,
    alts: Seq<int>,
    open: Seq<usize>,
) -> (r: (usize, Seq<usize>, Seq<usize>))
    requires
        e.g == l.grammar(),
        settled(w),
        live(w, open),
        stmt_lowered(e, w, i, open).0.nodes.len() <= usize::MAX,
        child_by_field(e.t, i, "condition"@) == Some(cond),
        match l {
            Language::Rust => e.t[i].kind == "if_expression"@,
            Language::Python | Language::Java | Language::Go => e.t[i].kind == "if_statement"@,
            Language::Kotlin => e.t[i].kind == "if_expression"@,
        },
        if l is Kotlin {
            let all = kids(e.t, i, Pick::Named);
            all.len() > 1 && all[1] == then_ && alts == if all.len() > 2 {
                seq![all[2]]
            } else {
                Seq::empty()
            }
        } else {
            child_by_field(e.t, i, "consequence"@) == Some(then_) && alts == kids(
                e.t,
                i,
                Pick::Field("alternative"@),
            )
        },
        alts.len() > 0 ==> (if l is Python {
            e.t[alts[0]].kind == "elif_clause"@ || e.t[unwrapped(e.g, e.t, alts[0])].kind
                != "elif_clause"@
        } else {
            e.t[alts[0]].kind != "elif_clause"@
        }),
    ensures
        ({
            let (w1, exits) = stmt_lowered(e, w, i, open);
            &&& branches(
                e,
                w.nodes.len(),
                w1.nodes,
                i,
                cond,
                then_,
                alts,
                0,
                open,
                r.0,
                r.1,
                r.2,
            )
            &&& exits == r.1 + r.2
        }),
{
    broadcast use lemma_kid;

    lemma_sorts(l);
    lemma_no_field(e, i);
    lemma_start(e, w, i, open);
    lemma_elif_texts();
    reveal_strlit("alternative");
    let u = error_noted(e, w, i);
    assert(if_alts(e, i) =~= alts);
    assert(stmt_lowered(e, w, i, open) == if_chain_lowered(e, u, i, cond, then_, alts, 0, open));
    assert forall|j: int| 0 <= j < alts.len() implies below(e.t, i, #[trigger] alts[j]) by {}
    lemma_chain_branches(e, u, i, cond, then_, alts, 0, open)
}

/// An `elif` of a Python `if` branches as the `if` does, and takes the
/// alternatives behind it along.
pub proof fn an_elif_branches(
    e: Env,
    w: Walk,
    top: int,
    cond: int,
    then_: int,
    alts: Seq<int>,
    k: int,
    open: Seq<usize>,
) -> (r: (usize, Seq<usize>, Seq<usize>))
    requires
        e.g == Language::Python.grammar(),
        settled(w),
        live(w, open),
        0 <= k,
        below(e.t, top, then_),
        forall|j: int| 0 <= j < alts.len() ==> below(e.t, top, #[trigger] alts[j]),
        if_chain_lowered(e, w, top, cond, then_, alts, k, open).0.nodes.len() <= usize::MAX,
        k < alts.len() ==> e.t[alts[k]].kind == "elif_clause"@ || e.t[unwrapped(
            e.g,
            e.t,
            alts[k],
        )].kind != "elif_clause"@,
    ensures
        ({
            let (w1, exits) = if_chain_lowered(e, w, top, cond, then_, alts, k, open);
            &&& branches(
                e,
                w.nodes.len(),
                w1.nodes,
                top,
                cond,
                then_,
                alts,
                k,
                open,
                r.0,
                r.1,
                r.2,
            )
            &&& exits == r.1 + r.2
        }),
{
    lemma_elif_texts();
    lemma_chain_branches(e, w, top, cond, then_, alts, k, open)
}

/// Whether the statements that stand below a node stand among the nodes, one
/// behind the other: `fronts[k]` is where control stands before the `k`-th.
pub open spec fn in_order(
    e: Env,
    before: nat,
    nodes: Seq<NodeView>,
    i: int,
    p: Pick,
    at: int,
    fronts: Seq<Seq<usize>>,
    from: Seq<usize>,
    to: Seq<usize>,
) -> bool {
    &&& 0 <= at <= kids(e.t, i, p).len()
    &&& fronts.len() == kids(e.t, i, p).len() - at + 1
    &&& fronts[0] == from
    &&& fronts.last() == to
    &&& forall|k: int|
        at <= k < kids(e.t, i, p).len() ==> #[trigger] runs(
            e,
            before,
            nodes,
            kids(e.t, i, p)[k],
            fronts[k - at],
            fronts[k - at + 1],
        )
}

/// Whether the statements below a node stand among the nodes, in order.
pub open spec fn list_runs(
    e: Env,
    before: nat,
    nodes: Seq<NodeView>,
    i: int,
    p: Pick,
    from: Seq<usize>,
    to: Seq<usize>,
) -> bool {
    exists|fronts: Seq<Seq<usize>>| #[trigger]
        in_order(e, before, nodes, i, p, 0, fronts, from, to)
}

pub proof fn lemma_in_order(
    e: Env,
    w: Walk,
    nodes: Seq<NodeView>,
    i: int,
    p: Pick,
    k: int,
    before: nat,
    open: Seq<usize>,
) -> (r: Seq<Seq<usize>>)
    requires
        settled(w),
        live(w, open),
        before <= w.nodes.len(),
        0 <= k <= kids(e.t, i, p).len(),
        seq_lowered(e, w, i, p, k, open).0.nodes.len() <= usize::MAX,
        stands(seq_lowered(e, w, i, p, k, open).0.nodes, nodes),
    ensures
        in_order(e, before, nodes, i, p, k, r, open, seq_lowered(e, w, i, p, k, open).1),
    decreases kids(e.t, i, p).len() - k,
{
    let all = kids(e.t, i, p);
    if k == all.len() {
        seq![open]
    } else {
        let c = all[k];
        lemma_settled_ranged(w, open);
        lemma_stmt(e, w, c, open);
        let (w1, mid) = stmt_lowered(e, w, c, open);
        lemma_seq_lowered(e, w1, i, p, k + 1, mid);
        let (w2, out) = seq_lowered(e, w1, i, p, k + 1, mid);
        lemma_goes(w, open, w1, mid);
        lemma_goes(w1, mid, w2, out);
        let rest = lemma_in_order(e, w1, nodes, i, p, k + 1, before, mid);
        let r = seq![open] + rest;
        lemma_stands_on(w1.nodes, w2.nodes, nodes);
        lemma_ran(e, before, w, nodes, c, open, mid);
        assert(r.last() == rest.last());
        assert forall|j: int| k <= j < all.len() implies #[trigger] runs(
            e,
            before,
            nodes,
            all[j],
            r[j - k],
            r[j - k + 1],
        ) by {
            if j > k {
                assert(r[j - k] == rest[j - (k + 1)]);
                assert(r[j - k + 1] == rest[j - (k + 1) + 1]);
                assert(runs(
                    e,
                    before,
                    nodes,
                    all[j],
                    rest[j - (k + 1)],
                    rest[j - (k + 1) + 1],
                ));
            }
        }
        r
    }
}

/// A block runs its statements in order, also in a scope of its own.
pub proof fn lemma_block_in_order(
    e: Env,
    w: Walk,
    nodes: Seq<NodeView>,
    i: int,
    before: nat,
    open: Seq<usize>,
)
    requires
        settled(w),
        live(w, open),
        before <= w.nodes.len(),
        block_lowered(e, w, i, open).0.nodes.len() <= usize::MAX,
        stands(block_lowered(e, w, i, open).0.nodes, nodes),
    ensures
        list_runs(e, before, nodes, i, Pick::Named, open, block_lowered(e, w, i, open).1),
{
    let u = block_entered(e, w);
    lemma_settled_ranged(w, open);
    lemma_settled_block(e, w, open);
    let fronts = lemma_in_order(e, u, nodes, i, Pick::Named, 0, before, open);
    assert(in_order(
        e,
        before,
        nodes,
        i,
        Pick::Named,
        0,
        fronts,
        open,
        block_lowered(e, w, i, open).1,
    ));
}

pub proof fn lemma_settled_block(e: Env, w: Walk, open: Seq<usize>)
    requires
        settled(w),
        live(w, open),
    ensures
        settled(block_entered(e, w)),
        live(block_entered(e, w), open),
        block_entered(e, w).nodes == w.nodes,
        block_entered(e, w).loops == w.loops,
{
    let u = block_entered(e, w);
    assert forall|k: int| 0 <= k < u.loops.len() implies (#[trigger] u.loops[k]).continue_target
        < u.nodes.len() && in_range(u, u.loops[k].breaks) && live(u, u.loops[k].breaks) by {
        assert(w.loops[k].continue_target < w.nodes.len());
        assert(in_range(w, w.loops[k].breaks));
        assert(live(w, w.loops[k].breaks));
    }
}

/// The statements of a block run one behind the other, in every language:
/// control enters the first from the open nodes, each next one from where the
/// one before it ends, and leaves from the last. Go's lists of statements and
/// its groups of declarations do the same.
pub proof fn a_block_runs_in_order(l: Language, e: Env, w: Walk, i: int, open: Seq<usize>)
    requires
        e.g == l.grammar(),
        settled(w),
        live(w, open),
        stmt_lowered(e, w, i, open).0.nodes.len() <= usize::MAX,
        e.t[i].kind == "block"@ || (l is Go && (e.t[i].kind == "statement_list"@ || e.t[i].kind
            == "var_declaration"@ || e.t[i].kind == "var_spec_list"@ || e.t[i].kind
            == "const_declaration"@)),
    ensures
        list_runs(
            e,
            w.nodes.len(),
            stmt_lowered(e, w, i, open).0.nodes,
            i,
            Pick::Named,
            open,
            stmt_lowered(e, w, i, open).1,
        ),
{
    lemma_sorts(l);
    lemma_start(e, w, i, open);
    let u = error_noted(e, w, i);
    let (w1, exits) = stmt_lowered(e, w, i, open);
    assert(stands(w1.nodes, w1.nodes));
    if e.t[i].kind == "block"@ || e.t[i].kind == "statement_list"@ {
        lemma_block_in_order(e, u, w1.nodes, i, w.nodes.len(), open);
    } else {
        let fronts = lemma_in_order(
            e,
            u,
            w1.nodes,
            i,
            Pick::Named,
            0,
            w.nodes.len(),
            open,
        );
        assert(in_order(e, w.nodes.len(), w1.nodes, i, Pick::Named, 0, fronts, open, exits));
    }
}

/// What a `try` guards runs, then its `else` part (in Python) and its `finally`
/// part, each once, one behind the other.
pub proof fn a_try_runs_what_it_guards(
    l: Language,
    e: Env,
    w: Walk,
    i: int,
    body: int,
    open: Seq<usize>,
) -> (r: (Seq<usize>, Seq<usize>))
    requires
        e.g == l.grammar(),
        settled(w),
        live(w, open),
        stmt_lowered(e, w, i, open).0.nodes.len() <= usize::MAX,
        match l {
            Language::Python | Language::Java => e.t[i].kind == "try_statement"@ && child_by_field(
                e.t,
                i,
                "body"@,
            ) == Some(body),
            Language::Kotlin => e.t[i].kind == "try_expression"@ && child_of_kind(
                e.t,
                i,
                "block"@,
            ) == Some(body),
            _ => false,
        },
    ensures
        ({
            let (w1, exits) = stmt_lowered(e, w, i, open);
            let n = w.nodes.len();
            let after = match l {
                Language::Python => match child_of_kind(e.t, i, "else_clause"@) {
                    Some(c) => child_by_field(e.t, c, "body"@),
                    None => None,
                },
                _ => None,
            };
            let at_last = match child_of_kind(
                e.t,
                i,
                if l is Kotlin {
                    "finally_block"@
                } else {
                    "finally_clause"@
                },
            ) {
                Some(c) => child_of_kind(e.t, c, "block"@),
                None => None,
            };
            &&& list_runs(e, n, w1.nodes, body, Pick::Named, open, r.0)
            &&& match after {
                Some(b) => list_runs(e, n, w1.nodes, b, Pick::Named, r.0, r.1),
                None => r.1 == r.0,
            }
            &&& match at_last {
                Some(b) => list_runs(e, n, w1.nodes, b, Pick::Named, r.1, exits),
                None => exits == r.1,
            }
        }),
{
    lemma_sorts(l);
    lemma_no_field(e, i);
    lemma_start(e, w, i, open);
    reveal_strlit("block");
    reveal_strlit("else_clause");
    reveal_strlit("finally_block");
    reveal_strlit("finally_clause");
    if let Some(c) = child_of_kind(e.t, i, e.g.finally_kind) {
        lemma_no_field(e, c);
    }
    let u = error_noted(e, w, i);
    let n = w.nodes.len();
    let none = Seq::<usize>::empty();
    lemma_settled_ranged(u, open);
    lemma_block_lowered(e, u, body, open);
    let (w1, a) = block_lowered(e, u, body, open);
    lemma_catches(e, w1, i, 0);
    let w2 = catches_lowered(e, w1, i, 0);
    lemma_then(u, open, w1, a, none, w2, none, a);
    let other = try_else_body(e, i);
    let (w3, b) = match other {
        Some(x) => block_lowered(e, w2, x, a),
        None => (w2, a),
    };
    match other {
        Some(x) => lemma_block_lowered(e, w2, x, a),
        None => lemma_refl(w2, a),
    }
    let ending = finally_body(e, i);
    let (w4, exits) = stmt_lowered(e, w, i, open);
    match ending {
        Some(x) => lemma_block_lowered(e, w3, x, b),
        None => lemma_refl(w3, b),
    }
    lemma_goes(u, open, w1, a);
    lemma_goes(u, open, w2, a);
    assert(live(w1, none));
    lemma_goes(w1, none, w2, none);
    lemma_goes(w2, a, w3, b);
    lemma_goes(w3, b, w4, exits);
    lemma_stands_on(w2.nodes, w3.nodes, w4.nodes);
    lemma_stands_on(w1.nodes, w2.nodes, w4.nodes);
    assert(stands(w4.nodes, w4.nodes));
    lemma_block_in_order(e, u, w4.nodes, body, n, open);
    if let Some(x) = other {
        lemma_block_in_order(e, w2, w4.nodes, x, n, a);
    }
    if let Some(x) = ending {
        lemma_block_in_order(e, w3, w4.nodes, x, n, b);
    }
    (a, b)
}

} // verus!
