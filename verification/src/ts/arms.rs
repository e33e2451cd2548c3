//! What the arms of a match and the handlers of a `try` come to, in each
//! language.

use vstd::prelude::*;

use crate::flow::{lemma_stands_on, stands};
use crate::ir::{KindView, NodeView};
use crate::ts::branches::{
    in_order, lemma_block_in_order, lemma_in_order, lemma_settled_block, list_runs,
};
use crate::ts::constructs::{lemma_no_field, lemma_sorts, lemma_start};
use crate::ts::laws::{
    arm_head, ends, lemma_all_added_same, lemma_arm, lemma_arm_head, lemma_arms,
    lemma_block_lowered, lemma_block_ranged, lemma_calls_of, lemma_catch, lemma_catches,
    lemma_declared_all_quiet, lemma_entered, lemma_push_more, lemma_quiet_more, lemma_refl,
    lemma_seq_lowered, lemma_then, lemma_uses_of_quiet, live, same_node, settled,
};
use crate::ts::model::{
    arm_head_nodes, arm_is_default, arm_labels, arm_lowered, arms_lowered, bare_node,
    block_entered, block_left, block_lowered, calls_of, catch_lowered, catch_param,
    catches_lowered, declared_all, entered, error_noted, finally_body, identifiers_in,
    match_lowered, next_node, pushed, seq_lowered, snippet_at, stmt_lowered, try_else_body,
    uses_of, Env, Walk,
};
use crate::ts::shapes::{
    came_to, lemma_came_stays, lemma_entered_came, lemma_goes, lemma_settled_ranged, on_line_of,
};
use crate::ts::tree::{child_by_field, child_of_kind, field_or_kind, kids, line_at, Pick};
use crate::ts::Language;

verus! {

/// Whether an arm of a match stands among the nodes: a head on its line that
/// control comes to from the discriminant, and the arm's statements behind it.
pub open spec fn arm_runs(
    e: Env,
    before: nat,
    nodes: Seq<NodeView>,
    arm: int,
    disc: usize,
    head: usize,
    to: Seq<usize>,
) -> bool {
    &&& before <= head < nodes.len()
    &&& nodes[head as int].kind is Pure
    &&& on_line_of(e.t, arm, nodes[head as int].line)
    &&& nodes[disc as int].succs.contains(head)
    &&& list_runs(e, before, nodes, arm, Pick::Except(arm_head_nodes(e, arm)), seq![head], to)
}

/// Whether an arm of a match stands among the nodes, and control leaves the
/// match from its ends.
pub open spec fn arm_is_there(
    e: Env,
    before: nat,
    nodes: Seq<NodeView>,
    arm: int,
    disc: usize,
    exits: Seq<usize>,
) -> bool {
    exists|head: usize, to: Seq<usize>| #[trigger]
        arm_runs(e, before, nodes, arm, disc, head, to) && forall|j: int|
            0 <= j < to.len() ==> exits.contains(#[trigger] to[j])
}

/// One arm stands among the nodes.
proof fn lemma_arm_runs(
    e: Env,
    w: Walk,
    arm: int,
    disc: usize,
    before: nat,
    nodes: Seq<NodeView>,
) -> (head: usize)
    requires
        settled(w),
        live(w, seq![disc]),
        before <= w.nodes.len(),
        arm_lowered(e, w, arm, disc).0.nodes.len() <= usize::MAX,
        stands(arm_lowered(e, w, arm, disc).0.nodes, nodes),
    ensures
        arm_runs(e, before, nodes, arm, disc, head, arm_lowered(e, w, arm, disc).1),
{
    let one = seq![disc];
    assert(one[0] == disc);
    lemma_settled_ranged(w, one);
    lemma_settled_block(e, w, one);
    let u = block_entered(e, w);
    let (w3, head) = arm_head(e, w, arm, disc);
    lemma_arm_head(e, w, arm, disc);
    let p = Pick::Except(arm_head_nodes(e, arm));
    lemma_seq_lowered(e, w3, arm, p, 0, seq![head]);
    let (w4, to) = seq_lowered(e, w3, arm, p, 0, seq![head]);
    assert(block_left(e, w4).nodes == w4.nodes);
    assert(arm_lowered(e, w, arm, disc) == (block_left(e, w4), to));
    lemma_goes(u, one, w3, seq![head]);
    lemma_goes(w3, seq![head], w4, to);
    lemma_stands_on(w3.nodes, w4.nodes, nodes);
    let fronts = lemma_in_order(e, w3, nodes, arm, p, 0, before, seq![head]);
    assert(in_order(e, before, nodes, arm, p, 0, fronts, seq![head], to));
    assert(same_node(w3.nodes[head as int], nodes[head as int]));
    head
}

/// What the arms come to does not rest on what was left open before them.
proof fn lemma_arms_apart(
    e: Env,
    w: Walk,
    container: int,
    k: int,
    disc: usize,
    exits: Seq<usize>,
    default: bool,
)
    requires
        0 <= k,
    ensures
        ({
            let none = Seq::<usize>::empty();
            let (w1, out, d) = arms_lowered(e, w, container, k, disc, exits, default);
            let (x1, xout, xd) = arms_lowered(e, w, container, k, disc, none, false);
            let arms = kids(e.t, container, Pick::Kinds(e.g.match_arm_kinds));
            &&& w1 == x1
            &&& out == exits + xout
            &&& d == (default || xd)
            &&& xd == exists|j: int|
                k <= j < arms.len() && arm_is_default(e, #[trigger] arm_labels(e, arms[j]))
        }),
    decreases kids(e.t, container, Pick::Kinds(e.g.match_arm_kinds)).len() - k,
{
    let none = Seq::<usize>::empty();
    let arms = kids(e.t, container, Pick::Kinds(e.g.match_arm_kinds));
    if k < arms.len() {
        let (w1, more) = arm_lowered(e, w, arms[k], disc);
        let here = arm_is_default(e, arm_labels(e, arms[k]));
        lemma_arms_apart(e, w1, container, k + 1, disc, exits + more, default || here);
        lemma_arms_apart(e, w1, container, k + 1, disc, none + more, here);
        let rest = arms_lowered(e, w1, container, k + 1, disc, none, false).1;
        assert((exits + more) + rest =~= exits + ((none + more) + rest));
        if here {
            assert(arm_is_default(e, arm_labels(e, arms[k])));
        }
    } else {
        assert(exits + none =~= exits);
    }
}

proof fn lemma_arms_there(
    e: Env,
    w: Walk,
    container: int,
    k: int,
    disc: usize,
    exits: Seq<usize>,
    default: bool,
    before: nat,
    nodes: Seq<NodeView>,
    j: int,
)
    requires
        settled(w),
        live(w, seq![disc]),
        before <= w.nodes.len(),
        0 <= k <= j < kids(e.t, container, Pick::Kinds(e.g.match_arm_kinds)).len(),
        arms_lowered(e, w, container, k, disc, exits, default).0.nodes.len() <= usize::MAX,
        stands(arms_lowered(e, w, container, k, disc, exits, default).0.nodes, nodes),
    ensures
        arm_is_there(
            e,
            before,
            nodes,
            kids(e.t, container, Pick::Kinds(e.g.match_arm_kinds))[j],
            disc,
            arms_lowered(e, w, container, k, disc, exits, default).1,
        ),
    decreases kids(e.t, container, Pick::Kinds(e.g.match_arm_kinds)).len() - k,
{
    let arms = kids(e.t, container, Pick::Kinds(e.g.match_arm_kinds));
    let one = seq![disc];
    let none = Seq::<usize>::empty();
    assert(one[0] == disc);
    lemma_settled_ranged(w, one);
    lemma_arm(e, w, arms[k], disc);
    let (w1, more) = arm_lowered(e, w, arms[k], disc);
    let here = arm_is_default(e, arm_labels(e, arms[k]));
    let (w2, out, d) = arms_lowered(e, w, container, k, disc, exits, default);
    lemma_arms_apart(e, w1, container, k + 1, disc, exits + more, default || here);
    lemma_refl(w1, one);
    assert(none.push(disc) =~= one);
    lemma_arms(e, w1, one, w1, container, k + 1, disc, none, false);
    let rest = arms_lowered(e, w1, container, k + 1, disc, none, false).1;
    lemma_goes(w, one, w1, more);
    assert(same_node(w.nodes[disc as int], w1.nodes[disc as int]));
    assert(live(w1, one));
    lemma_goes(w1, one, w2, rest.push(disc));
    if j == k {
        lemma_stands_on(w1.nodes, w2.nodes, nodes);
        let head = lemma_arm_runs(e, w, arms[k], disc, before, nodes);
        assert forall|x: int| 0 <= x < more.len() implies out.contains(#[trigger] more[x]) by {
            assert(out[exits.len() + x] == more[x]);
        }
        assert(arm_runs(e, before, nodes, arms[k], disc, head, more));
    } else {
        lemma_arms_there(
            e,
            w1,
            container,
            k + 1,
            disc,
            exits + more,
            default || here,
            before,
            nodes,
            j,
        );
    }
}

/// A match, in every language, branches on its subject: control comes from there
/// to the head of every arm and goes on through its statements, and leaves the
/// match from the ends of the arms; where no arm is the default, from the subject
/// as well.
pub proof fn a_match_branches_to_every_arm(
    l: Language,
    e: Env,
    w: Walk,
    i: int,
    subject: Option<int>,
    container: int,
    arms: Seq<int>,
    open: Seq<usize>,
) -> (disc: usize)
    requires
        e.g == l.grammar(),
        settled(w),
        live(w, open),
        stmt_lowered(e, w, i, open).0.nodes.len() <= usize::MAX,
        match l {
            Language::Rust => e.t[i].kind == "match_expression"@ && subject == child_by_field(
                e.t,
                i,
                "value"@,
            ) && child_by_field(e.t, i, "body"@) == Some(container) && arms == kids(
                e.t,
                container,
                Pick::Kinds(seq!["match_arm"@]),
            ),
            Language::Python => e.t[i].kind == "match_statement"@ && subject == child_by_field(
                e.t,
                i,
                "subject"@,
            ) && child_by_field(e.t, i, "body"@) == Some(container) && arms == kids(
                e.t,
                container,
                Pick::Kinds(seq!["case_clause"@]),
            ),
            Language::Java => e.t[i].kind == "switch_expression"@ && subject == child_by_field(
                e.t,
                i,
                "condition"@,
            ) && child_by_field(e.t, i, "body"@) == Some(container) && arms == kids(
                e.t,
                container,
                Pick::Kinds(seq!["switch_block_statement_group"@, "switch_rule"@]),
            ),
            Language::Kotlin => e.t[i].kind == "when_expression"@ && subject == child_of_kind(
                e.t,
                i,
                "when_subject"@,
            ) && container == i && arms == kids(e.t, i, Pick::Kinds(seq!["when_entry"@])),
            Language::Go => (e.t[i].kind == "expression_switch_statement"@ || e.t[i].kind
                == "select_statement"@) && subject == child_by_field(e.t, i, "value"@)
                && container == i && arms == kids(
                e.t,
                i,
                Pick::Kinds(seq!["expression_case"@, "default_case"@, "communication_case"@]),
            ),
        },
    ensures
        ({
            let (w1, exits) = stmt_lowered(e, w, i, open);
            let n = w.nodes.len();
            &&& came_to(e, n, w1.nodes, i, subject, KindView::Branch, open, disc)
            &&& forall|k: int|
                0 <= k < arms.len() ==> arm_is_there(
                    e,
                    n,
                    w1.nodes,
                    #[trigger] arms[k],
                    disc,
                    exits,
                )
            &&& (forall|k: int|
                0 <= k < arms.len() ==> !arm_is_default(e, #[trigger] arm_labels(e, arms[k])))
                ==> exits.contains(disc)
        }),
{
    let u = error_noted(e, w, i);
    lemma_is_match(l, e, w, i, open);
    lemma_match_parts(l, e, i);
    lemma_match_shape(e, u, i, subject, container, arms, open)
}

/// Which nodes are matches.
proof fn lemma_is_match(l: Language, e: Env, w: Walk, i: int, open: Seq<usize>)
    requires
        e.g == l.grammar(),
        settled(w),
        live(w, open),
        match l {
            Language::Rust => e.t[i].kind == "match_expression"@,
            Language::Python => e.t[i].kind == "match_statement"@,
            Language::Java => e.t[i].kind == "switch_expression"@,
            Language::Kotlin => e.t[i].kind == "when_expression"@,
            Language::Go => e.t[i].kind == "expression_switch_statement"@ || e.t[i].kind
                == "select_statement"@,
        },
    ensures
        stmt_lowered(e, w, i, open) == match_lowered(e, error_noted(e, w, i), i, open),
        settled(error_noted(e, w, i)),
        live(error_noted(e, w, i), open),
        error_noted(e, w, i).nodes == w.nodes,
{
    lemma_sorts(l);
    lemma_start(e, w, i, open);
}

/// Where the parts of a match are.
proof fn lemma_match_parts(l: Language, e: Env, i: int)
    requires
        e.g == l.grammar(),
    ensures
        l is Rust ==> field_or_kind(e.t, i, e.g.match_subject_field, e.g.match_subject_kind)
            == child_by_field(e.t, i, "value"@) && field_or_kind(
            e.t,
            i,
            e.g.match_body_field,
            e.g.match_body_kind,
        ) == child_by_field(e.t, i, "body"@) && e.g.match_arm_kinds == seq!["match_arm"@],
        l is Python ==> field_or_kind(e.t, i, e.g.match_subject_field, e.g.match_subject_kind)
            == child_by_field(e.t, i, "subject"@) && field_or_kind(
            e.t,
            i,
            e.g.match_body_field,
            e.g.match_body_kind,
        ) == child_by_field(e.t, i, "body"@) && e.g.match_arm_kinds == seq!["case_clause"@],
        l is Java ==> field_or_kind(e.t, i, e.g.match_subject_field, e.g.match_subject_kind)
            == child_by_field(e.t, i, "condition"@) && field_or_kind(
            e.t,
            i,
            e.g.match_body_field,
            e.g.match_body_kind,
        ) == child_by_field(e.t, i, "body"@) && e.g.match_arm_kinds
            == seq!["switch_block_statement_group"@, "switch_rule"@],
        l is Kotlin ==> field_or_kind(e.t, i, e.g.match_subject_field, e.g.match_subject_kind)
            == child_of_kind(e.t, i, "when_subject"@) && field_or_kind(
            e.t,
            i,
            e.g.match_body_field,
            e.g.match_body_kind,
        ) is None && e.g.match_arm_kinds == seq!["when_entry"@],
        l is Go ==> field_or_kind(e.t, i, e.g.match_subject_field, e.g.match_subject_kind)
            == child_by_field(e.t, i, "value"@) && field_or_kind(
            e.t,
            i,
            e.g.match_body_field,
            e.g.match_body_kind,
        ) is None && e.g.match_arm_kinds
            == seq!["expression_case"@, "default_case"@, "communication_case"@],
{
    lemma_no_field(e, i);
}

/// A match, whatever its spelling.
#[verifier::rlimit(40)]
proof fn lemma_match_shape(
    e: Env,
    u: Walk,
    i: int,
    subject: Option<int>,
    container: int,
    arms: Seq<int>,
    open: Seq<usize>,
) -> (disc: usize)
    requires
        settled(u),
        live(u, open),
        match_lowered(e, u, i, open).0.nodes.len() <= usize::MAX,
        subject == field_or_kind(e.t, i, e.g.match_subject_field, e.g.match_subject_kind),
        container == match field_or_kind(e.t, i, e.g.match_body_field, e.g.match_body_kind) {
            Some(c) => c,
            None => i,
        },
        arms == kids(e.t, container, Pick::Kinds(e.g.match_arm_kinds)),
    ensures
        ({
            let (w1, exits) = match_lowered(e, u, i, open);
            let n = u.nodes.len();
            &&& came_to(e, n, w1.nodes, i, subject, KindView::Branch, open, disc)
            &&& forall|k: int|
                0 <= k < arms.len() ==> arm_is_there(
                    e,
                    n,
                    w1.nodes,
                    #[trigger] arms[k],
                    disc,
                    exits,
                )
            &&& (forall|k: int|
                0 <= k < arms.len() ==> !arm_is_default(e, #[trigger] arm_labels(e, arms[k])))
                ==> exits.contains(disc)
        }),
{
    let n = u.nodes.len();
    let none = Seq::<usize>::empty();
    lemma_settled_ranged(u, open);
    let (w1, calls) = calls_of(e, u, subject);
    lemma_calls_of(e, u, open, subject);
    let (w2, uses) = uses_of(e, w1, subject);
    lemma_uses_of_quiet(e, w1, subject);
    lemma_quiet_more(u, open, w1, open + calls, w2);
    lemma_all_added_same(u, w1, w2, calls);
    let node = bare_node(line_at(e.t, i), KindView::Branch, Seq::empty(), uses, snippet_at(e, i));
    lemma_entered(u, open, w2, calls, node);
    let (w3, disc) = entered(w2, calls, node, open);
    let one = seq![disc];
    assert(one[0] == disc);
    assert(none.push(disc) =~= one);
    lemma_arms(e, u, open, w3, container, 0, disc, none, false);
    lemma_refl(w3, one);
    lemma_arms(e, w3, one, w3, container, 0, disc, none, false);
    let (w4, out, default) = arms_lowered(e, w3, container, 0, disc, none, false);
    let exits = match_lowered(e, u, i, open).1;
    assert(w4 == match_lowered(e, u, i, open).0);
    lemma_goes(u, open, w3, one);
    lemma_goes(w3, one, w4, out.push(disc));
    lemma_entered_came(e, u, w2, i, subject, node, open);
    assert forall|j: int| 0 <= j < open.len() implies (#[trigger] open[j]) < w3.nodes.len() by {
        assert(open[j] < u.nodes.len());
    }
    lemma_came_stays(
        e,
        n,
        n,
        w3.nodes,
        w4.nodes,
        i,
        subject,
        KindView::Branch,
        open,
        disc,
    );
    assert(stands(w4.nodes, w4.nodes));
    assert forall|k: int| 0 <= k < arms.len() implies arm_is_there(
        e,
        n,
        w4.nodes,
        #[trigger] arms[k],
        disc,
        exits,
    ) by {
        lemma_arms_there(e, w3, container, 0, disc, none, false, n, w4.nodes, k);
        let (head, to) = choose|head: usize, to: Seq<usize>| #[trigger]
            arm_runs(e, n, w4.nodes, arms[k], disc, head, to) && forall|j: int|
                0 <= j < to.len() ==> out.contains(#[trigger] to[j]);
        assert forall|j: int| 0 <= j < to.len() implies exits.contains(#[trigger] to[j]) by {
            assert(out.contains(to[j]));
            let x = choose|x: int| 0 <= x < out.len() && out[x] == to[j];
            assert(exits[x] == to[j]);
        }
        assert(arm_runs(e, n, w4.nodes, arms[k], disc, head, to));
    }
    lemma_arms_apart(e, w3, container, 0, disc, none, false);
    if forall|k: int|
        0 <= k < arms.len() ==> !arm_is_default(e, #[trigger] arm_labels(e, arms[k])) {
        assert(!default);
        assert(exits.last() == disc);
    }
    disc
}

/// Whether a handler stands among the nodes: a node on its line that defines what
/// it catches, and its block behind that node.
pub open spec fn handler_runs(
    e: Env,
    before: nat,
    nodes: Seq<NodeView>,
    h: int,
    body: int,
    id: usize,
    to: Seq<usize>,
) -> bool {
    &&& before <= id < nodes.len()
    &&& nodes[id as int].kind is Pure
    &&& on_line_of(e.t, h, nodes[id as int].line)
    &&& list_runs(e, before, nodes, body, Pick::Named, seq![id], to)
}

/// Whether a handler stands among the nodes.
pub open spec fn handler_is_there(
    e: Env,
    before: nat,
    nodes: Seq<NodeView>,
    h: int,
    body: int,
) -> bool {
    exists|id: usize, to: Seq<usize>| #[trigger]
        handler_runs(e, before, nodes, h, body, id, to)
}

proof fn lemma_handler(e: Env, w: Walk, h: int, body: int, before: nat, nodes: Seq<NodeView>)
    requires
        settled(w),
        before <= w.nodes.len(),
        field_or_kind(e.t, h, e.g.catch_body_field, e.g.catch_body_kind) == Some(body),
        catch_lowered(e, w, h).nodes.len() <= usize::MAX,
        stands(catch_lowered(e, w, h).nodes, nodes),
    ensures
        handler_is_there(e, before, nodes, h, body),
{
    let none = Seq::<usize>::empty();
    assert(live(w, none));
    lemma_settled_ranged(w, none);
    lemma_settled_block(e, w, none);
    lemma_block_ranged(e, w, none);
    let u = block_entered(e, w);
    lemma_refl(u, none);
    let (w1, defs) = match catch_param(e, h) {
        Some(p) => declared_all(e, u, identifiers_in(e, p, None), 0, Seq::empty()),
        None => (u, Seq::empty()),
    };
    if let Some(p) = catch_param(e, h) {
        lemma_declared_all_quiet(e, u, identifiers_in(e, p, None), 0, Seq::empty());
        lemma_quiet_more(u, none, u, none, w1);
    }
    let id = next_node(w1);
    let n = bare_node(line_at(e.t, h), KindView::Pure, defs, Seq::empty(), "<catch>"@);
    lemma_push_more(u, none, w1, none, n);
    let w2 = pushed(w1, n);
    let one = seq![id];
    assert(none.push(id) =~= one);
    lemma_block_lowered(e, w2, body, one);
    let (w3, to) = block_lowered(e, w2, body, one);
    assert(catch_lowered(e, w, h).nodes == w3.nodes);
    lemma_goes(u, none, w2, one);
    lemma_goes(w2, one, w3, to);
    lemma_stands_on(w2.nodes, w3.nodes, nodes);
    lemma_block_in_order(e, w2, nodes, body, before, one);
    assert(same_node(w2.nodes[id as int], nodes[id as int]));
    assert(handler_runs(e, before, nodes, h, body, id, to));
}

proof fn lemma_handlers(
    e: Env,
    w: Walk,
    i: int,
    k: int,
    j: int,
    body: int,
    before: nat,
    nodes: Seq<NodeView>,
)
    requires
        settled(w),
        before <= w.nodes.len(),
        0 <= k <= j < kids(e.t, i, Pick::Kinds(e.g.catch_kinds)).len(),
        field_or_kind(
            e.t,
            kids(e.t, i, Pick::Kinds(e.g.catch_kinds))[j],
            e.g.catch_body_field,
            e.g.catch_body_kind,
        ) == Some(body),
        catches_lowered(e, w, i, k).nodes.len() <= usize::MAX,
        stands(catches_lowered(e, w, i, k).nodes, nodes),
    ensures
        handler_is_there(e, before, nodes, kids(e.t, i, Pick::Kinds(e.g.catch_kinds))[j], body),
    decreases j - k,
{
    let all = kids(e.t, i, Pick::Kinds(e.g.catch_kinds));
    let none = Seq::<usize>::empty();
    assert(live(w, none));
    lemma_settled_ranged(w, none);
    lemma_catch(e, w, all[k]);
    let w1 = catch_lowered(e, w, all[k]);
    lemma_catches(e, w1, i, k + 1);
    let w2 = catches_lowered(e, w1, i, k + 1);
    lemma_goes(w, none, w1, none);
    lemma_goes(w1, none, w2, none);
    if j == k {
        lemma_stands_on(w1.nodes, w2.nodes, nodes);
        lemma_handler(e, w, all[k], body, before, nodes);
    } else {
        lemma_handlers(e, w1, i, k + 1, j, body, before, nodes);
    }
}

/// Every handler of a `try` is lowered, behind a node of its own, though nothing
/// leads to it.
pub proof fn every_handler_is_lowered(
    l: Language,
    e: Env,
    w: Walk,
    i: int,
    guarded: int,
    handlers: Seq<int>,
    k: int,
    body: int,
    open: Seq<usize>,
)
    requires
        e.g == l.grammar(),
        settled(w),
        live(w, open),
        stmt_lowered(e, w, i, open).0.nodes.len() <= usize::MAX,
        0 <= k < handlers.len(),
        match l {
            Language::Python => e.t[i].kind == "try_statement"@ && child_by_field(
                e.t,
                i,
                "body"@,
            ) == Some(guarded) && handlers == kids(e.t, i, Pick::Kinds(seq!["except_clause"@]))
                && child_of_kind(e.t, handlers[k], "block"@) == Some(body),
            Language::Java => e.t[i].kind == "try_statement"@ && child_by_field(
                e.t,
                i,
                "body"@,
            ) == Some(guarded) && handlers == kids(e.t, i, Pick::Kinds(seq!["catch_clause"@]))
                && child_by_field(e.t, handlers[k], "body"@) == Some(body),
            Language::Kotlin => e.t[i].kind == "try_expression"@ && child_of_kind(
                e.t,
                i,
                "block"@,
            ) == Some(guarded) && handlers == kids(e.t, i, Pick::Kinds(seq!["catch_block"@]))
                && child_of_kind(e.t, handlers[k], "block"@) == Some(body),
            _ => false,
        },
    ensures
        handler_is_there(
            e,
            w.nodes.len(),
            stmt_lowered(e, w, i, open).0.nodes,
            handlers[k],
            body,
        ),
{
    lemma_sorts(l);
    lemma_no_field(e, i);
    lemma_no_field(e, handlers[k]);
    lemma_start(e, w, i, open);
    reveal_strlit("block");
    match l {
        Language::Python => assert(e.g.catch_kinds =~= seq!["except_clause"@]),
        Language::Java => assert(e.g.catch_kinds =~= seq!["catch_clause"@]),
        Language::Kotlin => assert(e.g.catch_kinds =~= seq!["catch_block"@]),
        _ => {},
    }
    let u = error_noted(e, w, i);
    let n = w.nodes.len();
    let none = Seq::<usize>::empty();
    lemma_settled_ranged(u, open);
    lemma_block_lowered(e, u, guarded, open);
    let (w1, a) = block_lowered(e, u, guarded, open);
    lemma_catches(e, w1, i, 0);
    let w2 = catches_lowered(e, w1, i, 0);
    lemma_then(u, open, w1, a, none, w2, none, a);
    let other = try_else_body(e, i);
    let (w3, b) = match other {
        Some(x) => block_lowered(e, w2, x, a),
        None => (w2, a),
    };
    match other {
        Some(x) => lemma_block_lowered(e, w2, x, a),
        None => lemma_refl(w2, a),
    }
    let (w4, exits) = stmt_lowered(e, w, i, open);
    match finally_body(e, i) {
        Some(x) => lemma_block_lowered(e, w3, x, b),
        None => lemma_refl(w3, b),
    }
    lemma_goes(u, open, w1, a);
    lemma_goes(u, open, w2, a);
    lemma_goes(w2, a, w3, b);
    lemma_goes(w3, b, w4, exits);
    lemma_stands_on(w2.nodes, w3.nodes, w4.nodes);
    lemma_handlers(e, w1, i, 0, k, body, n, w4.nodes);
}

} // verus!
