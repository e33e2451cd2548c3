//! What a whole `for`, a whole function and a whole source come to.

use vstd::prelude::*;

use crate::flow::{
    all_lead, leads, lemma_all_lead_on, lemma_leads_itself, lemma_leads_on, lemma_stands_on,
    stands,
};
use crate::ir::KindView;
use crate::js::constructs::{
    body_ran, calls_are_there, came_to, in_order, lemma_calls_stay, lemma_fewer_before, lemma_goes,
    lemma_in_order, lemma_kinds, lemma_link_stands, lemma_one_node, lemma_ran,
    lemma_settled_opened, lemma_settled_ranged, lemma_unit_came, list_runs, on_line_of, one_node,
    ran_from, repeats, runs,
};
use crate::js::facts::{facts_of, FnView};
use crate::js::laws::{
    entered, lemma_for_entered, lemma_for_init, lemma_for_test, lemma_for_update, lemma_opened,
    lemma_params, lemma_seq_lowered, lemma_stmt, lemma_vars_added_quiet, live, ranged, settled,
};
use crate::js::model::{
    behind, for_body_at, for_init_lowered, for_test_at, for_test_lowered, for_update_at,
    for_update_lowered, fresh, function_lowered, functions_lowered, link, loop_closed, loop_opened,
    mark, module_lowered, params_lowered, seq_lowered, stmt_lowered, sym_keys, unit_after, Env,
    JsWalk,
};
use crate::js::source::Source;
use crate::js::state::{in_range, loop_ok};
use crate::ts::laws::{ends, same_node};

verus! {

/// The condition of a `for` comes to a branch.
proof fn lemma_for_test_came(e: Env, w: JsWalk, i: int)
    requires
        ranged(w),
        for_test_lowered(e, w, i).0.nodes.len() <= usize::MAX,
    ensures
        ({
            let (w1, entry, cond) = for_test_lowered(e, w, i);
            &&& cond < w1.nodes.len()
            &&& leads(w1.nodes, entry, cond)
            &&& w1.nodes[cond as int].kind is Branch
            &&& e.s.part(i).test ==> (e.s.kid(i, for_test_at(e.s.part(i))) matches Some(t)
                ==> calls_are_there(e, w.nodes.len(), w1.nodes, e.s.span(t)) && on_line_of(
                e.s.src,
                e.s.span(t).start,
                w1.nodes[cond as int].line,
            ))
        }),
{
    let none = Seq::<usize>::empty();
    let (w1, entry, cond) = for_test_lowered(e, w, i);
    let by_test = e.s.part(i).test && e.s.kid(i, for_test_at(e.s.part(i))) is Some;
    if by_test {
        let span = e.s.span(e.s.kid(i, for_test_at(e.s.part(i)))->0);
        assert(link(w1, none, entry) == w1);
        assert(unit_after(e, w, span, KindView::Branch, none) == (w1, entry, cond));
        lemma_unit_came(e, w, span, KindView::Branch, none);
    } else {
        lemma_leads_itself(w1.nodes, cond);
    }
}

/// A `for` runs its first part, then branches on its condition, or on a mark
/// where it has none: the body is entered from there, and its ends and what goes
/// on with the loop lead to the update, which leads back to where the condition
/// is entered; or straight there, where there is no update. Control leaves from
/// the condition and from what breaks out of the body.
#[verifier::rlimit(60)]
pub proof fn a_for_repeats(e: Env, w: JsWalk, i: int, body: int, open: Seq<usize>) -> (r: (
    usize,
    usize,
    usize,
    Seq<usize>,
    usize,
))
    requires
        settled(w),
        live(w, open),
        stmt_lowered(e, w, i, open).0.nodes.len() <= usize::MAX,
        e.s.is(i, "ForStatement"@),
        ({
            let p = e.s.part(i);
            let at = (if p.init {
                1int
            } else {
                0int
            }) + (if p.test {
                1int
            } else {
                0int
            }) + (if p.update {
                1int
            } else {
                0int
            });
            e.s.kid(i, at) == Some(body)
        }),
    ensures
        ({
            let (w1, exits) = stmt_lowered(e, w, i, open);
            let nodes = w1.nodes;
            let n = w.nodes.len();
            let p = e.s.part(i);
            let kids = e.s.kids(i);
            let first = if p.init {
                1int
            } else {
                0int
            };
            let next = first + if p.test {
                1int
            } else {
                0int
            };
            let (entry, cond, again, mid, last) = r;
            &&& if p.init {
                if e.s.is(kids[0], "VariableDeclaration"@) {
                    runs(e, n, nodes, kids[0], open, mid)
                } else {
                    one_node(e, n, nodes, e.s.span(kids[0]), KindView::Pure, open, mid)
                }
            } else {
                mid == open
            }
            &&& n <= cond < nodes.len()
            &&& nodes[cond as int].kind is Branch
            &&& all_lead(nodes, mid, entry)
            &&& leads(nodes, entry, cond)
            &&& p.test ==> calls_are_there(e, n, nodes, e.s.span(kids[first])) && on_line_of(
                e.s.src,
                e.s.span(kids[first]).start,
                nodes[cond as int].line,
            )
            &&& repeats(e, n, nodes, body, seq![cond], again, again, exits)
            &&& if p.update {
                &&& calls_are_there(e, n, nodes, e.s.span(kids[next]))
                &&& leads(nodes, again, last)
                &&& nodes[last as int].kind is Pure
                &&& nodes[last as int].succs.contains(entry)
            } else {
                again == entry
            }
            &&& exits.len() > 0 && exits[0] == cond
        }),
{
    lemma_kinds();
    lemma_settled_ranged(w, open);
    let n = w.nodes.len();
    let p = e.s.part(i);
    let kids = e.s.kids(i);
    let one_at = for_test_at(p);
    let two_at = for_update_at(p);
    assert(for_body_at(p) < kids.len());
    lemma_for_init(e, w, i, open);
    let (w1, mid) = for_init_lowered(e, w, i, open);
    lemma_for_test(e, w1, i, mid);
    let (w2, entry, cond) = for_test_lowered(e, w1, i);
    assert(in_range(w2, mid)) by {
        assert forall|j: int| 0 <= j < mid.len() implies #[trigger] mid[j] < w2.nodes.len() by {
            assert(mid[j] < w1.nodes.len());
        }
    }
    lemma_link_stands(w2, mid, 0, entry);
    let w3 = link(w2, mid, entry);
    let one = seq![cond];
    assert(one[0] == cond);
    assert(ranged(w3)) by {
        assert forall|k: int| 0 <= k < w3.loops.len() implies loop_ok(w3, #[trigger] w3.loops[k]) by {
            assert(loop_ok(w2, w2.loops[k]));
        }
    }
    lemma_opened(w3, None, one);
    let u = loop_opened(w3, None);
    lemma_stmt(e, u, body, one);
    let (w4, to) = stmt_lowered(e, u, body, one);
    lemma_for_update(e, w4, i, to);
    let (w5, after, update) = for_update_lowered(e, w4, i, to);
    let again = match update {
        Some(x) => x,
        None => entry,
    };
    lemma_link_stands(w5, after, 0, entry);
    let w6 = link(w5, after, entry);
    let (w7, l) = loop_closed(w6);
    assert(w5.loops.len() == u.loops.len());
    assert(loop_ok(w5, w5.loops[w3.loops.len() as int]));
    assert(l == w5.loops.last());
    assert(in_range(w7, l.continues)) by {
        assert forall|j: int| 0 <= j < l.continues.len() implies #[trigger] l.continues[j]
            < w7.nodes.len() by {
            assert(l.continues[j] < w5.nodes.len());
        }
    }
    lemma_link_stands(w7, l.continues, 0, again);
    let w8 = link(w7, l.continues, again);
    assert(stmt_lowered(e, w, i, open) == (w8, one + l.breaks));
    let nodes = w8.nodes;
    lemma_goes(w, open, w1, mid);
    lemma_goes(w1, mid, w2, mid.push(cond));
    assert(mid.push(cond)[mid.len() as int] == cond);
    assert(!ends(w2.nodes[cond as int]));
    lemma_for_entered(e, w1, i, mid);
    lemma_goes(w1, mid, w3, one);
    lemma_settled_opened(w3, None, one);
    lemma_goes(u, one, w4, to);
    lemma_goes(w4, to, w5, after);
    lemma_stands_on(w5.nodes, w6.nodes, nodes);
    lemma_stands_on(w4.nodes, w5.nodes, nodes);
    lemma_stands_on(w3.nodes, w4.nodes, nodes);
    lemma_stands_on(w2.nodes, w3.nodes, nodes);
    lemma_stands_on(w1.nodes, w2.nodes, nodes);
    // The first part.
    if p.init {
        assert(e.s.kid(i, 0) == Some(kids[0]));
        if e.s.is(kids[0], "VariableDeclaration"@) {
            lemma_ran(e, n, w, nodes, kids[0], open, mid);
        } else {
            lemma_one_node(e, n, w, nodes, e.s.span(kids[0]), KindView::Pure, open);
        }
    }
    // The condition.
    lemma_for_test_came(e, w1, i);
    if p.test {
        let span = e.s.span(kids[one_at]);
        assert(e.s.kid(i, one_at) == Some(kids[one_at]));
        lemma_calls_stay(e, w1.nodes.len(), w2.nodes, nodes, span);
        lemma_fewer_before(e, w1.nodes.len(), n, nodes, span);
    }
    lemma_leads_on(w2.nodes, nodes, entry, cond);
    assert(same_node(w2.nodes[cond as int], nodes[cond as int]));
    assert forall|j: int| 0 <= j < mid.len() implies (#[trigger] mid[j]) < w3.nodes.len() by {
        assert(mid[j] < w1.nodes.len());
    }
    lemma_all_lead_on(w3.nodes, nodes, mid, entry);
    // The body.
    let exits = one + l.breaks;
    assert(ran_from(e, u, nodes, body, one, to));
    lemma_settled_ranged(w4, to);
    if p.update {
        assert(e.s.kid(i, two_at) == Some(kids[two_at]));
        lemma_unit_came(e, w4, e.s.span(kids[two_at]), KindView::Pure, to);
    }
    assert(w4.loops == w5.loops);
    assert forall|j: int| 0 <= j < w4.loops.last().breaks.len() implies exits.contains(
        #[trigger] w4.loops.last().breaks[j],
    ) by {
        assert(exits[j + 1] == l.breaks[j]);
    }
    assert(body_ran(e, u, nodes, body, one, to, again, exits));
    // The update.
    let last = if after.len() > 0 {
        after[0]
    } else {
        0
    };
    if p.update {
        let span = e.s.span(kids[two_at]);
        lemma_calls_stay(e, w4.nodes.len(), w5.nodes, nodes, span);
        lemma_fewer_before(e, w4.nodes.len(), n, nodes, span);
        lemma_leads_on(w5.nodes, nodes, again, last);
        assert(same_node(w5.nodes[last as int], nodes[last as int]));
        assert(w6.nodes[after[0] as int].succs.contains(entry));
        assert forall|j: int| 0 <= j < to.len() implies (#[trigger] to[j]) < w5.nodes.len() by {
            assert(to[j] < w4.nodes.len());
        }
        lemma_all_lead_on(w5.nodes, nodes, to, again);
    } else {
        assert(after == to);
        assert forall|j: int| 0 <= j < to.len() implies (#[trigger] to[j]) < w6.nodes.len() by {
            assert(to[j] < w4.nodes.len());
        }
        lemma_all_lead_on(w6.nodes, nodes, to, entry);
    }
    (entry, cond, again, mid, last)
}

/// A function starts with a node on its line that defines its parameters. A
/// body that is a block runs in order behind it; one that is an expression is
/// returned.
pub proof fn a_function_runs_its_body(e: Env, file: Seq<char>, f: FnView) -> (to: Seq<usize>)
    requires
        function_lowered(e, file, f).nodes.len() <= usize::MAX,
    ensures
        ({
            let g = function_lowered(e, file, f);
            &&& g.entry == 0
            &&& g.nodes.len() > 0
            &&& g.nodes[0].kind is Pure
            &&& g.nodes[0].line == Some(f.line)
            &&& g.id.file == file
            &&& g.id.name == f.name
            &&& g.id.decl_line == Some(f.line)
            &&& if f.block {
                list_runs(e, 1, g.nodes, f.body, 0, seq![0usize], to)
            } else {
                one_node(
                    e,
                    1,
                    g.nodes,
                    e.s.span(f.body),
                    KindView::Return,
                    seq![0usize],
                    to,
                )
            }
        }),
{
    let w = params_lowered(fresh(), f.params, f.line);
    let one = seq![0usize];
    lemma_params(f.params, f.line);
    lemma_params_node(f.params, f.line);
    let none = Seq::<usize>::empty();
    assert(settled(fresh()));
    lemma_settled_ranged(w, one);
    if f.block {
        lemma_seq_lowered(e, w, f.body, 0, one);
        let (w1, to) = seq_lowered(e, w, f.body, 0, one);
        lemma_goes(w, one, w1, to);
        assert(same_node(w.nodes[0], w1.nodes[0]));
        assert(stands(w1.nodes, w1.nodes));
        let fronts = lemma_in_order(e, w, w1.nodes, f.body, 0, one);
        assert(in_order(e, 1, w1.nodes, f.body, 0, fronts, one, to));
        to
    } else {
        let span = e.s.span(f.body);
        let (w1, entry, exit) = unit_after(e, w, span, KindView::Return, one);
        lemma_unit_came(e, w, span, KindView::Return, one);
        assert(same_node(w.nodes[0], w1.nodes[0]));
        assert(came_to(e, 1, w1.nodes, span, KindView::Return, one, entry, exit));
        seq![exit]
    }
}

proof fn lemma_params_node(params: Seq<u32>, line: u32)
    ensures
        ({
            let w = params_lowered(fresh(), params, line);
            w.nodes.len() == 1 && w.nodes[0].kind is Pure && w.nodes[0].line == Some(line)
        }),
{
    lemma_vars_added_quiet(fresh(), sym_keys(params), 0, Seq::empty());
}

/// A source comes to its module and its functions, each once: the module first,
/// under the name `<module>`, then the functions in the order of the source.
pub proof fn a_source_comes_to_its_functions(s: Source, file: Seq<char>, k: int)
    requires
        0 <= k < facts_of(s).functions.len(),
    ensures
        ({
            let all = module_lowered(s, file);
            let f = facts_of(s);
            &&& all.len() == f.functions.len() + 1
            &&& all[0].id.name == "<module>"@
            &&& all[0].id.file == file
            &&& all[k + 1].id.name == f.functions[k].name
            &&& all[k + 1].id.decl_line == Some(f.functions[k].line)
            &&& all[k + 1] == function_lowered((Env { s, f }), file, f.functions[k])
        }),
{
    let e = Env { s, f: facts_of(s) };
    lemma_functions_in_order(e, file, e.f.functions.len() as int, k);
}

proof fn lemma_functions_in_order(e: Env, file: Seq<char>, n: int, k: int)
    requires
        0 <= k < n <= e.f.functions.len(),
    ensures
        functions_lowered(e, file, n).len() == n,
        functions_lowered(e, file, n)[k] == function_lowered(e, file, e.f.functions[k]),
    decreases n,
{
    if k < n - 1 {
        lemma_functions_in_order(e, file, n - 1, k);
    } else {
        lemma_functions_count(e, file, n - 1);
    }
}

proof fn lemma_functions_count(e: Env, file: Seq<char>, n: int)
    requires
        0 <= n <= e.f.functions.len(),
    ensures
        functions_lowered(e, file, n).len() == n,
    decreases n,
{
    if n > 0 {
        lemma_functions_count(e, file, n - 1);
    }
}

} // verus!
