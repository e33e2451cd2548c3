//! Which variables a piece of source reads and which it defines.

use vstd::prelude::*;

use crate::ir::{KindView, NodeView, VarId};
use crate::ts::constructs::{lemma_no_field, lemma_sorts, lemma_start};
use crate::ts::laws::{
    lemma_all_added_same, lemma_calls_of, lemma_declarators, lemma_defs_scanned_quiet,
    lemma_entered, lemma_in_outer_scopes, lemma_one_binding, lemma_quiet_more, lemma_quiet_trans, lemma_resolved_all_quiet,
    lemma_uses_of_quiet, live, quiet, settled,
};
use crate::ts::model::{
    bare_node, behind, binding_parts, call_pushed, calls_extracted, calls_of,
    declarators_lowered, declared,
    declared_all, defs_scanned, edge, entered, error_noted, fresh, identifiers_in, in_scopes,
    link_from, next_node, one_binding_lowered, params_lowered, pushed, resolved, resolved_all,
    snippet_at, stmt_lowered, unit_after, uses_of, uses_scanned, with_var, Env, Walk,
};
use crate::ts::shapes::{
    came_to, lemma_came_stays, lemma_entered_came, lemma_entered_len, lemma_goes,
    lemma_settled_ranged,
};
use crate::ts::statements::{lemma_binding_came, lemma_binding_texts};
use crate::ts::tree::{child_by_field, child_of_kind, kids, line_at, Pick};
use crate::ts::Language;

verus! {

/// Whether a name has a variable, and a list holds it.
pub open spec fn has(w: Walk, list: Seq<VarId>, name: Seq<char>) -> bool {
    resolved(w, name).0 == w && list.contains(resolved(w, name).1)
}

/// Whether two states give names the same variables.
spec fn alike(a: Walk, b: Walk) -> bool {
    a.scopes == b.scopes && a.globals == b.globals
}

proof fn lemma_known(w: Walk, list: Seq<VarId>, name: Seq<char>)
    requires
        has(w, list, name),
    ensures
        in_scopes(w.scopes, w.scopes.len() as int, name) is Some || w.globals.contains_key(name),
{
    let (w1, _v) = resolved(w, name);
    if in_scopes(w.scopes, w.scopes.len() as int, name) is None && !w.globals.contains_key(name) {
        assert(w1.globals.contains_key(name));
    }
}

proof fn lemma_alike(a: Walk, b: Walk, list: Seq<VarId>, name: Seq<char>)
    requires
        has(a, list, name),
        alike(a, b),
    ensures
        has(b, list, name),
{
    lemma_known(a, list, name);
}

proof fn lemma_added(list: Seq<VarId>, v: VarId)
    ensures
        with_var(list, v).contains(v),
        forall|x: VarId| list.contains(x) ==> #[trigger] with_var(list, v).contains(x),
{
    if !list.contains(v) {
        assert(list.push(v)[list.len() as int] == v);
        assert forall|x: VarId| list.contains(x) implies #[trigger] list.push(v).contains(x) by {
            let k = choose|k: int| 0 <= k < list.len() && list[k] == x;
            assert(list.push(v)[k] == x);
        }
    }
}

/// Resolving a name takes no variable from another.
proof fn lemma_resolved_on(w: Walk, other: Seq<char>, list: Seq<VarId>, name: Seq<char>)
    requires
        has(w, list, name) || name == other,
    ensures
        has(resolved(w, other).0, with_var(list, resolved(w, other).1), name),
{
    let (w1, v) = resolved(w, other);
    lemma_added(list, v);
    assert(w1.scopes == w.scopes);
    if name != other {
        lemma_known(w, list, name);
    }
}

proof fn lemma_all_resolved(
    w: Walk,
    names: Seq<Seq<char>>,
    k: int,
    out: Seq<VarId>,
    name: Seq<char>,
)
    requires
        0 <= k,
        has(w, out, name) || exists|j: int| k <= j < names.len() && names[j] == name,
    ensures
        has(resolved_all(w, names, k, out).0, resolved_all(w, names, k, out).1, name),
    decreases names.len() - k,
{
    if k < names.len() {
        let (w1, v) = resolved(w, names[k]);
        if has(w, out, name) || names[k] == name {
            lemma_resolved_on(w, names[k], out, name);
        }
        lemma_all_resolved(w1, names, k + 1, with_var(out, v), name);
    }
}

/// Declaring a name takes no variable from another.
proof fn lemma_declared_on(e: Env, w: Walk, other: Seq<char>, list: Seq<VarId>, name: Seq<char>)
    requires
        w.scopes.len() > 0,
        has(w, list, name) || name == other,
    ensures
        has(declared(e, w, other).0, with_var(list, declared(e, w, other).1), name),
        declared(e, w, other).0.scopes.len() == w.scopes.len(),
{
    let (w1, v) = declared(e, w, other);
    lemma_added(list, v);
    let n = w.scopes.len() as int;
    assert(w1.scopes[n - 1].contains_key(other));
    assert(w1.scopes[n - 1][other] == v);
    if name != other {
        lemma_known(w, list, name);
        lemma_in_outer_scopes(w.scopes, w1.scopes, n - 1, name);
        assert(w1.scopes[n - 1].contains_key(name) == w.scopes[n - 1].contains_key(name));
        assert(in_scopes(w1.scopes, n, name) == in_scopes(w.scopes, n, name));
    }
}

proof fn lemma_all_declared(
    e: Env,
    w: Walk,
    names: Seq<Seq<char>>,
    k: int,
    out: Seq<VarId>,
    name: Seq<char>,
)
    requires
        0 <= k,
        w.scopes.len() > 0,
        has(w, out, name) || exists|j: int| k <= j < names.len() && names[j] == name,
    ensures
        has(declared_all(e, w, names, k, out).0, declared_all(e, w, names, k, out).1, name),
    decreases names.len() - k,
{
    if k < names.len() {
        let (w1, v) = declared(e, w, names[k]);
        if has(w, out, name) || names[k] == name {
            lemma_declared_on(e, w, names[k], out, name);
        } else {
            lemma_declared_on(e, w, names[k], out, names[k]);
        }
        lemma_all_declared(e, w1, names, k + 1, with_var(out, v), name);
    }
}

proof fn lemma_link_alike(w: Walk, from: Seq<usize>, k: int, to: usize)
    requires
        0 <= k,
    ensures
        alike(w, link_from(w, from, k, to)),
    decreases from.len() - k,
{
    if k < from.len() {
        lemma_link_alike(edge(w, from[k], to), from, k + 1, to);
    }
}

proof fn lemma_entered_alike(
    w: Walk,
    calls: Seq<usize>,
    n: NodeView,
    open: Seq<usize>,
)
    ensures
        alike(w, entered(w, calls, n, open).0),
{
    let (w1, entry) = behind(pushed(w, n), calls, next_node(w));
    assert(alike(w, w1));
    lemma_link_alike(w1, open, 0, entry);
}

/// A piece of source reads the variable of every name in it.
pub proof fn a_unit_reads_its_names(
    e: Env,
    w: Walk,
    i: int,
    kind: KindView,
    open: Seq<usize>,
    name: Seq<char>,
)
    requires
        settled(w),
        live(w, open),
        unit_after(e, w, i, kind, open).0.nodes.len() <= usize::MAX,
        identifiers_in(e, i, None).contains(name),
    ensures
        ({
            let (w1, id) = unit_after(e, w, i, kind, open);
            id < w1.nodes.len() && has(w1, w1.nodes[id as int].uses, name)
        }),
{
    lemma_settled_ranged(w, open);
    let (w1, calls) = calls_extracted(e, w, i);
    let names = identifiers_in(e, i, None);
    let (w2, uses) = uses_scanned(e, w1, i, Seq::empty());
    lemma_resolved_all_quiet(w1, names, 0, Seq::empty());
    let n = bare_node(line_at(e.t, i), kind, Seq::empty(), uses, snippet_at(e, i));
    let (w3, id) = entered(w2, calls, n, open);
    assert(unit_after(e, w, i, kind, open) == (w3, id));
    lemma_entered_len(e, w, w2, calls, n, open, i);
    lemma_entered_came(e, w, w2, i, Some(i), n, open);
    let j = choose|j: int| 0 <= j < names.len() && names[j] == name;
    lemma_all_resolved(w1, names, 0, Seq::empty(), name);
    lemma_entered_alike(w2, calls, n, open);
    lemma_alike(w2, w3, uses, name);
}

/// A call reads the variable of every name in it, and defines one for its
/// result.
pub proof fn a_call_reads_its_names(e: Env, w: Walk, c: int, name: Seq<char>)
    requires
        identifiers_in(e, c, None).contains(name),
    ensures
        ({
            let w1 = call_pushed(e, w, c);
            &&& w1.nodes.len() == w.nodes.len() + 1
            &&& has(w1, w1.nodes.last().uses, name)
            &&& w1.nodes.last().defs.len() == 1
        }),
{
    let names = identifiers_in(e, c, None);
    let (w1, uses) = uses_scanned(e, w, c, Seq::empty());
    lemma_resolved_all_quiet(w, names, 0, Seq::empty());
    let j = choose|j: int| 0 <= j < names.len() && names[j] == name;
    lemma_all_resolved(w, names, 0, Seq::empty(), name);
    lemma_alike(w1, call_pushed(e, w, c), uses, name);
}

/// A function defines the variable of every parameter at its start.
pub proof fn parameters_are_defined_at_the_start(e: Env, params: int, line: u32, name: Seq<char>)
    requires
        identifiers_in(e, params, None).contains(name),
    ensures
        ({
            let w = params_lowered(e, fresh(), Some(params), line);
            w.nodes.len() == 1 && has(w, w.nodes[0].defs, name)
        }),
{
    let names = identifiers_in(e, params, None);
    let w = fresh();
    let (w1, defs) = defs_scanned(e, w, params, true, Seq::empty());
    lemma_defs_scanned_quiet(e, w, params, true, Seq::empty());
    let j = choose|j: int| 0 <= j < names.len() && names[j] == name;
    lemma_all_declared(e, w, names, 0, Seq::empty(), name);
    lemma_alike(w1, params_lowered(e, w, Some(params), line), defs, name);
}

/// A binding defines the variable of every name in its pattern.
pub proof fn a_binding_defines_its_names(
    l: Language,
    e: Env,
    w: Walk,
    i: int,
    pattern: int,
    name: Seq<char>,
    open: Seq<usize>,
) -> (id: usize)
    requires
        e.g == l.grammar(),
        settled(w),
        live(w, open),
        stmt_lowered(e, w, i, open).0.nodes.len() <= usize::MAX,
        match l {
            Language::Rust => e.t[i].kind == "let_declaration"@ && child_by_field(
                e.t,
                i,
                "pattern"@,
            ) == Some(pattern) && child_by_field(e.t, i, "alternative"@) is None,
            Language::Kotlin => e.t[i].kind == "property_declaration"@ && child_of_kind(
                e.t,
                i,
                "variable_declaration"@,
            ) == Some(pattern),
            Language::Go => (e.t[i].kind == "short_var_declaration"@ && child_by_field(
                e.t,
                i,
                "left"@,
            ) == Some(pattern)) || ((e.t[i].kind == "var_spec"@ || e.t[i].kind == "const_spec"@)
                && child_by_field(e.t, i, "name"@) == Some(pattern)),
            _ => false,
        },
        identifiers_in(e, pattern, None).contains(name),
    ensures
        ({
            let (w1, exits) = stmt_lowered(e, w, i, open);
            &&& exits == seq![id]
            &&& w.nodes.len() <= id < w1.nodes.len()
            &&& has(w1, w1.nodes[id as int].defs, name)
        }),
{
    lemma_sorts(l);
    lemma_no_field(e, i);
    lemma_start(e, w, i, open);
    let u = error_noted(e, w, i);
    lemma_settled_ranged(u, open);
    lemma_binding_texts();
    reveal_strlit("pattern");
    reveal_strlit("left");
    let (p, value) = binding_parts(e, i);
    if l is Go && (e.t[i].kind == "var_spec"@ || e.t[i].kind == "const_spec"@) {
        assert(e.g.binding_kinds2[0] == "var_spec"@);
        assert(e.g.binding_kinds2[1] == "const_spec"@);
    }
    assert(p == Some(pattern));
    let (w4, id) = one_binding_lowered(e, u, i, p, value, KindView::Pure, open);
    assert(stmt_lowered(e, w, i, open) == (w4, seq![id]));
    let names = identifiers_in(e, pattern, None);
    let (w1, calls) = calls_of(e, u, value);
    lemma_calls_of(e, u, open, value);
    let (w2, uses) = uses_of(e, w1, value);
    lemma_uses_of_quiet(e, w1, value);
    let (w3, defs) = defs_scanned(e, w2, pattern, true, Seq::empty());
    lemma_defs_scanned_quiet(e, w2, pattern, true, Seq::empty());
    assert(quiet(w2, w3));
    lemma_quiet_trans(w1, w2, w3);
    lemma_quiet_more(u, open, w1, open + calls, w3);
    lemma_all_added_same(u, w1, w3, calls);
    let n = bare_node(line_at(e.t, i), KindView::Pure, defs, uses, snippet_at(e, i));
    lemma_entered(u, open, w3, calls, n);
    lemma_entered_came(e, u, w3, i, value, n, open);
    let j = choose|j: int| 0 <= j < names.len() && names[j] == name;
    assert(w1.scopes.len() > 0);
    assert(w2.scopes.len() > 0);
    lemma_all_declared(e, w2, names, 0, Seq::empty(), name);
    lemma_entered_alike(w3, calls, n, open);
    lemma_alike(w3, w4, defs, name);
    id
}

/// Whether a declarator came to a node that makes the calls of its value.
pub open spec fn declarator_came(
    e: Env,
    before: nat,
    nodes: Seq<NodeView>,
    d: int,
    from: Seq<usize>,
    id: usize,
) -> bool {
    came_to(e, before, nodes, d, child_by_field(e.t, d, "value"@), KindView::Pure, from, id)
}

proof fn lemma_declarators_came(
    e: Env,
    w: Walk,
    i: int,
    k: int,
    before: nat,
    open: Seq<usize>,
) -> (ids: Seq<usize>)
    requires
        e.g.binding_declarator_field == "declarator"@,
        e.g.binding_declarator_name_field == "name"@,
        e.g.binding_declarator_value_field == "value"@,
        settled(w),
        live(w, open),
        before <= w.nodes.len(),
        0 <= k <= kids(e.t, i, Pick::Field("declarator"@)).len(),
        declarators_lowered(e, w, i, k, open).0.nodes.len() <= usize::MAX,
    ensures
        ({
            let all = kids(e.t, i, Pick::Field("declarator"@));
            let (w1, exits) = declarators_lowered(e, w, i, k, open);
            &&& ids.len() == all.len() - k
            &&& ids.len() > 0 ==> exits == seq![ids.last()]
            &&& ids.len() == 0 ==> exits == open
            &&& forall|j: int|
                0 <= j < ids.len() ==> declarator_came(
                    e,
                    before,
                    w1.nodes,
                    all[k + j],
                    if j == 0 {
                        open
                    } else {
                        seq![ids[j - 1]]
                    },
                    #[trigger] ids[j],
                )
        }),
    decreases kids(e.t, i, Pick::Field("declarator"@)).len() - k,
{
    let all = kids(e.t, i, Pick::Field("declarator"@));
    if k == all.len() {
        Seq::empty()
    } else {
        let pattern = child_by_field(e.t, all[k], "name"@);
        let value = child_by_field(e.t, all[k], "value"@);
        lemma_settled_ranged(w, open);
        lemma_one_binding(e, w, all[k], pattern, value, KindView::Pure, open);
        let (w1, id) = one_binding_lowered(e, w, all[k], pattern, value, KindView::Pure, open);
        let one = seq![id];
        lemma_declarators(e, w1, i, k + 1, one);
        let (w2, exits) = declarators_lowered(e, w1, i, k + 1, one);
        lemma_goes(w, open, w1, one);
        lemma_goes(w1, one, w2, exits);
        lemma_binding_came(e, w, all[k], pattern, value, KindView::Pure, open);
        assert forall|j: int| 0 <= j < open.len() implies (#[trigger] open[j])
            < w1.nodes.len() by {
            assert(open[j] < w.nodes.len());
        }
        lemma_came_stays(
            e,
            w.nodes.len(),
            before,
            w1.nodes,
            w2.nodes,
            all[k],
            value,
            KindView::Pure,
            open,
            id,
        );
        let rest = lemma_declarators_came(e, w1, i, k + 1, before, one);
        let ids = one + rest;
        assert forall|j: int| 0 <= j < ids.len() implies declarator_came(
            e,
            before,
            w2.nodes,
            all[k + j],
            if j == 0 {
                open
            } else {
                seq![ids[j - 1]]
            },
            #[trigger] ids[j],
        ) by {
            if j > 0 {
                assert(ids[j] == rest[j - 1]);
                assert(all[k + 1 + (j - 1)] == all[k + j]);
                if j > 1 {
                    assert(ids[j - 1] == rest[j - 2]);
                } else {
                    assert(seq![ids[0]] =~= one);
                }
            }
        }
        if rest.len() > 0 {
            assert(ids.last() == rest.last());
        }
        ids
    }
}

/// The declarators of a Java declaration run one behind the other, each as a node
/// on its line that makes the calls of its value.
pub proof fn declarators_run_in_order(e: Env, w: Walk, i: int, open: Seq<usize>) -> (ids: Seq<
    usize,
>)
    requires
        e.g == Language::Java.grammar(),
        e.t[i].kind == "local_variable_declaration"@ || e.t[i].kind == "field_declaration"@,
        settled(w),
        live(w, open),
        stmt_lowered(e, w, i, open).0.nodes.len() <= usize::MAX,
    ensures
        ({
            let all = kids(e.t, i, Pick::Field("declarator"@));
            let (w1, exits) = stmt_lowered(e, w, i, open);
            &&& ids.len() == all.len()
            &&& ids.len() > 0 ==> exits == seq![ids.last()]
            &&& ids.len() == 0 ==> exits == open
            &&& forall|j: int|
                0 <= j < ids.len() ==> declarator_came(
                    e,
                    w.nodes.len(),
                    w1.nodes,
                    all[j],
                    if j == 0 {
                        open
                    } else {
                        seq![ids[j - 1]]
                    },
                    #[trigger] ids[j],
                )
        }),
{
    lemma_sorts(Language::Java);
    lemma_start(e, w, i, open);
    reveal_strlit("declarator");
    let u = error_noted(e, w, i);
    assert(stmt_lowered(e, w, i, open) == declarators_lowered(e, u, i, 0, open));
    let ids = lemma_declarators_came(e, u, i, 0, w.nodes.len(), open);
    let all = kids(e.t, i, Pick::Field("declarator"@));
    assert forall|j: int| 0 <= j < ids.len() implies declarator_came(
        e,
        w.nodes.len(),
        stmt_lowered(e, w, i, open).0.nodes,
        all[j],
        if j == 0 {
            open
        } else {
            seq![ids[j - 1]]
        },
        #[trigger] ids[j],
    ) by {
        assert(all[0 + j] == all[j]);
    }
    ids
}

} // verus!
