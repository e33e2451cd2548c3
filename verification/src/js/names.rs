//! Which calls and names of a source are known, what calls name, and what a
//! piece of source reads and writes.

use vstd::prelude::*;

use crate::ir::{KindView, VarId};
use crate::js::facts::{
    bindings_before, body_of, call_key, callee_chain, callee_text, calls_before, clamp_u32,
    facts_of, function_around, function_fact, function_name, functions_before, member_chain,
    offset_line, order_keeps_positions, order_of, params_of, ref_key, refs_before, CallView, Facts,
    KeyView, RefView,
};
use crate::js::laws::{
    lemma_captures_added_quiet, lemma_captures_stay, lemma_position, lemma_quiet_trans,
    lemma_unit_uses, lemma_vars_added_quiet, lemma_vars_stay, lemma_with_var, quiet, ranged,
};
use crate::js::model::{
    bound_inside, bound_keys, call_nested, call_spans, call_uses, calls_pushed, captures,
    captures_added, captures_before, chain_from,
    direct_temps_added, edge, in_another, in_nested_fn, in_one_of, inner_before, line_of,
    nested_fns, next_node, outer_temps_added, position_of, pushed, read_keys, snippet, unit,
    unit_defs, unit_uses, var, vars_added, with_var, written_keys, Env, JsWalk,
};
use crate::js::source::{within, Reference, Source, Span};
use crate::text::{decimal, joined_with};
use crate::ts::model::bare_node;
use crate::ts::tree::parent;

verus! {

proof fn lemma_texts()
    ensures
        "IdentifierReference"@.len() == 19,
        "ThisExpression"@.len() == 14,
        "StaticMemberExpression"@.len() == 22,
        "ChainExpression"@.len() == 15,
        "ParenthesizedExpression"@.len() == 23,
        "CallExpression"@.len() == 14,
        "NewExpression"@.len() == 13,
{
    reveal_strlit("IdentifierReference");
    reveal_strlit("ThisExpression");
    reveal_strlit("StaticMemberExpression");
    reveal_strlit("ChainExpression");
    reveal_strlit("ParenthesizedExpression");
    reveal_strlit("CallExpression");
    reveal_strlit("NewExpression");
}

/// The call that a node makes: `name` for a call, `new name` for a construction.
pub open spec fn made_at(s: Source, i: int, callee: int) -> CallView {
    CallView {
        span: s.span(i),
        callee: if s.is(i, "NewExpression"@) {
            "new "@ + callee_text(s, callee)
        } else {
            callee_text(s, callee)
        },
    }
}

proof fn lemma_call_listed(s: Source, k: int, i: int, callee: int)
    requires
        0 <= i < k <= s.t.len(),
        s.is(i, "CallExpression"@) || s.is(i, "NewExpression"@),
        s.kid(i, 0) == Some(callee),
    ensures
        calls_before(s, k).contains(made_at(s, i, callee)),
    decreases k,
{
    lemma_texts();
    let rest = calls_before(s, k - 1);
    let all = calls_before(s, k);
    if i == k - 1 {
        assert(all == rest.push(made_at(s, i, callee)));
        assert(all[rest.len() as int] == made_at(s, i, callee));
    } else {
        lemma_call_listed(s, k - 1, i, callee);
        let x = choose|x: int| 0 <= x < rest.len() && rest[x] == made_at(s, i, callee);
        assert(all[x] == made_at(s, i, callee));
    }
}

proof fn lemma_calls_few(s: Source, k: int)
    requires
        0 <= k <= s.t.len(),
    ensures
        calls_before(s, k).len() <= k,
        refs_before(s, k).len() <= k,
    decreases k,
{
    if k > 0 {
        lemma_calls_few(s, k - 1);
    }
}

/// Every call and every construction in a source is known, with the name that it
/// calls.
pub proof fn every_call_is_known(s: Source, i: int, callee: int) -> (j: int)
    requires
        s.t.len() <= usize::MAX,
        s.is(i, "CallExpression"@) || s.is(i, "NewExpression"@),
        s.kid(i, 0) == Some(callee),
    ensures
        0 <= j < facts_of(s).calls.len(),
        facts_of(s).calls[j].span == s.span(i),
        s.is(i, "CallExpression"@) ==> facts_of(s).calls[j].callee == callee_text(s, callee),
        s.is(i, "NewExpression"@) ==> facts_of(s).calls[j].callee == "new "@ + callee_text(
            s,
            callee,
        ),
{
    lemma_texts();
    let n = s.t.len() as int;
    lemma_call_listed(s, n, i, callee);
    lemma_calls_few(s, n);
    let v = calls_before(s, n);
    let x = choose|x: int| 0 <= x < v.len() && v[x] == made_at(s, i, callee);
    let keys = v.map_values(|c: CallView| call_key(c));
    order_keeps_positions(keys, keys.len() as int, x as usize);
    let o = order_of(keys, keys.len() as int);
    let j = choose|j: int| 0 <= j < o.len() && o[j] == x as usize;
    assert(facts_of(s).calls[j] == v[x]);
    j
}

proof fn lemma_listed_call(s: Source, k: int, x: int) -> (i: int)
    requires
        0 <= k <= s.t.len(),
        0 <= x < calls_before(s, k).len(),
    ensures
        0 <= i < k,
        s.is(i, "CallExpression"@) || s.is(i, "NewExpression"@),
        calls_before(s, k)[x].span == s.span(i),
    decreases k,
{
    if x < calls_before(s, k - 1).len() {
        lemma_listed_call(s, k - 1, x)
    } else {
        k - 1
    }
}

/// Nothing but a call or a construction is known as a call.
pub proof fn only_calls_are_known(s: Source, j: int) -> (i: int)
    requires
        s.t.len() <= usize::MAX,
        0 <= j < facts_of(s).calls.len(),
    ensures
        s.is(i, "CallExpression"@) || s.is(i, "NewExpression"@),
        facts_of(s).calls[j].span == s.span(i),
{
    let n = s.t.len() as int;
    lemma_calls_few(s, n);
    let v = calls_before(s, n);
    let keys = v.map_values(|c: CallView| call_key(c));
    let o = order_of(keys, keys.len() as int);
    order_keeps_positions(keys, keys.len() as int, o[j]);
    lemma_listed_call(s, n, o[j] as int)
}

/// What is known of a name that is referred to.
pub open spec fn referred_at(s: Source, i: int, r: Reference) -> RefView {
    RefView {
        span: s.span(i),
        key: match (r.symbol, s.name(i)) {
            (Some(sym), _) => KeyView::Sym(sym),
            (None, Some(name)) => KeyView::Global(name),
            (None, None) => KeyView::Global(Seq::empty()),
        },
        read: r.read,
        write: r.write,
    }
}

proof fn lemma_ref_listed(s: Source, k: int, i: int, r: Reference)
    requires
        0 <= i < k <= s.t.len(),
        s.is(i, "IdentifierReference"@),
        s.reference(i) == Some(r),
    ensures
        refs_before(s, k).contains(referred_at(s, i, r)),
    decreases k,
{
    let rest = refs_before(s, k - 1);
    let all = refs_before(s, k);
    if i == k - 1 {
        assert(all == rest.push(referred_at(s, i, r)));
        assert(all[rest.len() as int] == referred_at(s, i, r));
    } else {
        lemma_ref_listed(s, k - 1, i, r);
        let x = choose|x: int| 0 <= x < rest.len() && rest[x] == referred_at(s, i, r);
        assert(all[x] == referred_at(s, i, r));
    }
}

/// Every reference to a name is known: a bound name by its symbol, an ambient one
/// by its text, read and written as the source reads and writes it.
pub proof fn every_reference_is_known(s: Source, i: int, r: Reference) -> (j: int)
    requires
        s.t.len() <= usize::MAX,
        s.is(i, "IdentifierReference"@),
        s.reference(i) == Some(r),
    ensures
        0 <= j < facts_of(s).refs.len(),
        facts_of(s).refs[j].span == s.span(i),
        facts_of(s).refs[j].read == r.read,
        facts_of(s).refs[j].write == r.write,
        r.symbol matches Some(sym) ==> facts_of(s).refs[j].key == KeyView::Sym(sym),
        r.symbol is None ==> (s.name(i) matches Some(name) ==> facts_of(s).refs[j].key
            == KeyView::Global(name)),
{
    let n = s.t.len() as int;
    lemma_ref_listed(s, n, i, r);
    lemma_calls_few(s, n);
    let v = refs_before(s, n);
    let x = choose|x: int| 0 <= x < v.len() && v[x] == referred_at(s, i, r);
    let keys = v.map_values(|y: RefView| ref_key(y));
    order_keeps_positions(keys, keys.len() as int, x as usize);
    let o = order_of(keys, keys.len() as int);
    let j = choose|j: int| 0 <= j < o.len() && o[j] == x as usize;
    assert(facts_of(s).refs[j] == v[x]);
    j
}

proof fn lemma_binding_listed(s: Source, k: int, i: int, sym: u32)
    requires
        0 <= i < k <= s.t.len(),
        s.is(i, "BindingIdentifier"@),
        s.binding(i) == Some(sym),
    ensures
        bindings_before(s, k).contains((s.span(i), sym)),
    decreases k,
{
    let rest = bindings_before(s, k - 1);
    let all = bindings_before(s, k);
    if i == k - 1 {
        assert(all[rest.len() as int] == (s.span(i), sym));
    } else {
        lemma_binding_listed(s, k - 1, i, sym);
        let x = choose|x: int| 0 <= x < rest.len() && rest[x] == (s.span(i), sym);
        assert(all[x] == (s.span(i), sym));
    }
}

/// Every name that is bound is known by its symbol.
pub proof fn every_binding_is_known(s: Source, i: int, sym: u32)
    requires
        s.is(i, "BindingIdentifier"@),
        s.binding(i) == Some(sym),
    ensures
        facts_of(s).bindings.contains((s.span(i), sym)),
{
    lemma_binding_listed(s, s.t.len() as int, i, sym);
}

/// A name that is called is called by its name, and `this` by that word.
pub proof fn a_name_is_called_by_its_name(s: Source, i: int, name: Seq<char>)
    ensures
        s.is(i, "IdentifierReference"@) && s.name(i) == Some(name) ==> callee_text(s, i) == name,
        s.is(i, "ThisExpression"@) ==> callee_text(s, i) == "this"@,
{
    lemma_texts();
    if s.is(i, "IdentifierReference"@) && s.name(i) == Some(name) {
        assert(callee_chain(s, i).0 == seq![name]);
    }
    if s.is(i, "ThisExpression"@) {
        assert(callee_chain(s, i).0 == seq!["this"@]);
    }
}

/// Whether a node is a name or `this` with members behind it, `n` steps deep.
pub open spec fn is_path(s: Source, i: int, n: nat) -> bool
    decreases n,
{
    if n == 0 {
        s.is(i, "IdentifierReference"@) || s.is(i, "ThisExpression"@)
    } else {
        s.kid(i, 0) matches Some(c) && is_path(s, c, (n - 1) as nat) && (s.is(
            i,
            "StaticMemberExpression"@,
        ) || s.is(i, "ParenthesizedExpression"@) || (s.is(i, "ChainExpression"@) && s.is(
            c,
            "StaticMemberExpression"@,
        )))
    }
}

proof fn lemma_path(s: Source, i: int, n: nat)
    requires
        is_path(s, i, n),
    ensures
        callee_chain(s, i).1,
        callee_chain(s, i).0.len() > 0,
    decreases n,
{
    lemma_texts();
    if n > 0 {
        let c = s.kid(i, 0)->0;
        lemma_path(s, c, (n - 1) as nat);
        assert(s.last_kid(i) is Some);
        if s.is(i, "StaticMemberExpression"@) {
            assert(callee_chain(s, i) == member_chain(s, i));
        } else if s.is(c, "StaticMemberExpression"@) {
            assert(callee_chain(s, c) == member_chain(s, c));
        }
    }
}

/// A member of a path is called by what its object is called by, a dot and the
/// member's name.
pub proof fn a_member_is_called_through_its_object(
    s: Source,
    i: int,
    object: int,
    property: int,
    n: nat,
    name: Seq<char>,
)
    requires
        s.is(i, "StaticMemberExpression"@),
        s.kid(i, 0) == Some(object),
        s.last_kid(i) == Some(property),
        is_path(s, object, n),
        s.name(property) == Some(name),
    ensures
        callee_text(s, i) == callee_text(s, object) + "."@ + name,
{
    lemma_texts();
    lemma_path(s, object, n);
    let parts = callee_chain(s, object).0;
    assert(callee_chain(s, i) == member_chain(s, i));
    assert(callee_chain(s, i).0 == parts.push(name));
    assert(parts.push(name).drop_last() =~= parts);
    assert(joined_with(parts.push(name), "."@) == joined_with(parts, "."@) + "."@ + name);
}

/// Parentheses round a path, and the sign of an optional chain, name nothing.
pub proof fn parentheses_name_nothing(s: Source, i: int, inner: int, n: nat)
    requires
        s.is(i, "ParenthesizedExpression"@) || (s.is(i, "ChainExpression"@) && s.is(
            inner,
            "StaticMemberExpression"@,
        )),
        s.kid(i, 0) == Some(inner),
        is_path(s, inner, n),
    ensures
        callee_text(s, i) == callee_text(s, inner),
{
    lemma_texts();
    lemma_path(s, inner, n);
    if s.is(inner, "StaticMemberExpression"@) {
        assert(callee_chain(s, inner) == member_chain(s, inner));
    }
}

/// Whether a list of variables holds that of a key.
pub open spec fn holds(vars: Seq<KeyView>, list: Seq<VarId>, key: KeyView) -> bool {
    exists|p: int|
        0 <= p < vars.len() && #[trigger] vars[p] == key && list.contains(clamp_u32(p))
}

proof fn lemma_holds_on(w: JsWalk, w1: JsWalk, a: Seq<VarId>, b: Seq<VarId>, key: KeyView)
    requires
        holds(w.vars, a, key),
        quiet(w, w1),
        forall|x: VarId| a.contains(x) ==> #[trigger] b.contains(x),
    ensures
        holds(w1.vars, b, key),
{
    let p = choose|p: int|
        0 <= p < w.vars.len() && #[trigger] w.vars[p] == key && a.contains(clamp_u32(p));
    assert(w1.vars[p] == key);
    assert(b.contains(clamp_u32(p)));
}

proof fn lemma_vars_held(w: JsWalk, keys: Seq<KeyView>, k: int, out: Seq<VarId>, j: int)
    requires
        0 <= k <= j < keys.len(),
    ensures
        holds(vars_added(w, keys, k, out).0.vars, vars_added(w, keys, k, out).1, keys[j]),
    decreases j - k,
{
    let (w1, v) = var(w, keys[k]);
    let next = with_var(out, v);
    if k < j {
        lemma_vars_held(w1, keys, k + 1, next, j);
    } else {
        lemma_position(w.vars, keys[k], 0);
        lemma_with_var(out, v);
        let p = position_of(w.vars, keys[k], 0);
        assert(w1.vars[p] == keys[k]);
        assert(holds(w1.vars, next, keys[k]));
        let (w2, end) = vars_added(w1, keys, k + 1, next);
        lemma_vars_added_quiet(w1, keys, k + 1, next);
        assert forall|x: VarId| next.contains(x) implies #[trigger] end.contains(x) by {
            lemma_vars_stay(w1, keys, k + 1, next, x);
        }
        lemma_holds_on(w1, w2, next, end, keys[k]);
    }
}

proof fn lemma_all_held(w: JsWalk, keys: Seq<KeyView>, out: Seq<VarId>, key: KeyView)
    requires
        keys.contains(key),
    ensures
        holds(vars_added(w, keys, 0, out).0.vars, vars_added(w, keys, 0, out).1, key),
{
    let j = choose|j: int| 0 <= j < keys.len() && keys[j] == key;
    lemma_vars_held(w, keys, 0, out, j);
}

proof fn lemma_read(e: Env, part: Span, unit: Span, apart: Seq<Span>, k: int, r: int)
    requires
        0 <= r < k <= e.f.refs.len(),
        within(e.f.refs[r].span, part),
        !in_nested_fn(e.f, e.f.refs[r].span, unit),
        !in_one_of(e.f.refs[r].span, apart),
        e.f.refs[r].read || !e.f.refs[r].write,
    ensures
        read_keys(e.f, part, unit, apart, k).contains(e.f.refs[r].key),
    decreases k,
{
    let rest = read_keys(e.f, part, unit, apart, k - 1);
    let all = read_keys(e.f, part, unit, apart, k);
    let key = e.f.refs[r].key;
    if r == k - 1 {
        assert(all[rest.len() as int] == key);
    } else {
        lemma_read(e, part, unit, apart, k - 1, r);
        let x = choose|x: int| 0 <= x < rest.len() && rest[x] == key;
        assert(all[x] == key);
    }
}

proof fn lemma_written(e: Env, span: Span, k: int, r: int)
    requires
        0 <= r < k <= e.f.refs.len(),
        within(e.f.refs[r].span, span),
        !in_nested_fn(e.f, e.f.refs[r].span, span),
        e.f.refs[r].write,
    ensures
        written_keys(e.f, span, k).contains(e.f.refs[r].key),
    decreases k,
{
    let rest = written_keys(e.f, span, k - 1);
    let all = written_keys(e.f, span, k);
    let key = e.f.refs[r].key;
    if r == k - 1 {
        assert(all[rest.len() as int] == key);
    } else {
        lemma_written(e, span, k - 1, r);
        let x = choose|x: int| 0 <= x < rest.len() && rest[x] == key;
        assert(all[x] == key);
    }
}

proof fn lemma_bound(e: Env, span: Span, k: int, b: int)
    requires
        0 <= b < k <= e.f.bindings.len(),
        within(e.f.bindings[b].0, span),
        !in_nested_fn(e.f, e.f.bindings[b].0, span),
    ensures
        bound_keys(e.f, span, k).contains(KeyView::Sym(e.f.bindings[b].1)),
    decreases k,
{
    let rest = bound_keys(e.f, span, k - 1);
    let all = bound_keys(e.f, span, k);
    let key = KeyView::Sym(e.f.bindings[b].1);
    if b == k - 1 {
        assert(all[rest.len() as int] == key);
    } else {
        lemma_bound(e, span, k - 1, b);
        let x = choose|x: int| 0 <= x < rest.len() && rest[x] == key;
        assert(all[x] == key);
    }
}

proof fn lemma_outer_stay(
    spans: Seq<Span>,
    temps: Seq<VarId>,
    k: int,
    uses: Seq<VarId>,
    x: VarId,
)
    requires
        0 <= k,
        uses.contains(x),
    ensures
        outer_temps_added(spans, temps, k, uses).contains(x),
    decreases temps.len() - k,
{
    if k < temps.len() {
        lemma_with_var(uses, temps[k]);
        let next = if call_nested(spans, k) {
            uses
        } else {
            with_var(uses, temps[k])
        };
        lemma_outer_stay(spans, temps, k + 1, next, x);
    }
}

proof fn lemma_direct_stay(
    spans: Seq<Span>,
    temps: Seq<VarId>,
    outer: Span,
    inner: Seq<Span>,
    k: int,
    uses: Seq<VarId>,
    x: VarId,
)
    requires
        0 <= k,
        uses.contains(x),
    ensures
        direct_temps_added(spans, temps, outer, inner, k, uses).contains(x),
    decreases temps.len() - k,
{
    if k < temps.len() {
        lemma_with_var(uses, temps[k]);
        let direct = within(spans[k], outer) && !in_another(spans[k], inner);
        let next = if direct {
            with_var(uses, temps[k])
        } else {
            uses
        };
        lemma_direct_stay(spans, temps, outer, inner, k + 1, next, x);
    }
}

proof fn lemma_unit_reads(e: Env, w: JsWalk, span: Span, r: int)
    requires
        0 <= r < e.f.refs.len(),
        within(e.f.refs[r].span, span),
        !in_nested_fn(e.f, e.f.refs[r].span, span),
        !in_one_of(e.f.refs[r].span, call_spans(e.f, span)),
        e.f.refs[r].read || !e.f.refs[r].write,
    ensures
        holds(unit_uses(e, w, span).0.vars, unit_uses(e, w, span).1, e.f.refs[r].key),
{
    let key = e.f.refs[r].key;
    let spans = call_spans(e.f, span);
    let (w1, ids, temps) = calls_pushed(e, w, span, 0, Seq::empty(), Seq::empty());
    let w2 = chain_from(w1, ids, 0);
    let keys = read_keys(e.f, span, span, spans, e.f.refs.len() as int);
    lemma_read(e, span, span, spans, e.f.refs.len() as int, r);
    let (w3, u1) = vars_added(w2, keys, 0, Seq::empty());
    lemma_all_held(w2, keys, Seq::empty(), key);
    let mid = outer_temps_added(spans, temps, 0, u1);
    let fns = nested_fns(e.f, span);
    lemma_captures_added_quiet(e, w3, fns, 0, mid);
    let (w4, u2) = captures_added(e, w3, fns, 0, mid);
    assert forall|x: VarId| u1.contains(x) implies #[trigger] u2.contains(x) by {
        lemma_outer_stay(spans, temps, 0, u1, x);
        lemma_captures_stay(e, w3, fns, 0, mid, x);
    }
    lemma_holds_on(w3, w4, u1, u2, key);
}

proof fn lemma_unit_node(e: Env, w: JsWalk, span: Span, kind: KindView)
    requires
        ranged(w),
        unit(e, w, span, kind).0.nodes.len() <= usize::MAX,
    ensures
        ({
            let (w1, uses, _c) = unit_uses(e, w, span);
            let (w2, defs) = unit_defs(e, w1, span);
            let (w3, _entry, id) = unit(e, w, span, kind);
            &&& id < w3.nodes.len()
            &&& w3.nodes[id as int].uses == uses
            &&& w3.nodes[id as int].defs == defs
            &&& w3.vars == w2.vars
        }),
{
    let (w1, uses, calls) = unit_uses(e, w, span);
    let (w2, defs) = unit_defs(e, w1, span);
    let n = bare_node(
        line_of(e.s.src, span.start),
        kind,
        defs,
        uses,
        snippet(e.s.src, span),
    );
    let id = next_node(w2);
    let p = pushed(w2, n);
    let written = written_keys(e.f, span, e.f.refs.len() as int);
    let (u1, d1) = vars_added(w1, written, 0, Seq::empty());
    lemma_vars_added_quiet(w1, written, 0, Seq::empty());
    lemma_vars_added_quiet(u1, bound_keys(e.f, span, e.f.bindings.len() as int), 0, d1);
    lemma_unit_uses(e, w, Seq::empty(), span);
    assert(p.nodes.len() == w2.nodes.len() + 1);
    if calls.len() > 0 {
        assert(calls[calls.len() - 1] < w1.nodes.len());
        let w3 = edge(p, calls.last(), id);
        assert(w3.nodes.len() == p.nodes.len());
        assert(w3.nodes[id as int].uses == uses);
    }
}

/// A piece of source defines every variable that it writes or binds, and reads
/// every one that it reads outside the calls in it, but for what nested functions
/// do.
pub proof fn a_unit_reads_and_writes_its_names(
    e: Env,
    w: JsWalk,
    span: Span,
    kind: KindView,
    r: int,
    b: int,
)
    requires
        ranged(w),
        unit(e, w, span, kind).0.nodes.len() <= usize::MAX,
    ensures
        ({
            let (w1, _entry, id) = unit(e, w, span, kind);
            let n = w1.nodes[id as int];
            &&& 0 <= r < e.f.refs.len() && within(e.f.refs[r].span, span) && !in_nested_fn(
                e.f,
                e.f.refs[r].span,
                span,
            ) ==> {
                &&& e.f.refs[r].write ==> holds(w1.vars, n.defs, e.f.refs[r].key)
                &&& (e.f.refs[r].read || !e.f.refs[r].write) && !in_one_of(
                    e.f.refs[r].span,
                    call_spans(e.f, span),
                ) ==> holds(w1.vars, n.uses, e.f.refs[r].key)
            }
            &&& 0 <= b < e.f.bindings.len() && within(e.f.bindings[b].0, span) && !in_nested_fn(
                e.f,
                e.f.bindings[b].0,
                span,
            ) ==> holds(w1.vars, n.defs, KeyView::Sym(e.f.bindings[b].1))
        }),
{
    lemma_unit_node(e, w, span, kind);
    let (u, uses, _c) = unit_uses(e, w, span);
    let written = written_keys(e.f, span, e.f.refs.len() as int);
    let bound = bound_keys(e.f, span, e.f.bindings.len() as int);
    let (u1, d1) = vars_added(u, written, 0, Seq::empty());
    let (u2, d2) = vars_added(u1, bound, 0, d1);
    lemma_vars_added_quiet(u, written, 0, Seq::empty());
    lemma_vars_added_quiet(u1, bound, 0, d1);
    lemma_quiet_trans(u, u1, u2);
    if 0 <= r < e.f.refs.len() && within(e.f.refs[r].span, span) && !in_nested_fn(
        e.f,
        e.f.refs[r].span,
        span,
    ) {
        let key = e.f.refs[r].key;
        if e.f.refs[r].write {
            lemma_written(e, span, e.f.refs.len() as int, r);
            lemma_all_held(u, written, Seq::empty(), key);
            assert forall|x: VarId| d1.contains(x) implies #[trigger] d2.contains(x) by {
                lemma_vars_stay(u1, bound, 0, d1, x);
            }
            lemma_holds_on(u1, u2, d1, d2, key);
        }
        if (e.f.refs[r].read || !e.f.refs[r].write) && !in_one_of(
            e.f.refs[r].span,
            call_spans(e.f, span),
        ) {
            lemma_unit_reads(e, w, span, r);
            lemma_holds_on(u, u2, uses, uses, key);
        }
    }
    if 0 <= b < e.f.bindings.len() && within(e.f.bindings[b].0, span) && !in_nested_fn(
        e.f,
        e.f.bindings[b].0,
        span,
    ) {
        lemma_bound(e, span, e.f.bindings.len() as int, b);
        lemma_all_held(u1, bound, d1, KeyView::Sym(e.f.bindings[b].1));
    }
}

/// A call reads every name in it that stands in no call inside it, but for what
/// nested functions read.
pub proof fn a_call_reads_its_names(
    e: Env,
    w: JsWalk,
    span: Span,
    j: int,
    temps: Seq<VarId>,
    r: int,
)
    requires
        0 <= j < call_spans(e.f, span).len(),
        0 <= r < e.f.refs.len(),
        within(e.f.refs[r].span, call_spans(e.f, span)[j]),
        !in_nested_fn(e.f, e.f.refs[r].span, span),
        forall|k: int|
            0 <= k < call_spans(e.f, span).len() && #[trigger] call_spans(e.f, span)[k]
                != call_spans(e.f, span)[j] && within(
                call_spans(e.f, span)[k],
                call_spans(e.f, span)[j],
            ) ==> !within(e.f.refs[r].span, call_spans(e.f, span)[k]),
        e.f.refs[r].read || !e.f.refs[r].write,
    ensures
        holds(
            call_uses(e, w, span, j, temps).0.vars,
            call_uses(e, w, span, j, temps).1,
            e.f.refs[r].key,
        ),
{
    let key = e.f.refs[r].key;
    let spans = call_spans(e.f, span);
    let inner = inner_before(spans, spans[j], spans.len() as int);
    assert forall|k: int| 0 <= k < inner.len() implies !within(
        e.f.refs[r].span,
        #[trigger] inner[k],
    ) by {
        lemma_inner(spans, spans[j], spans.len() as int, k);
    }
    let keys = read_keys(e.f, spans[j], span, inner, e.f.refs.len() as int);
    lemma_read(e, spans[j], span, inner, e.f.refs.len() as int, r);
    let (w1, u1) = vars_added(w, keys, 0, Seq::empty());
    lemma_all_held(w, keys, Seq::empty(), key);
    let mid = direct_temps_added(spans, temps, spans[j], inner, 0, u1);
    let fns = nested_fns(e.f, spans[j]);
    lemma_captures_added_quiet(e, w1, fns, 0, mid);
    let (w2, u2) = captures_added(e, w1, fns, 0, mid);
    assert forall|x: VarId| u1.contains(x) implies #[trigger] u2.contains(x) by {
        lemma_direct_stay(spans, temps, spans[j], inner, 0, u1, x);
        lemma_captures_stay(e, w1, fns, 0, mid, x);
    }
    lemma_holds_on(w1, w2, u1, u2, key);
}

proof fn lemma_inner(all: Seq<Span>, outer: Span, k: int, x: int)
    requires
        0 <= k <= all.len(),
        0 <= x < inner_before(all, outer, k).len(),
    ensures
        exists|j: int|
            0 <= j < all.len() && #[trigger] all[j] == inner_before(all, outer, k)[x] && all[j]
                != outer && within(all[j], outer),
    decreases k,
{
    let rest = inner_before(all, outer, k - 1);
    if x < rest.len() {
        lemma_inner(all, outer, k - 1, x);
    } else {
        assert(all[k - 1] == inner_before(all, outer, k)[x]);
    }
}

proof fn lemma_function_listed(s: Source, k: int, i: int, body: int)
    requires
        0 <= i < k <= s.t.len(),
        body_of(s, i) == Some(body),
    ensures
        functions_before(s, k).contains(function_fact(s, i, body)),
    decreases k,
{
    let rest = functions_before(s, k - 1);
    let all = functions_before(s, k);
    let f = function_fact(s, i, body);
    if i == k - 1 {
        assert(all[rest.len() as int] == f);
    } else {
        lemma_function_listed(s, k - 1, i, body);
        let x = choose|x: int| 0 <= x < rest.len() && rest[x] == f;
        assert(all[x] == f);
    }
}

/// Every function with a body, and every arrow function, is known: by its name,
/// its body and whether that is a block.
pub proof fn every_function_is_known(s: Source, i: int, body: int) -> (j: int)
    requires
        (s.is(i, "Function"@) && s.kid_of(i, "FunctionBody"@) == Some(body)) || (s.is(
            i,
            "ArrowFunctionExpression"@,
        ) && s.last_kid(i) == Some(body)),
    ensures
        0 <= j < facts_of(s).functions.len(),
        ({
            let f = facts_of(s).functions[j];
            &&& f.name == function_name(s, i)
            &&& f.body == body
            &&& f.block == s.is(body, "FunctionBody"@)
            &&& f.full_span == s.span(i)
            &&& f.body_span == s.span(body)
        }),
{
    reveal_strlit("Function");
    reveal_strlit("ArrowFunctionExpression");
    assert("Function"@.len() != "ArrowFunctionExpression"@.len());
    lemma_function_listed(s, s.t.len() as int, i, body);
    let all = facts_of(s).functions;
    choose|j: int| 0 <= j < all.len() && all[j] == function_fact(s, i, body)
}

/// A function goes by its own name. One without goes by the name of the variable,
/// the member or the property that it is given to.
pub proof fn a_function_goes_by_its_name(s: Source, i: int, p: int, at: int, name: Seq<char>)
    ensures
        s.is(i, "Function"@) && s.kid_of(i, "BindingIdentifier"@) == Some(at) && s.name(at) == Some(
            name,
        ) ==> function_name(s, i) == name,
        s.is(i, "ArrowFunctionExpression"@) && parent(s.t, i) == Some(p) && s.is(
            p,
            "VariableDeclarator"@,
        ) && s.kid(p, 0) == Some(at) && s.is(at, "BindingIdentifier"@) && s.name(at) == Some(name)
            ==> function_name(s, i) == name,
        s.is(i, "ArrowFunctionExpression"@) && parent(s.t, i) == Some(p) && s.is(
            p,
            "AssignmentExpression"@,
        ) && s.kid(p, 0) == Some(at) && s.is(at, "IdentifierReference"@) && s.name(at) == Some(name)
            ==> function_name(s, i) == name,
        s.is(i, "ArrowFunctionExpression"@) && parent(s.t, i) == Some(p) && s.is(
            p,
            "AssignmentExpression"@,
        ) && s.kid(p, 0) == Some(at) && s.is(at, "StaticMemberExpression"@) && (s.last_kid(
            at,
        ) matches Some(member) && s.name(member) == Some(name)) ==> function_name(s, i) == name,
        s.is(i, "ArrowFunctionExpression"@) && parent(s.t, i) == Some(p) && (s.is(
            p,
            "ObjectProperty"@,
        ) || s.is(p, "PropertyDefinition"@) || s.is(p, "MethodDefinition"@)) && s.key(p) == Some(
            name,
        ) ==> function_name(s, i) == name,
{
    lemma_texts();
    lemma_owner_texts();
}

proof fn lemma_owner_texts()
    ensures
        "Function"@.len() == 8,
        "ArrowFunctionExpression"@.len() == 23,
        "VariableDeclarator"@.len() == 18,
        "AssignmentExpression"@.len() == 20,
        "ObjectProperty"@.len() == 14,
        "PropertyDefinition"@.len() == 18 && "PropertyDefinition"@[0] == 'P',
        "VariableDeclarator"@[0] == 'V',
        "MethodDefinition"@.len() == 16,
{
    reveal_strlit("Function");
    reveal_strlit("ArrowFunctionExpression");
    reveal_strlit("VariableDeclarator");
    reveal_strlit("AssignmentExpression");
    reveal_strlit("ObjectProperty");
    reveal_strlit("PropertyDefinition");
    reveal_strlit("MethodDefinition");
}

/// A function without a name that nothing names tells the line it stands on,
/// behind the name of the function around it where there is one.
pub proof fn a_nameless_function_tells_its_line(s: Source, i: int, p: int)
    requires
        s.is(i, "ArrowFunctionExpression"@),
        parent(s.t, i) == Some(p),
        0 <= p < i,
        s.is(p, "CallExpression"@),
    ensures
        ({
            let line = decimal(offset_line(s.src, s.span(i).start) as nat);
            match function_around(s, i) {
                Some(outer) => function_name(s, i) == function_name(s, outer) + ".<anon@"@ + line
                    + ">"@,
                None => function_name(s, i) == "<fn@"@ + line + ">"@,
            }
        }),
{
    lemma_texts();
    lemma_owner_texts();
    reveal_strlit("CallExpression");
    assert("CallExpression"@[0] == 'C');
    reveal_strlit("ObjectProperty");
    assert("ObjectProperty"@[0] == 'O');
}

proof fn lemma_param_listed(
    bindings: Seq<(Span, u32)>,
    full: Span,
    body: Span,
    k: int,
    b: int,
)
    requires
        0 <= b < k <= bindings.len(),
        bindings[b].0.start >= full.start,
        bindings[b].0.end <= body.start,
    ensures
        params_of(bindings, full, body, k).contains(bindings[b].1),
    decreases k,
{
    let rest = params_of(bindings, full, body, k - 1);
    let all = params_of(bindings, full, body, k);
    if b == k - 1 {
        assert(all[rest.len() as int] == bindings[b].1);
    } else {
        lemma_param_listed(bindings, full, body, k - 1, b);
        let x = choose|x: int| 0 <= x < rest.len() && rest[x] == bindings[b].1;
        assert(all[x] == bindings[b].1);
    }
}

/// What a function binds before its body is a parameter.
pub proof fn what_is_bound_before_the_body_is_a_parameter(s: Source, i: int, body: int, b: int)
    requires
        0 <= b < facts_of(s).bindings.len(),
        facts_of(s).bindings[b].0.start >= s.span(i).start,
        facts_of(s).bindings[b].0.end <= s.span(body).start,
    ensures
        function_fact(s, i, body).params.contains(facts_of(s).bindings[b].1),
{
    let all = facts_of(s).bindings;
    lemma_param_listed(all, s.span(i), s.span(body), all.len() as int, b);
}

proof fn lemma_captured(f: Facts, full: Span, k: int, r: int, sym: u32)
    requires
        0 <= r < k <= f.refs.len(),
        f.refs[r].key == KeyView::Sym(sym),
        within(f.refs[r].span, full),
        !bound_inside(f.bindings, sym, full),
    ensures
        captures_before(f, full, k).contains(KeyView::Sym(sym)),
    decreases k,
{
    let rest = captures_before(f, full, k - 1);
    let all = captures_before(f, full, k);
    let key = KeyView::Sym(sym);
    if r == k - 1 {
        if !rest.contains(key) {
            assert(all[rest.len() as int] == key);
        }
    } else {
        lemma_captured(f, full, k - 1, r, sym);
        let x = choose|x: int| 0 <= x < rest.len() && rest[x] == key;
        assert(all[x] == key);
    }
}

proof fn lemma_capture_held(
    e: Env,
    w: JsWalk,
    fns: Seq<Span>,
    k: int,
    uses: Seq<VarId>,
    j: int,
    key: KeyView,
)
    requires
        0 <= k <= j < fns.len(),
        captures(e.f, fns[j]).contains(key),
    ensures
        holds(captures_added(e, w, fns, k, uses).0.vars, captures_added(e, w, fns, k, uses).1, key),
    decreases j - k,
{
    let (w1, u1) = vars_added(w, captures(e.f, fns[k]), 0, uses);
    if k < j {
        lemma_capture_held(e, w1, fns, k + 1, u1, j, key);
    } else {
        lemma_all_held(w, captures(e.f, fns[k]), uses, key);
        let (w2, u2) = captures_added(e, w1, fns, k + 1, u1);
        lemma_captures_added_quiet(e, w1, fns, k + 1, u1);
        assert forall|x: VarId| u1.contains(x) implies #[trigger] u2.contains(x) by {
            lemma_captures_stay(e, w1, fns, k + 1, u1, x);
        }
        lemma_holds_on(w1, w2, u1, u2, key);
    }
}

/// A piece of source reads what the functions in it capture: every bound name
/// that one of them refers to and does not bind itself.
pub proof fn a_unit_reads_what_its_functions_capture(
    e: Env,
    w: JsWalk,
    span: Span,
    kind: KindView,
    j: int,
    r: int,
    sym: u32,
)
    requires
        ranged(w),
        unit(e, w, span, kind).0.nodes.len() <= usize::MAX,
        0 <= j < nested_fns(e.f, span).len(),
        0 <= r < e.f.refs.len(),
        e.f.refs[r].key == KeyView::Sym(sym),
        within(e.f.refs[r].span, nested_fns(e.f, span)[j]),
        !bound_inside(e.f.bindings, sym, nested_fns(e.f, span)[j]),
    ensures
        ({
            let (w1, _entry, id) = unit(e, w, span, kind);
            holds(w1.vars, w1.nodes[id as int].uses, KeyView::Sym(sym))
        }),
{
    let key = KeyView::Sym(sym);
    let fns = nested_fns(e.f, span);
    lemma_captured(e.f, fns[j], e.f.refs.len() as int, r, sym);
    let spans = call_spans(e.f, span);
    let (w1, ids, temps) = calls_pushed(e, w, span, 0, Seq::empty(), Seq::empty());
    let w2 = chain_from(w1, ids, 0);
    let keys = read_keys(e.f, span, span, spans, e.f.refs.len() as int);
    let (w3, u1) = vars_added(w2, keys, 0, Seq::empty());
    lemma_capture_held(e, w3, fns, 0, outer_temps_added(spans, temps, 0, u1), j, key);
    lemma_unit_node(e, w, span, kind);
    let (u, uses, _c) = unit_uses(e, w, span);
    let written = written_keys(e.f, span, e.f.refs.len() as int);
    let bound = bound_keys(e.f, span, e.f.bindings.len() as int);
    let (v1, d1) = vars_added(u, written, 0, Seq::empty());
    let (v2, _d2) = vars_added(v1, bound, 0, d1);
    lemma_vars_added_quiet(u, written, 0, Seq::empty());
    lemma_vars_added_quiet(v1, bound, 0, d1);
    lemma_quiet_trans(u, v1, v2);
    lemma_holds_on(u, v2, uses, uses, key);
}

} // verus!
