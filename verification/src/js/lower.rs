//! Lowers JavaScript statements.
//!
//! One node per statement (one per declarator for multi-declarations), plus
//! one node per call, extracted ahead of the unit that contains it. A unit
//! whose span contains a nested function reads what that function captures.
//!
//! Exception edges are deliberately absent: a `catch` body is lowered but
//! nothing leads to it. `finally` is sequential code behind the `try` body.

use vstd::prelude::*;

use crate::ir::{CallOpacity, FunctionId, FunctionIr, Node, NodeKind, VarId};
use crate::js::facts::{
    count_newlines, key_views, sort_order, span_text, FactTable, FnFact, KeyView, SymbolKey,
};
use crate::js::model::{
    Env, JsWalk, all_bound_keys, all_written_keys, behind, bound_inside, bound_keys,
    call_nested, call_spans, call_uses, calls_pushed, captures, captures_added, captures_before,
    cases_lowered, catch_keys, catch_lowered, continues_taken, declaration_lowered,
    declarators_lowered, declared_keys, direct_temps_added, do_lowered, each_head_lowered,
    each_lowered, expression_lowered, finalizer, for_closed, for_init_lowered, for_lowered,
    for_test_lowered, for_update_lowered, fresh, function_lowered, function_view, if_lowered,
    in_another, in_nested_fn, in_one_of, inner_before, is_loop, is_member, jump_label,
    jump_lowered, labeled_lowered, line_of, mark, nest_key, nested_before,
    nested_captures_added, nested_fns, nested_sorted, nests, outer_temps_added, outermost_from,
    params_lowered, plain, read_keys, seq_lowered, snippet, stmt_lowered, switch_lowered,
    sym_keys, try_lowered, unit, unit_after, unit_calls, unit_calls_before, unit_defs,
    unit_uses, while_lowered, writes_global, written_keys,
};
use crate::js::source::{spans_fit, within, JsSource, Span};
use crate::js::state::{grown, in_range, lemma_grown_trans, lemma_in_range_grows, sound, JsState};
use crate::text;
use crate::ts::model::bare_node;
use crate::ts::state::add_var;
use crate::ts::tree::{below, indices, kids, lemma_below, size};

verus! {

/// What the lowering of one function reads and never changes.
pub(crate) struct JsLowerer<'a> {
    pub(crate) s: JsSource<'a>,
    pub(crate) f: &'a FactTable,
}

fn bare(line: u32, kind: NodeKind, defs: Vec<VarId>, uses: Vec<VarId>, label: String) -> (r: Node)
    ensures
        r@ == bare_node(line, kind@, defs@, uses@, label@),
{
    let r = Node { line: Some(line), kind, defs, uses, succs: Vec::new(), label };
    assert(r@ =~= bare_node(line, kind@, defs@, uses@, label@));
    r
}

fn lies_within(a: Span, b: Span) -> (r: bool)
    ensures
        r == within(a, b),
{
    a.start >= b.start && a.end <= b.end
}

fn lies_in_one_of(span: Span, list: &Vec<Span>) -> (r: bool)
    ensures
        r == in_one_of(span, list@),
{
    let mut k: usize = 0;
    while k < list.len()
        invariant
            k <= list.len(),
            forall|j: int| 0 <= j < k ==> !within(span, #[trigger] list@[j]),
        decreases list.len() - k,
    {
        if lies_within(span, list[k]) {
            assert(within(span, list@[k as int]));
            return true;
        }
        k += 1;
    }
    false
}

fn lies_in_another(span: Span, list: &Vec<Span>) -> (r: bool)
    ensures
        r == in_another(span, list@),
{
    let mut k: usize = 0;
    while k < list.len()
        invariant
            k <= list.len(),
            forall|j: int|
                0 <= j < k ==> !(#[trigger] list@[j] != span && within(span, list@[j])),
        decreases list.len() - k,
    {
        if list[k] != span && lies_within(span, list[k]) {
            assert(list@[k as int] != span && within(span, list@[k as int]));
            return true;
        }
        k += 1;
    }
    false
}

fn has_key(list: &Vec<SymbolKey>, key: &SymbolKey) -> (r: bool)
    ensures
        r == key_views(list@).contains(key@),
{
    let mut k: usize = 0;
    while k < list.len()
        invariant
            k <= list.len(),
            forall|j: int| 0 <= j < k ==> (#[trigger] key_views(list@)[j]) != key@,
        decreases list.len() - k,
    {
        assert(key_views(list@)[k as int] == list@[k as int]@);
        if list[k].equals(key) {
            return true;
        }
        k += 1;
    }
    false
}

impl<'a> JsLowerer<'a> {
    pub(crate) open(crate) spec fn e(&self) -> Env {
        Env { s: self.s.s(), f: self.f.f() }
    }

    pub(crate) open(crate) spec fn ok(&self) -> bool {
        spans_fit(self.s.s().t)
    }

    fn line_of(&self, off: u32) -> (r: u32)
        ensures
            r == line_of(self.e().s.src, off),
    {
        let bytes = self.s.tree.source.as_bytes();
        let n: usize = if off as usize <= bytes.len() {
            off as usize
        } else {
            bytes.len()
        };
        let count: u64 = count_newlines(bytes, n);
        if count >= 0xffff_ffff {
            0xffff_ffff
        } else {
            count as u32 + 1
        }
    }

    fn snippet(&self, span: Span) -> (r: String)
        ensures
            r@ == snippet(self.e().s.src, span),
    {
        match self.s.span_text(span) {
            Some(t) => text::snippet(t),
            None => {
                proof {
                    reveal_strlit("");
                    assert(""@ =~= Seq::empty());
                }
                text::snippet("")
            },
        }
    }

    /// Whether `inner` is inside some nested-function body that is itself
    /// strictly inside `outer`.
    fn inside_nested_fn(&self, inner: Span, outer: Span) -> (r: bool)
        ensures
            r == in_nested_fn(self.e().f, inner, outer),
    {
        let ghost f = self.e().f;
        let mut k: usize = 0;
        while k < self.f.functions.len()
            invariant
                f == self.e().f,
                k <= self.f.functions.len(),
                forall|j: int|
                    0 <= j < k ==> !(nests((#[trigger] f.functions[j]).body_span, outer) && within(
                        inner,
                        f.functions[j].body_span,
                    )),
            decreases self.f.functions.len() - k,
        {
            let b: Span = self.f.functions[k].body_span;
            assert(f.functions[k as int].body_span == b);
            if lies_within(b, outer) && !lies_within(outer, b) && lies_within(inner, b) {
                return true;
            }
            k += 1;
        }
        false
    }

    /// The outermost functions nested in a span, by their full spans.
    fn nested_fn_full_spans(&self, span: Span) -> (r: Vec<Span>)
        ensures
            r@ == nested_fns(self.e().f, span),
    {
        let ghost f = self.e().f;
        let mut all: Vec<Span> = Vec::new();
        let mut keys: Vec<(u32, u32)> = Vec::new();
        let mut k: usize = 0;
        while k < self.f.functions.len()
            invariant
                f == self.e().f,
                k <= self.f.functions.len(),
                all@ == nested_before(f, span, k as int),
                keys@ =~= all@.map_values(|s: Span| nest_key(s)),
            decreases self.f.functions.len() - k,
        {
            let full: Span = self.f.functions[k].full_span;
            assert(f.functions[k as int].full_span == full);
            if lies_within(full, span) && full != span {
                all.push(full);
                keys.push((full.start, 0xffff_ffff - full.end));
            }
            k += 1;
        }
        let order = sort_order(&keys);
        let ghost sorted = nested_sorted(f, span);
        let mut kept: Vec<Span> = Vec::new();
        let mut j: usize = 0;
        assert(sorted.len() == order.len());
        while j < order.len()
            invariant
                j <= order.len(),
                sorted == nested_sorted(f, span),
                sorted.len() == order.len(),
                all@ == nested_before(f, span, f.functions.len() as int),
                keys@ == all@.map_values(|s: Span| nest_key(s)),
                order@ == crate::js::facts::order_of(keys@, keys@.len() as int),
                forall|x: int| 0 <= x < order@.len() ==> #[trigger] order@[x] < all.len(),
                outermost_from(sorted, 0, Seq::empty()) == outermost_from(
                    sorted,
                    j as int,
                    kept@,
                ),
            decreases order.len() - j,
        {
            assert(order@[j as int] < all.len());
            let s: Span = all[order[j]];
            assert(sorted[j as int] == s);
            if !lies_in_one_of(s, &kept) {
                kept.push(s);
            }
            j += 1;
        }
        kept
    }

    /// A function's captured symbols: every reference inside it whose binding
    /// lies outside it.
    fn captures(&self, full: Span) -> (r: Vec<SymbolKey>)
        ensures
            key_views(r@) == captures(self.e().f, full),
    {
        let ghost f = self.e().f;
        let mut out: Vec<SymbolKey> = Vec::new();
        let mut k: usize = 0;
        assert(key_views(out@) =~= Seq::empty());
        while k < self.f.refs.len()
            invariant
                f == self.e().f,
                k <= self.f.refs.len(),
                key_views(out@) == captures_before(f, full, k as int),
            decreases self.f.refs.len() - k,
        {
            let r = &self.f.refs[k];
            assert(f.refs[k as int] == r@);
            if let SymbolKey::Sym(sym) = &r.key {
                let key = SymbolKey::Sym(*sym);
                assert(key@ == r.key@);
                if lies_within(r.span, full) && !self.bound_inside(*sym, full) && !has_key(
                    &out,
                    &key,
                ) {
                    let ghost before = out@;
                    out.push(key);
                    assert(key_views(out@) =~= key_views(before).push(key@));
                }
            }
            k += 1;
        }
        out
    }

    fn bound_inside(&self, sym: u32, full: Span) -> (r: bool)
        ensures
            r == bound_inside(self.e().f.bindings, sym, full),
    {
        let bindings = &self.f.bindings;
        let mut k: usize = 0;
        while k < bindings.len()
            invariant
                bindings@ == self.e().f.bindings,
                k <= bindings.len(),
                forall|j: int|
                    0 <= j < k ==> !((#[trigger] bindings@[j]).1 == sym && within(
                        bindings@[j].0,
                        full,
                    )),
            decreases bindings.len() - k,
        {
            if bindings[k].1 == sym && lies_within(bindings[k].0, full) {
                assert(bindings@[k as int].1 == sym && within(bindings@[k as int].0, full));
                return true;
            }
            k += 1;
        }
        false
    }

    /// Adds the captures of every function directly nested in `span`.
    fn add_capture_uses(&self, st: &mut JsState, span: Span, uses: &mut Vec<VarId>)
        requires
            sound(old(st)@),
        ensures
            (final(st)@, final(uses)@) == nested_captures_added(
                self.e(),
                old(st)@,
                span,
                old(uses)@,
            ),
            grown(old(st)@, final(st)@),
            final(st)@.nodes.len() == old(st)@.nodes.len(),
    {
        let ghost e = self.e();
        let ghost w = st@;
        let ghost u = uses@;
        let fns = self.nested_fn_full_spans(span);
        let mut k: usize = 0;
        while k < fns.len()
            invariant
                e == self.e(),
                fns@ == nested_fns(e.f, span),
                k <= fns.len(),
                grown(w, st@),
                w.nodes.len() == st@.nodes.len(),
                captures_added(e, w, fns@, 0, u) == captures_added(e, st@, fns@, k as int, uses@),
            decreases fns.len() - k,
        {
            let ghost mid = st@;
            let keys = self.captures(fns[k]);
            st.add_vars(&keys, uses);
            proof {
                lemma_grown_trans(w, mid, st@);
            }
            k += 1;
        }
    }

    /// The calls of a span, as indices.
    fn unit_calls(&self, span: Span) -> (r: Vec<usize>)
        ensures
            indices(r@) == unit_calls(self.e().f, span),
            forall|k: int| 0 <= k < r@.len() ==> #[trigger] r@[k] < self.f.calls.len(),
    {
        let ghost f = self.e().f;
        let mut out: Vec<usize> = Vec::new();
        let mut k: usize = 0;
        assert(indices(out@) =~= Seq::empty());
        while k < self.f.calls.len()
            invariant
                f == self.e().f,
                k <= self.f.calls.len(),
                indices(out@) == unit_calls_before(f, span, k as int),
                forall|j: int| 0 <= j < out@.len() ==> #[trigger] out@[j] < self.f.calls.len(),
            decreases self.f.calls.len() - k,
        {
            let c: Span = self.f.calls[k].span;
            assert(f.calls[k as int].span == c);
            if lies_within(c, span) && !self.inside_nested_fn(c, span) {
                let ghost before = out@;
                out.push(k);
                assert(indices(out@) =~= indices(before).push(k as int));
            }
            k += 1;
        }
        out
    }

    fn spans_of(&self, calls: &Vec<usize>, span: Span) -> (r: Vec<Span>)
        requires
            indices(calls@) == unit_calls(self.e().f, span),
            forall|k: int| 0 <= k < calls@.len() ==> #[trigger] calls@[k] < self.f.calls.len(),
        ensures
            r@ == call_spans(self.e().f, span),
            r.len() == calls.len(),
    {
        let ghost f = self.e().f;
        let mut out: Vec<Span> = Vec::new();
        let mut k: usize = 0;
        let ghost wanted = call_spans(f, span);
        assert(wanted.len() == calls@.len()) by {
            assert(indices(calls@).len() == calls@.len());
        }
        while k < calls.len()
            invariant
                f == self.e().f,
                indices(calls@) == unit_calls(f, span),
                forall|k: int| 0 <= k < calls@.len() ==> #[trigger] calls@[k] < self.f.calls.len(),
                wanted == call_spans(f, span),
                wanted.len() == calls@.len(),
                k <= calls.len(),
                out@ =~= wanted.take(k as int),
            decreases calls.len() - k,
        {
            assert(calls@[k as int] < self.f.calls.len());
            assert(indices(calls@)[k as int] == calls@[k as int] as int);
            let s: Span = self.f.calls[calls[k]].span;
            assert(wanted[k as int] == s);
            out.push(s);
            k += 1;
        }
        assert(out@ =~= wanted);
        out
    }

    fn inner_spans(&self, all: &Vec<Span>, outer: Span) -> (r: Vec<Span>)
        ensures
            r@ == inner_before(all@, outer, all@.len() as int),
    {
        let mut out: Vec<Span> = Vec::new();
        let mut k: usize = 0;
        while k < all.len()
            invariant
                k <= all.len(),
                out@ == inner_before(all@, outer, k as int),
            decreases all.len() - k,
        {
            if lies_within(all[k], outer) && all[k] != outer {
                out.push(all[k]);
            }
            k += 1;
        }
        out
    }

    fn read_keys(&self, part: Span, unit: Span, apart: &Vec<Span>) -> (r: Vec<SymbolKey>)
        ensures
            key_views(r@) == read_keys(
                self.e().f,
                part,
                unit,
                apart@,
                self.e().f.refs.len() as int,
            ),
    {
        let ghost f = self.e().f;
        let mut out: Vec<SymbolKey> = Vec::new();
        let mut k: usize = 0;
        assert(key_views(out@) =~= Seq::empty());
        while k < self.f.refs.len()
            invariant
                f == self.e().f,
                k <= self.f.refs.len(),
                key_views(out@) == read_keys(f, part, unit, apart@, k as int),
            decreases self.f.refs.len() - k,
        {
            let r = &self.f.refs[k];
            assert(f.refs[k as int] == r@);
            if lies_within(r.span, part) && !self.inside_nested_fn(r.span, unit)
                && !lies_in_one_of(r.span, apart) && (r.read || !r.write) {
                let ghost before = out@;
                let key = r.key.copy();
                out.push(key);
                assert(key_views(out@) =~= key_views(before).push(key@));
            }
            k += 1;
        }
        out
    }

    fn add_direct_temps(
        &self,
        spans: &Vec<Span>,
        temps: &Vec<VarId>,
        outer: Span,
        inner: &Vec<Span>,
        uses: &mut Vec<VarId>,
    )
        requires
            temps.len() <= spans.len(),
        ensures
            final(uses)@ == direct_temps_added(spans@, temps@, outer, inner@, 0, old(uses)@),
    {
        let ghost u = uses@;
        let mut k: usize = 0;
        while k < temps.len()
            invariant
                temps.len() <= spans.len(),
                k <= temps.len(),
                direct_temps_added(spans@, temps@, outer, inner@, 0, u) == direct_temps_added(
                    spans@,
                    temps@,
                    outer,
                    inner@,
                    k as int,
                    uses@,
                ),
            decreases temps.len() - k,
        {
            if lies_within(spans[k], outer) && !lies_in_another(spans[k], inner) {
                add_var(uses, temps[k]);
            }
            k += 1;
        }
    }

    /// What the `j`-th call of a unit reads.
    fn call_uses(
        &self,
        st: &mut JsState,
        unit: Span,
        spans: &Vec<Span>,
        j: usize,
        temps: &Vec<VarId>,
    ) -> (r: Vec<VarId>)
        requires
            sound(old(st)@),
            spans@ == call_spans(self.e().f, unit),
            j < spans.len(),
            temps.len() <= spans.len(),
        ensures
            (final(st)@, r@) == call_uses(self.e(), old(st)@, unit, j as int, temps@),
            grown(old(st)@, final(st)@),
            final(st)@.nodes.len() == old(st)@.nodes.len(),
    {
        broadcast use lemma_grown_trans;

        let outer: Span = spans[j];
        let inner = self.inner_spans(spans, outer);
        let keys = self.read_keys(outer, unit, &inner);
        let mut uses: Vec<VarId> = Vec::new();
        st.add_vars(&keys, &mut uses);
        self.add_direct_temps(spans, temps, outer, &inner, &mut uses);
        self.add_capture_uses(st, outer, &mut uses);
        uses
    }

    fn is_nested_call(&self, spans: &Vec<Span>, i: usize) -> (r: bool)
        requires
            i < spans.len(),
        ensures
            r == call_nested(spans@, i as int),
    {
        let mut j: usize = 0;
        while j < spans.len()
            invariant
                i < spans.len(),
                j <= spans.len(),
                forall|x: int|
                    0 <= x < j && x != i ==> !within(spans@[i as int], #[trigger] spans@[x]),
            decreases spans.len() - j,
        {
            if j != i && lies_within(spans[i], spans[j]) {
                assert(within(spans@[i as int], spans@[j as int]));
                return true;
            }
            j += 1;
        }
        false
    }

    /// Emits the call nodes of a span and computes what the containing unit
    /// reads. Returns the uses and the call nodes.
    fn unit_uses(&self, st: &mut JsState, span: Span) -> (r: (Vec<VarId>, Vec<usize>))
        requires
            sound(old(st)@),
        ensures
            (final(st)@, r.0@, r.1@) == unit_uses(self.e(), old(st)@, span),
            grown(old(st)@, final(st)@),
            in_range(final(st)@, r.1@),
    {
        broadcast use {lemma_grown_trans, lemma_in_range_grows};

        let ghost e = self.e();
        let ghost w = st@;
        let calls = self.unit_calls(span);
        let spans = self.spans_of(&calls, span);
        let ghost cs = unit_calls(e.f, span);
        assert(cs.len() == calls@.len()) by {
            assert(indices(calls@).len() == calls@.len());
        }
        let mut ids: Vec<usize> = Vec::new();
        let mut temps: Vec<VarId> = Vec::new();
        let mut j: usize = 0;
        while j < calls.len()
            invariant
                e == self.e(),
                cs == unit_calls(e.f, span),
                cs == indices(calls@),
                cs.len() == calls@.len(),
                spans@ == call_spans(e.f, span),
                spans.len() == calls.len(),
                forall|k: int| 0 <= k < calls@.len() ==> #[trigger] calls@[k] < self.f.calls.len(),
                j <= calls.len(),
                temps.len() == j,
                grown(w, st@),
                in_range(st@, ids@),
                calls_pushed(e, w, span, 0, Seq::empty(), Seq::empty()) == calls_pushed(
                    e,
                    st@,
                    span,
                    j as int,
                    ids@,
                    temps@,
                ),
            decreases calls.len() - j,
        {
            let ghost mid = st@;
            assert(calls@[j as int] < self.f.calls.len());
            assert(cs[j as int] == calls@[j as int] as int);
            let call = &self.f.calls[calls[j]];
            assert(e.f.calls[cs[j as int]] == call@);
            let uses = self.call_uses(st, span, &spans, j, &temps);
            let t: VarId = st.temp();
            let line: u32 = self.line_of(call.span.start);
            let defs: Vec<VarId> = vec![t];
            assert(defs@ =~= seq![t]);
            let node = bare(
                line,
                NodeKind::Call { callee: call.callee.clone(), opacity: CallOpacity::Opaque },
                defs,
                uses,
                call.callee.clone(),
            );
            let id: usize = st.push(node);
            let ghost before = ids@;
            ids.push(id);
            temps.push(t);
            proof {
                lemma_grown_trans(w, mid, st@);
                lemma_in_range_grows(mid, st@, before);
            }
            j += 1;
        }
        st.chain(&ids);
        let keys = self.read_keys(span, span, &spans);
        let mut uses: Vec<VarId> = Vec::new();
        st.add_vars(&keys, &mut uses);
        let ghost u = uses@;
        let mut k: usize = 0;
        while k < temps.len()
            invariant
                temps.len() == spans.len(),
                k <= temps.len(),
                outer_temps_added(spans@, temps@, 0, u) == outer_temps_added(
                    spans@,
                    temps@,
                    k as int,
                    uses@,
                ),
            decreases temps.len() - k,
        {
            if !self.is_nested_call(&spans, k) {
                add_var(&mut uses, temps[k]);
            }
            k += 1;
        }
        self.add_capture_uses(st, span, &mut uses);
        (uses, ids)
    }

    fn written_keys(&self, span: Span, all: bool) -> (r: Vec<SymbolKey>)
        ensures
            key_views(r@) == (if all {
                all_written_keys(self.e().f, span, self.e().f.refs.len() as int)
            } else {
                written_keys(self.e().f, span, self.e().f.refs.len() as int)
            }),
    {
        let ghost f = self.e().f;
        let mut out: Vec<SymbolKey> = Vec::new();
        let mut k: usize = 0;
        assert(key_views(out@) =~= Seq::empty());
        while k < self.f.refs.len()
            invariant
                f == self.e().f,
                k <= self.f.refs.len(),
                key_views(out@) == (if all {
                    all_written_keys(f, span, k as int)
                } else {
                    written_keys(f, span, k as int)
                }),
            decreases self.f.refs.len() - k,
        {
            let r = &self.f.refs[k];
            assert(f.refs[k as int] == r@);
            if lies_within(r.span, span) && r.write && (all || !self.inside_nested_fn(
                r.span,
                span,
            )) {
                let ghost before = out@;
                let key = r.key.copy();
                out.push(key);
                assert(key_views(out@) =~= key_views(before).push(key@));
            }
            k += 1;
        }
        out
    }

    fn bound_keys(&self, span: Span, all: bool) -> (r: Vec<SymbolKey>)
        ensures
            key_views(r@) == (if all {
                all_bound_keys(self.e().f, span, self.e().f.bindings.len() as int)
            } else {
                bound_keys(self.e().f, span, self.e().f.bindings.len() as int)
            }),
    {
        let ghost f = self.e().f;
        let mut out: Vec<SymbolKey> = Vec::new();
        let mut k: usize = 0;
        assert(key_views(out@) =~= Seq::empty());
        while k < self.f.bindings.len()
            invariant
                f == self.e().f,
                k <= self.f.bindings.len(),
                key_views(out@) == (if all {
                    all_bound_keys(f, span, k as int)
                } else {
                    bound_keys(f, span, k as int)
                }),
            decreases self.f.bindings.len() - k,
        {
            let (s, sym) = self.f.bindings[k];
            if lies_within(s, span) && (all || !self.inside_nested_fn(s, span)) {
                let ghost before = out@;
                let key = SymbolKey::Sym(sym);
                out.push(key);
                assert(key_views(out@) =~= key_views(before).push(KeyView::Sym(sym)));
            }
            k += 1;
        }
        out
    }

    /// What a unit defines: what it writes and what it binds.
    fn unit_defs(&self, st: &mut JsState, span: Span) -> (r: Vec<VarId>)
        requires
            sound(old(st)@),
        ensures
            (final(st)@, r@) == unit_defs(self.e(), old(st)@, span),
            grown(old(st)@, final(st)@),
            final(st)@.nodes.len() == old(st)@.nodes.len(),
    {
        broadcast use lemma_grown_trans;

        let mut defs: Vec<VarId> = Vec::new();
        let written = self.written_keys(span, false);
        st.add_vars(&written, &mut defs);
        let bound = self.bound_keys(span, false);
        st.add_vars(&bound, &mut defs);
        defs
    }

    /// Puts a node behind its calls; returns the node that control enters.
    fn put_behind(&self, st: &mut JsState, calls: &Vec<usize>, id: usize) -> (r: usize)
        requires
            sound(old(st)@),
            in_range(old(st)@, calls@),
            id < old(st)@.nodes.len(),
        ensures
            (final(st)@, r) == behind(old(st)@, calls@, id),
            grown(old(st)@, final(st)@),
            final(st)@.nodes.len() == old(st)@.nodes.len(),
            r < final(st)@.nodes.len(),
    {
        let n: usize = calls.len();
        if n > 0 {
            assert(calls@[0] < st@.nodes.len());
            assert(calls@[n - 1] < st@.nodes.len());
            st.edge(calls[n - 1], id);
            calls[0]
        } else {
            id
        }
    }

    /// Lowers one unit; returns entry and exit.
    fn unit(&self, st: &mut JsState, span: Span, kind: NodeKind) -> (r: (usize, usize))
        requires
            sound(old(st)@),
        ensures
            (final(st)@, r.0, r.1) == unit(self.e(), old(st)@, span, kind@),
            grown(old(st)@, final(st)@),
            final(st)@.nodes.len() > old(st)@.nodes.len(),
            r.0 < final(st)@.nodes.len(),
            r.1 < final(st)@.nodes.len(),
    {
        broadcast use {lemma_grown_trans, lemma_in_range_grows};

        let (uses, calls) = self.unit_uses(st, span);
        let defs = self.unit_defs(st, span);
        let line: u32 = self.line_of(span.start);
        let label = self.snippet(span);
        let id: usize = st.push(bare(line, kind, defs, uses, label));
        let entry: usize = self.put_behind(st, &calls, id);
        (entry, id)
    }

    /// Lowers one unit that `open` leads into; returns entry and exit.
    fn unit_after(&self, st: &mut JsState, span: Span, kind: NodeKind, open: &Vec<usize>) -> (r: (
        usize,
        usize,
    ))
        requires
            sound(old(st)@),
            in_range(old(st)@, open@),
        ensures
            (final(st)@, r.0, r.1) == unit_after(self.e(), old(st)@, span, kind@, open@),
            grown(old(st)@, final(st)@),
            final(st)@.nodes.len() > old(st)@.nodes.len(),
            r.0 < final(st)@.nodes.len(),
            r.1 < final(st)@.nodes.len(),
    {
        broadcast use {lemma_grown_trans, lemma_in_range_grows};

        let (entry, exit) = self.unit(st, span, kind);
        st.link(open.as_slice(), entry);
        (entry, exit)
    }

    fn plain(&self, st: &mut JsState, span: Span, open: &Vec<usize>) -> (r: Vec<usize>)
        requires
            sound(old(st)@),
            in_range(old(st)@, open@),
        ensures
            (final(st)@, r@) == plain(self.e(), old(st)@, span, open@),
            grown(old(st)@, final(st)@),
            in_range(final(st)@, r@),
    {
        let (_, exit) = self.unit_after(st, span, NodeKind::Pure, open);
        let r: Vec<usize> = vec![exit];
        assert(r@ =~= seq![exit]);
        r
    }

    /// Pushes the entry node of a function, which defines its parameters.
    pub(crate) fn lower_params(&self, st: &mut JsState, params: &Vec<u32>, line: u32)
        requires
            sound(old(st)@),
        ensures
            final(st)@ == params_lowered(old(st)@, params@, line),
            grown(old(st)@, final(st)@),
            final(st)@.nodes.len() > 0,
    {
        broadcast use lemma_grown_trans;

        let mut keys: Vec<SymbolKey> = Vec::new();
        let mut k: usize = 0;
        while k < params.len()
            invariant
                k <= params.len(),
                key_views(keys@) =~= sym_keys(params@).take(k as int),
            decreases params.len() - k,
        {
            let ghost before = keys@;
            let key = SymbolKey::Sym(params[k]);
            keys.push(key);
            assert(key_views(keys@) =~= key_views(before).push(KeyView::Sym(params@[k as int])));
            k += 1;
        }
        assert(key_views(keys@) =~= sym_keys(params@));
        let mut defs: Vec<VarId> = Vec::new();
        st.add_vars(&keys, &mut defs);
        let _ = st.push(bare(line, NodeKind::Pure, defs, Vec::new(), "<params>".to_owned()));
    }

    /// Lowers the statements among the children of `i` from the `from`-th on.
    pub(crate) fn lower_seq(&self, st: &mut JsState, i: usize, from: usize, open: Vec<usize>) -> (r:
        Vec<usize>)
        requires
            sound(old(st)@),
            self.ok(),
            self.s.has(i as int),
            in_range(old(st)@, open@),
        ensures
            (final(st)@, r@) == seq_lowered(self.e(), old(st)@, i as int, from as int, open@),
            grown(old(st)@, final(st)@),
            in_range(final(st)@, r@),
        decreases size(self.e().s.t, i as int), 1int, 0int,
    {
        let ghost e = self.e();
        let ghost w = st@;
        let ghost start = open@;
        let children = self.s.kids(i);
        let ghost ks = e.s.kids(i as int);
        assert(ks.len() == children@.len());
        let mut open = open;
        let mut k: usize = from;
        while k < children.len()
            invariant
                e == self.e(),
                self.ok(),
                self.s.has(i as int),
                from <= k,
                ks == e.s.kids(i as int),
                ks == indices(children@),
                ks.len() == children@.len(),
                forall|x: int|
                    0 <= x < children@.len() ==> self.s.has(#[trigger] children@[x] as int)
                        && below(e.s.t, i as int, children@[x] as int),
                grown(w, st@),
                in_range(st@, open@),
                seq_lowered(e, w, i as int, from as int, start) == seq_lowered(
                    e,
                    st@,
                    i as int,
                    k as int,
                    open@,
                ),
            decreases children.len() - k,
        {
            let c: usize = children[k];
            assert(ks[k as int] == c as int);
            let ghost mid = st@;
            proof {
                assert(self.s.has(children@[k as int] as int));
                lemma_below(e.s.t, i as int, c as int);
            }
            if !self.s.is(c, "Directive") && !self.s.is(c, "Hashbang") {
                open = self.lower_stmt(st, c, open);
            }
            proof {
                lemma_grown_trans(w, mid, st@);
            }
            k += 1;
        }
        open
    }

    /// The declarators of a declaration, a unit each.
    fn lower_declarators(&self, st: &mut JsState, i: usize, open: Vec<usize>) -> (r: Vec<usize>)
        requires
            sound(old(st)@),
            self.ok(),
            self.s.has(i as int),
            in_range(old(st)@, open@),
        ensures
            (final(st)@, r@) == declarators_lowered(self.e(), old(st)@, i as int, 0, open@),
            grown(old(st)@, final(st)@),
            in_range(final(st)@, r@),
    {
        let ghost e = self.e();
        let ghost w = st@;
        let ghost start = open@;
        let children = self.s.kids(i);
        let ghost ks = e.s.kids(i as int);
        assert(ks.len() == children@.len());
        let mut open = open;
        let mut k: usize = 0;
        while k < children.len()
            invariant
                e == self.e(),
                self.ok(),
                k <= children.len(),
                ks == e.s.kids(i as int),
                ks == indices(children@),
                ks.len() == children@.len(),
                forall|x: int|
                    0 <= x < children@.len() ==> self.s.has(#[trigger] children@[x] as int)
                        && below(e.s.t, i as int, children@[x] as int),
                grown(w, st@),
                in_range(st@, open@),
                declarators_lowered(e, w, i as int, 0, start) == declarators_lowered(
                    e,
                    st@,
                    i as int,
                    k as int,
                    open@,
                ),
            decreases children.len() - k,
        {
            let c: usize = children[k];
            assert(ks[k as int] == c as int);
            assert(self.s.has(children@[k as int] as int));
            let ghost mid = st@;
            open = self.plain(st, self.s.span(c), &open);
            proof {
                lemma_grown_trans(w, mid, st@);
            }
            k += 1;
        }
        open
    }

    fn writes_global(&self, span: Span) -> (r: bool)
        ensures
            r == writes_global(self.e().f, span),
    {
        let ghost f = self.e().f;
        let mut k: usize = 0;
        while k < self.f.refs.len()
            invariant
                f == self.e().f,
                k <= self.f.refs.len(),
                forall|j: int|
                    0 <= j < k ==> !(within((#[trigger] f.refs[j]).span, span) && f.refs[j].write
                        && f.refs[j].key is Global),
            decreases self.f.refs.len() - k,
        {
            let r = &self.f.refs[k];
            assert(f.refs[k as int] == r@);
            let global: bool = matches!(r.key, SymbolKey::Global(_));
            if lies_within(r.span, span) && r.write && global {
                assert(within(f.refs[k as int].span, span));
                return true;
            }
            k += 1;
        }
        false
    }

    fn is_member(&self, i: usize) -> (r: bool)
        requires
            self.s.has(i as int),
        ensures
            r == is_member(self.e().s, i as int),
    {
        self.s.is(i, "ComputedMemberExpression") || self.s.is(i, "StaticMemberExpression")
            || self.s.is(i, "PrivateFieldExpression")
    }

    fn lower_expression(&self, st: &mut JsState, i: usize, open: Vec<usize>) -> (r: Vec<usize>)
        requires
            sound(old(st)@),
            self.ok(),
            self.s.has(i as int),
            in_range(old(st)@, open@),
        ensures
            (final(st)@, r@) == expression_lowered(self.e(), old(st)@, i as int, open@),
            grown(old(st)@, final(st)@),
            in_range(final(st)@, r@),
    {
        broadcast use {lemma_grown_trans, lemma_in_range_grows};

        let span: Span = self.s.span(i);
        let x: usize = match self.s.kid(i, 0) {
            Some(x) => x,
            None => {
                return self.plain(st, span, &open);
            },
        };
        if self.s.is(x, "AssignmentExpression") {
            return match self.s.kid(x, 0) {
                Some(left) => {
                    let target: Span = self.s.span(left);
                    let kind = if self.is_member(left) || self.writes_global(target) {
                        NodeKind::StateWrite { target: self.snippet(target) }
                    } else {
                        NodeKind::Pure
                    };
                    let (_, exit) = self.unit_after(st, span, kind, &open);
                    let r: Vec<usize> = vec![exit];
                    assert(r@ =~= seq![exit]);
                    r
                },
                None => self.plain(st, span, &open),
            };
        }
        if self.s.is(x, "CallExpression") || self.s.is(x, "NewExpression") {
            let (uses, calls) = self.unit_uses(st, span);
            let line: u32 = self.line_of(span.start);
            let id: usize = st.push(
                bare(line, NodeKind::Pure, Vec::new(), uses, "<discard>".to_owned()),
            );
            let entry: usize = self.put_behind(st, &calls, id);
            st.link(open.as_slice(), entry);
            let r: Vec<usize> = vec![id];
            assert(r@ =~= seq![id]);
            return r;
        }
        self.plain(st, span, &open)
    }

    fn lower_if(&self, st: &mut JsState, i: usize, open: Vec<usize>) -> (r: Vec<usize>)
        requires
            sound(old(st)@),
            self.ok(),
            self.s.has(i as int),
            in_range(old(st)@, open@),
        ensures
            (final(st)@, r@) == if_lowered(self.e(), old(st)@, i as int, open@),
            grown(old(st)@, final(st)@),
            in_range(final(st)@, r@),
        decreases size(self.e().s.t, i as int), 4int, 0int,
    {
        broadcast use {lemma_grown_trans, lemma_in_range_grows, lemma_below};

        match (self.s.kid(i, 0), self.s.kid(i, 1)) {
            (Some(test), Some(then_)) => {
                let (_, cond) = self.unit_after(st, self.s.span(test), NodeKind::Branch, &open);
                let from: Vec<usize> = vec![cond];
                assert(from@ =~= seq![cond]);
                let mut exits = self.lower_stmt(st, then_, from);
                let ghost ex = exits@;
                match self.s.kid(i, 2) {
                    Some(alt) => {
                        let again: Vec<usize> = vec![cond];
                        assert(again@ =~= seq![cond]);
                        let mut more = self.lower_stmt(st, alt, again);
                        let ghost added = more@;
                        exits.append(&mut more);
                        proof {
                            assert(exits@ =~= ex + added);
                            lemma_in_range_concat(st@, ex, added);
                        }
                        exits
                    },
                    None => {
                        exits.push(cond);
                        exits
                    },
                }
            },
            _ => self.plain(st, self.s.span(i), &open),
        }
    }

    /// The exits of a loop: its head and its breaks.
    fn loop_exits(&self, head: usize, breaks: Vec<usize>) -> (r: Vec<usize>)
        ensures
            r@ == seq![head] + breaks@,
    {
        let mut exits: Vec<usize> = vec![head];
        let ghost bs = breaks@;
        let mut breaks = breaks;
        exits.append(&mut breaks);
        assert(exits@ =~= seq![head] + bs);
        exits
    }

    fn lower_while(&self, st: &mut JsState, i: usize, open: Vec<usize>) -> (r: Vec<usize>)
        requires
            sound(old(st)@),
            self.ok(),
            self.s.has(i as int),
            in_range(old(st)@, open@),
        ensures
            (final(st)@, r@) == while_lowered(self.e(), old(st)@, i as int, open@),
            grown(old(st)@, final(st)@),
            in_range(final(st)@, r@),
        decreases size(self.e().s.t, i as int), 4int, 0int,
    {
        broadcast use {lemma_grown_trans, lemma_in_range_grows, lemma_below};

        match (self.s.kid(i, 0), self.s.kid(i, 1)) {
            (Some(test), Some(body)) => {
                let (entry, cond) = self.unit_after(
                    st,
                    self.s.span(test),
                    NodeKind::Branch,
                    &open,
                );
                st.open_loop(Some(entry));
                let from: Vec<usize> = vec![cond];
                assert(from@ =~= seq![cond]);
                let exits = self.lower_stmt(st, body, from);
                st.link(exits.as_slice(), entry);
                let (breaks, _) = st.close_loop();
                let r = self.loop_exits(cond, breaks);
                r
            },
            _ => self.plain(st, self.s.span(i), &open),
        }
    }

    fn lower_do(&self, st: &mut JsState, i: usize, open: Vec<usize>) -> (r: Vec<usize>)
        requires
            sound(old(st)@),
            self.ok(),
            self.s.has(i as int),
            in_range(old(st)@, open@),
        ensures
            (final(st)@, r@) == do_lowered(self.e(), old(st)@, i as int, open@),
            grown(old(st)@, final(st)@),
            in_range(final(st)@, r@),
        decreases size(self.e().s.t, i as int), 4int, 0int,
    {
        broadcast use {lemma_grown_trans, lemma_in_range_grows, lemma_below};

        match (self.s.kid(i, 0), self.s.kid(i, 1)) {
            (Some(body), Some(test)) => {
                let first_node: usize = st.count();
                let ghost w0 = st@;
                st.open_loop(None);
                assert(in_range(st@, open@));
                let ghost from = open@;
                let head: Option<usize> = if open.len() > 0 {
                    Some(open[0])
                } else {
                    None
                };
                let exits = self.lower_stmt(st, body, open);
                let (entry, cond) = self.unit_after(
                    st,
                    self.s.span(test),
                    NodeKind::Branch,
                    &exits,
                );
                let start: usize = st.entered_at(head, first_node, Ghost(from));
                st.edge(cond, start);
                let (breaks, continues) = st.close_loop();
                st.link(continues.as_slice(), entry);
                let r = self.loop_exits(cond, breaks);
                r
            },
            _ => self.plain(st, self.s.span(i), &open),
        }
    }

    fn lower_for_init(&self, st: &mut JsState, i: usize, open: Vec<usize>) -> (r: Vec<usize>)
        requires
            sound(old(st)@),
            self.ok(),
            self.s.has(i as int),
            in_range(old(st)@, open@),
        ensures
            (final(st)@, r@) == for_init_lowered(self.e(), old(st)@, i as int, open@),
            grown(old(st)@, final(st)@),
            in_range(final(st)@, r@),
    {
        match self.s.kid(i, 0) {
            Some(init) => {
                if !self.s.part(i).init {
                    open
                } else if self.s.is(init, "VariableDeclaration") {
                    self.lower_declarators(st, init, open)
                } else {
                    self.plain(st, self.s.span(init), &open)
                }
            },
            None => open,
        }
    }

    fn mark(&self, st: &mut JsState, off: u32, kind: NodeKind, label: &str) -> (r: usize)
        requires
            sound(old(st)@),
        ensures
            (final(st)@, r) == mark(self.e(), old(st)@, off, kind@, label@),
            grown(old(st)@, final(st)@),
            r < final(st)@.nodes.len(),
    {
        let line: u32 = self.line_of(off);
        st.push(bare(line, kind, Vec::new(), Vec::new(), label.to_owned()))
    }

    fn lower_for_test(&self, st: &mut JsState, i: usize) -> (r: (usize, usize))
        requires
            sound(old(st)@),
            self.ok(),
            self.s.has(i as int),
        ensures
            (final(st)@, r.0, r.1) == for_test_lowered(self.e(), old(st)@, i as int),
            grown(old(st)@, final(st)@),
            r.0 < final(st)@.nodes.len(),
            r.1 < final(st)@.nodes.len(),
    {
        let p = self.s.part(i);
        let at: usize = if p.init {
            1
        } else {
            0
        };
        if p.test {
            if let Some(test) = self.s.kid(i, at) {
                return self.unit(st, self.s.span(test), NodeKind::Branch);
            }
        }
        let id: usize = self.mark(st, self.s.span(i).start, NodeKind::Branch, "<for>");
        (id, id)
    }

    fn lower_for_update(&self, st: &mut JsState, i: usize, exits: Vec<usize>) -> (r: (
        Vec<usize>,
        Option<usize>,
    ))
        requires
            sound(old(st)@),
            self.ok(),
            self.s.has(i as int),
            in_range(old(st)@, exits@),
        ensures
            (final(st)@, r.0@, r.1) == for_update_lowered(self.e(), old(st)@, i as int, exits@),
            grown(old(st)@, final(st)@),
            in_range(final(st)@, r.0@),
            r.1 matches Some(u) ==> u < final(st)@.nodes.len(),
    {
        let p = self.s.part(i);
        let mut at: usize = if p.init {
            1
        } else {
            0
        };
        if p.test {
            at = at + 1;
        }
        if p.update {
            if let Some(update) = self.s.kid(i, at) {
                let (entry, exit) = self.unit_after(
                    st,
                    self.s.span(update),
                    NodeKind::Pure,
                    &exits,
                );
                let after: Vec<usize> = vec![exit];
                assert(after@ =~= seq![exit]);
                return (after, Some(entry));
            }
        }
        (exits, None)
    }

    /// Leads the ends of the body back to the condition, and every `continue`
    /// to `again`.
    fn close_for(
        &self,
        st: &mut JsState,
        entry: usize,
        cond: usize,
        after: &Vec<usize>,
        again: usize,
    ) -> (r: Vec<usize>)
        requires
            sound(old(st)@),
            in_range(old(st)@, after@),
            entry < old(st)@.nodes.len(),
            cond < old(st)@.nodes.len(),
            again < old(st)@.nodes.len(),
            old(st)@.loops.len() > 0,
        ensures
            (final(st)@, r@) == for_closed(old(st)@, entry, cond, after@, again),
            sound(final(st)@),
            final(st)@.nodes.len() == old(st)@.nodes.len(),
            final(st)@.loops.len() == old(st)@.loops.len() - 1,
            in_range(final(st)@, r@),
    {
        broadcast use {lemma_grown_trans, lemma_in_range_grows};

        st.link(after.as_slice(), entry);
        let (breaks, continues) = st.close_loop();
        st.link(continues.as_slice(), again);
        self.loop_exits(cond, breaks)
    }

    fn lower_for(&self, st: &mut JsState, i: usize, open: Vec<usize>) -> (r: Vec<usize>)
        requires
            sound(old(st)@),
            self.ok(),
            self.s.has(i as int),
            in_range(old(st)@, open@),
        ensures
            (final(st)@, r@) == for_lowered(self.e(), old(st)@, i as int, open@),
            grown(old(st)@, final(st)@),
            in_range(final(st)@, r@),
        decreases size(self.e().s.t, i as int), 4int, 0int,
    {
        broadcast use {lemma_grown_trans, lemma_in_range_grows, lemma_below};

        let p = self.s.part(i);
        let mut at: usize = if p.init {
            1
        } else {
            0
        };
        if p.test {
            at = at + 1;
        }
        if p.update {
            at = at + 1;
        }
        match self.s.kid(i, at) {
            Some(body) => {
                let open1 = self.lower_for_init(st, i, open);
                let (entry, cond) = self.lower_for_test(st, i);
                st.link(open1.as_slice(), entry);
                st.open_loop(None);
                let from: Vec<usize> = vec![cond];
                assert(from@ =~= seq![cond]);
                let exits = self.lower_stmt(st, body, from);
                let (after, update) = self.lower_for_update(st, i, exits);
                let again: usize = match update {
                    Some(u) => u,
                    None => entry,
                };
                self.close_for(st, entry, cond, &after, again)
            },
            None => self.plain(st, self.s.span(i), &open),
        }
    }

    fn lower_each_head(&self, st: &mut JsState, left: Span, right: Span, open: &Vec<usize>) -> (r:
        usize)
        requires
            sound(old(st)@),
            in_range(old(st)@, open@),
        ensures
            (final(st)@, r) == each_head_lowered(self.e(), old(st)@, left, right, open@),
            grown(old(st)@, final(st)@),
            r < final(st)@.nodes.len(),
    {
        broadcast use {lemma_grown_trans, lemma_in_range_grows};

        let mut defs: Vec<VarId> = Vec::new();
        let bound = self.bound_keys(left, true);
        st.add_vars(&bound, &mut defs);
        let written = self.written_keys(left, true);
        st.add_vars(&written, &mut defs);
        let (uses, calls) = self.unit_uses(st, right);
        let line: u32 = self.line_of(left.start);
        let id: usize = st.push(
            bare(line, NodeKind::Branch, defs, uses, "<for-each>".to_owned()),
        );
        let entry: usize = self.put_behind(st, &calls, id);
        st.link(open.as_slice(), entry);
        id
    }

    fn lower_for_each(&self, st: &mut JsState, i: usize, open: Vec<usize>) -> (r: Vec<usize>)
        requires
            sound(old(st)@),
            self.ok(),
            self.s.has(i as int),
            in_range(old(st)@, open@),
        ensures
            (final(st)@, r@) == each_lowered(self.e(), old(st)@, i as int, open@),
            grown(old(st)@, final(st)@),
            in_range(final(st)@, r@),
        decreases size(self.e().s.t, i as int), 4int, 0int,
    {
        broadcast use {lemma_grown_trans, lemma_in_range_grows, lemma_below};

        match (self.s.kid(i, 0), self.s.kid(i, 1), self.s.kid(i, 2)) {
            (Some(left), Some(right), Some(body)) => {
                let head: usize = self.lower_each_head(
                    st,
                    self.s.span(left),
                    self.s.span(right),
                    &open,
                );
                st.open_loop(Some(head));
                let from: Vec<usize> = vec![head];
                assert(from@ =~= seq![head]);
                let exits = self.lower_stmt(st, body, from);
                st.link(exits.as_slice(), head);
                let (breaks, _) = st.close_loop();
                let r = self.loop_exits(head, breaks);
                r
            },
            _ => self.plain(st, self.s.span(i), &open),
        }
    }

    fn jump_label(&self, i: usize) -> (r: Option<String>)
        requires
            self.s.has(i as int),
        ensures
            crate::js::source::opt_text(r) == jump_label(self.e().s, i as int),
    {
        match self.s.kid_of(i, "LabelIdentifier") {
            Some(l) => match self.s.name(l) {
                Some(n) => Some(n.to_owned()),
                None => {
                    let e = String::new();
                    assert(e@ =~= Seq::empty());
                    Some(e)
                },
            },
            None => None,
        }
    }

    fn lower_cases(&self, st: &mut JsState, i: usize, disc: usize) -> (r: (Vec<usize>, bool))
        requires
            sound(old(st)@),
            self.ok(),
            self.s.has(i as int),
            disc < old(st)@.nodes.len(),
        ensures
            (final(st)@, r.0@, r.1) == cases_lowered(
                self.e(),
                old(st)@,
                i as int,
                1,
                disc,
                Seq::empty(),
                false,
            ),
            grown(old(st)@, final(st)@),
            in_range(final(st)@, r.0@),
        decreases size(self.e().s.t, i as int), 2int, 0int,
    {
        let ghost e = self.e();
        let ghost w = st@;
        let children = self.s.kids(i);
        let ghost ks = e.s.kids(i as int);
        assert(ks.len() == children@.len());
        let mut fall: Vec<usize> = Vec::new();
        let mut default: bool = false;
        let mut k: usize = 1;
        while k < children.len()
            invariant
                e == self.e(),
                self.ok(),
                self.s.has(i as int),
                1 <= k,
                ks == e.s.kids(i as int),
                ks == indices(children@),
                ks.len() == children@.len(),
                forall|x: int|
                    0 <= x < children@.len() ==> self.s.has(#[trigger] children@[x] as int)
                        && below(e.s.t, i as int, children@[x] as int),
                grown(w, st@),
                disc < st@.nodes.len(),
                in_range(st@, fall@),
                cases_lowered(e, w, i as int, 1, disc, Seq::empty(), false) == cases_lowered(
                    e,
                    st@,
                    i as int,
                    k as int,
                    disc,
                    fall@,
                    default,
                ),
            decreases children.len() - k,
        {
            let c: usize = children[k];
            assert(ks[k as int] == c as int);
            let ghost mid = st@;
            proof {
                assert(self.s.has(children@[k as int] as int));
                lemma_below(e.s.t, i as int, c as int);
            }
            let has_test: bool = self.s.part(c).test;
            let from: usize = if has_test {
                1
            } else {
                0
            };
            let mut into = fall;
            into.push(disc);
            fall = self.lower_seq(st, c, from, into);
            default = default || !has_test;
            proof {
                lemma_grown_trans(w, mid, st@);
            }
            k += 1;
        }
        (fall, default)
    }

    fn lower_switch(&self, st: &mut JsState, i: usize, open: Vec<usize>) -> (r: Vec<usize>)
        requires
            sound(old(st)@),
            self.ok(),
            self.s.has(i as int),
            in_range(old(st)@, open@),
        ensures
            (final(st)@, r@) == switch_lowered(self.e(), old(st)@, i as int, open@),
            grown(old(st)@, final(st)@),
            in_range(final(st)@, r@),
        decreases size(self.e().s.t, i as int), 4int, 0int,
    {
        broadcast use {lemma_grown_trans, lemma_in_range_grows, lemma_below};

        match self.s.kid(i, 0) {
            Some(d) => {
                let (_, disc) = self.unit_after(st, self.s.span(d), NodeKind::Branch, &open);
                st.open_switch();
                let (mut exits, default) = self.lower_cases(st, i, disc);
                let ghost ex = exits@;
                let ghost w2 = st@;
                let (breaks, continues) = st.close_loop();
                let ghost w3 = st@;
                let ghost bs = breaks@;
                assert(in_range(w3, ex));
                let mut breaks = breaks;
                exits.append(&mut breaks);
                proof {
                    assert(exits@ =~= ex + bs);
                    lemma_in_range_concat(w3, ex, bs);
                }
                let mut k: usize = 0;
                while k < continues.len()
                    invariant
                        k <= continues.len(),
                        sound(w3),
                        grown(w3, st@),
                        w3.nodes.len() == st@.nodes.len(),
                        in_range(w3, continues@),
                        continues_taken(w3, continues@, 0) == continues_taken(
                            st@,
                            continues@,
                            k as int,
                        ),
                    decreases continues.len() - k,
                {
                    let ghost mid = st@;
                    assert(continues@[k as int] < w3.nodes.len());
                    st.take_continue(None, continues[k]);
                    proof {
                        lemma_grown_trans(w3, mid, st@);
                    }
                    k += 1;
                }
                if !default {
                    exits.push(disc);
                }
                exits
            },
            None => self.plain(st, self.s.span(i), &open),
        }
    }

    fn catch_keys(&self, i: usize) -> (r: Vec<SymbolKey>)
        requires
            self.s.has(i as int),
        ensures
            key_views(r@) == catch_keys(self.e(), i as int),
    {
        if let Some(p) = self.s.kid_of(i, "CatchParameter") {
            if let Some(pattern) = self.s.kid(p, 0) {
                return self.bound_keys(self.s.span(pattern), true);
            }
        }
        let none: Vec<SymbolKey> = Vec::new();
        assert(key_views(none@) =~= Seq::empty());
        none
    }

    /// A handler, lowered from an entry node that nothing leads to.
    fn lower_catch(&self, st: &mut JsState, i: usize)
        requires
            sound(old(st)@),
            self.ok(),
            self.s.has(i as int),
        ensures
            final(st)@ == catch_lowered(self.e(), old(st)@, i as int),
            grown(old(st)@, final(st)@),
        decreases size(self.e().s.t, i as int), 3int, 0int,
    {
        broadcast use {lemma_grown_trans, lemma_in_range_grows, lemma_below};

        let keys = self.catch_keys(i);
        let defs = st.list_vars(&keys);
        let line: u32 = self.line_of(self.s.span(i).start);
        let id: usize = st.push(
            bare(line, NodeKind::Pure, defs, Vec::new(), "<catch>".to_owned()),
        );
        if let Some(body) = self.s.kid_of(i, "BlockStatement") {
            let from: Vec<usize> = vec![id];
            assert(from@ =~= seq![id]);
            let _ = self.lower_seq(st, body, 0, from);
        }
    }

    fn finalizer(&self, i: usize) -> (r: Option<usize>)
        requires
            self.s.has(i as int),
        ensures
            match r {
                Some(c) => finalizer(self.e().s, i as int) == Some(c as int) && self.s.has(
                    c as int,
                ) && below(self.e().s.t, i as int, c as int),
                None => finalizer(self.e().s, i as int) is None,
            },
    {
        let n: usize = self.s.kids(i).len();
        assert(n == self.e().s.kids(i as int).len());
        match self.s.last_kid(i) {
            Some(c) => if n > 1 && self.s.is(c, "BlockStatement") {
                Some(c)
            } else {
                None
            },
            None => None,
        }
    }

    fn lower_try(&self, st: &mut JsState, i: usize, open: Vec<usize>) -> (r: Vec<usize>)
        requires
            sound(old(st)@),
            self.ok(),
            self.s.has(i as int),
            in_range(old(st)@, open@),
        ensures
            (final(st)@, r@) == try_lowered(self.e(), old(st)@, i as int, open@),
            grown(old(st)@, final(st)@),
            in_range(final(st)@, r@),
        decreases size(self.e().s.t, i as int), 4int, 0int,
    {
        broadcast use {lemma_grown_trans, lemma_in_range_grows, lemma_below};

        match self.s.kid(i, 0) {
            Some(block) => {
                let exits = self.lower_seq(st, block, 0, open);
                if let Some(h) = self.s.kid_of(i, "CatchClause") {
                    self.lower_catch(st, h);
                }
                match self.finalizer(i) {
                    Some(f) => self.lower_seq(st, f, 0, exits),
                    None => exits,
                }
            },
            None => self.plain(st, self.s.span(i), &open),
        }
    }

    fn is_loop(&self, i: usize) -> (r: bool)
        requires
            self.s.has(i as int),
        ensures
            r == is_loop(self.e().s, i as int),
    {
        self.s.is(i, "WhileStatement") || self.s.is(i, "DoWhileStatement") || self.s.is(
            i,
            "ForStatement",
        ) || self.s.is(i, "ForInStatement") || self.s.is(i, "ForOfStatement")
    }

    fn lower_labeled(&self, st: &mut JsState, i: usize, open: Vec<usize>) -> (r: Vec<usize>)
        requires
            sound(old(st)@),
            self.ok(),
            self.s.has(i as int),
            in_range(old(st)@, open@),
        ensures
            (final(st)@, r@) == labeled_lowered(self.e(), old(st)@, i as int, open@),
            grown(old(st)@, final(st)@),
            in_range(final(st)@, r@),
        decreases size(self.e().s.t, i as int), 4int, 0int,
    {
        broadcast use {lemma_grown_trans, lemma_in_range_grows, lemma_below};

        match self.s.kid(i, 1) {
            Some(body) => {
                if self.is_loop(body) {
                    let label = match self.jump_label(i) {
                        Some(l) => l,
                        None => {
                            let e = String::new();
                            assert(e@ =~= Seq::empty());
                            e
                        },
                    };
                    st.set_pending(label);
                }
                self.lower_stmt(st, body, open)
            },
            None => self.plain(st, self.s.span(i), &open),
        }
    }

    fn declared_keys(&self, i: usize) -> (r: Vec<SymbolKey>)
        requires
            self.s.has(i as int),
        ensures
            key_views(r@) == declared_keys(self.e().s, i as int),
    {
        let mut out: Vec<SymbolKey> = Vec::new();
        if let Some(id) = self.s.kid_of(i, "BindingIdentifier") {
            if let Some(sym) = self.s.binding(id) {
                out.push(SymbolKey::Sym(sym));
                assert(key_views(out@) =~= seq![KeyView::Sym(sym)]);
                return out;
            }
        }
        assert(key_views(out@) =~= Seq::empty());
        out
    }

    /// A function or class declaration: a node that defines its name.
    fn lower_declaration(&self, st: &mut JsState, i: usize, function: bool, open: Vec<usize>) -> (r:
        Vec<usize>)
        requires
            sound(old(st)@),
            self.ok(),
            self.s.has(i as int),
            in_range(old(st)@, open@),
        ensures
            (final(st)@, r@) == declaration_lowered(
                self.e(),
                old(st)@,
                i as int,
                function,
                open@,
            ),
            grown(old(st)@, final(st)@),
            in_range(final(st)@, r@),
    {
        broadcast use {lemma_grown_trans, lemma_in_range_grows};

        let keys = self.declared_keys(i);
        let defs = st.list_vars(&keys);
        let mut uses: Vec<VarId> = Vec::new();
        if function {
            let captured = self.captures(self.s.span(i));
            st.add_vars(&captured, &mut uses);
        }
        let line: u32 = self.line_of(self.s.span(i).start);
        let label = if function {
            "<fndecl>".to_owned()
        } else {
            "<classdecl>".to_owned()
        };
        let id: usize = st.push(bare(line, NodeKind::Pure, defs, uses, label));
        st.link(open.as_slice(), id);
        let r: Vec<usize> = vec![id];
        assert(r@ =~= seq![id]);
        r
    }

    fn lower_jump(&self, st: &mut JsState, i: usize, is_break: bool, open: Vec<usize>)
        requires
            sound(old(st)@),
            self.ok(),
            self.s.has(i as int),
            in_range(old(st)@, open@),
        ensures
            final(st)@ == jump_lowered(self.e(), old(st)@, i as int, is_break, open@),
            grown(old(st)@, final(st)@),
    {
        broadcast use {lemma_grown_trans, lemma_in_range_grows};

        let text = if is_break {
            "break"
        } else {
            "continue"
        };
        let id: usize = self.mark(st, self.s.span(i).start, NodeKind::Pure, text);
        st.link(open.as_slice(), id);
        let label = self.jump_label(i);
        let name: Option<&str> = match &label {
            Some(l) => Some(l.as_str()),
            None => None,
        };
        if is_break {
            st.take_break(name, id);
        } else {
            st.take_continue(name, id);
        }
    }

    /// Lowers one statement; returns the nodes that control leaves it from.
    fn lower_stmt(&self, st: &mut JsState, i: usize, open: Vec<usize>) -> (r: Vec<usize>)
        requires
            sound(old(st)@),
            self.ok(),
            self.s.has(i as int),
            in_range(old(st)@, open@),
        ensures
            (final(st)@, r@) == stmt_lowered(self.e(), old(st)@, i as int, open@),
            grown(old(st)@, final(st)@),
            in_range(final(st)@, r@),
        decreases size(self.e().s.t, i as int), 5int, 0int,
    {
        broadcast use {lemma_grown_trans, lemma_in_range_grows, lemma_below};

        let s = &self.s;
        if s.is(i, "BlockStatement") {
            return self.lower_seq(st, i, 0, open);
        }
        if s.is(i, "EmptyStatement") || s.is(i, "DebuggerStatement") {
            return open;
        }
        if s.is(i, "VariableDeclaration") {
            return self.lower_declarators(st, i, open);
        }
        if s.is(i, "ExpressionStatement") {
            return self.lower_expression(st, i, open);
        }
        if s.is(i, "ReturnStatement") {
            let _ = self.unit_after(st, s.span(i), NodeKind::Return, &open);
            return Vec::new();
        }
        if s.is(i, "ThrowStatement") {
            let _ = self.unit_after(st, s.span(i), NodeKind::Throw, &open);
            return Vec::new();
        }
        if s.is(i, "IfStatement") {
            return self.lower_if(st, i, open);
        }
        if s.is(i, "WhileStatement") {
            return self.lower_while(st, i, open);
        }
        if s.is(i, "DoWhileStatement") {
            return self.lower_do(st, i, open);
        }
        if s.is(i, "ForStatement") {
            return self.lower_for(st, i, open);
        }
        if s.is(i, "ForInStatement") || s.is(i, "ForOfStatement") {
            return self.lower_for_each(st, i, open);
        }
        if s.is(i, "BreakStatement") {
            self.lower_jump(st, i, true, open);
            return Vec::new();
        }
        if s.is(i, "ContinueStatement") {
            self.lower_jump(st, i, false, open);
            return Vec::new();
        }
        if s.is(i, "SwitchStatement") {
            return self.lower_switch(st, i, open);
        }
        if s.is(i, "TryStatement") {
            return self.lower_try(st, i, open);
        }
        if s.is(i, "LabeledStatement") {
            return self.lower_labeled(st, i, open);
        }
        if s.is(i, "Function") {
            return self.lower_declaration(st, i, true, open);
        }
        if s.is(i, "Class") {
            return self.lower_declaration(st, i, false, open);
        }
        self.plain(st, s.span(i), &open)
    }

    /// Lowers one function.
    pub(crate) fn lower_function(&self, file: &str, f: &FnFact) -> (r: FunctionIr)
        requires
            self.ok(),
            self.s.has(f.body as int),
        ensures
            r@ == function_lowered(self.e(), file@, f@),
            r@.valid(),
    {
        broadcast use {lemma_grown_trans, lemma_in_range_grows};

        let mut st = JsState::new();
        self.lower_params(&mut st, &f.params, f.line);
        let open: Vec<usize> = vec![0usize];
        assert(open@ =~= seq![0usize]);
        assert(in_range(st@, open@));
        if f.block {
            let _ = self.lower_seq(&mut st, f.body, 0, open);
        } else {
            let _ = self.unit_after(&mut st, self.s.span(f.body), NodeKind::Return, &open);
        }
        finish(file, f.name.as_str(), f.line, st)
    }

    /// Lowers the top-level code.
    pub(crate) fn lower_top(&self, file: &str) -> (r: FunctionIr)
        requires
            self.ok(),
        ensures
            r@ == function_view(
                file@,
                "<module>"@,
                1,
                seq_lowered(
                    self.e(),
                    params_lowered(fresh(), Seq::empty(), 1),
                    0,
                    0,
                    seq![0usize],
                ).0,
            ),
            r@.valid(),
    {
        broadcast use {lemma_grown_trans, lemma_in_range_grows};

        let mut st = JsState::new();
        let none: Vec<u32> = Vec::new();
        self.lower_params(&mut st, &none, 1);
        let open: Vec<usize> = vec![0usize];
        assert(open@ =~= seq![0usize]);
        assert(in_range(st@, open@));
        if self.s.tree.nodes.len() > 0 {
            let _ = self.lower_seq(&mut st, 0, 0, open);
        }
        finish(file, "<module>", 1, st)
    }
}

fn finish(file: &str, name: &str, line: u32, st: JsState) -> (r: FunctionIr)
    requires
        sound(st@),
        st@.nodes.len() > 0,
    ensures
        r@ == function_view(file@, name@, line, st@),
        r@.valid(),
{
    let id = FunctionId {
        file: file.to_owned(),
        name: name.to_owned(),
        signature: String::new(),
        decl_line: Some(line),
    };
    let nodes = st.finish();
    let r = FunctionIr { id, nodes, entry: 0 };
    assert(r@ =~= function_view(file@, name@, line, st@));
    r
}

/// Two lists of nodes together.
proof fn lemma_in_range_concat(w: JsWalk, a: Seq<usize>, b: Seq<usize>)
    requires
        in_range(w, a),
        in_range(w, b),
    ensures
        in_range(w, a + b),
{
    assert forall|k: int| 0 <= k < (a + b).len() implies #[trigger] (a + b)[k] < w.nodes.len() by {
        if k < a.len() {
            assert((a + b)[k] == a[k]);
        } else {
            assert((a + b)[k] == b[k - a.len()]);
        }
    }
}

} // verus!
