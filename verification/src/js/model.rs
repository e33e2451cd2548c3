//! What a JavaScript function body is lowered to.
//!
//! Lowering threads a state (the nodes made so far, the variables that have
//! been named, the loops that are open) through the statements. Each function
//! here says what one construct does to that state, and which nodes control
//! leaves it from.

use vstd::prelude::*;

use crate::ir::{CallOpacity, FunctionView, IdView, KindView, NodeView, VarId};
use crate::js::facts::{clamp_u32, facts_of, order_of, span_text, Facts, FnView, KeyView};
use crate::js::source::{within, Source, Span};
use crate::text::{bytes_of, newlines, snippet_of};
use crate::ts::model::bare_node;
use crate::ts::tree::{kids, lemma_kid, size};

verus! {

/// What a lowering reads and never changes: the source and its facts.
pub struct Env {
    pub s: Source,
    pub f: Facts,
}

/// A loop or switch that is open.
#[verifier::ext_equal]
pub struct JsLoopView {
    pub label: Option<Seq<char>>,
    /// Where `continue` goes, when known while the body is lowered.
    pub target: Option<usize>,
    pub breaks: Seq<usize>,
    pub continues: Seq<usize>,
}

/// The state of a lowering.
#[verifier::ext_equal]
pub struct JsWalk {
    pub nodes: Seq<NodeView>,
    /// The variables named so far: a variable's number is its position.
    pub vars: Seq<KeyView>,
    pub next_temp: u32,
    pub loops: Seq<JsLoopView>,
    /// The label of a labelled loop, until the loop takes it.
    pub pending: Option<Seq<char>>,
}

/// The state before anything is lowered.
pub open spec fn fresh() -> JsWalk {
    JsWalk {
        nodes: Seq::empty(),
        vars: Seq::empty(),
        next_temp: 0,
        loops: Seq::empty(),
        pending: None,
    }
}

pub open spec fn next_node(w: JsWalk) -> usize {
    w.nodes.len() as usize
}

pub open spec fn pushed(w: JsWalk, n: NodeView) -> JsWalk {
    JsWalk { nodes: w.nodes.push(n), ..w }
}

/// One edge more, unless it is there.
pub open spec fn edge(w: JsWalk, from: usize, to: usize) -> JsWalk {
    let n = w.nodes[from as int];
    if n.succs.contains(to) {
        w
    } else {
        JsWalk {
            nodes: w.nodes.update(
                from as int,
                NodeView { succs: n.succs.push(to), ..n },
            ),
            ..w
        }
    }
}

/// Edges from the nodes at `k` and behind it to `to`.
pub open spec fn link_from(w: JsWalk, from: Seq<usize>, k: int, to: usize) -> JsWalk
    decreases from.len() - k,
{
    if k < 0 || k >= from.len() {
        w
    } else {
        link_from(edge(w, from[k], to), from, k + 1, to)
    }
}

/// Edges from every node of `from` to `to`.
pub open spec fn link(w: JsWalk, from: Seq<usize>, to: usize) -> JsWalk {
    link_from(w, from, 0, to)
}

/// Edges from each node to the next one, from the `k`-th pair on.
pub open spec fn chain_from(w: JsWalk, ids: Seq<usize>, k: int) -> JsWalk
    decreases ids.len() - k,
{
    if k < 0 || k + 1 >= ids.len() {
        w
    } else {
        chain_from(edge(w, ids[k], ids[k + 1]), ids, k + 1)
    }
}

/// The first position at or behind `k` that holds a key, or the length.
pub open spec fn position_of(vars: Seq<KeyView>, key: KeyView, k: int) -> int
    decreases vars.len() - k,
{
    if k < 0 || k >= vars.len() || vars[k] == key {
        k
    } else {
        position_of(vars, key, k + 1)
    }
}

/// The variable of a key: its position among those named so far.
pub open spec fn var(w: JsWalk, key: KeyView) -> (JsWalk, VarId) {
    let p = position_of(w.vars, key, 0);
    if p < w.vars.len() {
        (w, clamp_u32(p))
    } else {
        (JsWalk { vars: w.vars.push(key), ..w }, clamp_u32(w.vars.len() as int))
    }
}

/// A variable for a call's result.
pub open spec fn temp(w: JsWalk) -> (JsWalk, VarId) {
    let t = if w.next_temp == u32::MAX {
        0
    } else {
        (w.next_temp + 1) as u32
    };
    var(JsWalk { next_temp: t, ..w }, KeyView::Temp(t))
}

/// `v` added to the list unless it is there.
pub open spec fn with_var(list: Seq<VarId>, v: VarId) -> Seq<VarId> {
    if list.contains(v) {
        list
    } else {
        list.push(v)
    }
}

/// The variables of the keys from the `k`-th on, added to `out`.
pub open spec fn vars_added(w: JsWalk, keys: Seq<KeyView>, k: int, out: Seq<VarId>) -> (
    JsWalk,
    Seq<VarId>,
)
    decreases keys.len() - k,
{
    if k < 0 || k >= keys.len() {
        (w, out)
    } else {
        let (w1, v) = var(w, keys[k]);
        vars_added(w1, keys, k + 1, with_var(out, v))
    }
}

/// The line of a byte offset.
pub open spec fn line_of(src: Seq<char>, off: u32) -> u32 {
    let b = bytes_of(src);
    clamp_u32(
        (1 + newlines(
            b.take(
                if off <= b.len() {
                    off as int
                } else {
                    b.len() as int
                },
            ),
        )) as int,
    )
}

/// The first line of a span's text, trimmed and cut.
pub open spec fn snippet(src: Seq<char>, span: Span) -> Seq<char> {
    match span_text(src, span) {
        Some(t) => snippet_of(t),
        None => snippet_of(Seq::empty()),
    }
}

/// Whether a span lies in the body of a function nested in `outer`.
pub open spec fn in_nested_fn(f: Facts, inner: Span, outer: Span) -> bool {
    exists|k: int|
        0 <= k < f.functions.len() && nests(
            (#[trigger] f.functions[k]).body_span,
            outer,
        ) && within(inner, f.functions[k].body_span)
}

/// Whether a span lies in another one without filling it.
pub open spec fn nests(inner: Span, outer: Span) -> bool {
    within(inner, outer) && !within(outer, inner)
}

/// The spans, among the first `k` functions, of those that lie in `span` and
/// are not it.
pub open spec fn nested_before(f: Facts, span: Span, k: int) -> Seq<Span>
    decreases k,
{
    if k <= 0 || k > f.functions.len() {
        Seq::empty()
    } else {
        let rest = nested_before(f, span, k - 1);
        let full = f.functions[k - 1].full_span;
        if within(full, span) && full != span {
            rest.push(full)
        } else {
            rest
        }
    }
}

/// By which nested functions are ordered: an outer one before those in it.
pub open spec fn nest_key(s: Span) -> (u32, u32) {
    (s.start, (u32::MAX - s.end) as u32)
}

/// The nested functions in order.
pub open spec fn nested_sorted(f: Facts, span: Span) -> Seq<Span> {
    let all = nested_before(f, span, f.functions.len() as int);
    let keys = all.map_values(|s: Span| nest_key(s));
    order_of(keys, keys.len() as int).map_values(|i: usize| all[i as int])
}

/// Whether a span lies in one of the list.
pub open spec fn in_one_of(span: Span, list: Seq<Span>) -> bool {
    exists|k: int| 0 <= k < list.len() && within(span, #[trigger] list[k])
}

/// Of the spans from the `k`-th on, those that lie in none kept before.
pub open spec fn outermost_from(all: Seq<Span>, k: int, kept: Seq<Span>) -> Seq<Span>
    decreases all.len() - k,
{
    if k < 0 || k >= all.len() {
        kept
    } else if in_one_of(all[k], kept) {
        outermost_from(all, k + 1, kept)
    } else {
        outermost_from(all, k + 1, kept.push(all[k]))
    }
}

/// The outermost functions nested in a span.
pub open spec fn nested_fns(f: Facts, span: Span) -> Seq<Span> {
    outermost_from(nested_sorted(f, span), 0, Seq::empty())
}

/// Whether a symbol is bound inside a span.
pub open spec fn bound_inside(bindings: Seq<(Span, u32)>, sym: u32, full: Span) -> bool {
    exists|k: int|
        0 <= k < bindings.len() && (#[trigger] bindings[k]).1 == sym && within(
            bindings[k].0,
            full,
        )
}

/// The symbols that a function captures, from the first `k` references: those
/// it refers to but does not bind.
pub open spec fn captures_before(f: Facts, full: Span, k: int) -> Seq<KeyView>
    decreases k,
{
    if k <= 0 || k > f.refs.len() {
        Seq::empty()
    } else {
        let rest = captures_before(f, full, k - 1);
        let r = f.refs[k - 1];
        match r.key {
            KeyView::Sym(sym) => if within(r.span, full) && !bound_inside(f.bindings, sym, full)
                && !rest.contains(r.key) {
                rest.push(r.key)
            } else {
                rest
            },
            _ => rest,
        }
    }
}

/// The symbols that a function captures.
pub open spec fn captures(f: Facts, full: Span) -> Seq<KeyView> {
    captures_before(f, full, f.refs.len() as int)
}

/// The captures of the functions from the `k`-th on, added to the uses.
pub open spec fn captures_added(
    e: Env,
    w: JsWalk,
    fns: Seq<Span>,
    k: int,
    uses: Seq<VarId>,
) -> (JsWalk, Seq<VarId>)
    decreases fns.len() - k,
{
    if k < 0 || k >= fns.len() {
        (w, uses)
    } else {
        let (w1, u1) = vars_added(w, captures(e.f, fns[k]), 0, uses);
        captures_added(e, w1, fns, k + 1, u1)
    }
}

/// The captures of every function directly nested in a span, added to the
/// uses.
pub open spec fn nested_captures_added(e: Env, w: JsWalk, span: Span, uses: Seq<VarId>) -> (
    JsWalk,
    Seq<VarId>,
) {
    captures_added(e, w, nested_fns(e.f, span), 0, uses)
}

/// The calls of a span, among the first `k`: those in it but in no function
/// nested in it.
pub open spec fn unit_calls_before(f: Facts, span: Span, k: int) -> Seq<int>
    decreases k,
{
    if k <= 0 || k > f.calls.len() {
        Seq::empty()
    } else {
        let rest = unit_calls_before(f, span, k - 1);
        let c = f.calls[k - 1].span;
        if within(c, span) && !in_nested_fn(f, c, span) {
            rest.push(k - 1)
        } else {
            rest
        }
    }
}

/// The calls of a span.
pub open spec fn unit_calls(f: Facts, span: Span) -> Seq<int> {
    unit_calls_before(f, span, f.calls.len() as int)
}

/// The spans of the calls of a span.
pub open spec fn call_spans(f: Facts, span: Span) -> Seq<Span> {
    unit_calls(f, span).map_values(|c: int| f.calls[c].span)
}

/// Of the first `k` spans, those that lie in `outer` and are not it.
pub open spec fn inner_before(all: Seq<Span>, outer: Span, k: int) -> Seq<Span>
    decreases k,
{
    if k <= 0 || k > all.len() {
        Seq::empty()
    } else {
        let rest = inner_before(all, outer, k - 1);
        if within(all[k - 1], outer) && all[k - 1] != outer {
            rest.push(all[k - 1])
        } else {
            rest
        }
    }
}

/// The keys read in `part`, among the first `k` references: those of `unit`
/// itself, outside the spans `apart`.
pub open spec fn read_keys(f: Facts, part: Span, unit: Span, apart: Seq<Span>, k: int) -> Seq<
    KeyView,
>
    decreases k,
{
    if k <= 0 || k > f.refs.len() {
        Seq::empty()
    } else {
        let rest = read_keys(f, part, unit, apart, k - 1);
        let r = f.refs[k - 1];
        if within(r.span, part) && !in_nested_fn(f, r.span, unit) && !in_one_of(r.span, apart) && (
        r.read || !r.write) {
            rest.push(r.key)
        } else {
            rest
        }
    }
}

/// Whether a span lies in one of the list other than itself.
pub open spec fn in_another(span: Span, list: Seq<Span>) -> bool {
    exists|k: int|
        0 <= k < list.len() && #[trigger] list[k] != span && within(span, list[k])
}

/// The results of earlier calls, from the `k`-th on, that a call uses
/// directly, added to its uses.
pub open spec fn direct_temps_added(
    spans: Seq<Span>,
    temps: Seq<VarId>,
    outer: Span,
    inner: Seq<Span>,
    k: int,
    uses: Seq<VarId>,
) -> Seq<VarId>
    decreases temps.len() - k,
{
    if k < 0 || k >= temps.len() {
        uses
    } else {
        let direct = within(spans[k], outer) && !in_another(spans[k], inner);
        direct_temps_added(
            spans,
            temps,
            outer,
            inner,
            k + 1,
            if direct {
                with_var(uses, temps[k])
            } else {
                uses
            },
        )
    }
}

/// What a call reads.
pub open spec fn call_uses(e: Env, w: JsWalk, unit: Span, j: int, temps: Seq<VarId>) -> (
    JsWalk,
    Seq<VarId>,
) {
    let spans = call_spans(e.f, unit);
    let inner = inner_before(spans, spans[j], spans.len() as int);
    let keys = read_keys(e.f, spans[j], unit, inner, e.f.refs.len() as int);
    let (w1, u1) = vars_added(w, keys, 0, Seq::empty());
    nested_captures_added(
        e,
        w1,
        spans[j],
        direct_temps_added(spans, temps, spans[j], inner, 0, u1),
    )
}

/// The calls of a unit from the `j`-th on, each as a node; their ids and
/// result variables are added to the two lists.
pub open spec fn calls_pushed(
    e: Env,
    w: JsWalk,
    unit: Span,
    j: int,
    ids: Seq<usize>,
    temps: Seq<VarId>,
) -> (JsWalk, Seq<usize>, Seq<VarId>)
    decreases unit_calls(e.f, unit).len() - j,
{
    let cs = unit_calls(e.f, unit);
    if j < 0 || j >= cs.len() {
        (w, ids, temps)
    } else {
        let call = e.f.calls[cs[j]];
        let (w1, uses) = call_uses(e, w, unit, j, temps);
        let (w2, t) = temp(w1);
        let w3 = pushed(
            w2,
            bare_node(
                line_of(e.s.src, call.span.start),
                KindView::Call { callee: call.callee, opacity: CallOpacity::Opaque },
                seq![t],
                uses,
                call.callee,
            ),
        );
        calls_pushed(e, w3, unit, j + 1, ids.push(next_node(w2)), temps.push(t))
    }
}

/// Whether the `i`-th call lies in another one.
pub open spec fn call_nested(spans: Seq<Span>, i: int) -> bool {
    exists|j: int| 0 <= j < spans.len() && j != i && within(spans[i], #[trigger] spans[j])
}

/// The results of the outermost calls, from the `k`-th on, added to the uses.
pub open spec fn outer_temps_added(
    spans: Seq<Span>,
    temps: Seq<VarId>,
    k: int,
    uses: Seq<VarId>,
) -> Seq<VarId>
    decreases temps.len() - k,
{
    if k < 0 || k >= temps.len() {
        uses
    } else {
        outer_temps_added(
            spans,
            temps,
            k + 1,
            if call_nested(spans, k) {
                uses
            } else {
                with_var(uses, temps[k])
            },
        )
    }
}

/// The calls of a unit as a chain of nodes, and what the unit itself reads.
pub open spec fn unit_uses(e: Env, w: JsWalk, span: Span) -> (JsWalk, Seq<VarId>, Seq<usize>) {
    let spans = call_spans(e.f, span);
    let (w1, ids, temps) = calls_pushed(e, w, span, 0, Seq::empty(), Seq::empty());
    let w2 = chain_from(w1, ids, 0);
    let keys = read_keys(e.f, span, span, spans, e.f.refs.len() as int);
    let (w3, u1) = vars_added(w2, keys, 0, Seq::empty());
    let (w4, u2) = nested_captures_added(e, w3, span, outer_temps_added(spans, temps, 0, u1));
    (w4, u2, ids)
}

/// The keys written in a span, among the first `k` references.
pub open spec fn written_keys(f: Facts, span: Span, k: int) -> Seq<KeyView>
    decreases k,
{
    if k <= 0 || k > f.refs.len() {
        Seq::empty()
    } else {
        let rest = written_keys(f, span, k - 1);
        let r = f.refs[k - 1];
        if within(r.span, span) && r.write && !in_nested_fn(f, r.span, span) {
            rest.push(r.key)
        } else {
            rest
        }
    }
}

/// The symbols bound in a span, among the first `k` bindings.
pub open spec fn bound_keys(f: Facts, span: Span, k: int) -> Seq<KeyView>
    decreases k,
{
    if k <= 0 || k > f.bindings.len() {
        Seq::empty()
    } else {
        let rest = bound_keys(f, span, k - 1);
        let (s, sym) = f.bindings[k - 1];
        if within(s, span) && !in_nested_fn(f, s, span) {
            rest.push(KeyView::Sym(sym))
        } else {
            rest
        }
    }
}

/// What a unit defines: what it writes and what it binds.
pub open spec fn unit_defs(e: Env, w: JsWalk, span: Span) -> (JsWalk, Seq<VarId>) {
    let (w1, d1) = vars_added(
        w,
        written_keys(e.f, span, e.f.refs.len() as int),
        0,
        Seq::empty(),
    );
    vars_added(w1, bound_keys(e.f, span, e.f.bindings.len() as int), 0, d1)
}

/// The node `id` behind a chain of calls, and the node that control enters.
pub open spec fn behind(w: JsWalk, calls: Seq<usize>, id: usize) -> (JsWalk, usize) {
    if calls.len() > 0 {
        (edge(w, calls.last(), id), calls[0])
    } else {
        (w, id)
    }
}

/// One unit: its calls, then a node. Control enters at the first id and
/// leaves at the second.
pub open spec fn unit(e: Env, w: JsWalk, span: Span, kind: KindView) -> (JsWalk, usize, usize) {
    let (w1, uses, calls) = unit_uses(e, w, span);
    let (w2, defs) = unit_defs(e, w1, span);
    let id = next_node(w2);
    let (w3, entry) = behind(
        pushed(
            w2,
            bare_node(
                line_of(e.s.src, span.start),
                kind,
                defs,
                uses,
                snippet(e.s.src, span),
            ),
        ),
        calls,
        id,
    );
    (w3, entry, id)
}

/// A unit that `open` leads into: entry and exit.
pub open spec fn unit_after(e: Env, w: JsWalk, span: Span, kind: KindView, open: Seq<usize>) -> (
    JsWalk,
    usize,
    usize,
) {
    let (w1, entry, exit) = unit(e, w, span, kind);
    (link(w1, open, entry), entry, exit)
}

/// A unit as a plain statement.
pub open spec fn plain(e: Env, w: JsWalk, span: Span, open: Seq<usize>) -> (JsWalk, Seq<usize>) {
    let (w1, _entry, exit) = unit_after(e, w, span, KindView::Pure, open);
    (w1, seq![exit])
}

/// A node that only marks a position.
pub open spec fn mark(
    e: Env,
    w: JsWalk,
    off: u32,
    kind: KindView,
    label: Seq<char>,
) -> (JsWalk, usize) {
    (
        pushed(w, bare_node(line_of(e.s.src, off), kind, Seq::empty(), Seq::empty(), label)),
        next_node(w),
    )
}

/// The keys of a list of symbols.
pub open spec fn sym_keys(syms: Seq<u32>) -> Seq<KeyView> {
    syms.map_values(|s: u32| KeyView::Sym(s))
}

/// The entry node of a function, which defines its parameters.
pub open spec fn params_lowered(w: JsWalk, params: Seq<u32>, line: u32) -> JsWalk {
    let (w1, defs) = vars_added(w, sym_keys(params), 0, Seq::empty());
    pushed(w1, bare_node(line, KindView::Pure, defs, Seq::empty(), "<params>"@))
}

/// Whether a loop is meant by a label: any is, when there is none.
pub open spec fn meant(l: JsLoopView, label: Option<Seq<char>>) -> bool {
    label is None || l.label == label
}

/// The innermost of the first `k` loops that a label means.
pub open spec fn loop_meant(loops: Seq<JsLoopView>, label: Option<Seq<char>>, k: int) -> Option<int>
    decreases k,
{
    if k <= 0 || k > loops.len() {
        None
    } else if meant(loops[k - 1], label) {
        Some(k - 1)
    } else {
        loop_meant(loops, label, k - 1)
    }
}

/// Marks a node as leaving the loop that a label means.
pub open spec fn break_taken(w: JsWalk, label: Option<Seq<char>>, node: usize) -> JsWalk {
    match loop_meant(w.loops, label, w.loops.len() as int) {
        Some(k) => {
            let l = w.loops[k];
            JsWalk {
                loops: w.loops.update(k, JsLoopView { breaks: l.breaks.push(node), ..l }),
                ..w
            }
        },
        None => w,
    }
}

/// Links a node to where the loop that a label means goes on, or marks it
/// when that is not known yet.
pub open spec fn continue_taken(w: JsWalk, label: Option<Seq<char>>, node: usize) -> JsWalk {
    match loop_meant(w.loops, label, w.loops.len() as int) {
        Some(k) => {
            let l = w.loops[k];
            match l.target {
                Some(t) => edge(w, node, t),
                None => JsWalk {
                    loops: w.loops.update(
                        k,
                        JsLoopView { continues: l.continues.push(node), ..l },
                    ),
                    ..w
                },
            }
        },
        None => w,
    }
}

/// The continues from the `k`-th on, taken by the loops that are open.
pub open spec fn continues_taken(w: JsWalk, nodes: Seq<usize>, k: int) -> JsWalk
    decreases nodes.len() - k,
{
    if k < 0 || k >= nodes.len() {
        w
    } else {
        continues_taken(continue_taken(w, None, nodes[k]), nodes, k + 1)
    }
}

/// Opens a loop, which takes the label that is pending.
pub open spec fn loop_opened(w: JsWalk, target: Option<usize>) -> JsWalk {
    JsWalk {
        loops: w.loops.push(
            JsLoopView {
                label: w.pending,
                target,
                breaks: Seq::empty(),
                continues: Seq::empty(),
            },
        ),
        pending: None,
        ..w
    }
}

/// Opens a switch, which takes no label.
pub open spec fn switch_opened(w: JsWalk) -> JsWalk {
    JsWalk {
        loops: w.loops.push(
            JsLoopView {
                label: None,
                target: None,
                breaks: Seq::empty(),
                continues: Seq::empty(),
            },
        ),
        ..w
    }
}

/// Closes the innermost loop.
pub open spec fn loop_closed(w: JsWalk) -> (JsWalk, JsLoopView) {
    (JsWalk { loops: w.loops.drop_last(), ..w }, w.loops.last())
}

/// Whether a child is a statement of the list it stands in: directives are
/// not.
pub open spec fn is_statement(s: Source, i: int) -> bool {
    !s.is(i, "Directive"@) && !s.is(i, "Hashbang"@)
}

/// The statements among the children of `i` from the `k`-th on.
pub open spec fn seq_lowered(e: Env, w: JsWalk, i: int, k: int, open: Seq<usize>) -> (
    JsWalk,
    Seq<usize>,
)
    decreases size(e.s.t, i), 1int, e.s.kids(i).len() - k,
    via seq_lowered_decreases
{
    if k < 0 || k >= e.s.kids(i).len() {
        (w, open)
    } else {
        let c = e.s.kids(i)[k];
        let (w1, exits) = if is_statement(e.s, c) {
            stmt_lowered(e, w, c, open)
        } else {
            (w, open)
        };
        seq_lowered(e, w1, i, k + 1, exits)
    }
}

#[via_fn]
proof fn seq_lowered_decreases(e: Env, w: JsWalk, i: int, k: int, open: Seq<usize>) {
    broadcast use lemma_kid;

}

/// The declarators among the children of `i` from the `k`-th on, a unit each.
pub open spec fn declarators_lowered(e: Env, w: JsWalk, i: int, k: int, open: Seq<usize>) -> (
    JsWalk,
    Seq<usize>,
)
    decreases e.s.kids(i).len() - k,
{
    if k < 0 || k >= e.s.kids(i).len() {
        (w, open)
    } else {
        let (w1, exits) = plain(e, w, e.s.span(e.s.kids(i)[k]), open);
        declarators_lowered(e, w1, i, k + 1, exits)
    }
}

/// Whether a reference in a span writes an ambient name.
pub open spec fn writes_global(f: Facts, span: Span) -> bool {
    exists|k: int|
        0 <= k < f.refs.len() && within((#[trigger] f.refs[k]).span, span) && f.refs[k].write
            && f.refs[k].key is Global
}

/// Whether a node is a member access.
pub open spec fn is_member(s: Source, i: int) -> bool {
    s.is(i, "ComputedMemberExpression"@) || s.is(i, "StaticMemberExpression"@) || s.is(
        i,
        "PrivateFieldExpression"@,
    )
}

/// An expression statement: a write through a member access or to an ambient
/// name is a state write; a call is discarded behind its call nodes.
pub open spec fn expression_lowered(e: Env, w: JsWalk, i: int, open: Seq<usize>) -> (
    JsWalk,
    Seq<usize>,
) {
    let span = e.s.span(i);
    match e.s.kid(i, 0) {
        Some(x) => if e.s.is(x, "AssignmentExpression"@) {
            match e.s.kid(x, 0) {
                Some(left) => {
                    let target = e.s.span(left);
                    let kind = if is_member(e.s, left) || writes_global(e.f, target) {
                        KindView::StateWrite { target: snippet(e.s.src, target) }
                    } else {
                        KindView::Pure
                    };
                    let (w1, _entry, exit) = unit_after(e, w, span, kind, open);
                    (w1, seq![exit])
                },
                None => plain(e, w, span, open),
            }
        } else if e.s.is(x, "CallExpression"@) || e.s.is(x, "NewExpression"@) {
            let (w1, uses, calls) = unit_uses(e, w, span);
            let id = next_node(w1);
            let (w2, entry) = behind(
                pushed(
                    w1,
                    bare_node(
                        line_of(e.s.src, span.start),
                        KindView::Pure,
                        Seq::empty(),
                        uses,
                        "<discard>"@,
                    ),
                ),
                calls,
                id,
            );
            (link(w2, open, entry), seq![id])
        } else {
            plain(e, w, span, open)
        },
        None => plain(e, w, span, open),
    }
}

/// An `if`.
pub open spec fn if_lowered(e: Env, w: JsWalk, i: int, open: Seq<usize>) -> (JsWalk, Seq<usize>)
    decreases size(e.s.t, i), 4int, 0int,
    via if_lowered_decreases
{
    match (e.s.kid(i, 0), e.s.kid(i, 1)) {
        (Some(test), Some(then_)) => {
            let (w1, _entry, cond) = unit_after(e, w, e.s.span(test), KindView::Branch, open);
            let (w2, exits) = stmt_lowered(e, w1, then_, seq![cond]);
            match e.s.kid(i, 2) {
                Some(alt) => {
                    let (w3, more) = stmt_lowered(e, w2, alt, seq![cond]);
                    (w3, exits + more)
                },
                None => (w2, exits.push(cond)),
            }
        },
        _ => plain(e, w, e.s.span(i), open),
    }
}

#[via_fn]
proof fn if_lowered_decreases(e: Env, w: JsWalk, i: int, open: Seq<usize>) {
    broadcast use lemma_kid;

}

/// A `while`: `continue` goes to where the condition is entered.
pub open spec fn while_lowered(e: Env, w: JsWalk, i: int, open: Seq<usize>) -> (
    JsWalk,
    Seq<usize>,
)
    decreases size(e.s.t, i), 4int, 0int,
    via while_lowered_decreases
{
    match (e.s.kid(i, 0), e.s.kid(i, 1)) {
        (Some(test), Some(body)) => {
            let (w1, entry, cond) = unit_after(e, w, e.s.span(test), KindView::Branch, open);
            let (w2, exits) = stmt_lowered(e, loop_opened(w1, Some(entry)), body, seq![cond]);
            let (w3, l) = loop_closed(link(w2, exits, entry));
            (w3, seq![cond] + l.breaks)
        },
        _ => plain(e, w, e.s.span(i), open),
    }
}

#[via_fn]
proof fn while_lowered_decreases(e: Env, w: JsWalk, i: int, open: Seq<usize>) {
    broadcast use lemma_kid;

}

/// The first of the successors, from the `k`-th on, that is `first` or behind
/// it; `first` where there is none.
pub open spec fn first_behind(succs: Seq<usize>, first: usize, k: int) -> usize
    decreases succs.len() - k,
{
    if k < 0 || k >= succs.len() {
        first
    } else if succs[k] >= first {
        succs[k]
    } else {
        first_behind(succs, first, k + 1)
    }
}

/// Where control came from the open nodes to what was added from `first` on. A
/// handler may stand before that node, and is not entered.
pub open spec fn entered_at(w: JsWalk, open: Seq<usize>, first: usize) -> usize {
    if open.len() > 0 {
        first_behind(w.nodes[open[0] as int].succs, first, 0)
    } else {
        first
    }
}

/// A `do`: the condition leads back to where the body is entered.
pub open spec fn do_lowered(e: Env, w: JsWalk, i: int, open: Seq<usize>) -> (JsWalk, Seq<usize>)
    decreases size(e.s.t, i), 4int, 0int,
    via do_lowered_decreases
{
    match (e.s.kid(i, 0), e.s.kid(i, 1)) {
        (Some(body), Some(test)) => {
            let first_node = next_node(w);
            let (w1, exits) = stmt_lowered(e, loop_opened(w, None), body, open);
            let (w2, entry, cond) = unit_after(e, w1, e.s.span(test), KindView::Branch, exits);
            let (w3, l) = loop_closed(edge(w2, cond, entered_at(w2, open, first_node)));
            (link(w3, l.continues, entry), seq![cond] + l.breaks)
        },
        _ => plain(e, w, e.s.span(i), open),
    }
}

#[via_fn]
proof fn do_lowered_decreases(e: Env, w: JsWalk, i: int, open: Seq<usize>) {
    broadcast use lemma_kid;

}

/// The position of a `for`'s body among its children, and of its parts.
pub open spec fn for_test_at(p: crate::js::source::Parts) -> int {
    if p.init {
        1
    } else {
        0
    }
}

pub open spec fn for_update_at(p: crate::js::source::Parts) -> int {
    for_test_at(p) + if p.test {
        1int
    } else {
        0int
    }
}

pub open spec fn for_body_at(p: crate::js::source::Parts) -> int {
    for_update_at(p) + if p.update {
        1int
    } else {
        0int
    }
}

/// The initial part of a `for`.
pub open spec fn for_init_lowered(e: Env, w: JsWalk, i: int, open: Seq<usize>) -> (
    JsWalk,
    Seq<usize>,
) {
    match e.s.kid(i, 0) {
        Some(init) => if !e.s.part(i).init {
            (w, open)
        } else if e.s.is(init, "VariableDeclaration"@) {
            declarators_lowered(e, w, init, 0, open)
        } else {
            plain(e, w, e.s.span(init), open)
        },
        None => (w, open),
    }
}

/// The condition of a `for`, or a mark where there is none: entry and exit.
pub open spec fn for_test_lowered(e: Env, w: JsWalk, i: int) -> (JsWalk, usize, usize) {
    match e.s.kid(i, for_test_at(e.s.part(i))) {
        Some(test) => if e.s.part(i).test {
            unit(e, w, e.s.span(test), KindView::Branch)
        } else {
            let (w1, id) = mark(e, w, e.s.span(i).start, KindView::Branch, "<for>"@);
            (w1, id, id)
        },
        None => {
            let (w1, id) = mark(e, w, e.s.span(i).start, KindView::Branch, "<for>"@);
            (w1, id, id)
        },
    }
}

/// The update of a `for`, behind the ends of its body: what it leaves open,
/// and where it is entered, if there is one.
pub open spec fn for_update_lowered(e: Env, w: JsWalk, i: int, exits: Seq<usize>) -> (
    JsWalk,
    Seq<usize>,
    Option<usize>,
) {
    match e.s.kid(i, for_update_at(e.s.part(i))) {
        Some(update) => if e.s.part(i).update {
            let (w1, entry, exit) = unit_after(e, w, e.s.span(update), KindView::Pure, exits);
            (w1, seq![exit], Some(entry))
        } else {
            (w, exits, None)
        },
        None => (w, exits, None),
    }
}

/// The end of a `for` whose body and update end in `after`: control goes back
/// to the condition, and every `continue` to `again`.
pub open spec fn for_closed(
    w: JsWalk,
    entry: usize,
    cond: usize,
    after: Seq<usize>,
    again: usize,
) -> (JsWalk, Seq<usize>) {
    let (w1, l) = loop_closed(link(w, after, entry));
    (link(w1, l.continues, again), seq![cond] + l.breaks)
}

/// A `for`: `continue` goes to the update, or to where the body's ends go.
pub open spec fn for_lowered(e: Env, w: JsWalk, i: int, open: Seq<usize>) -> (JsWalk, Seq<usize>)
    decreases size(e.s.t, i), 4int, 0int,
    via for_lowered_decreases
{
    match e.s.kid(i, for_body_at(e.s.part(i))) {
        Some(body) => {
            let (w1, open1) = for_init_lowered(e, w, i, open);
            let (w2, entry, cond) = for_test_lowered(e, w1, i);
            let w3 = loop_opened(link(w2, open1, entry), None);
            let (w4, exits) = stmt_lowered(e, w3, body, seq![cond]);
            let (w5, after, update) = for_update_lowered(e, w4, i, exits);
            let again = match update {
                Some(u) => u,
                None => entry,
            };
            for_closed(w5, entry, cond, after, again)
        },
        None => plain(e, w, e.s.span(i), open),
    }
}

#[via_fn]
proof fn for_lowered_decreases(e: Env, w: JsWalk, i: int, open: Seq<usize>) {
    broadcast use lemma_kid;

}

/// The symbols bound in a span, among the first `k` bindings, nested
/// functions included.
pub open spec fn all_bound_keys(f: Facts, span: Span, k: int) -> Seq<KeyView>
    decreases k,
{
    if k <= 0 || k > f.bindings.len() {
        Seq::empty()
    } else {
        let rest = all_bound_keys(f, span, k - 1);
        let (s, sym) = f.bindings[k - 1];
        if within(s, span) {
            rest.push(KeyView::Sym(sym))
        } else {
            rest
        }
    }
}

/// The keys written in a span, among the first `k` references, nested
/// functions included.
pub open spec fn all_written_keys(f: Facts, span: Span, k: int) -> Seq<KeyView>
    decreases k,
{
    if k <= 0 || k > f.refs.len() {
        Seq::empty()
    } else {
        let rest = all_written_keys(f, span, k - 1);
        let r = f.refs[k - 1];
        if within(r.span, span) && r.write {
            rest.push(r.key)
        } else {
            rest
        }
    }
}

/// The head of a for-each loop: it defines the loop's bindings and reads the
/// iterated expression.
pub open spec fn each_head_lowered(e: Env, w: JsWalk, left: Span, right: Span, open: Seq<usize>) -> (
    JsWalk,
    usize,
) {
    let (w1, d1) = vars_added(
        w,
        all_bound_keys(e.f, left, e.f.bindings.len() as int),
        0,
        Seq::empty(),
    );
    let (w2, defs) = vars_added(
        w1,
        all_written_keys(e.f, left, e.f.refs.len() as int),
        0,
        d1,
    );
    let (w3, uses, calls) = unit_uses(e, w2, right);
    let id = next_node(w3);
    let (w4, entry) = behind(
        pushed(
            w3,
            bare_node(
                line_of(e.s.src, left.start),
                KindView::Branch,
                defs,
                uses,
                "<for-each>"@,
            ),
        ),
        calls,
        id,
    );
    (link(w4, open, entry), id)
}

/// A `for`-`in` or `for`-`of`.
pub open spec fn each_lowered(e: Env, w: JsWalk, i: int, open: Seq<usize>) -> (JsWalk, Seq<usize>)
    decreases size(e.s.t, i), 4int, 0int,
    via each_lowered_decreases
{
    match (e.s.kid(i, 0), e.s.kid(i, 1), e.s.kid(i, 2)) {
        (Some(left), Some(right), Some(body)) => {
            let (w1, head) = each_head_lowered(e, w, e.s.span(left), e.s.span(right), open);
            let (w2, exits) = stmt_lowered(e, loop_opened(w1, Some(head)), body, seq![head]);
            let (w3, l) = loop_closed(link(w2, exits, head));
            (w3, seq![head] + l.breaks)
        },
        _ => plain(e, w, e.s.span(i), open),
    }
}

#[via_fn]
proof fn each_lowered_decreases(e: Env, w: JsWalk, i: int, open: Seq<usize>) {
    broadcast use lemma_kid;

}

/// The label of a `break` or `continue`.
pub open spec fn jump_label(s: Source, i: int) -> Option<Seq<char>> {
    match s.kid_of(i, "LabelIdentifier"@) {
        Some(l) => Some(
            match s.name(l) {
                Some(n) => n,
                None => Seq::empty(),
            },
        ),
        None => None,
    }
}

/// The cases of a switch from the `k`-th child on: control comes to a case
/// from the discriminant and from the case before it.
pub open spec fn cases_lowered(
    e: Env,
    w: JsWalk,
    i: int,
    k: int,
    disc: usize,
    fall: Seq<usize>,
    default: bool,
) -> (JsWalk, Seq<usize>, bool)
    decreases size(e.s.t, i), 2int, e.s.kids(i).len() - k,
    via cases_lowered_decreases
{
    if k < 0 || k >= e.s.kids(i).len() {
        (w, fall, default)
    } else {
        let c = e.s.kids(i)[k];
        let has_test = e.s.part(c).test;
        let (w1, exits) = seq_lowered(
            e,
            w,
            c,
            if has_test {
                1
            } else {
                0
            },
            fall.push(disc),
        );
        cases_lowered(e, w1, i, k + 1, disc, exits, default || !has_test)
    }
}

#[via_fn]
proof fn cases_lowered_decreases(
    e: Env,
    w: JsWalk,
    i: int,
    k: int,
    disc: usize,
    fall: Seq<usize>,
    default: bool,
) {
    broadcast use lemma_kid;

}

/// A switch, with fallthrough. A `continue` inside it belongs to the loop
/// around it.
pub open spec fn switch_lowered(e: Env, w: JsWalk, i: int, open: Seq<usize>) -> (
    JsWalk,
    Seq<usize>,
)
    decreases size(e.s.t, i), 4int, 0int,
{
    match e.s.kid(i, 0) {
        Some(d) => {
            let (w1, _entry, disc) = unit_after(e, w, e.s.span(d), KindView::Branch, open);
            let (w2, fall, default) = cases_lowered(
                e,
                switch_opened(w1),
                i,
                1,
                disc,
                Seq::empty(),
                false,
            );
            let (w3, l) = loop_closed(w2);
            let exits = fall + l.breaks;
            (continues_taken(w3, l.continues, 0), if default {
                exits
            } else {
                exits.push(disc)
            })
        },
        None => plain(e, w, e.s.span(i), open),
    }
}

/// The variables of the keys from the `k`-th on, in order.
pub open spec fn vars_listed(w: JsWalk, keys: Seq<KeyView>, k: int, out: Seq<VarId>) -> (
    JsWalk,
    Seq<VarId>,
)
    decreases keys.len() - k,
{
    if k < 0 || k >= keys.len() {
        (w, out)
    } else {
        let (w1, v) = var(w, keys[k]);
        vars_listed(w1, keys, k + 1, out.push(v))
    }
}

/// The symbols that a handler's parameter binds.
pub open spec fn catch_keys(e: Env, i: int) -> Seq<KeyView> {
    match e.s.kid_of(i, "CatchParameter"@) {
        Some(p) => match e.s.kid(p, 0) {
            Some(pattern) => all_bound_keys(
                e.f,
                e.s.span(pattern),
                e.f.bindings.len() as int,
            ),
            None => Seq::empty(),
        },
        None => Seq::empty(),
    }
}

/// A handler: lowered behind a node of its own that nothing leads to.
pub open spec fn catch_lowered(e: Env, w: JsWalk, i: int) -> JsWalk
    decreases size(e.s.t, i), 3int, 0int,
    via catch_lowered_decreases
{
    let (w1, defs) = vars_listed(w, catch_keys(e, i), 0, Seq::empty());
    let id = next_node(w1);
    let w2 = pushed(
        w1,
        bare_node(
            line_of(e.s.src, e.s.span(i).start),
            KindView::Pure,
            defs,
            Seq::empty(),
            "<catch>"@,
        ),
    );
    match e.s.kid_of(i, "BlockStatement"@) {
        Some(body) => seq_lowered(e, w2, body, 0, seq![id]).0,
        None => w2,
    }
}

#[via_fn]
proof fn catch_lowered_decreases(e: Env, w: JsWalk, i: int) {
    broadcast use lemma_kid;

}

/// Whether a `try` ends with a `finally` block.
pub open spec fn finalizer(s: Source, i: int) -> Option<int> {
    match s.last_kid(i) {
        Some(c) => if s.kids(i).len() > 1 && s.is(c, "BlockStatement"@) {
            Some(c)
        } else {
            None
        },
        None => None,
    }
}

/// A `try`: its block, the handler beside it, then the `finally` block.
pub open spec fn try_lowered(e: Env, w: JsWalk, i: int, open: Seq<usize>) -> (JsWalk, Seq<usize>)
    decreases size(e.s.t, i), 4int, 0int,
    via try_lowered_decreases
{
    match e.s.kid(i, 0) {
        Some(block) => {
            let (w1, exits) = seq_lowered(e, w, block, 0, open);
            let w2 = match e.s.kid_of(i, "CatchClause"@) {
                Some(h) => catch_lowered(e, w1, h),
                None => w1,
            };
            match finalizer(e.s, i) {
                Some(f) => seq_lowered(e, w2, f, 0, exits),
                None => (w2, exits),
            }
        },
        None => plain(e, w, e.s.span(i), open),
    }
}

#[via_fn]
proof fn try_lowered_decreases(e: Env, w: JsWalk, i: int, open: Seq<usize>) {
    broadcast use lemma_kid;

}

/// Whether a statement is a loop.
pub open spec fn is_loop(s: Source, i: int) -> bool {
    s.is(i, "WhileStatement"@) || s.is(i, "DoWhileStatement"@) || s.is(i, "ForStatement"@) || s.is(
        i,
        "ForInStatement"@,
    ) || s.is(i, "ForOfStatement"@)
}

/// A labelled statement: a loop takes the label along.
pub open spec fn labeled_lowered(e: Env, w: JsWalk, i: int, open: Seq<usize>) -> (
    JsWalk,
    Seq<usize>,
)
    decreases size(e.s.t, i), 4int, 0int,
    via labeled_lowered_decreases
{
    match e.s.kid(i, 1) {
        Some(body) => {
            let w1 = if is_loop(e.s, body) {
                JsWalk {
                    pending: Some(
                        match jump_label(e.s, i) {
                            Some(l) => l,
                            None => Seq::empty(),
                        },
                    ),
                    ..w
                }
            } else {
                w
            };
            stmt_lowered(e, w1, body, open)
        },
        None => plain(e, w, e.s.span(i), open),
    }
}

#[via_fn]
proof fn labeled_lowered_decreases(e: Env, w: JsWalk, i: int, open: Seq<usize>) {
    broadcast use lemma_kid;

}

/// The symbol that a declaration binds.
pub open spec fn declared_keys(s: Source, i: int) -> Seq<KeyView> {
    match s.kid_of(i, "BindingIdentifier"@) {
        Some(id) => match s.binding(id) {
            Some(sym) => seq![KeyView::Sym(sym)],
            None => Seq::empty(),
        },
        None => Seq::empty(),
    }
}

/// A function or class declaration: a node that defines its name. A function
/// reads what it captures.
pub open spec fn declaration_lowered(e: Env, w: JsWalk, i: int, function: bool, open: Seq<usize>) -> (
    JsWalk,
    Seq<usize>,
) {
    let (w1, defs) = vars_listed(w, declared_keys(e.s, i), 0, Seq::empty());
    let (w2, uses) = if function {
        vars_added(w1, captures(e.f, e.s.span(i)), 0, Seq::empty())
    } else {
        (w1, Seq::empty())
    };
    let id = next_node(w2);
    let w3 = pushed(
        w2,
        bare_node(
            line_of(e.s.src, e.s.span(i).start),
            KindView::Pure,
            defs,
            uses,
            if function {
                "<fndecl>"@
            } else {
                "<classdecl>"@
            },
        ),
    );
    (link(w3, open, id), seq![id])
}

/// A `break` or `continue`: a node that control does not leave in order.
pub open spec fn jump_lowered(e: Env, w: JsWalk, i: int, is_break: bool, open: Seq<usize>) -> JsWalk {
    let (w1, id) = mark(
        e,
        w,
        e.s.span(i).start,
        KindView::Pure,
        if is_break {
            "break"@
        } else {
            "continue"@
        },
    );
    let w2 = link(w1, open, id);
    if is_break {
        break_taken(w2, jump_label(e.s, i), id)
    } else {
        continue_taken(w2, jump_label(e.s, i), id)
    }
}

/// One statement. Control leaves it from the returned nodes.
pub open spec fn stmt_lowered(e: Env, w: JsWalk, i: int, open: Seq<usize>) -> (JsWalk, Seq<usize>)
    decreases size(e.s.t, i), 5int, 0int,
{
    let s = e.s;
    if s.is(i, "BlockStatement"@) {
        seq_lowered(e, w, i, 0, open)
    } else if s.is(i, "EmptyStatement"@) || s.is(i, "DebuggerStatement"@) {
        (w, open)
    } else if s.is(i, "VariableDeclaration"@) {
        declarators_lowered(e, w, i, 0, open)
    } else if s.is(i, "ExpressionStatement"@) {
        expression_lowered(e, w, i, open)
    } else if s.is(i, "ReturnStatement"@) {
        (unit_after(e, w, s.span(i), KindView::Return, open).0, Seq::empty())
    } else if s.is(i, "ThrowStatement"@) {
        (unit_after(e, w, s.span(i), KindView::Throw, open).0, Seq::empty())
    } else if s.is(i, "IfStatement"@) {
        if_lowered(e, w, i, open)
    } else if s.is(i, "WhileStatement"@) {
        while_lowered(e, w, i, open)
    } else if s.is(i, "DoWhileStatement"@) {
        do_lowered(e, w, i, open)
    } else if s.is(i, "ForStatement"@) {
        for_lowered(e, w, i, open)
    } else if s.is(i, "ForInStatement"@) || s.is(i, "ForOfStatement"@) {
        each_lowered(e, w, i, open)
    } else if s.is(i, "BreakStatement"@) {
        (jump_lowered(e, w, i, true, open), Seq::empty())
    } else if s.is(i, "ContinueStatement"@) {
        (jump_lowered(e, w, i, false, open), Seq::empty())
    } else if s.is(i, "SwitchStatement"@) {
        switch_lowered(e, w, i, open)
    } else if s.is(i, "TryStatement"@) {
        try_lowered(e, w, i, open)
    } else if s.is(i, "LabeledStatement"@) {
        labeled_lowered(e, w, i, open)
    } else if s.is(i, "Function"@) {
        declaration_lowered(e, w, i, true, open)
    } else if s.is(i, "Class"@) {
        declaration_lowered(e, w, i, false, open)
    } else {
        plain(e, w, s.span(i), open)
    }
}

/// A function with its nodes.
pub open spec fn function_view(file: Seq<char>, name: Seq<char>, line: u32, w: JsWalk) -> FunctionView {
    FunctionView {
        id: IdView { file, name, signature: Seq::empty(), decl_line: Some(line) },
        nodes: w.nodes,
        entry: 0,
    }
}

/// One function lowered: a body that is no block is what it returns.
pub open spec fn function_lowered(e: Env, file: Seq<char>, f: FnView) -> FunctionView {
    let w = params_lowered(fresh(), f.params, f.line);
    let w1 = if f.block {
        seq_lowered(e, w, f.body, 0, seq![0usize]).0
    } else {
        unit_after(e, w, e.s.span(f.body), KindView::Return, seq![0usize]).0
    };
    function_view(file, f.name, f.line, w1)
}

/// The functions from the `k`-th on, lowered in order.
pub open spec fn functions_lowered(e: Env, file: Seq<char>, k: int) -> Seq<FunctionView>
    decreases k,
{
    if k <= 0 || k > e.f.functions.len() {
        Seq::empty()
    } else {
        functions_lowered(e, file, k - 1).push(function_lowered(e, file, e.f.functions[k - 1]))
    }
}

/// A whole source: the top-level code as `<module>`, then every function in
/// document order.
pub open spec fn module_lowered(s: Source, file: Seq<char>) -> Seq<FunctionView> {
    let e = Env { s, f: facts_of(s) };
    let w = params_lowered(fresh(), Seq::empty(), 1);
    let top = seq_lowered(e, w, 0, 0, seq![0usize]).0;
    seq![function_view(file, "<module>"@, 1, top)] + functions_lowered(
        e,
        file,
        e.f.functions.len() as int,
    )
}

} // verus!
