//! What a lifted body has to do with the bytecode it was lifted from, whatever
//! order the lifting worked in.

use vstd::prelude::*;

use crate::ascending::listing_is_unique;
use crate::ir::NodeView;
use crate::jvm::code::{
    ArrayView, CodeView, ExprView, FieldView, Ident, InsnView, MethodView, OpView,
};
use crate::jvm::lower::{index_of, least_line, method_lowered, targets};
use crate::jvm::smap::SourceMapView;
use crate::jvm::stack::{
    acts_as, caught_by, fall, is_subroutine_call, leads, raises, takes, RawBodyView, RawView,
};

verus! {

/// A lifted body as plain values.
#[verifier::ext_equal]
pub struct LiftedView {
    /// The method's name.
    pub name: Seq<char>,
    /// The method's parameter types and return type, as text.
    pub descriptor: Seq<char>,
    pub pcs: Seq<u16>,
    pub insns: Map<u16, InsnView>,
    pub edges: Seq<(u16, u16, bool)>,
}

/// The instructions of a lifted body in the order of their program counters,
/// and its edges.
pub open spec fn listed(b: LiftedView) -> CodeView {
    CodeView { insns: Seq::new(b.pcs.len(), |i: int| b.insns[b.pcs[i]]), edges: b.edges }
}

/// Whether an instruction is lifted to an operation: its opcode decides which,
/// and a call, a closure or a write of a field names what the bytecode names.
pub open spec fn op_matches(r: RawView, op: OpView) -> bool {
    let code = acts_as(r);
    if 1 <= code <= 20 {
        op == OpView::Definition(ExprView::Const)
    } else if 46 <= code <= 53 {
        op == OpView::Definition(ExprView::Array(ArrayView::Read))
    } else if 79 <= code <= 86 {
        op matches OpView::Definition(ExprView::Array(ArrayView::Write { .. }))
    } else if 96 <= code <= 132 || 148 <= code <= 152 {
        op == OpView::Definition(ExprView::Math)
    } else if 133 <= code <= 147 || code == 192 || code == 193 {
        op == OpView::Definition(ExprView::Conversion)
    } else if 153 <= code <= 166 || code == 198 || code == 199 {
        op == OpView::Jump { conditional: true }
    } else if code == 167 || code == 200 {
        op == OpView::Jump { conditional: false }
    } else if is_subroutine_call(code) {
        op == OpView::Definition(ExprView::Subroutine)
    } else if code == 169 {
        op == OpView::SubroutineRet
    } else if code == 170 || code == 171 {
        op == OpView::Switch
    } else if 172 <= code <= 177 {
        op == OpView::Return
    } else if code == 178 {
        op == OpView::Definition(ExprView::Field(FieldView::ReadStatic))
    } else if code == 179 {
        op matches OpView::Definition(ExprView::Field(FieldView::WriteStatic { owner, name }))
            && r.member == Some((owner, name))
    } else if code == 180 {
        op == OpView::Definition(ExprView::Field(FieldView::ReadInstance))
    } else if code == 181 {
        op matches OpView::Definition(
            ExprView::Field(FieldView::WriteInstance { owner, name, .. }),
        ) && r.member == Some((owner, name))
    } else if 182 <= code <= 185 {
        op matches OpView::Definition(ExprView::Call { owner, name }) && r.member == Some(
            (owner, name),
        )
    } else if code == 186 {
        op matches OpView::Definition(ExprView::Closure { name }) && r.closure == Some(name)
    } else if code == 187 {
        op == OpView::Definition(ExprView::New)
    } else if code == 188 || code == 189 {
        op == OpView::Definition(ExprView::Array(ArrayView::New))
    } else if code == 190 {
        op == OpView::Definition(ExprView::Array(ArrayView::Length))
    } else if code == 191 {
        op == OpView::Definition(ExprView::Throw)
    } else if code == 194 || code == 195 {
        op == OpView::Definition(ExprView::Synchronization)
    } else if code == 197 {
        op == OpView::Definition(ExprView::Array(ArrayView::NewMultiDim))
    } else {
        op == OpView::Nop
    }
}

/// Whether an instruction that is not lifted to nothing reads a value: it takes
/// one off the stack, or reads a local variable itself.
pub open spec fn reads(r: RawView) -> bool {
    ||| acts_as(r) == 132
    ||| acts_as(r) == 169
    ||| exists|j: int| 0 <= j < takes(r).len() && #[trigger] takes(r)[j] > 0
}

/// Whether a value comes from somewhere: a local one from a definition of the
/// body, a caught exception from a handler of it.
pub open spec fn is_value(raw: RawBodyView, b: LiftedView, u: Ident) -> bool {
    match u {
        Ident::This => true,
        Ident::Arg(_) => true,
        Ident::Local(d) => b.pcs.contains(d) && b.insns[d].op is Definition,
        Ident::CaughtException(h) => b.pcs.contains(h) && exists|pc: u16| #[trigger]
            b.pcs.contains(pc) && caught_by(raw, pc, h),
    }
}

/// Whether the values through which an array or a field is written are among
/// those that the instruction uses.
pub open spec fn writes_through(n: InsnView) -> bool {
    match n.op {
        OpView::Definition(ExprView::Field(FieldView::WriteInstance { object, .. })) => are_used(
            n,
            object,
        ),
        OpView::Definition(ExprView::Array(ArrayView::Write { array, index })) => are_used(
            n,
            array,
        ) && are_used(n, index),
        _ => true,
    }
}

/// Whether there is a value, and all are used.
pub open spec fn are_used(n: InsnView, values: Seq<Ident>) -> bool {
    values.len() > 0 && forall|j: int|
        0 <= j < values.len() ==> n.uses.contains(#[trigger] values[j])
}

/// Whether the `i`-th instruction of the bytecode is lifted to the instruction
/// of the body at its program counter. What that defines is numbered by the
/// program counter.
pub open spec fn insn_matches(raw: RawBodyView, b: LiftedView, i: int) -> bool {
    let r = raw.insns[i];
    let n = b.insns[r.pc];
    &&& n.pc == r.pc
    &&& op_matches(r, n.op)
    &&& n.def == (if n.op is Definition {
        Some(r.pc)
    } else {
        None
    })
    &&& n.uses == Set::<Ident>::empty() <==> n.op is Nop || !reads(r)
    &&& forall|u: Ident| #[trigger] n.uses.contains(u) ==> is_value(raw, b, u)
    &&& writes_through(n)
}

/// Whether control passes from one program counter to another, by an exception
/// or not.
pub open spec fn has_edge(b: LiftedView, s: u16, t: u16) -> bool {
    b.edges.contains((s, t, false)) || b.edges.contains((s, t, true))
}

/// Whether control passes from the `j`-th program counter of a list to the next.
pub open spec fn goes_on(b: LiftedView, p: Seq<u16>, j: int) -> bool {
    has_edge(b, p[j], p[j + 1])
}

/// Whether a list of program counters is a path through the body from its
/// first.
pub open spec fn is_path(b: LiftedView, p: Seq<u16>) -> bool {
    &&& p.len() > 0
    &&& p[0] == b.pcs[0]
    &&& forall|j: int| 0 <= j < p.len() - 1 ==> #[trigger] goes_on(b, p, j)
}

/// Whether a path leads to a program counter.
pub open spec fn is_reached(b: LiftedView, pc: u16) -> bool {
    exists|p: Seq<u16>| #[trigger] is_path(b, p) && p.last() == pc
}

/// Whether an instruction stands in the bytecode at a program counter.
pub open spec fn stands_at(raw: RawBodyView, i: int, pc: u16) -> bool {
    0 <= i < raw.insns.len() && raw.insns[i].pc == pc
}

/// Whether the body has the first instruction of the bytecode, and those that
/// control reaches from there, in order.
pub open spec fn counters_match(raw: RawBodyView, b: LiftedView) -> bool {
    &&& raw.insns.len() > 0
    &&& b.pcs.len() > 0
    &&& b.pcs[0] == raw.insns[0].pc
    &&& forall|i: int, j: int|
        0 <= i < j < b.pcs.len() ==> (#[trigger] b.pcs[i]) < (#[trigger] b.pcs[j])
    &&& forall|pc: u16| #[trigger]
        b.pcs.contains(pc) ==> is_reached(b, pc) && exists|i: int| #[trigger]
            stands_at(raw, i, pc)
}

/// Whether a subroutine that the body calls returns to a program counter.
pub open spec fn returns_to(raw: RawBodyView, b: LiftedView, t: u16) -> bool {
    exists|k: int|
        0 <= k < raw.insns.len() && b.pcs.contains((#[trigger] raw.insns[k]).pc)
            && is_subroutine_call(acts_as(raw.insns[k])) && fall(raw, k).contains(t)
}

/// Whether control goes on behind an instruction to the one behind it, or
/// returns there.
pub open spec fn falls(code: u8) -> bool {
    !(code == 167 || code == 200 || 169 <= code <= 177 || code == 191)
}

/// Whether control passes from the `i`-th instruction where the bytecode leads
/// it: to what it jumps to or falls through to, back from a subroutine to
/// behind a call of one, and by an exception to the handlers that catch it. A
/// handler that is also led to otherwise is not marked.
pub open spec fn edges_match(raw: RawBodyView, b: LiftedView, i: int) -> bool {
    let pc = raw.insns[i].pc;
    let code = acts_as(raw.insns[i]);
    &&& falls(code) ==> i + 1 < raw.insns.len()
    &&& code != 169 ==> forall|t: u16| #[trigger]
        b.edges.contains((pc, t, false)) <==> leads(raw, i).contains(t)
    &&& code == 169 ==> forall|t: u16| #[trigger]
        b.edges.contains((pc, t, false)) ==> returns_to(raw, b, t)
    &&& forall|t: u16| #[trigger]
        b.edges.contains((pc, t, true)) <==> raises(code) && caught_by(raw, pc, t) && !leads(
            raw,
            i,
        ).contains(t)
}

/// Whether one edge comes before another: by where it starts, then by where it
/// leads.
pub open spec fn edge_before(a: (u16, u16, bool), b: (u16, u16, bool)) -> bool {
    a.0 < b.0 || (a.0 == b.0 && a.1 < b.1)
}

/// Whether a body is one that bytecode is lifted to.
pub open spec fn body_matches(raw: RawBodyView, b: LiftedView) -> bool {
    &&& counters_match(raw, b)
    &&& forall|i: int|
        0 <= i < raw.insns.len() && b.pcs.contains((#[trigger] raw.insns[i]).pc) ==> insn_matches(
            raw,
            b,
            i,
        ) && edges_match(raw, b, i)
    &&& forall|i: int, j: int|
        0 <= i < j < b.edges.len() ==> edge_before(#[trigger] b.edges[i], #[trigger] b.edges[j])
    &&& forall|i: int|
        0 <= i < b.edges.len() ==> b.pcs.contains((#[trigger] b.edges[i]).0) && b.pcs.contains(
            b.edges[i].1,
        )
}

/// Whether two operations are the same but for the values through which they
/// write.
pub open spec fn same_operation(x: OpView, y: OpView) -> bool {
    match (x, y) {
        (
            OpView::Definition(ExprView::Array(ArrayView::Write { .. })),
            OpView::Definition(ExprView::Array(ArrayView::Write { .. })),
        ) => true,
        (
            OpView::Definition(
                ExprView::Field(FieldView::WriteInstance { owner, name, .. }),
            ),
            OpView::Definition(
                ExprView::Field(FieldView::WriteInstance { owner: o, name: n, .. }),
            ),
        ) => owner == o && name == n,
        _ => x == y,
    }
}

proof fn lemma_path_in_both(raw: RawBodyView, a: LiftedView, b: LiftedView, p: Seq<u16>, j: int)
    requires
        body_matches(raw, a),
        body_matches(raw, b),
        forall|k: int| 0 <= k < raw.insns.len() ==> acts_as(#[trigger] raw.insns[k]) != 169,
        is_path(a, p),
        0 <= j < p.len(),
    ensures
        b.pcs.contains(p[j]),
    decreases j,
{
    if j == 0 {
        assert(b.pcs[0] == p[0]);
    } else {
        lemma_path_in_both(raw, a, b, p, j - 1);
        let s = p[j - 1];
        let t = p[j];
        assert(goes_on(a, p, j - 1));
        let e = if a.edges.contains((s, t, false)) {
            (s, t, false)
        } else {
            (s, t, true)
        };
        lemma_same_edge(raw, a, b, e);
        let n = choose|n: int| 0 <= n < b.edges.len() && b.edges[n] == e;
        assert(b.pcs.contains(b.edges[n].1));
    }
}

proof fn lemma_same_edge(raw: RawBodyView, a: LiftedView, b: LiftedView, e: (u16, u16, bool))
    requires
        body_matches(raw, a),
        body_matches(raw, b),
        forall|k: int| 0 <= k < raw.insns.len() ==> acts_as(#[trigger] raw.insns[k]) != 169,
        b.pcs.contains(e.0),
        a.edges.contains(e),
    ensures
        b.edges.contains(e),
{
    let (s, t, exceptional) = e;
    let n = choose|n: int| 0 <= n < a.edges.len() && a.edges[n] == e;
    assert(a.pcs.contains(a.edges[n].0));
    let i = choose|i: int| #[trigger] stands_at(raw, i, s);
    assert(raw.insns[i].pc == s);
    assert(edges_match(raw, a, i));
    assert(edges_match(raw, b, i));
    if exceptional {
        assert(a.edges.contains((s, t, true)));
        assert(b.edges.contains((s, t, true)));
    } else {
        assert(a.edges.contains((s, t, false)));
        assert(b.edges.contains((s, t, false)));
    }
}

/// Whatever order the lifting works in, all bodies that a method without
/// returns from subroutines can be lifted to have the same instructions at the
/// same program counters and the same edges. Only the values that instructions
/// use, and their text, can differ.
pub proof fn liftings_agree(raw: RawBodyView, a: LiftedView, b: LiftedView)
    requires
        body_matches(raw, a),
        body_matches(raw, b),
        forall|k: int| 0 <= k < raw.insns.len() ==> acts_as(#[trigger] raw.insns[k]) != 169,
    ensures
        a.pcs == b.pcs,
        a.edges == b.edges,
        forall|pc: u16| #[trigger]
            a.pcs.contains(pc) ==> same_operation(a.insns[pc].op, b.insns[pc].op)
                && a.insns[pc].def == b.insns[pc].def && (a.insns[pc].uses == Set::<Ident>::empty()
                <==> b.insns[pc].uses == Set::<Ident>::empty()),
{
    assert forall|pc: u16| #[trigger] a.pcs.contains(pc) == b.pcs.contains(pc) by {
        if a.pcs.contains(pc) {
            let p = choose|p: Seq<u16>| #[trigger] is_path(a, p) && p.last() == pc;
            lemma_path_in_both(raw, a, b, p, p.len() - 1);
        }
        if b.pcs.contains(pc) {
            let p = choose|p: Seq<u16>| #[trigger] is_path(b, p) && p.last() == pc;
            lemma_path_in_both(raw, b, a, p, p.len() - 1);
        }
    }
    listing_is_unique(a.pcs, b.pcs, |pc: u16| pc as int);
    assert forall|e: (u16, u16, bool)| #[trigger] a.edges.contains(e) == b.edges.contains(e) by {
        if a.edges.contains(e) {
            let n = choose|n: int| 0 <= n < a.edges.len() && a.edges[n] == e;
            assert(a.pcs.contains(a.edges[n].0));
            lemma_same_edge(raw, a, b, e);
        }
        if b.edges.contains(e) {
            let n = choose|n: int| 0 <= n < b.edges.len() && b.edges[n] == e;
            assert(b.pcs.contains(b.edges[n].0));
            lemma_same_edge(raw, b, a, e);
        }
    }
    listing_is_unique(a.edges, b.edges, |e: (u16, u16, bool)| e.0 * 0x1_0000 + e.1);
    assert forall|pc: u16| #[trigger] a.pcs.contains(pc) implies same_operation(
        a.insns[pc].op,
        b.insns[pc].op,
    ) && a.insns[pc].def == b.insns[pc].def && (a.insns[pc].uses == Set::<Ident>::empty()
        <==> b.insns[pc].uses == Set::<Ident>::empty()) by {
        let i = choose|i: int| #[trigger] stands_at(raw, i, pc);
        assert(insn_matches(raw, a, i));
        assert(insn_matches(raw, b, i));
    }
}

/// Whether two lists of instructions stand at the same program counters.
spec fn same_counters(x: Seq<InsnView>, y: Seq<InsnView>) -> bool {
    x.len() == y.len() && forall|i: int| 0 <= i < x.len() ==> (#[trigger] x[i]).pc == y[i].pc
}

proof fn lemma_same_index(x: Seq<InsnView>, y: Seq<InsnView>, pc: u16, k: int)
    requires
        same_counters(x, y),
    ensures
        index_of(x, pc, k) == index_of(y, pc, k),
    decreases k,
{
    if 0 < k <= x.len() {
        assert(x[k - 1].pc == y[k - 1].pc);
        lemma_same_index(x, y, pc, k - 1);
    }
}

proof fn lemma_same_targets(x: CodeView, y: CodeView, i: usize, k: int)
    requires
        same_counters(x.insns, y.insns),
        x.edges == y.edges,
    ensures
        targets(x, i, k) == targets(y, i, k),
    decreases k,
{
    if 0 < k <= x.edges.len() {
        lemma_same_targets(x, y, i, k - 1);
        let (s, t, exceptional) = x.edges[k - 1];
        lemma_same_index(x.insns, y.insns, s, x.insns.len() as int);
        lemma_same_index(x.insns, y.insns, t, x.insns.len() as int);
    }
}

proof fn lemma_same_least(x: Seq<NodeView>, y: Seq<NodeView>, k: int)
    requires
        x.len() == y.len(),
        forall|i: int| 0 <= i < x.len() ==> (#[trigger] x[i]).line == y[i].line,
    ensures
        least_line(x, k) == least_line(y, k),
    decreases k,
{
    if 0 < k <= x.len() {
        lemma_same_least(x, y, k - 1);
        assert(x[k - 1].line == y[k - 1].line);
    }
}

/// Whatever order the lifting works in, all functions that a method without
/// returns from subroutines can be lowered to agree in their identity and in
/// the line, the kind, the definitions and the successors of every node.
pub proof fn lowerings_agree(
    raw: RawBodyView,
    a: LiftedView,
    b: LiftedView,
    m: MethodView,
    file: Seq<char>,
    owner: Seq<char>,
    map: Option<SourceMapView>,
)
    requires
        body_matches(raw, a),
        body_matches(raw, b),
        forall|k: int| 0 <= k < raw.insns.len() ==> acts_as(#[trigger] raw.insns[k]) != 169,
    ensures
        ({
            let f = method_lowered(m, listed(a), file, owner, map);
            let g = method_lowered(m, listed(b), file, owner, map);
            &&& f.id == g.id
            &&& f.entry == g.entry
            &&& f.nodes.len() == g.nodes.len()
            &&& forall|i: int|
                0 <= i < f.nodes.len() ==> (#[trigger] f.nodes[i]).line == g.nodes[i].line
                    && f.nodes[i].kind == g.nodes[i].kind && f.nodes[i].defs == g.nodes[i].defs
                    && f.nodes[i].succs == g.nodes[i].succs
        }),
{
    liftings_agree(raw, a, b);
    let x = listed(a);
    let y = listed(b);
    assert forall|i: int| 0 <= i < x.insns.len() implies (#[trigger] x.insns[i]).pc
        == y.insns[i].pc && x.insns[i].def == y.insns[i].def && same_operation(
        x.insns[i].op,
        y.insns[i].op,
    ) by {
        let pc = a.pcs[i];
        assert(a.pcs.contains(pc));
        assert(b.pcs.contains(pc));
        let k = choose|k: int| #[trigger] stands_at(raw, k, pc);
        assert(insn_matches(raw, a, k));
        assert(insn_matches(raw, b, k));
    }
    let f = method_lowered(m, x, file, owner, map);
    let g = method_lowered(m, y, file, owner, map);
    assert forall|i: int| 0 <= i < f.nodes.len() implies (#[trigger] f.nodes[i]).line
        == g.nodes[i].line && f.nodes[i].kind == g.nodes[i].kind && f.nodes[i].defs
        == g.nodes[i].defs && f.nodes[i].succs == g.nodes[i].succs by {
        assert(x.insns[i].pc == y.insns[i].pc);
        lemma_same_targets(x, y, i as usize, x.edges.len() as int);
    }
    lemma_same_least(f.nodes, g.nodes, f.nodes.len() as int);
}

} // verus!
