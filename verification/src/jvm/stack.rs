//! Bytecode as plain values, and its operand stacks: whether every path to an
//! instruction leaves the same shape of stack there, as lifting a body needs.

use vstd::prelude::*;

use vstd::set_lib::{lemma_int_range, lemma_len_subset, set_int_range};

use crate::js::source::opt_text;

verus! {

/// How wide a value of a type is on the operand stack.
#[derive(Debug, Clone, Copy, PartialEq, Eq, Structural)]
pub enum TypeShape {
    Long,
    Double,
    Other,
}

/// Which instruction a `wide` prefix stands before.
#[derive(Debug, Clone, Copy, PartialEq, Eq, Structural)]
pub enum WideShape {
    ILoad,
    LLoad,
    FLoad,
    DLoad,
    ALoad,
    IStore,
    LStore,
    FStore,
    DStore,
    AStore,
    IInc,
    Ret,
}

/// Where an exception is caught: while an instruction from `start` up to `end`
/// runs, by the handler at `pc`.
#[derive(Debug, Clone, Copy, PartialEq, Eq, Structural)]
pub struct Handler {
    pub start: u16,
    pub end: u16,
    pub pc: u16,
}

/// One bytecode instruction: what it does to the stack, what it names, and
/// where it leads.
#[derive(Debug, Clone)]
pub struct RawInsn {
    /// Its program counter.
    pub pc: u16,
    pub opcode: u8,
    /// The instruction behind a `wide` prefix.
    pub wide: Option<WideShape>,
    /// The parameter types of the method it calls.
    pub params: Vec<TypeShape>,
    /// The owner and the name of the method it calls or the field it accesses.
    pub member: Option<(String, String)>,
    /// The name of the closure it makes.
    pub closure: Option<String>,
    /// The type of the field it accesses.
    pub field: Option<TypeShape>,
    /// The type that the method it calls returns.
    pub returned: Option<TypeShape>,
    /// How many dimensions the array it allocates has.
    pub dims: Option<u8>,
    /// Where it jumps.
    pub jump: Option<u16>,
    /// Where the cases of a switch lead.
    pub cases: Vec<u16>,
}

/// A method's bytecode: its instructions in the order of their program
/// counters, and its exception handlers.
#[derive(Debug, Clone)]
pub struct RawBody {
    pub insns: Vec<RawInsn>,
    pub handlers: Vec<Handler>,
}

#[verifier::ext_equal]
pub struct RawView {
    pub pc: u16,
    pub opcode: u8,
    pub wide: Option<WideShape>,
    pub params: Seq<TypeShape>,
    pub member: Option<(Seq<char>, Seq<char>)>,
    pub closure: Option<Seq<char>>,
    pub field: Option<TypeShape>,
    pub returned: Option<TypeShape>,
    pub dims: Option<u8>,
    pub jump: Option<u16>,
    pub cases: Seq<u16>,
}

#[verifier::ext_equal]
pub struct RawBodyView {
    pub insns: Seq<RawView>,
    pub handlers: Seq<Handler>,
}

/// An owner and a name as text.
pub open spec fn member_text(m: Option<(String, String)>) -> Option<(Seq<char>, Seq<char>)> {
    match m {
        Some(p) => Some((p.0@, p.1@)),
        None => None,
    }
}

impl View for RawInsn {
    type V = RawView;

    open spec fn view(&self) -> RawView {
        RawView {
            pc: self.pc,
            opcode: self.opcode,
            wide: self.wide,
            params: self.params@,
            member: member_text(self.member),
            closure: opt_text(self.closure),
            field: self.field,
            returned: self.returned,
            dims: self.dims,
            jump: self.jump,
            cases: self.cases@,
        }
    }
}

impl View for RawBody {
    type V = RawBodyView;

    open spec fn view(&self) -> RawBodyView {
        RawBodyView {
            insns: self.insns@.map_values(|i: RawInsn| i@),
            handlers: self.handlers@,
        }
    }
}

/// What an instruction of a fixed shape takes off the stack, in slots, and what
/// it puts there; a zero takes or puts nothing.
#[derive(Debug, Clone, Copy, PartialEq, Eq, Structural)]
pub struct Effect {
    pub first: u8,
    pub second: u8,
    pub third: u8,
    pub put: u8,
}

/// The effect of an opcode whose effect is fixed.
pub open spec fn effect_of(op: u8) -> Effect {
    if (1 <= op && op <= 8) || (11 <= op && op <= 13) || (16 <= op && op <= 19) || op == 21
        || op == 23 || (25 <= op && op <= 29) || (34 <= op && op <= 37)
        || (42 <= op && op <= 45) || op == 168 || op == 187 || op == 201 {
        Effect { first: 0, second: 0, third: 0, put: 1 }
    } else if (9 <= op && op <= 10) || (14 <= op && op <= 15) || op == 20 || op == 22
        || op == 24 || (30 <= op && op <= 33) || (38 <= op && op <= 41) {
        Effect { first: 0, second: 0, third: 0, put: 2 }
    } else if op == 46 || op == 48 || (50 <= op && op <= 53) || op == 96 || op == 98
        || op == 100 || op == 102 || op == 104 || op == 106 || op == 108 || op == 110
        || op == 112 || op == 114 || op == 120 || op == 122 || op == 124 || op == 126
        || op == 128 || op == 130 || (149 <= op && op <= 150) {
        Effect { first: 1, second: 1, third: 0, put: 1 }
    } else if op == 47 || op == 49 {
        Effect { first: 1, second: 1, third: 0, put: 2 }
    } else if op == 54 || op == 56 || (58 <= op && op <= 62) || (67 <= op && op <= 70)
        || (75 <= op && op <= 78) || (153 <= op && op <= 158) || (170 <= op && op <= 172)
        || op == 174 || op == 176 || op == 191 || (194 <= op && op <= 195)
        || (198 <= op && op <= 199) {
        Effect { first: 1, second: 0, third: 0, put: 0 }
    } else if op == 55 || op == 57 || (63 <= op && op <= 66) || (71 <= op && op <= 74)
        || op == 173 || op == 175 {
        Effect { first: 2, second: 0, third: 0, put: 0 }
    } else if op == 79 || op == 81 || (83 <= op && op <= 86) {
        Effect { first: 1, second: 1, third: 1, put: 0 }
    } else if op == 80 || op == 82 {
        Effect { first: 2, second: 1, third: 1, put: 0 }
    } else if op == 97 || op == 99 || op == 101 || op == 103 || op == 105 || op == 107
        || op == 109 || op == 111 || op == 113 || op == 115 || op == 127 || op == 129
        || op == 131 {
        Effect { first: 2, second: 2, third: 0, put: 2 }
    } else if op == 116 || op == 118 || op == 134 || op == 139 || (145 <= op && op <= 147)
        || (188 <= op && op <= 190) || (192 <= op && op <= 193) {
        Effect { first: 1, second: 0, third: 0, put: 1 }
    } else if op == 117 || op == 119 || op == 138 || op == 143 {
        Effect { first: 2, second: 0, third: 0, put: 2 }
    } else if op == 121 || op == 123 || op == 125 {
        Effect { first: 1, second: 2, third: 0, put: 2 }
    } else if op == 133 || op == 135 || (140 <= op && op <= 141) {
        Effect { first: 1, second: 0, third: 0, put: 2 }
    } else if (136 <= op && op <= 137) || op == 142 || op == 144 {
        Effect { first: 2, second: 0, third: 0, put: 1 }
    } else if op == 148 || (151 <= op && op <= 152) {
        Effect { first: 2, second: 2, third: 0, put: 1 }
    } else if 159 <= op && op <= 166 {
        Effect { first: 1, second: 1, third: 0, put: 0 }
    } else {
        Effect { first: 0, second: 0, third: 0, put: 0 }
    }
}

fn effect(op: u8) -> (r: Effect)
    ensures
        r == effect_of(op),
{
    if (1 <= op && op <= 8) || (11 <= op && op <= 13) || (16 <= op && op <= 19) || op == 21
        || op == 23 || (25 <= op && op <= 29) || (34 <= op && op <= 37)
        || (42 <= op && op <= 45) || op == 168 || op == 187 || op == 201 {
        Effect { first: 0, second: 0, third: 0, put: 1 }
    } else if (9 <= op && op <= 10) || (14 <= op && op <= 15) || op == 20 || op == 22
        || op == 24 || (30 <= op && op <= 33) || (38 <= op && op <= 41) {
        Effect { first: 0, second: 0, third: 0, put: 2 }
    } else if op == 46 || op == 48 || (50 <= op && op <= 53) || op == 96 || op == 98
        || op == 100 || op == 102 || op == 104 || op == 106 || op == 108 || op == 110
        || op == 112 || op == 114 || op == 120 || op == 122 || op == 124 || op == 126
        || op == 128 || op == 130 || (149 <= op && op <= 150) {
        Effect { first: 1, second: 1, third: 0, put: 1 }
    } else if op == 47 || op == 49 {
        Effect { first: 1, second: 1, third: 0, put: 2 }
    } else if op == 54 || op == 56 || (58 <= op && op <= 62) || (67 <= op && op <= 70)
        || (75 <= op && op <= 78) || (153 <= op && op <= 158) || (170 <= op && op <= 172)
        || op == 174 || op == 176 || op == 191 || (194 <= op && op <= 195)
        || (198 <= op && op <= 199) {
        Effect { first: 1, second: 0, third: 0, put: 0 }
    } else if op == 55 || op == 57 || (63 <= op && op <= 66) || (71 <= op && op <= 74)
        || op == 173 || op == 175 {
        Effect { first: 2, second: 0, third: 0, put: 0 }
    } else if op == 79 || op == 81 || (83 <= op && op <= 86) {
        Effect { first: 1, second: 1, third: 1, put: 0 }
    } else if op == 80 || op == 82 {
        Effect { first: 2, second: 1, third: 1, put: 0 }
    } else if op == 97 || op == 99 || op == 101 || op == 103 || op == 105 || op == 107
        || op == 109 || op == 111 || op == 113 || op == 115 || op == 127 || op == 129
        || op == 131 {
        Effect { first: 2, second: 2, third: 0, put: 2 }
    } else if op == 116 || op == 118 || op == 134 || op == 139 || (145 <= op && op <= 147)
        || (188 <= op && op <= 190) || (192 <= op && op <= 193) {
        Effect { first: 1, second: 0, third: 0, put: 1 }
    } else if op == 117 || op == 119 || op == 138 || op == 143 {
        Effect { first: 2, second: 0, third: 0, put: 2 }
    } else if op == 121 || op == 123 || op == 125 {
        Effect { first: 1, second: 2, third: 0, put: 2 }
    } else if op == 133 || op == 135 || (140 <= op && op <= 141) {
        Effect { first: 1, second: 0, third: 0, put: 2 }
    } else if (136 <= op && op <= 137) || op == 142 || op == 144 {
        Effect { first: 2, second: 0, third: 0, put: 1 }
    } else if op == 148 || (151 <= op && op <= 152) {
        Effect { first: 2, second: 2, third: 0, put: 1 }
    } else if 159 <= op && op <= 166 {
        Effect { first: 1, second: 1, third: 0, put: 0 }
    } else {
        Effect { first: 0, second: 0, third: 0, put: 0 }
    }
}

pub open spec fn wide_opcode(w: WideShape) -> u8 {
    match w {
        WideShape::ILoad => 21,
        WideShape::LLoad => 22,
        WideShape::FLoad => 23,
        WideShape::DLoad => 24,
        WideShape::ALoad => 25,
        WideShape::IStore => 54,
        WideShape::LStore => 55,
        WideShape::FStore => 56,
        WideShape::DStore => 57,
        WideShape::AStore => 58,
        WideShape::IInc => 132,
        WideShape::Ret => 169,
    }
}

fn opcode_of(w: WideShape) -> (r: u8)
    ensures
        r == wide_opcode(w),
{
    match w {
        WideShape::ILoad => 21,
        WideShape::LLoad => 22,
        WideShape::FLoad => 23,
        WideShape::DLoad => 24,
        WideShape::ALoad => 25,
        WideShape::IStore => 54,
        WideShape::LStore => 55,
        WideShape::FStore => 56,
        WideShape::DStore => 57,
        WideShape::AStore => 58,
        WideShape::IInc => 132,
        WideShape::Ret => 169,
    }
}

/// The opcode that decides what an instruction does: the one behind a `wide`
/// prefix, where there is one.
pub open spec fn acts_as(i: RawView) -> u8 {
    match i.wide {
        Some(w) => wide_opcode(w),
        None => i.opcode,
    }
}

/// How many slots a value of a type takes.
pub open spec fn width_of(t: TypeShape) -> u8 {
    match t {
        TypeShape::Long => 2,
        TypeShape::Double => 2,
        TypeShape::Other => 1,
    }
}

pub open spec fn opt_width(t: Option<TypeShape>) -> u8 {
    match t {
        Some(t) => width_of(t),
        None => 0,
    }
}

/// The widths of the arguments of a call, the last first.
pub open spec fn argument_widths(params: Seq<TypeShape>) -> Seq<u8> {
    Seq::new(params.len(), |k: int| width_of(params[params.len() - 1 - k]))
}

pub open spec fn dims_of(i: RawView) -> u8 {
    match i.dims {
        Some(d) => d,
        None => 0,
    }
}

/// The widths of the values that an instruction takes off the stack, in order.
pub open spec fn takes(i: RawView) -> Seq<u8> {
    let op = acts_as(i);
    if op == 179 {
        seq![opt_width(i.field)]
    } else if op == 180 {
        seq![1u8]
    } else if op == 181 {
        seq![opt_width(i.field), 1u8]
    } else if op == 182 || op == 183 || op == 185 {
        argument_widths(i.params).push(1u8)
    } else if op == 184 || op == 186 {
        argument_widths(i.params)
    } else if op == 197 {
        Seq::new(dims_of(i) as nat, |k: int| 1u8)
    } else {
        let e = effect_of(op);
        seq![e.first, e.second, e.third]
    }
}

/// The width of the value that an instruction puts on the stack.
pub open spec fn puts(i: RawView) -> u8 {
    let op = acts_as(i);
    if op == 178 || op == 180 {
        opt_width(i.field)
    } else if 182 <= op && op <= 186 {
        opt_width(i.returned)
    } else if op == 197 {
        1
    } else {
        effect_of(op).put
    }
}

/// A stack without a value of that many slots on top. A stack holds `true` for
/// a value and `false` for the slot below a wide one.
pub open spec fn without(s: Seq<bool>, w: u8) -> Option<Seq<bool>> {
    if w == 0 {
        Some(s)
    } else if w == 1 {
        if s.len() > 0 && s[s.len() - 1] {
            Some(s.take(s.len() - 1))
        } else {
            None
        }
    } else {
        if s.len() > 1 && s[s.len() - 1] && !s[s.len() - 2] {
            Some(s.take(s.len() - 2))
        } else {
            None
        }
    }
}

/// A stack without the first `k` of the values, if they are there.
pub open spec fn without_all(s: Seq<bool>, ws: Seq<u8>, k: int) -> Option<Seq<bool>>
    decreases k,
{
    if k <= 0 || k > ws.len() {
        Some(s)
    } else {
        match without_all(s, ws, k - 1) {
            Some(t) => without(t, ws[k - 1]),
            None => None,
        }
    }
}

/// A stack with a value of that many slots on top.
pub open spec fn topped(s: Seq<bool>, w: u8) -> Seq<bool> {
    if w == 0 {
        s
    } else if w == 1 {
        s.push(true)
    } else {
        s.push(false).push(true)
    }
}

/// How many slots an instruction that only moves slots looks at.
pub open spec fn reach_of(op: u8) -> nat {
    if op == 87 || op == 89 {
        1
    } else if op == 91 || op == 93 {
        3
    } else if op == 94 {
        4
    } else {
        2
    }
}

/// What it leaves in their place, from the bottom: slots, counted from the top.
pub open spec fn left_by(op: u8) -> Seq<int> {
    if op == 89 {
        seq![0, 0]
    } else if op == 90 {
        seq![0, 1, 0]
    } else if op == 91 {
        seq![0, 2, 1, 0]
    } else if op == 92 {
        seq![1, 0, 1, 0]
    } else if op == 93 {
        seq![1, 0, 2, 1, 0]
    } else if op == 94 {
        seq![1, 0, 3, 2, 1, 0]
    } else if op == 95 {
        seq![0, 1]
    } else {
        Seq::empty()
    }
}

/// The stack behind an instruction that only moves slots.
pub open spec fn moved(s: Seq<bool>, op: u8) -> Option<Seq<bool>> {
    let n = s.len();
    if n < reach_of(op) {
        None
    } else {
        Some(s.take(n - reach_of(op)) + left_by(op).map_values(|k: int| s[n - 1 - k]))
    }
}

/// The stack behind an instruction, if the one before it lets it run.
pub open spec fn step(i: RawView, s: Seq<bool>) -> Option<Seq<bool>> {
    let op = acts_as(i);
    if 87 <= op && op <= 95 {
        moved(s, op)
    } else {
        match without_all(s, takes(i), takes(i).len() as int) {
            Some(t) => Some(topped(t, puts(i))),
            None => None,
        }
    }
}

/// The program counter behind the `k`-th instruction, if there is one.
pub open spec fn fall(b: RawBodyView, k: int) -> Seq<u16> {
    if 0 <= k && k + 1 < b.insns.len() {
        seq![b.insns[k + 1].pc]
    } else {
        Seq::empty()
    }
}

/// Where an instruction leads besides the one behind it.
pub open spec fn targets_of(i: RawView) -> Seq<u16> {
    match i.jump {
        Some(t) => seq![t],
        None => i.cases,
    }
}

/// Whether an instruction calls a subroutine.
pub open spec fn is_subroutine_call(op: u8) -> bool {
    op == 168 || op == 201
}

/// Whether an exception is caught where an instruction with that opcode stands:
/// it evaluates something, rather than only moving values or control.
pub open spec fn raises(op: u8) -> bool {
    (1 <= op && op <= 20) || (46 <= op && op <= 53) || (79 <= op && op <= 86) || (96 <= op && op
        <= 152) || (178 <= op && op <= 195) || op == 197
}

/// Whether a handler catches what is thrown at a program counter.
pub open spec fn covers(h: Handler, pc: u16) -> bool {
    h.start <= pc && pc < h.end
}

/// Whether a handler at `h` catches what is thrown at a program counter.
pub open spec fn caught_by(b: RawBodyView, pc: u16, h: u16) -> bool {
    exists|j: int|
        0 <= j < b.handlers.len() && covers(#[trigger] b.handlers[j], pc) && b.handlers[j].pc == h
}

/// Where control passes behind the `k`-th instruction, but for exceptions and
/// the return from a subroutine.
pub open spec fn leads(b: RawBodyView, k: int) -> Seq<u16> {
    let i = b.insns[k];
    let op = acts_as(i);
    if (172 <= op && op <= 177) || op == 191 || op == 169 {
        Seq::empty()
    } else if op == 167 || op == 200 || is_subroutine_call(op) || op == 170 || op == 171 {
        targets_of(i)
    } else if (153 <= op && op <= 166) || op == 198 || op == 199 {
        targets_of(i) + fall(b, k)
    } else {
        fall(b, k)
    }
}

/// What is known of the paths through a body: the shape of the stack at the
/// program counters they reach, and, in pairs, where the subroutines that they
/// have called on the way there may return to.
#[verifier::ext_equal]
pub struct Flow {
    pub at: Map<u16, Seq<bool>>,
    pub back: Set<(u16, u16)>,
}

/// Where the subroutines that are open at a program counter may return to.
pub open spec fn open_at(f: Flow, pc: u16) -> Set<u16> {
    Set::new(|r: u16| f.back.contains((pc, r)))
}

/// Whether a path arrives at a program counter with that stack, and with those
/// subroutines open.
pub open spec fn arrives(f: Flow, pc: u16, shape: Seq<bool>, open: Set<u16>) -> bool {
    &&& f.at.contains_key(pc)
    &&& f.at[pc] == shape
    &&& forall|r: u16| #[trigger] open.contains(r) ==> f.back.contains((pc, r))
}

/// The subroutines that are open behind the `k`-th instruction.
pub open spec fn open_behind(b: RawBodyView, f: Flow, k: int) -> Set<u16> {
    let rest = open_at(f, b.insns[k].pc);
    if is_subroutine_call(acts_as(b.insns[k])) {
        rest.union(fall(b, k).to_set())
    } else {
        rest
    }
}

/// Whether the paths go on behind the `k`-th instruction: where it can run, to
/// all that it leads to, back from a subroutine, and to the handlers that catch
/// an exception there, which start with the exception alone.
pub open spec fn kept_at(b: RawBodyView, f: Flow, k: int) -> bool {
    let i = b.insns[k];
    f.at.contains_key(i.pc) ==> (match step(i, f.at[i.pc]) {
        Some(t) => {
            &&& forall|j: int|
                0 <= j < leads(b, k).len() ==> arrives(
                    f,
                    #[trigger] leads(b, k)[j],
                    t,
                    open_behind(b, f, k),
                )
            &&& acts_as(i) == 169 ==> forall|r: u16| #[trigger]
                open_at(f, i.pc).contains(r) ==> arrives(f, r, t, Set::empty())
            &&& raises(acts_as(i)) ==> forall|j: int|
                0 <= j < b.handlers.len() && covers(#[trigger] b.handlers[j], i.pc) ==> arrives(
                    f,
                    b.handlers[j].pc,
                    seq![true],
                    open_at(f, i.pc),
                )
        },
        None => true,
    })
}

/// Whether the paths start where the body does, with an empty stack.
pub open spec fn starts(b: RawBodyView, f: Flow) -> bool {
    b.insns.len() > 0 ==> f.at.contains_key(b.insns[0].pc) && f.at[b.insns[0].pc] == Seq::<
        bool,
    >::empty()
}

/// Whether every path through the body is accounted for.
pub open spec fn is_flow(b: RawBodyView, f: Flow) -> bool {
    &&& starts(b, f)
    &&& forall|k: int| 0 <= k < b.insns.len() ==> #[trigger] kept_at(b, f, k)
}

/// Whether the shape of the stack at a program counter does not depend on the
/// path that leads there.
pub open spec fn stacks_agree(b: RawBodyView) -> bool {
    exists|f: Flow| is_flow(b, f)
}

fn type_width(t: TypeShape) -> (r: u8)
    ensures
        r == width_of(t),
{
    match t {
        TypeShape::Long => 2,
        TypeShape::Double => 2,
        TypeShape::Other => 1,
    }
}

fn value_width(t: Option<TypeShape>) -> (r: u8)
    ensures
        r == opt_width(t),
{
    match t {
        Some(t) => type_width(t),
        None => 0,
    }
}

fn opcode(i: &RawInsn) -> (r: u8)
    ensures
        r == acts_as(i@),
{
    match i.wide {
        Some(w) => opcode_of(w),
        None => i.opcode,
    }
}

fn list_arguments(params: &Vec<TypeShape>) -> (r: Vec<u8>)
    ensures
        r@ == argument_widths(params@),
{
    let mut out: Vec<u8> = Vec::new();
    let n: usize = params.len();
    let mut k: usize = 0;
    while k < n
        invariant
            n == params.len(),
            k <= n,
            out@ =~= argument_widths(params@).take(k as int),
        decreases n - k,
    {
        out.push(type_width(params[n - 1 - k]));
        k += 1;
    }
    assert(out@ =~= argument_widths(params@));
    out
}

fn list_takes(i: &RawInsn) -> (r: Vec<u8>)
    ensures
        r@ == takes(i@),
{
    let op: u8 = opcode(i);
    let mut out: Vec<u8> = Vec::new();
    if op == 179 {
        out.push(value_width(i.field));
    } else if op == 180 {
        out.push(1);
    } else if op == 181 {
        out.push(value_width(i.field));
        out.push(1);
    } else if op == 182 || op == 183 || op == 185 {
        out = list_arguments(&i.params);
        out.push(1);
    } else if op == 184 || op == 186 {
        out = list_arguments(&i.params);
    } else if op == 197 {
        let dims: u8 = match i.dims {
            Some(d) => d,
            None => 0,
        };
        let mut k: u8 = 0;
        while k < dims
            invariant
                k <= dims,
                out@ =~= Seq::new(k as nat, |k: int| 1u8),
            decreases dims - k,
        {
            out.push(1);
            k += 1;
        }
    } else {
        let e = effect(op);
        out.push(e.first);
        out.push(e.second);
        out.push(e.third);
    }
    assert(out@ =~= takes(i@));
    out
}

fn put_width(i: &RawInsn) -> (r: u8)
    ensures
        r == puts(i@),
{
    let op: u8 = opcode(i);
    if op == 178 || op == 180 {
        value_width(i.field)
    } else if 182 <= op && op <= 186 {
        value_width(i.returned)
    } else if op == 197 {
        1
    } else {
        effect(op).put
    }
}

fn take_off(s: &mut Vec<bool>, w: u8) -> (r: bool)
    ensures
        match without(old(s)@, w) {
            Some(t) => r && final(s)@ == t,
            None => !r,
        },
{
    let n: usize = s.len();
    if w == 0 {
        true
    } else if w == 1 {
        if n > 0 && s[n - 1] {
            s.truncate(n - 1);
            assert(s@ =~= old(s)@.take(n - 1));
            true
        } else {
            false
        }
    } else {
        if n > 1 && s[n - 1] && !s[n - 2] {
            s.truncate(n - 2);
            assert(s@ =~= old(s)@.take(n - 2));
            true
        } else {
            false
        }
    }
}

fn shuffle(s: &Vec<bool>, op: u8) -> (r: Option<Vec<bool>>)
    requires
        87 <= op <= 95,
    ensures
        match r {
            Some(t) => moved(s@, op) == Some(t@),
            None => moved(s@, op) is None,
        },
{
    let n: usize = s.len();
    let reach: usize = if op == 87 || op == 89 {
        1
    } else if op == 91 || op == 93 {
        3
    } else if op == 94 {
        4
    } else {
        2
    };
    if n < reach {
        return None;
    }
    let mut out: Vec<bool> = s.clone();
    out.truncate(n - reach);
    let ghost base = s@.take(n - reach);
    assert(out@ =~= base);
    if op == 89 {
        out.push(s[n - 1]);
        out.push(s[n - 1]);
    } else if op == 90 {
        out.push(s[n - 1]);
        out.push(s[n - 2]);
        out.push(s[n - 1]);
    } else if op == 91 {
        out.push(s[n - 1]);
        out.push(s[n - 3]);
        out.push(s[n - 2]);
        out.push(s[n - 1]);
    } else if op == 92 {
        out.push(s[n - 2]);
        out.push(s[n - 1]);
        out.push(s[n - 2]);
        out.push(s[n - 1]);
    } else if op == 93 {
        out.push(s[n - 2]);
        out.push(s[n - 1]);
        out.push(s[n - 3]);
        out.push(s[n - 2]);
        out.push(s[n - 1]);
    } else if op == 94 {
        out.push(s[n - 2]);
        out.push(s[n - 1]);
        out.push(s[n - 4]);
        out.push(s[n - 3]);
        out.push(s[n - 2]);
        out.push(s[n - 1]);
    } else if op == 95 {
        out.push(s[n - 1]);
        out.push(s[n - 2]);
    }
    assert(out@ =~= base + left_by(op).map_values(|k: int| s@[n - 1 - k]));
    Some(out)
}

/// The stack behind an instruction.
fn run(i: &RawInsn, s: &Vec<bool>) -> (r: Option<Vec<bool>>)
    ensures
        match r {
            Some(t) => step(i@, s@) == Some(t@),
            None => step(i@, s@) is None,
        },
{
    let op: u8 = opcode(i);
    if 87 <= op && op <= 95 {
        return shuffle(s, op);
    }
    let ws = list_takes(i);
    let mut t: Vec<bool> = s.clone();
    assert(t@ =~= s@);
    let mut k: usize = 0;
    while k < ws.len()
        invariant
            k <= ws.len(),
            ws@ == takes(i@),
            without_all(s@, ws@, k as int) == Some(t@),
        decreases ws.len() - k,
    {
        let ok: bool = take_off(&mut t, ws[k]);
        if !ok {
            proof {
                lemma_none_stays(s@, ws@, k + 1, ws@.len() as int);
            }
            return None;
        }
        k += 1;
    }
    let w: u8 = put_width(i);
    if w == 1 {
        t.push(true);
    } else if w != 0 {
        t.push(false);
        t.push(true);
    }
    Some(t)
}

proof fn lemma_none_stays(s: Seq<bool>, ws: Seq<u8>, j: int, k: int)
    requires
        0 < j <= k <= ws.len(),
        without_all(s, ws, j) is None,
    ensures
        without_all(s, ws, k) is None,
    decreases k,
{
    if j < k {
        lemma_none_stays(s, ws, j, k - 1);
    }
}

fn copy_counters(from: &Vec<u16>) -> (r: Vec<u16>)
    ensures
        r@ == from@,
{
    let mut out: Vec<u16> = Vec::new();
    let mut k: usize = 0;
    while k < from.len()
        invariant
            k <= from.len(),
            out@ =~= from@.take(k as int),
        decreases from.len() - k,
    {
        out.push(from[k]);
        k += 1;
    }
    assert(out@ =~= from@);
    out
}

fn is_raising(op: u8) -> (r: bool)
    ensures
        r == raises(op),
{
    (1 <= op && op <= 20) || (46 <= op && op <= 53) || (79 <= op && op <= 86) || (96 <= op && op
        <= 152) || (178 <= op && op <= 195) || op == 197
}

fn list_leads(b: &RawBody, k: usize) -> (r: Vec<u16>)
    requires
        k < b.insns.len(),
    ensures
        r@ == leads(b@, k as int),
{
    let ghost v = b@;
    assert(v.insns[k as int] == b.insns@[k as int]@);
    let i = &b.insns[k];
    let op: u8 = opcode(i);
    let mut out: Vec<u16> = Vec::new();
    if (172 <= op && op <= 177) || op == 191 || op == 169 {
        assert(out@ =~= leads(v, k as int));
        return out;
    }
    let jumps: bool = op == 167 || op == 200 || op == 168 || op == 201 || op == 170 || op == 171;
    let branches: bool = (153 <= op && op <= 166) || op == 198 || op == 199;
    if jumps || branches {
        match i.jump {
            Some(t) => out.push(t),
            None => {
                out = copy_counters(&i.cases);
            },
        }
        assert(out@ =~= targets_of(i@));
    }
    if !jumps && k + 1 < b.insns.len() {
        assert(v.insns[k + 1] == b.insns@[k + 1]@);
        out.push(b.insns[k + 1].pc);
    }
    assert(out@ =~= leads(v, k as int));
    out
}

fn list_caught(b: &RawBody, k: usize) -> (r: Vec<u16>)
    requires
        k < b.insns.len(),
    ensures
        forall|h: u16| #[trigger] r@.contains(h) <==> caught_by(b@, b@.insns[k as int].pc, h),
{
    let ghost v = b@;
    assert(v.insns[k as int] == b.insns@[k as int]@);
    let pc: u16 = b.insns[k].pc;
    let mut out: Vec<u16> = Vec::new();
    let mut j: usize = 0;
    while j < b.handlers.len()
        invariant
            j <= b.handlers.len(),
            v == b@,
            forall|i: int|
                0 <= i < j && covers(#[trigger] v.handlers[i], pc) ==> out@.contains(
                    v.handlers[i].pc,
                ),
            forall|n: int| 0 <= n < out@.len() ==> caught_by(v, pc, #[trigger] out@[n]),
        decreases b.handlers.len() - j,
    {
        let h = b.handlers[j];
        assert(v.handlers[j as int] == h);
        if h.start <= pc && pc < h.end {
            let ghost before = out@;
            out.push(h.pc);
            proof {
                assert(out@[before.len() as int] == h.pc);
                assert(covers(v.handlers[j as int], pc));
                assert(caught_by(v, pc, h.pc));
                assert forall|i: int|
                    0 <= i < j + 1 && covers(#[trigger] v.handlers[i], pc) implies out@.contains(
                    v.handlers[i].pc,
                ) by {
                    if i < j {
                        assert(before.contains(v.handlers[i].pc));
                        let n = choose|n: int|
                            0 <= n < before.len() && before[n] == v.handlers[i].pc;
                        assert(out@[n] == v.handlers[i].pc);
                    }
                }
            }
        }
        j += 1;
    }
    assert forall|h: u16| #[trigger] out@.contains(h) implies caught_by(v, pc, h) by {
        let n = choose|n: int| 0 <= n < out@.len() && out@[n] == h;
        assert(caught_by(v, pc, out@[n]));
    }
    out
}

/// What the search for paths has found so far, by program counter.
struct Known {
    shapes: Vec<Option<Vec<bool>>>,
    back: Vec<Vec<u16>>,
}

spec fn shapes(known: Seq<Option<Vec<bool>>>) -> Map<u16, Seq<bool>> {
    Map::new(
        |pc: u16| pc < known.len() && known[pc as int] is Some,
        |pc: u16| known[pc as int]->0@,
    )
}

spec fn pairs(back: Seq<Vec<u16>>) -> Set<(u16, u16)> {
    Set::new(|p: (u16, u16)| p.0 < back.len() && back[p.0 as int]@.contains(p.1))
}

/// How many of the first `k` program counters have no shape yet.
spec fn unknown(known: Seq<Option<Vec<bool>>>, k: int) -> nat
    decreases k,
{
    if k <= 0 || k > known.len() {
        0
    } else {
        unknown(known, k - 1) + if known[k - 1] is None {
            1nat
        } else {
            0nat
        }
    }
}

/// How many pairs are missing for the first `k` program counters.
spec fn lacking(back: Seq<Vec<u16>>, k: int) -> int
    decreases k,
{
    if k <= 0 || k > back.len() {
        0
    } else {
        lacking(back, k - 1) + (0x1_0000 - back[k - 1]@.len())
    }
}

impl Known {
    spec fn ok(self) -> bool {
        &&& self.shapes@.len() == 0x1_0000
        &&& self.back@.len() == 0x1_0000
        &&& forall|p: int| 0 <= p < 0x1_0000 ==> (#[trigger] self.back@[p])@.no_duplicates()
    }

    spec fn flow(self) -> Flow {
        Flow { at: shapes(self.shapes@), back: pairs(self.back@) }
    }

    spec fn left(self) -> int {
        unknown(self.shapes@, 0x1_0000) + lacking(self.back@, 0x1_0000)
    }
}

proof fn lemma_counters_fit(s: Seq<u16>)
    requires
        s.no_duplicates(),
    ensures
        s.len() <= 0x1_0000,
{
    let t = s.map_values(|x: u16| x as int);
    assert(t.no_duplicates()) by {
        assert forall|i: int, j: int| 0 <= i < t.len() && 0 <= j < t.len() && i != j implies t[i]
            != t[j] by {
            assert(s[i] != s[j]);
        }
    }
    t.unique_seq_to_set();
    lemma_int_range(0, 0x1_0000);
    assert(t.to_set().subset_of(set_int_range(0, 0x1_0000)));
    lemma_len_subset(t.to_set(), set_int_range(0, 0x1_0000));
}

proof fn lemma_lacking_bound(back: Seq<Vec<u16>>, k: int)
    requires
        0 <= k <= back.len(),
        forall|p: int| 0 <= p < back.len() ==> (#[trigger] back[p])@.no_duplicates(),
    ensures
        lacking(back, k) >= 0,
    decreases k,
{
    if k > 0 {
        lemma_lacking_bound(back, k - 1);
        lemma_counters_fit(back[k - 1]@);
    }
}

proof fn lemma_unknown(a: Seq<Option<Vec<bool>>>, b: Seq<Option<Vec<bool>>>, p: int, k: int)
    requires
        0 <= p < a.len(),
        a.len() == b.len(),
        0 <= k <= a.len(),
        a[p] is None,
        b[p] is Some,
        forall|j: int| 0 <= j < a.len() && j != p ==> a[j] == #[trigger] b[j],
    ensures
        unknown(b, k) == unknown(a, k) - if p < k {
            1int
        } else {
            0int
        },
    decreases k,
{
    if k > 0 {
        lemma_unknown(a, b, p, k - 1);
        if k - 1 != p {
            assert(a[k - 1] == b[k - 1]);
        }
    }
}

proof fn lemma_lacking(a: Seq<Vec<u16>>, b: Seq<Vec<u16>>, p: int, k: int)
    requires
        0 <= p < a.len(),
        a.len() == b.len(),
        0 <= k <= a.len(),
        b[p]@.len() == a[p]@.len() + 1,
        forall|j: int| 0 <= j < a.len() && j != p ==> a[j] == #[trigger] b[j],
    ensures
        lacking(b, k) == lacking(a, k) - if p < k {
            1int
        } else {
            0int
        },
    decreases k,
{
    if k > 0 {
        lemma_lacking(a, b, p, k - 1);
        if k - 1 != p {
            assert(a[k - 1] == b[k - 1]);
        }
    }
}

fn same_shape(a: &Vec<bool>, b: &Vec<bool>) -> (r: bool)
    ensures
        r == (a@ == b@),
{
    if a.len() != b.len() {
        return false;
    }
    let mut k: usize = 0;
    while k < a.len()
        invariant
            k <= a.len(),
            a.len() == b.len(),
            forall|j: int| 0 <= j < k ==> a@[j] == b@[j],
        decreases a.len() - k,
    {
        if a[k] != b[k] {
            assert(a@[k as int] != b@[k as int]);
            return false;
        }
        k += 1;
    }
    assert(a@ =~= b@);
    true
}

fn holds(list: &Vec<u16>, x: u16) -> (r: bool)
    ensures
        r == list@.contains(x),
{
    let mut k: usize = 0;
    while k < list.len()
        invariant
            k <= list.len(),
            forall|j: int| 0 <= j < k ==> list@[j] != x,
        decreases list.len() - k,
    {
        if list[k] == x {
            return true;
        }
        k += 1;
    }
    false
}

/// Whether one account of the paths has all that another has.
spec fn within(m: Flow, f: Flow) -> bool {
    &&& forall|pc: u16| #[trigger] m.at.contains_key(pc) ==> f.at.contains_key(pc) && f.at[pc]
        == m.at[pc]
    &&& forall|p: (u16, u16)| #[trigger] m.back.contains(p) ==> f.back.contains(p)
}

/// Whether every account of all paths has what this one has.
spec fn forced(b: RawBodyView, m: Flow) -> bool {
    forall|f: Flow| #[trigger] is_flow(b, f) ==> within(m, f)
}

impl Known {
    fn new() -> (r: Known)
        ensures
            r.ok(),
            r.flow() == (Flow { at: Map::empty(), back: Set::empty() }),
    {
        let mut shapes: Vec<Option<Vec<bool>>> = Vec::new();
        let mut back: Vec<Vec<u16>> = Vec::new();
        let mut p: u32 = 0;
        while p < 0x1_0000
            invariant
                p <= 0x1_0000,
                shapes.len() == p,
                back.len() == p,
                forall|j: int| 0 <= j < p ==> (#[trigger] shapes@[j]) is None,
                forall|j: int| 0 <= j < p ==> (#[trigger] back@[j])@.len() == 0,
            decreases 0x1_0000 - p,
        {
            shapes.push(None);
            back.push(Vec::new());
            p += 1;
        }
        let r = Known { shapes, back };
        assert(r.flow().at =~= Map::empty());
        assert(r.flow().back =~= Set::empty());
        r
    }

    /// Gives a program counter a shape; `None` when it has another, else whether
    /// it is new.
    fn give(&mut self, pc: u16, t: &Vec<bool>) -> (r: Option<bool>)
        requires
            old(self).ok(),
        ensures
            final(self).ok(),
            final(self).flow().back == old(self).flow().back,
            match r {
                None => old(self).flow().at.contains_key(pc) && old(self).flow().at[pc] != t@,
                Some(new) => final(self).flow().at == old(self).flow().at.insert(pc, t@) && (old(
                    self,
                ).flow().at.contains_key(pc) ==> old(self).flow().at[pc] == t@) && (new
                    ==> final(self).left() < old(self).left()) && (!new ==> final(self).left()
                    == old(self).left() && final(self).flow() == old(self).flow()),
            },
    {
        let at: usize = pc as usize;
        if let Some(s) = &self.shapes[at] {
            return if same_shape(s, t) {
                assert(self.flow().at =~= self.flow().at.insert(pc, t@));
                Some(false)
            } else {
                None
            };
        }
        let mut copy: Vec<bool> = t.clone();
        assert(copy@ =~= t@);
        let ghost before = self.shapes@;
        self.shapes[at] = Some(copy);
        proof {
            lemma_unknown(before, self.shapes@, pc as int, 0x1_0000);
            assert(shapes(self.shapes@) =~= shapes(before).insert(pc, t@));
        }
        Some(true)
    }

    /// Notes that an open subroutine may return to `r`; whether that is new.
    fn note(&mut self, pc: u16, r: u16) -> (new: bool)
        requires
            old(self).ok(),
        ensures
            final(self).ok(),
            final(self).flow().at == old(self).flow().at,
            final(self).flow().back == old(self).flow().back.insert((pc, r)),
            new ==> final(self).left() < old(self).left(),
            !new ==> final(self).left() == old(self).left() && final(self).flow() == old(
                self,
            ).flow(),
    {
        let at: usize = pc as usize;
        if holds(&self.back[at], r) {
            assert(self.flow().back =~= self.flow().back.insert((pc, r)));
            return false;
        }
        let ghost before = self.back@;
        self.back[at].push(r);
        proof {
            let ghost after = self.back@;
            assert(after[pc as int]@ == before[pc as int]@.push(r));
            assert(after[pc as int]@.no_duplicates());
            lemma_lacking(before, after, pc as int, 0x1_0000);
            assert(pairs(after) =~= pairs(before).insert((pc, r))) by {
                assert forall|p: (u16, u16)| pairs(after).contains(p) <==> pairs(before).insert(
                    (pc, r),
                ).contains(p) by {
                    if p.0 == pc {
                        let x = before[pc as int]@;
                        if x.contains(p.1) {
                            let n = choose|n: int| 0 <= n < x.len() && x[n] == p.1;
                            assert(x.push(r)[n] == p.1);
                        }
                        assert(x.push(r)[x.len() as int] == r);
                    }
                }
            }
        }
        true
    }

    /// Takes the paths on to a program counter; `None` when another path left
    /// another stack there, else whether anything is new.
    fn lead(&mut self, pc: u16, t: &Vec<bool>, open: &Vec<u16>, Ghost(b): Ghost<RawBodyView>) -> (r:
        Option<bool>)
        requires
            old(self).ok(),
            forced(b, old(self).flow()),
            forall|f: Flow| #[trigger] is_flow(b, f) ==> arrives(f, pc, t@, open@.to_set()),
        ensures
            final(self).ok(),
            match r {
                None => !stacks_agree(b),
                Some(new) => {
                    &&& within(old(self).flow(), final(self).flow())
                    &&& forced(b, final(self).flow())
                    &&& arrives(final(self).flow(), pc, t@, open@.to_set())
                    &&& new ==> final(self).left() < old(self).left()
                    &&& !new ==> final(self).left() == old(self).left() && final(self).flow()
                        == old(self).flow()
                },
            },
    {
        let ghost first = self.flow();
        let ghost most = self.left();
        let mut new: bool = match self.give(pc, t) {
            Some(n) => n,
            None => {
                assert(forall|f: Flow| !is_flow(b, f)) by {
                    assert forall|f: Flow| !is_flow(b, f) by {
                        if is_flow(b, f) {
                            assert(within(first, f));
                        }
                    }
                }
                return None;
            },
        };
        proof {
            assert forall|f: Flow| #[trigger] is_flow(b, f) implies within(self.flow(), f) by {
                assert(within(first, f));
                assert(arrives(f, pc, t@, open@.to_set()));
            }
        }
        let mut k: usize = 0;
        while k < open.len()
            invariant
                k <= open.len(),
                self.ok(),
                self.flow().at.contains_key(pc),
                self.flow().at[pc] == t@,
                within(first, self.flow()),
                forced(b, self.flow()),
                forall|f: Flow| #[trigger] is_flow(b, f) ==> arrives(f, pc, t@, open@.to_set()),
                forall|j: int| 0 <= j < k ==> self.flow().back.contains((pc, #[trigger] open@[j])),
                new ==> self.left() < most,
                !new ==> self.left() == most && self.flow() == first,
            decreases open.len() - k,
        {
            let ghost before = self.flow();
            let r: u16 = open[k];
            let noted: bool = self.note(pc, r);
            proof {
                assert(open@.to_set().contains(open@[k as int]));
                assert forall|f: Flow| #[trigger] is_flow(b, f) implies within(
                    self.flow(),
                    f,
                ) by {
                    assert(within(before, f));
                    assert(arrives(f, pc, t@, open@.to_set()));
                }
            }
            if noted {
                new = true;
            }
            k += 1;
        }
        assert forall|r: u16| #[trigger] open@.to_set().contains(r) implies self.flow().back.contains(
            (pc, r),
        ) by {
            let j = choose|j: int| 0 <= j < open@.len() && open@[j] == r;
            assert(open@.contains(r));
            assert(self.flow().back.contains((pc, open@[j])));
        }
        Some(new)
    }

    /// Takes the paths on to each of some program counters.
    fn lead_all(
        &mut self,
        to: &Vec<u16>,
        t: &Vec<bool>,
        open: &Vec<u16>,
        Ghost(b): Ghost<RawBodyView>,
    ) -> (r: Option<bool>)
        requires
            old(self).ok(),
            forced(b, old(self).flow()),
            forall|f: Flow, j: int|
                #![trigger is_flow(b, f), to@[j]]
                is_flow(b, f) && 0 <= j < to@.len() ==> arrives(f, to@[j], t@, open@.to_set()),
        ensures
            final(self).ok(),
            match r {
                None => !stacks_agree(b),
                Some(new) => {
                    &&& within(old(self).flow(), final(self).flow())
                    &&& forced(b, final(self).flow())
                    &&& forall|j: int|
                        0 <= j < to@.len() ==> arrives(
                            final(self).flow(),
                            #[trigger] to@[j],
                            t@,
                            open@.to_set(),
                        )
                    &&& new ==> final(self).left() < old(self).left()
                    &&& !new ==> final(self).left() == old(self).left() && final(self).flow()
                        == old(self).flow()
                },
            },
    {
        let ghost first = self.flow();
        let ghost most = self.left();
        let mut new: bool = false;
        let mut k: usize = 0;
        while k < to.len()
            invariant
                k <= to.len(),
                self.ok(),
                forced(b, self.flow()),
                within(first, self.flow()),
                forall|f: Flow, j: int|
                    #![trigger is_flow(b, f), to@[j]]
                    is_flow(b, f) && 0 <= j < to@.len() ==> arrives(f, to@[j], t@, open@.to_set()),
                forall|j: int|
                    0 <= j < k ==> arrives(self.flow(), #[trigger] to@[j], t@, open@.to_set()),
                new ==> self.left() < most,
                !new ==> self.left() == most && self.flow() == first,
            decreases to.len() - k,
        {
            let ghost before = self.flow();
            let pc: u16 = to[k];
            assert(to@[k as int] == pc);
            match self.lead(pc, t, open, Ghost(b)) {
                None => {
                    return None;
                },
                Some(n) => {
                    if n {
                        new = true;
                    }
                },
            }
            k += 1;
        }
        Some(new)
    }

    /// Takes the paths on behind the `k`-th instruction.
    fn advance(&mut self, b: &RawBody, k: usize) -> (r: Option<bool>)
        requires
            old(self).ok(),
            k < b.insns.len(),
            forced(b@, old(self).flow()),
        ensures
            final(self).ok(),
            match r {
                None => !stacks_agree(b@),
                Some(new) => {
                    &&& within(old(self).flow(), final(self).flow())
                    &&& forced(b@, final(self).flow())
                    &&& new ==> final(self).left() < old(self).left()
                    &&& !new ==> final(self).left() == old(self).left() && final(self).flow()
                        == old(self).flow() && kept_at(b@, final(self).flow(), k as int)
                },
            },
    {
        let ghost v = b@;
        let ghost n = k as int;
        let ghost first = self.flow();
        assert(v.insns[k as int] == b.insns@[k as int]@);
        let i = &b.insns[k];
        let op: u8 = opcode(i);
        let mut left: Option<Vec<bool>> = None;
        if let Some(s) = &self.shapes[i.pc as usize] {
            left = run(i, s);
        }
        let t = match left {
            Some(t) => t,
            None => {
                return Some(false);
            },
        };
        assert(first.at.contains_key(v.insns[n].pc));
        assert(step(v.insns[n], first.at[v.insns[n].pc]) == Some(t@));
        let open = copy_counters(&self.back[i.pc as usize]);
        assert(open@.to_set() =~= open_at(first, i.pc));
        proof {
            assert forall|f: Flow| #[trigger] is_flow(v, f) implies within(first, f) && kept_at(
                v,
                f,
                n,
            ) && open_at(first, i.pc).subset_of(open_at(f, i.pc)) by {
                assert(within(first, f));
            }
        }
        let mut behind: Vec<u16> = copy_counters(&open);
        if (op == 168 || op == 201) && k + 1 < b.insns.len() {
            assert(v.insns[k + 1] == b.insns@[k + 1]@);
            behind.push(b.insns[k + 1].pc);
            proof {
                assert(fall(v, n) =~= seq![v.insns[n + 1].pc]);
                lemma_pushed_set(open@, v.insns[n + 1].pc);
                assert(fall(v, n).to_set() =~= Set::empty().insert(v.insns[n + 1].pc)) by {
                    assert(fall(v, n)[0] == v.insns[n + 1].pc);
                }
                assert(behind@.to_set() =~= open_behind(v, first, n));
            }
        } else {
            assert(fall(v, n).len() == 0 || !is_subroutine_call(op));
            assert(behind@.to_set() =~= open_behind(v, first, n));
        }
        let to = list_leads(b, k);
        proof {
            assert forall|f: Flow, j: int|
                #![trigger is_flow(v, f), to@[j]]
                is_flow(v, f) && 0 <= j < to@.len() implies arrives(
                f,
                to@[j],
                t@,
                behind@.to_set(),
            ) by {
                assert(kept_at(v, f, n));
                assert(leads(v, n)[j] == to@[j]);
                assert(arrives(f, leads(v, n)[j], t@, open_behind(v, f, n)));
                assert(open_behind(v, first, n).subset_of(open_behind(v, f, n)));
            }
        }
        let mut new: bool = match self.lead_all(&to, &t, &behind, Ghost(v)) {
            Some(c) => c,
            None => {
                return None;
            },
        };
        if op == 169 {
            let nothing: Vec<u16> = Vec::new();
            assert(nothing@.to_set() =~= Set::empty());
            proof {
                assert forall|f: Flow, j: int|
                    #![trigger is_flow(v, f), open@[j]]
                    is_flow(v, f) && 0 <= j < open@.len() implies arrives(
                    f,
                    open@[j],
                    t@,
                    nothing@.to_set(),
                ) by {
                    assert(kept_at(v, f, n));
                    assert(open@.to_set().contains(open@[j]));
                    assert(open_at(f, i.pc).contains(open@[j]));
                }
            }
            match self.lead_all(&open, &t, &nothing, Ghost(v)) {
                Some(c) => {
                    if c {
                        new = true;
                    }
                },
                None => {
                    return None;
                },
            }
        }
        if is_raising(op) {
            let mut one: Vec<bool> = Vec::new();
            one.push(true);
            assert(one@ =~= seq![true]);
            let caught = list_caught(b, k);
            proof {
                assert forall|f: Flow, j: int|
                    #![trigger is_flow(v, f), caught@[j]]
                    is_flow(v, f) && 0 <= j < caught@.len() implies arrives(
                    f,
                    caught@[j],
                    one@,
                    open@.to_set(),
                ) by {
                    assert(kept_at(v, f, n));
                    assert(caught@.contains(caught@[j]));
                    let h = choose|h: int|
                        0 <= h < v.handlers.len() && covers(#[trigger] v.handlers[h], i.pc)
                            && v.handlers[h].pc == caught@[j];
                    assert(arrives(f, v.handlers[h].pc, seq![true], open_at(f, i.pc)));
                }
            }
            match self.lead_all(&caught, &one, &open, Ghost(v)) {
                Some(c) => {
                    if c {
                        new = true;
                    }
                },
                None => {
                    return None;
                },
            }
            proof {
                if !new {
                    assert forall|j: int|
                        0 <= j < v.handlers.len() && covers(
                            #[trigger] v.handlers[j],
                            i.pc,
                        ) implies arrives(
                        self.flow(),
                        v.handlers[j].pc,
                        seq![true],
                        open_at(self.flow(), i.pc),
                    ) by {
                        assert(caught_by(v, i.pc, v.handlers[j].pc));
                        assert(caught@.contains(v.handlers[j].pc));
                        let m = choose|m: int|
                            0 <= m < caught@.len() && caught@[m] == v.handlers[j].pc;
                        assert(arrives(self.flow(), caught@[m], one@, open@.to_set()));
                    }
                }
            }
        }
        proof {
            if !new {
                assert(self.flow() == first);
                if op == 169 {
                    assert forall|r: u16| #[trigger]
                        open_at(first, i.pc).contains(r) implies arrives(
                        first,
                        r,
                        t@,
                        Set::empty(),
                    ) by {
                        assert(open@.to_set().contains(r));
                        let m = choose|m: int| 0 <= m < open@.len() && open@[m] == r;
                        assert(open@.contains(r));
                        assert(open@[m] == r);
                    }
                }
                assert forall|j: int| 0 <= j < leads(v, n).len() implies arrives(
                    first,
                    #[trigger] leads(v, n)[j],
                    t@,
                    open_behind(v, first, n),
                ) by {
                    assert(to@[j] == leads(v, n)[j]);
                }
                assert(kept_at(v, first, n));
            }
        }
        Some(new)
    }
}

proof fn lemma_pushed_set(s: Seq<u16>, x: u16)
    ensures
        s.push(x).to_set() == s.to_set().insert(x),
{
    assert forall|y: u16| s.push(x).to_set().contains(y) <==> s.to_set().insert(x).contains(y) by {
        if s.contains(y) {
            let n = choose|n: int| 0 <= n < s.len() && s[n] == y;
            assert(s.push(x)[n] == y);
        }
        assert(s.push(x)[s.len() as int] == x);
        if s.push(x).contains(y) {
            let n = choose|n: int| 0 <= n < s.push(x).len() && s.push(x)[n] == y;
            if n < s.len() {
                assert(s[n] == y);
            }
        }
    }
    assert(s.push(x).to_set() =~= s.to_set().insert(x));
}

/// Whether the shape of the stack at a program counter does not depend on the
/// path that leads there.
pub fn agree(b: &RawBody) -> (r: bool)
    ensures
        r == stacks_agree(b@),
{
    let ghost v = b@;
    let n: usize = b.insns.len();
    let mut known = Known::new();
    assert(forced(v, known.flow()));
    if n > 0 {
        assert(v.insns[0] == b.insns@[0]@);
        let empty: Vec<bool> = Vec::new();
        let nothing: Vec<u16> = Vec::new();
        assert(empty@ =~= Seq::empty());
        assert(nothing@.to_set() =~= Set::empty());
        if known.lead(b.insns[0].pc, &empty, &nothing, Ghost(v)).is_none() {
            return false;
        }
    }
    assert(starts(v, known.flow()));
    let mut changed: bool = true;
    while changed
        invariant
            v == b@,
            n == b.insns.len(),
            n == v.insns.len(),
            known.ok(),
            starts(v, known.flow()),
            forced(v, known.flow()),
            !changed ==> forall|k: int| 0 <= k < n ==> #[trigger] kept_at(v, known.flow(), k),
        decreases
            known.left(),
            if changed {
                1int
            } else {
                0int
            },
    {
        changed = false;
        let ghost first = known.flow();
        let ghost most = known.left();
        let mut k: usize = 0;
        while k < n
            invariant
                v == b@,
                n == b.insns.len(),
                n == v.insns.len(),
                k <= n,
                known.ok(),
                starts(v, known.flow()),
                forced(v, known.flow()),
                changed ==> known.left() < most,
                !changed ==> known.left() == most && known.flow() == first,
                !changed ==> forall|j: int| 0 <= j < k ==> #[trigger] kept_at(v, known.flow(), j),
            decreases n - k,
        {
            match known.advance(b, k) {
                Some(new) => {
                    if new {
                        changed = true;
                    }
                },
                None => {
                    return false;
                },
            }
            k += 1;
        }
        proof {
            lemma_lacking_bound(known.back@, 0x1_0000);
        }
    }
    assert(is_flow(v, known.flow()));
    true
}

} // verus!
