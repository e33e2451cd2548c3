//! Lowers MIR bodies.
//!
//! Statements and terminators become nodes near bytecode granularity:
//! assignments define locals, a switch is a branch, a call carries its
//! callee's path, an assignment through a dereference is a state write, and a
//! drop is an opaque call because it can run arbitrary code. Unwind and cleanup
//! edges are left out, and so is storage bookkeeping.

use vstd::prelude::*;

use crate::rs::wire::{
    wire_nodes, WireFunction, WireFunctionView, WireKind, WireKindView, WireNode, WireNodeView,
};
use crate::text::same;

verus! {

/// One step from a place to a part of it.
#[derive(Debug, Clone, Copy, PartialEq, Eq, Structural)]
pub enum Projection {
    /// What a pointer points at.
    Deref,
    /// Any other part.
    Other,
}

/// A place: a local, or a part of what it holds or points at.
#[derive(Debug, Clone)]
pub struct Place {
    pub local: usize,
    pub projection: Vec<Projection>,
}

/// What an operation is applied to.
#[derive(Debug, Clone)]
pub enum Operand {
    Copy(Place),
    Move(Place),
    /// A constant; of a function item, its path.
    Constant(Option<String>),
    RuntimeChecks,
}

/// What an assignment computes.
#[derive(Debug, Clone)]
pub enum Rvalue {
    Use(Operand),
    Repeat(Operand),
    Cast(Operand),
    UnaryOp(Operand),
    BinaryOp(Operand, Operand),
    CheckedBinaryOp(Operand, Operand),
    Ref(Place),
    AddressOf(Place),
    Len(Place),
    Discriminant(Place),
    CopyForDeref(Place),
    Aggregate(Vec<Operand>),
    ThreadLocalRef,
    /// Anything else: it contributes no uses.
    Other,
}

#[derive(Debug, Clone)]
pub enum StatementKind {
    Assign(Place, Rvalue),
    SetDiscriminant(Place),
    Intrinsic,
    /// Bookkeeping that carries no signal.
    Other,
}

/// Where something stands in a source file.
#[derive(Debug, Clone)]
pub struct MirSpan {
    pub file: String,
    pub start_line: usize,
}

#[derive(Debug, Clone)]
pub struct Statement {
    pub kind: StatementKind,
    pub span: MirSpan,
}

#[derive(Debug, Clone)]
pub enum TerminatorKind {
    Goto { target: usize },
    SwitchInt { discr: Operand, branches: Vec<usize>, otherwise: usize },
    Return,
    Unreachable,
    Abort,
    Resume,
    Drop { place: Place, target: usize },
    Call { func: Operand, args: Vec<Operand>, destination: Place, target: Option<usize> },
    Assert { cond: Operand, target: usize },
    InlineAsm,
}

#[derive(Debug, Clone)]
pub struct Terminator {
    pub kind: TerminatorKind,
    pub span: MirSpan,
}

#[derive(Debug, Clone)]
pub struct Block {
    pub statements: Vec<Statement>,
    pub terminator: Terminator,
}

/// A body.
#[derive(Debug, Clone)]
pub struct MirBody {
    pub blocks: Vec<Block>,
    pub span: MirSpan,
}

impl Place {
    /// The variable of the place's local.
    pub open spec fn var(self) -> u32 {
        self.local as u32
    }

    /// Whether the place lies behind a pointer.
    pub open spec fn escapes(self) -> bool {
        exists|k: int|
            0 <= k < self.projection@.len() && #[trigger] self.projection@[k] == Projection::Deref
    }
}

/// The list with a variable added behind, unless it is there.
pub open spec fn with_use(out: Seq<u32>, v: u32) -> Seq<u32> {
    if out.contains(v) {
        out
    } else {
        out.push(v)
    }
}

/// The list with the variables of another added.
pub open spec fn with_uses(out: Seq<u32>, more: Seq<u32>, k: int) -> Seq<u32>
    decreases k,
{
    if k <= 0 || k > more.len() {
        out
    } else {
        with_use(with_uses(out, more, k - 1), more[k - 1])
    }
}

/// The list with what an operand reads.
pub open spec fn with_operand(out: Seq<u32>, op: Operand) -> Seq<u32> {
    match op {
        Operand::Copy(p) | Operand::Move(p) => with_use(out, p.var()),
        Operand::Constant(_) | Operand::RuntimeChecks => out,
    }
}

/// The list with what the first `k` operands read.
pub open spec fn with_operands(out: Seq<u32>, ops: Seq<Operand>, k: int) -> Seq<u32>
    decreases k,
{
    if k <= 0 || k > ops.len() {
        out
    } else {
        with_operand(with_operands(out, ops, k - 1), ops[k - 1])
    }
}

/// What an assigned value reads.
pub open spec fn value_uses(rv: Rvalue) -> Seq<u32> {
    let none = Seq::<u32>::empty();
    match rv {
        Rvalue::Use(op) | Rvalue::Repeat(op) | Rvalue::Cast(op) | Rvalue::UnaryOp(
            op,
        ) => with_operand(none, op),
        Rvalue::BinaryOp(a, b) | Rvalue::CheckedBinaryOp(a, b) => with_operand(
            with_operand(none, a),
            b,
        ),
        Rvalue::Ref(p) | Rvalue::AddressOf(p) | Rvalue::Len(p) | Rvalue::Discriminant(p)
        | Rvalue::CopyForDeref(p) => seq![p.var()],
        Rvalue::Aggregate(ops) => with_operands(none, ops@, ops@.len() as int),
        Rvalue::ThreadLocalRef | Rvalue::Other => none,
    }
}

/// What is called: the path of a function item, or nothing known.
pub open spec fn callee_of(func: Operand) -> Seq<char> {
    match func {
        Operand::Constant(Some(name)) => name@,
        _ => "<dynamic>"@,
    }
}

/// The line of a span, unless it lies in another file: a macro expansion whose
/// tokens live elsewhere, for instance.
pub open spec fn span_line(span: MirSpan, local_file: Seq<char>) -> Option<u32> {
    if span.file@ == local_file && span.start_line <= u32::MAX {
        Some(span.start_line as u32)
    } else {
        None
    }
}

/// Whether a statement becomes a node.
pub open spec fn emits(k: StatementKind) -> bool {
    !(k is Other)
}

/// What a statement that becomes a node is lowered to.
pub open spec fn statement_lowered(k: StatementKind, line: Option<u32>, succ: usize) -> WireNodeView {
    let none = Seq::<u32>::empty();
    match k {
        StatementKind::Assign(place, rv) => {
            let uses = value_uses(rv);
            if place.escapes() {
                WireNodeView {
                    line,
                    kind: WireKindView::StateWrite { target: "*deref"@ },
                    defs: none,
                    uses: with_uses(seq![place.var()], uses, uses.len() as int),
                    succs: seq![succ],
                    label: "assign-deref"@,
                }
            } else {
                WireNodeView {
                    line,
                    kind: WireKindView::Pure,
                    defs: seq![place.var()],
                    uses,
                    succs: seq![succ],
                    label: "assign"@,
                }
            }
        },
        StatementKind::SetDiscriminant(place) => WireNodeView {
            line,
            kind: WireKindView::Pure,
            defs: seq![place.var()],
            uses: none,
            succs: seq![succ],
            label: "set-discriminant"@,
        },
        _ => WireNodeView {
            line,
            kind: WireKindView::Pure,
            defs: none,
            uses: none,
            succs: seq![succ],
            label: "intrinsic"@,
        },
    }
}

/// What a terminator is lowered to, its successors still blocks.
pub open spec fn terminator_lowered(k: TerminatorKind, line: Option<u32>) -> WireNodeView {
    let none = Seq::<u32>::empty();
    let bare = WireNodeView {
        line,
        kind: WireKindView::Pure,
        defs: none,
        uses: none,
        succs: Seq::empty(),
        label: ""@,
    };
    match k {
        TerminatorKind::Goto { target } => WireNodeView {
            succs: seq![target],
            label: "goto"@,
            ..bare
        },
        TerminatorKind::SwitchInt { discr, branches, otherwise } => WireNodeView {
            kind: WireKindView::Branch,
            uses: with_operand(none, discr),
            succs: branches@.push(otherwise),
            label: "switch"@,
            ..bare
        },
        TerminatorKind::Return => WireNodeView {
            kind: WireKindView::Return,
            uses: seq![0u32],
            label: "return"@,
            ..bare
        },
        TerminatorKind::Unreachable | TerminatorKind::Abort => WireNodeView {
            label: "unreachable"@,
            ..bare
        },
        TerminatorKind::Resume => WireNodeView { label: "resume"@, ..bare },
        TerminatorKind::Drop { place, target } => WireNodeView {
            kind: WireKindView::Call { callee: "drop"@, opacity: "opaque"@ },
            uses: seq![place.var()],
            succs: seq![target],
            label: "drop"@,
            ..bare
        },
        TerminatorKind::Call { func, args, destination, target } => WireNodeView {
            kind: WireKindView::Call { callee: callee_of(func), opacity: "opaque"@ },
            defs: seq![destination.var()],
            uses: with_operands(none, args@, args@.len() as int),
            succs: match target {
                Some(t) => seq![t],
                None => Seq::empty(),
            },
            label: callee_of(func),
            ..bare
        },
        TerminatorKind::Assert { cond, target } => WireNodeView {
            kind: WireKindView::Branch,
            uses: with_operand(none, cond),
            succs: seq![target],
            label: "assert"@,
            ..bare
        },
        TerminatorKind::InlineAsm => WireNodeView { label: "asm"@, ..bare },
    }
}

/// How many of the first `k` statements become nodes.
pub open spec fn emitted(statements: Seq<Statement>, k: int) -> nat
    decreases k,
{
    if k <= 0 || k > statements.len() {
        0
    } else {
        emitted(statements, k - 1) + if emits(statements[k - 1].kind) {
            1nat
        } else {
            0nat
        }
    }
}

/// The index of the first node of the `b`-th block: the nodes of a block are
/// its statements' and then its terminator's.
pub open spec fn block_start(blocks: Seq<Block>, b: int) -> nat
    decreases b,
{
    if b <= 0 || b > blocks.len() {
        0
    } else {
        let statements = blocks[b - 1].statements@;
        block_start(blocks, b - 1) + emitted(statements, statements.len() as int) + 1
    }
}

/// The nodes of the first `k` statements of a block whose first node has index
/// `start`: each leads to the next node of the block.
pub open spec fn statements_lowered(
    statements: Seq<Statement>,
    file: Seq<char>,
    start: nat,
    k: int,
) -> Seq<WireNodeView>
    decreases k,
{
    if k <= 0 || k > statements.len() {
        Seq::empty()
    } else {
        let rest = statements_lowered(statements, file, start, k - 1);
        let s = statements[k - 1];
        if emits(s.kind) {
            let succ = (start + rest.len() + 1) as usize;
            rest.push(statement_lowered(s.kind, span_line(s.span, file), succ))
        } else {
            rest
        }
    }
}

/// The node of a terminator: each successor is the first node of the block
/// that control goes to.
pub open spec fn block_end(blocks: Seq<Block>, t: Terminator, file: Seq<char>) -> WireNodeView {
    let n = terminator_lowered(t.kind, span_line(t.span, file));
    WireNodeView {
        succs: n.succs.map_values(|b: usize| block_start(blocks, b as int) as usize),
        ..n
    }
}

/// The nodes of the first `b` blocks.
pub open spec fn blocks_lowered(blocks: Seq<Block>, file: Seq<char>, b: int) -> Seq<WireNodeView>
    decreases b,
{
    if b <= 0 || b > blocks.len() {
        Seq::empty()
    } else {
        let rest = blocks_lowered(blocks, file, b - 1);
        let statements = blocks[b - 1].statements@;
        let body = statements_lowered(
            statements,
            file,
            block_start(blocks, b - 1),
            statements.len() as int,
        );
        (rest + body).push(block_end(blocks, blocks[b - 1].terminator, file))
    }
}

/// The line of the first among the first `k` statements that become nodes and
/// have one.
pub open spec fn first_line(statements: Seq<Statement>, file: Seq<char>, k: int) -> Option<u32>
    decreases k,
{
    if k <= 0 || k > statements.len() {
        None
    } else {
        match first_line(statements, file, k - 1) {
            Some(l) => Some(l),
            None => if emits(statements[k - 1].kind) {
                span_line(statements[k - 1].span, file)
            } else {
                None
            },
        }
    }
}

/// The first such line of the first `b` blocks.
pub open spec fn first_block_line(blocks: Seq<Block>, file: Seq<char>, b: int) -> Option<u32>
    decreases b,
{
    if b <= 0 || b > blocks.len() {
        None
    } else {
        match first_block_line(blocks, file, b - 1) {
            Some(l) => Some(l),
            None => {
                let statements = blocks[b - 1].statements@;
                first_line(statements, file, statements.len() as int)
            },
        }
    }
}

/// What a body is lowered to.
pub open spec fn body_lowered(name: Seq<char>, body: MirBody) -> WireFunctionView {
    let n = body.blocks@.len() as int;
    let file = body.span.file@;
    WireFunctionView {
        file,
        name,
        signature: Seq::empty(),
        decl_line: match first_block_line(body.blocks@, file, n) {
            Some(l) => Some(l),
            None => if body.span.start_line <= u32::MAX {
                Some(body.span.start_line as u32)
            } else {
                None
            },
        },
        entry: 0,
        nodes: blocks_lowered(body.blocks@, file, n),
    }
}

/// Whether every block that control goes to exists.
pub open spec fn targets_exist(body: MirBody) -> bool {
    forall|b: int, k: int|
        0 <= b < body.blocks@.len() && 0 <= k < terminator_lowered(
            (#[trigger] body.blocks@[b]).terminator.kind,
            None,
        ).succs.len() ==> #[trigger] terminator_lowered(
            body.blocks@[b].terminator.kind,
            None,
        ).succs[k] < body.blocks@.len()
}

fn place_local(p: &Place) -> (r: u32)
    ensures
        r == p.var(),
{
    #[verifier::truncate]
    (p.local as u32)
}

fn place_is_escape(p: &Place) -> (r: bool)
    ensures
        r == p.escapes(),
{
    let mut k: usize = 0;
    while k < p.projection.len()
        invariant
            k <= p.projection.len(),
            forall|j: int| 0 <= j < k ==> #[trigger] p.projection@[j] != Projection::Deref,
        decreases p.projection.len() - k,
    {
        if p.projection[k] == Projection::Deref {
            return true;
        }
        k += 1;
    }
    false
}

fn add_use(out: &mut Vec<u32>, v: u32)
    ensures
        final(out)@ == with_use(old(out)@, v),
{
    let mut k: usize = 0;
    while k < out.len()
        invariant
            k <= out.len(),
            out@ == old(out)@,
            forall|j: int| 0 <= j < k ==> #[trigger] out@[j] != v,
        decreases out.len() - k,
    {
        if out[k] == v {
            return ;
        }
        k += 1;
    }
    out.push(v);
}

/// Adds what an operand reads.
fn operand_uses(op: &Operand, out: &mut Vec<u32>)
    ensures
        final(out)@ == with_operand(old(out)@, *op),
{
    match op {
        Operand::Copy(p) | Operand::Move(p) => add_use(out, place_local(p)),
        Operand::Constant(_) | Operand::RuntimeChecks => {},
    }
}

fn all_operand_uses(ops: &Vec<Operand>) -> (r: Vec<u32>)
    ensures
        r@ == with_operands(Seq::empty(), ops@, ops@.len() as int),
{
    let mut out: Vec<u32> = Vec::new();
    let mut k: usize = 0;
    while k < ops.len()
        invariant
            k <= ops.len(),
            out@ == with_operands(Seq::empty(), ops@, k as int),
        decreases ops.len() - k,
    {
        operand_uses(&ops[k], &mut out);
        k += 1;
    }
    out
}

/// What an assigned value reads.
pub fn rvalue_uses(rv: &Rvalue) -> (r: Vec<u32>)
    ensures
        r@ == value_uses(*rv),
{
    let mut out: Vec<u32> = Vec::new();
    match rv {
        Rvalue::Use(op) | Rvalue::Repeat(op) | Rvalue::Cast(op) | Rvalue::UnaryOp(op) => {
            operand_uses(op, &mut out);
        },
        Rvalue::BinaryOp(a, b) | Rvalue::CheckedBinaryOp(a, b) => {
            operand_uses(a, &mut out);
            operand_uses(b, &mut out);
        },
        Rvalue::Ref(p) | Rvalue::AddressOf(p) | Rvalue::Len(p) | Rvalue::Discriminant(p)
        | Rvalue::CopyForDeref(p) => {
            out.push(place_local(p));
            assert(out@ =~= seq![p.var()]);
        },
        Rvalue::Aggregate(ops) => {
            return all_operand_uses(ops);
        },
        Rvalue::ThreadLocalRef | Rvalue::Other => {},
    }
    out
}

fn callee_name(func: &Operand) -> (r: String)
    ensures
        r@ == callee_of(*func),
{
    match func {
        Operand::Constant(Some(name)) => name.clone(),
        _ => "<dynamic>".to_owned(),
    }
}

fn line_of(span: &MirSpan, local_file: &str) -> (r: Option<u32>)
    ensures
        r == span_line(*span, local_file@),
{
    if same(span.file.as_str(), local_file) && span.start_line <= 0xffff_ffff {
        Some(span.start_line as u32)
    } else {
        None
    }
}

fn emit_statement(k: &StatementKind) -> (r: bool)
    ensures
        r == emits(*k),
{
    match k {
        StatementKind::Assign(_, _) | StatementKind::SetDiscriminant(_)
        | StatementKind::Intrinsic => true,
        StatementKind::Other => false,
    }
}

/// Lowers a statement that becomes a node.
pub fn lower_statement(k: &StatementKind, line: Option<u32>, succ: usize) -> (r: WireNode)
    ensures
        r@ == statement_lowered(*k, line, succ),
{
    let succs: Vec<usize> = vec![succ];
    assert(succs@ =~= seq![succ]);
    match k {
        StatementKind::Assign(place, rv) => {
            let uses = rvalue_uses(rv);
            let local: u32 = place_local(place);
            if place_is_escape(place) {
                let mut all: Vec<u32> = vec![local];
                assert(all@ =~= seq![local]);
                let mut j: usize = 0;
                while j < uses.len()
                    invariant
                        j <= uses.len(),
                        all@ == with_uses(seq![local], uses@, j as int),
                    decreases uses.len() - j,
                {
                    add_use(&mut all, uses[j]);
                    j += 1;
                }
                WireNode {
                    line,
                    kind: WireKind::StateWrite { target: "*deref".to_owned() },
                    defs: Vec::new(),
                    uses: all,
                    succs,
                    label: "assign-deref".to_owned(),
                }
            } else {
                let defs: Vec<u32> = vec![local];
                assert(defs@ =~= seq![local]);
                WireNode {
                    line,
                    kind: WireKind::Pure,
                    defs,
                    uses,
                    succs,
                    label: "assign".to_owned(),
                }
            }
        },
        StatementKind::SetDiscriminant(place) => {
            let local: u32 = place_local(place);
            let defs: Vec<u32> = vec![local];
            assert(defs@ =~= seq![local]);
            WireNode {
                line,
                kind: WireKind::Pure,
                defs,
                uses: Vec::new(),
                succs,
                label: "set-discriminant".to_owned(),
            }
        },
        StatementKind::Intrinsic | StatementKind::Other => WireNode {
            line,
            kind: WireKind::Pure,
            defs: Vec::new(),
            uses: Vec::new(),
            succs,
            label: "intrinsic".to_owned(),
        },
    }
}

fn end_node(
    line: Option<u32>,
    kind: WireKind,
    uses: Vec<u32>,
    succs: Vec<usize>,
    label: &str,
) -> (r: WireNode)
    ensures
        r@ == (WireNodeView {
            line,
            kind: kind@,
            defs: Seq::empty(),
            uses: uses@,
            succs: succs@,
            label: label@,
        }),
{
    let r = WireNode { line, kind, defs: Vec::new(), uses, succs, label: label.to_owned() };
    assert(r.defs@ =~= Seq::empty());
    r
}

fn one_target(target: usize) -> (r: Vec<usize>)
    ensures
        r@ == seq![target],
{
    let r: Vec<usize> = vec![target];
    assert(r@ =~= seq![target]);
    r
}

fn copied(v: &Vec<usize>) -> (r: Vec<usize>)
    ensures
        r@ == v@,
{
    let mut out: Vec<usize> = Vec::new();
    let mut k: usize = 0;
    while k < v.len()
        invariant
            k <= v.len(),
            out@ =~= v@.take(k as int),
        decreases v.len() - k,
    {
        out.push(v[k]);
        k += 1;
    }
    assert(out@ =~= v@);
    out
}

/// Lowers a terminator, its successors still blocks. The unwind side is left
/// out.
pub fn lower_terminator(k: &TerminatorKind, line: Option<u32>) -> (r: WireNode)
    ensures
        r@ == terminator_lowered(*k, line),
{
    let none: Vec<u32> = Vec::new();
    let nowhere: Vec<usize> = Vec::new();
    assert(none@ =~= Seq::empty());
    assert(nowhere@ =~= Seq::empty());
    match k {
        TerminatorKind::Goto { target } => end_node(
            line,
            WireKind::Pure,
            none,
            one_target(*target),
            "goto",
        ),
        TerminatorKind::SwitchInt { discr, branches, otherwise } => {
            let mut uses = none;
            operand_uses(discr, &mut uses);
            let mut succs = copied(branches);
            succs.push(*otherwise);
            end_node(line, WireKind::Branch, uses, succs, "switch")
        },
        TerminatorKind::Return => {
            let uses: Vec<u32> = vec![0u32];
            assert(uses@ =~= seq![0u32]);
            end_node(line, WireKind::Return, uses, nowhere, "return")
        },
        TerminatorKind::Unreachable | TerminatorKind::Abort => end_node(
            line,
            WireKind::Pure,
            none,
            nowhere,
            "unreachable",
        ),
        TerminatorKind::Resume => end_node(line, WireKind::Pure, none, nowhere, "resume"),
        TerminatorKind::Drop { place, target } => {
            let local: u32 = place_local(place);
            let uses: Vec<u32> = vec![local];
            assert(uses@ =~= seq![local]);
            let kind = WireKind::Call { callee: "drop".to_owned(), opacity: "opaque".to_owned() };
            end_node(line, kind, uses, one_target(*target), "drop")
        },
        TerminatorKind::Call { func, args, destination, target } => {
            let callee = callee_name(func);
            let label = callee.clone();
            let local: u32 = place_local(destination);
            let defs: Vec<u32> = vec![local];
            assert(defs@ =~= seq![local]);
            let succs = match target {
                Some(t) => one_target(*t),
                None => nowhere,
            };
            WireNode {
                line,
                kind: WireKind::Call { callee, opacity: "opaque".to_owned() },
                defs,
                uses: all_operand_uses(args),
                succs,
                label,
            }
        },
        TerminatorKind::Assert { cond, target } => {
            let mut uses = none;
            operand_uses(cond, &mut uses);
            end_node(line, WireKind::Branch, uses, one_target(*target), "assert")
        },
        TerminatorKind::InlineAsm => end_node(line, WireKind::Pure, none, nowhere, "asm"),
    }
}

proof fn lemma_block_start(blocks: Seq<Block>, file: Seq<char>, b: int)
    requires
        0 <= b <= blocks.len(),
    ensures
        blocks_lowered(blocks, file, b).len() == block_start(blocks, b),
    decreases b,
{
    if b > 0 {
        lemma_block_start(blocks, file, b - 1);
        let statements = blocks[b - 1].statements@;
        lemma_statements_len(
            statements,
            file,
            block_start(blocks, b - 1),
            statements.len() as int,
        );
    }
}

proof fn lemma_statements_len(statements: Seq<Statement>, file: Seq<char>, start: nat, k: int)
    requires
        0 <= k <= statements.len(),
    ensures
        statements_lowered(statements, file, start, k).len() == emitted(statements, k),
    decreases k,
{
    if k > 0 {
        lemma_statements_len(statements, file, start, k - 1);
    }
}

proof fn lemma_block_start_grows(blocks: Seq<Block>, a: int, b: int)
    requires
        0 <= a < b <= blocks.len(),
    ensures
        block_start(blocks, a) < block_start(blocks, b),
    decreases b - a,
{
    if a < b - 1 {
        lemma_block_start_grows(blocks, a, b - 1);
    }
}

/// Every successor of a lowered body is one of its nodes: a statement leads to
/// the next node of its block, and a terminator to the first node of a block.
pub proof fn successors_are_nodes(body: MirBody, name: Seq<char>, i: int, j: int)
    requires
        targets_exist(body),
        block_start(body.blocks@, body.blocks@.len() as int) <= usize::MAX,
        0 <= i < body_lowered(name, body).nodes.len(),
        0 <= j < body_lowered(name, body).nodes[i].succs.len(),
    ensures
        body_lowered(name, body).nodes[i].succs[j] < body_lowered(name, body).nodes.len(),
{
    let n = body.blocks@.len() as int;
    lemma_block_start(body.blocks@, body.span.file@, n);
    lemma_succs(body, n, i, j);
}

proof fn lemma_succs(body: MirBody, b: int, i: int, j: int)
    requires
        targets_exist(body),
        0 <= b <= body.blocks@.len(),
        block_start(body.blocks@, body.blocks@.len() as int) <= usize::MAX,
        0 <= i < blocks_lowered(body.blocks@, body.span.file@, b).len(),
        0 <= j < blocks_lowered(body.blocks@, body.span.file@, b)[i].succs.len(),
    ensures
        blocks_lowered(body.blocks@, body.span.file@, b)[i].succs[j] < block_start(
            body.blocks@,
            body.blocks@.len() as int,
        ),
    decreases b,
{
    let blocks = body.blocks@;
    let file = body.span.file@;
    let n = blocks.len() as int;
    if b > 0 {
        let rest = blocks_lowered(blocks, file, b - 1);
        let statements = blocks[b - 1].statements@;
        let start = block_start(blocks, b - 1);
        let inner = statements_lowered(statements, file, start, statements.len() as int);
        lemma_block_start(blocks, file, b - 1);
        lemma_statements_len(statements, file, start, statements.len() as int);
        if b < n {
            lemma_block_start_grows(blocks, b, n);
        }
        if i < rest.len() {
            lemma_succs(body, b - 1, i, j);
        } else if i < rest.len() + inner.len() {
            lemma_statement_succs(statements, file, start, statements.len() as int, i - rest.len());
        } else {
            let t = blocks[b - 1].terminator;
            let here = terminator_lowered(t.kind, span_line(t.span, file));
            assert(here.succs == terminator_lowered(t.kind, None).succs);
            assert(terminator_lowered(blocks[b - 1].terminator.kind, None).succs[j] < n);
            lemma_block_start_grows(blocks, here.succs[j] as int, n);
        }
    }
}

proof fn lemma_statement_succs(
    statements: Seq<Statement>,
    file: Seq<char>,
    start: nat,
    k: int,
    i: int,
)
    requires
        0 <= k <= statements.len(),
        0 <= i < statements_lowered(statements, file, start, k).len(),
        start + emitted(statements, k) <= usize::MAX,
    ensures
        statements_lowered(statements, file, start, k)[i].succs == seq![(start + i + 1) as usize],
        i < emitted(statements, k),
    decreases k,
{
    lemma_statements_len(statements, file, start, k);
    if k > 0 {
        let rest = statements_lowered(statements, file, start, k - 1);
        lemma_statements_len(statements, file, start, k - 1);
        if i < rest.len() {
            lemma_statement_succs(statements, file, start, k - 1, i);
        }
    }
}

/// The nodes of a block's statements, put behind those of the blocks before.
fn lower_statements(
    statements: &Vec<Statement>,
    file: &str,
    nodes: &mut Vec<WireNode>,
) -> (r: Option<u32>)
    ensures
        wire_nodes(final(nodes)@) == wire_nodes(old(nodes)@) + statements_lowered(
            statements@,
            file@,
            old(nodes)@.len(),
            statements@.len() as int,
        ),
        r == first_line(statements@, file@, statements@.len() as int),
{
    let ghost before = wire_nodes(nodes@);
    let ghost start = nodes@.len();
    let mut line: Option<u32> = None;
    let mut k: usize = 0;
    assert(wire_nodes(nodes@) =~= before + Seq::empty());
    while k < statements.len()
        invariant
            k <= statements.len(),
            before.len() == start,
            wire_nodes(nodes@) == before + statements_lowered(
                statements@,
                file@,
                start,
                k as int,
            ),
            line == first_line(statements@, file@, k as int),
        decreases statements.len() - k,
    {
        let s = &statements[k];
        if emit_statement(&s.kind) {
            let here: Option<u32> = line_of(&s.span, file);
            if line.is_none() {
                line = here;
            }
            let ghost old_nodes = nodes@;
            let ghost rest = statements_lowered(statements@, file@, start, k as int);
            assert(nodes@.len() == wire_nodes(nodes@).len());
            nodes.push(lower_statement(&s.kind, here, 0));
            let at: usize = nodes.len();
            nodes[at - 1].succs = one_target(at);
            let ghost node = statement_lowered(s.kind, here, at);
            assert(nodes@[at - 1]@ =~= node);
            assert(wire_nodes(nodes@) =~= wire_nodes(old_nodes).push(node));
            assert(wire_nodes(nodes@) =~= before + rest.push(node));
        }
        k += 1;
    }
    line
}

/// The nodes of all blocks, the successors of terminators still blocks.
spec fn blocks_listed(blocks: Seq<Block>, file: Seq<char>, b: int) -> Seq<WireNodeView>
    decreases b,
{
    if b <= 0 || b > blocks.len() {
        Seq::empty()
    } else {
        let rest = blocks_listed(blocks, file, b - 1);
        let statements = blocks[b - 1].statements@;
        let body = statements_lowered(
            statements,
            file,
            block_start(blocks, b - 1),
            statements.len() as int,
        );
        let t = blocks[b - 1].terminator;
        (rest + body).push(terminator_lowered(t.kind, span_line(t.span, file)))
    }
}

proof fn lemma_listed_len(blocks: Seq<Block>, file: Seq<char>, b: int)
    requires
        0 <= b <= blocks.len(),
    ensures
        blocks_listed(blocks, file, b).len() == block_start(blocks, b),
    decreases b,
{
    if b > 0 {
        lemma_listed_len(blocks, file, b - 1);
        let statements = blocks[b - 1].statements@;
        lemma_statements_len(
            statements,
            file,
            block_start(blocks, b - 1),
            statements.len() as int,
        );
    }
}

/// The lists with and without blocks resolved differ at terminators only.
proof fn lemma_listed(blocks: Seq<Block>, file: Seq<char>, b: int, i: int)
    requires
        0 <= b <= blocks.len(),
        0 <= i < block_start(blocks, b),
    ensures
        blocks_listed(blocks, file, b).len() == block_start(blocks, b),
        blocks_lowered(blocks, file, b).len() == block_start(blocks, b),
        (forall|c: int| 0 < c <= b ==> #[trigger] block_start(blocks, c) != i + 1)
            ==> blocks_lowered(blocks, file, b)[i] == blocks_listed(blocks, file, b)[i],
        forall|c: int|
            0 < c <= b && #[trigger] block_start(blocks, c) == i + 1 ==> blocks_lowered(
                blocks,
                file,
                b,
            )[i] == block_end(blocks, blocks[c - 1].terminator, file),
    decreases b,
{
    lemma_listed_len(blocks, file, b);
    lemma_block_start(blocks, file, b);
    lemma_listed_len(blocks, file, b - 1);
    lemma_block_start(blocks, file, b - 1);
    if i < block_start(blocks, b - 1) {
        lemma_listed(blocks, file, b - 1, i);
        assert forall|c: int|
            0 < c <= b && #[trigger] block_start(blocks, c) == i + 1 implies blocks_lowered(
            blocks,
            file,
            b,
        )[i] == block_end(blocks, blocks[c - 1].terminator, file) by {
            if c == b {
                lemma_block_start_grows(blocks, b - 1, b);
            }
        }
    } else {
        assert forall|c: int|
            0 < c <= b && #[trigger] block_start(blocks, c) == i + 1 implies blocks_lowered(
            blocks,
            file,
            b,
        )[i] == block_end(blocks, blocks[c - 1].terminator, file) by {
            if c < b {
                if c < b - 1 {
                    lemma_block_start_grows(blocks, c, b - 1);
                }
            }
        }
        if i == block_start(blocks, b) - 1 {
            assert(block_start(blocks, b) == i + 1);
        }
    }
}

/// Turns the blocks that a terminator leads to into their first nodes.
fn resolve_blocks(succs: &Vec<usize>, starts: &Vec<usize>, Ghost(blocks): Ghost<Seq<Block>>) -> (r:
    Vec<usize>)
    requires
        starts@.len() == blocks.len(),
        forall|b: int| 0 <= b < blocks.len() ==> #[trigger] starts@[b] == block_start(blocks, b),
        forall|k: int| 0 <= k < succs@.len() ==> #[trigger] succs@[k] < blocks.len(),
    ensures
        r@ == succs@.map_values(|b: usize| block_start(blocks, b as int) as usize),
{
    let mut out: Vec<usize> = Vec::new();
    let mut k: usize = 0;
    while k < succs.len()
        invariant
            k <= succs.len(),
            starts@.len() == blocks.len(),
            forall|b: int|
                0 <= b < blocks.len() ==> #[trigger] starts@[b] == block_start(blocks, b),
            forall|k: int| 0 <= k < succs@.len() ==> #[trigger] succs@[k] < blocks.len(),
            out@.len() == k,
            forall|j: int|
                0 <= j < k ==> #[trigger] out@[j] == block_start(blocks, succs@[j] as int),
        decreases succs.len() - k,
    {
        assert(succs@[k as int] < blocks.len());
        let b: usize = succs[k];
        assert(starts@[b as int] == block_start(blocks, b as int));
        out.push(starts[b]);
        k += 1;
    }
    assert(out@ =~= succs@.map_values(|b: usize| block_start(blocks, b as int) as usize));
    out
}

/// Whether every block that control goes to exists.
pub fn has_targets(body: &MirBody) -> (r: bool)
    ensures
        r == targets_exist(*body),
{
    let n: usize = body.blocks.len();
    let mut b: usize = 0;
    while b < n
        invariant
            b <= n,
            n == body.blocks@.len(),
            forall|c: int, k: int|
                0 <= c < b && 0 <= k < terminator_lowered(
                    (#[trigger] body.blocks@[c]).terminator.kind,
                    None,
                ).succs.len() ==> #[trigger] terminator_lowered(
                    body.blocks@[c].terminator.kind,
                    None,
                ).succs[k] < n,
        decreases n - b,
    {
        let end = lower_terminator(&body.blocks[b].terminator.kind, None);
        let ghost here = terminator_lowered(body.blocks@[b as int].terminator.kind, None);
        let mut k: usize = 0;
        while k < end.succs.len()
            invariant
                k <= end.succs.len(),
                b < n,
                n == body.blocks@.len(),
                here == terminator_lowered(body.blocks@[b as int].terminator.kind, None),
                end.succs@ == here.succs,
                forall|j: int| 0 <= j < k ==> #[trigger] here.succs[j] < n,
            decreases end.succs.len() - k,
        {
            if end.succs[k] >= n {
                assert(here.succs[k as int] >= n);
                return false;
            }
            k += 1;
        }
        b += 1;
    }
    true
}

/// Lowers a body: one node per statement that becomes one and per terminator,
/// block by block.
pub fn lower_body(name: &str, body: &MirBody) -> (r: WireFunction)
    requires
        targets_exist(*body),
    ensures
        r@ == body_lowered(name@, *body),
{
    let file = body.span.file.as_str();
    let blocks = &body.blocks;
    let ghost bs = blocks@;
    let mut nodes: Vec<WireNode> = Vec::new();
    let mut starts: Vec<usize> = Vec::new();
    let mut line: Option<u32> = None;
    let mut b: usize = 0;
    assert(wire_nodes(nodes@) =~= Seq::empty());
    while b < blocks.len()
        invariant
            b <= blocks.len(),
            bs == blocks@,
            wire_nodes(nodes@) == blocks_listed(bs, file@, b as int),
            starts@.len() == b,
            forall|c: int| 0 <= c < b ==> #[trigger] starts@[c] == block_start(bs, c),
            line == first_block_line(bs, file@, b as int),
        decreases blocks.len() - b,
    {
        proof {
            lemma_listed_len(bs, file@, b as int);
            assert(nodes@.len() == wire_nodes(nodes@).len());
        }
        starts.push(nodes.len());
        let block = &blocks[b];
        let here: Option<u32> = lower_statements(&block.statements, file, &mut nodes);
        if line.is_none() {
            line = here;
        }
        let ghost before = nodes@;
        let end = lower_terminator(
            &block.terminator.kind,
            line_of(&block.terminator.span, file),
        );
        let ghost ev = end@;
        nodes.push(end);
        assert(wire_nodes(nodes@) =~= wire_nodes(before).push(ev));
        b += 1;
    }
    let n: usize = blocks.len();
    let ghost listed = wire_nodes(nodes@);
    proof {
        lemma_listed_len(bs, file@, n as int);
        assert(nodes@.len() == listed.len());
    }
    let mut b: usize = 0;
    while b < n
        invariant
            b <= n,
            n == bs.len(),
            bs == body.blocks@,
            file@ == body.span.file@,
            targets_exist(*body),
            starts@.len() == n,
            forall|c: int| 0 <= c < n ==> #[trigger] starts@[c] == block_start(bs, c),
            listed == blocks_listed(bs, file@, n as int),
            nodes@.len() == block_start(bs, n as int),
            forall|i: int|
                0 <= i < nodes@.len() && (forall|c: int|
                    0 < c <= b ==> #[trigger] block_start(bs, c) != i + 1)
                    ==> (#[trigger] nodes@[i])@ == listed[i],
            forall|c: int|
                0 < c <= b ==> nodes@[block_start(bs, c) - 1]@ == block_end(
                    bs,
                    (#[trigger] bs[c - 1]).terminator,
                    file@,
                ),
        decreases n - b,
    {
        let at: usize = if b + 1 < n {
            starts[b + 1]
        } else {
            nodes.len()
        };
        proof {
            assert(at == block_start(bs, b + 1));
            lemma_block_start_grows(bs, b as int, b + 1);
            if b + 1 < n {
                lemma_block_start_grows(bs, b + 1, n as int);
            }
            assert forall|c: int| 0 < c <= b implies #[trigger] block_start(bs, c) != at by {
                lemma_block_start_grows(bs, c, b + 1);
            }
            lemma_listed_at(bs, file@, n as int, b + 1);
        }
        let ghost before = nodes@;
        let ghost t = bs[b as int].terminator;
        let ghost raw = terminator_lowered(t.kind, span_line(t.span, file@));
        assert(nodes@[at - 1]@ == listed[at - 1]);
        assert(listed[at - 1] == raw);
        proof {
            assert(raw.succs == terminator_lowered(t.kind, None).succs);
            assert forall|k: int| 0 <= k < raw.succs.len() implies #[trigger] raw.succs[k] < n by {
                assert(terminator_lowered(bs[b as int].terminator.kind, None).succs[k] < n);
            }
        }
        let succs = resolve_blocks(&nodes[at - 1].succs, &starts, Ghost(bs));
        nodes[at - 1].succs = succs;
        proof {
            assert(nodes@[at - 1]@ =~= block_end(bs, t, file@));
            assert forall|c: int| 0 < c <= b + 1 implies nodes@[block_start(bs, c) - 1]@
                == block_end(bs, (#[trigger] bs[c - 1]).terminator, file@) by {
                if c <= b {
                    lemma_block_start_grows(bs, c - 1, c);
                    lemma_block_start_grows(bs, c, n as int);
                    assert(block_start(bs, c) != at);
                    assert(before[block_start(bs, c) - 1]@ == block_end(
                        bs,
                        bs[c - 1].terminator,
                        file@,
                    ));
                    assert(nodes@[block_start(bs, c) - 1] == before[block_start(bs, c) - 1]);
                }
            }
            assert forall|i: int|
                0 <= i < nodes@.len() && (forall|c: int|
                    0 < c <= b + 1 ==> #[trigger] block_start(bs, c) != i + 1) implies (
            #[trigger] nodes@[i])@ == listed[i] by {
                assert(block_start(bs, b + 1) != i + 1);
                assert(nodes@[i] == before[i]);
            }
        }
        b += 1;
    }
    proof {
        lemma_block_start(bs, file@, n as int);
        let lowered = blocks_lowered(bs, file@, n as int);
        assert forall|i: int| 0 <= i < nodes@.len() implies (#[trigger] nodes@[i])@
            == lowered[i] by {
            lemma_listed(bs, file@, n as int, i);
            if exists|c: int| 0 < c <= n && #[trigger] block_start(bs, c) == i + 1 {
                let c = choose|c: int| 0 < c <= n && #[trigger] block_start(bs, c) == i + 1;
                assert(nodes@[block_start(bs, c) - 1]@ == block_end(
                    bs,
                    bs[c - 1].terminator,
                    file@,
                ));
            }
        }
        assert(wire_nodes(nodes@) =~= lowered);
    }
    let decl_line = match line {
        Some(l) => Some(l),
        None => if body.span.start_line <= 0xffff_ffff {
            Some(body.span.start_line as u32)
        } else {
            None
        },
    };
    let r = WireFunction {
        file: file.to_owned(),
        name: name.to_owned(),
        signature: String::new(),
        decl_line,
        entry: 0,
        nodes,
    };
    assert(r@ =~= body_lowered(name@, *body));
    r
}

/// The last node of a block is its terminator's.
proof fn lemma_listed_at(blocks: Seq<Block>, file: Seq<char>, b: int, c: int)
    requires
        0 < c <= b <= blocks.len(),
    ensures
        blocks_listed(blocks, file, b)[block_start(blocks, c) - 1] == terminator_lowered(
            blocks[c - 1].terminator.kind,
            span_line(blocks[c - 1].terminator.span, file),
        ),
    decreases b,
{
    lemma_listed_len(blocks, file, b);
    lemma_listed_len(blocks, file, b - 1);
    lemma_block_start_grows(blocks, c - 1, c);
    if c < b {
        lemma_listed_at(blocks, file, b - 1, c);
        if c < b - 1 {
            lemma_block_start_grows(blocks, c, b - 1);
        }
    }
}

} // verus!
