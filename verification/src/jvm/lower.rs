//! Lowers the methods of a class.

use vstd::prelude::*;

use crate::ascending::{ids_ascend, ids_listed, lemma_ids_listed, lemma_vars_listed, put_id, put_var, vars_ascend, vars_listed};
use crate::ir::{
    node_views, CallOpacity, FunctionId, FunctionIr, FunctionView, IdView, KindView, Node, NodeKind,
    NodeView, VarId,
};
use crate::jvm::code::{
    insn_views, ArrayOp, ArrayView, Code, CodeView, Expr, ExprView, FieldOp, FieldView, Ident, Insn,
    InsnView, MethodHead, MethodView, Op, OpView,
};
use crate::jvm::smap::{covering, Resolution, ResolutionView, SourceMap, SourceMapView};
use crate::text::{joined, replace, replaced};

verus! {

/// The variable that stands for a value. The four spaces are kept apart.
pub open spec fn var_of(i: Ident) -> VarId {
    match i {
        Ident::This => 0,
        Ident::Arg(n) => (1 + n) as u32,
        Ident::Local(v) => (0x0100_0000 + v) as u32,
        Ident::CaughtException(pc) => (0x0200_0000 + pc) as u32,
    }
}

/// Different values are different variables.
pub proof fn identifiers_stay_apart(a: Ident, b: Ident)
    requires
        var_of(a) == var_of(b),
    ensures
        a == b,
{
}

fn var_id(i: Ident) -> (r: VarId)
    ensures
        r == var_of(i),
{
    match i {
        Ident::This => 0,
        Ident::Arg(n) => 1 + n as u32,
        Ident::Local(v) => 0x0100_0000 + v as u32,
        Ident::CaughtException(pc) => 0x0200_0000 + pc as u32,
    }
}

/// A binary name (`java/util/logging/Logger`) the way source writes it
/// (`java.util.logging.Logger`).
pub open spec fn source_name(name: Seq<char>) -> Seq<char> {
    replaced(name, "/"@, "."@)
}

/// Renders a binary name the way source and configuration write it: patterns
/// over callees are written by people, in the notation that people use.
fn binary_to_source(name: &str) -> (r: String)
    ensures
        r@ == source_name(name@),
{
    proof {
        reveal_strlit("/");
    }
    replace(name, "/", ".")
}

/// What a field of a class is called.
pub open spec fn field_name(owner: Seq<char>, name: Seq<char>) -> Seq<char> {
    source_name(owner) + "#"@ + name
}

/// What the expression of a definition does, and which further values the
/// classification reads: a write reads the object and the index it writes
/// through.
pub open spec fn expr_meaning(e: ExprView) -> (KindView, Seq<Ident>) {
    match e {
        ExprView::Call { owner, name } => (
            KindView::Call {
                callee: source_name(owner) + "::"@ + name,
                opacity: CallOpacity::Opaque,
            },
            Seq::empty(),
        ),
        ExprView::Closure { name } => (
            KindView::Call {
                callee: "<closure "@ + name + ">"@,
                opacity: CallOpacity::Opaque,
            },
            Seq::empty(),
        ),
        ExprView::Throw => (KindView::Throw, Seq::empty()),
        ExprView::Field(FieldView::WriteStatic { owner, name }) => (
            KindView::StateWrite { target: field_name(owner, name) },
            Seq::empty(),
        ),
        ExprView::Field(FieldView::WriteInstance { owner, name, object }) => (
            KindView::StateWrite { target: field_name(owner, name) },
            object,
        ),
        ExprView::Array(ArrayView::Write { array, index }) => (
            KindView::StateWrite { target: "<array element>"@ },
            array + index,
        ),
        ExprView::Synchronization => (
            KindView::StateWrite { target: "<monitor>"@ },
            Seq::empty(),
        ),
        _ => (KindView::Pure, Seq::empty()),
    }
}

/// What an instruction does.
pub open spec fn op_meaning(op: OpView) -> (KindView, Seq<Ident>) {
    match op {
        OpView::Nop | OpView::SubroutineRet => (KindView::Pure, Seq::empty()),
        OpView::Return => (KindView::Return, Seq::empty()),
        OpView::Jump { conditional } => if conditional {
            (KindView::Branch, Seq::empty())
        } else {
            (KindView::Pure, Seq::empty())
        },
        OpView::Switch => (KindView::Branch, Seq::empty()),
        OpView::Definition(e) => expr_meaning(e),
    }
}

fn copied(v: &Vec<Ident>) -> (r: Vec<Ident>)
    ensures
        r@ == v@,
{
    let mut out: Vec<Ident> = Vec::new();
    let mut k: usize = 0;
    while k < v.len()
        invariant
            k <= v.len(),
            out@ =~= v@.take(k as int),
        decreases v.len() - k,
    {
        out.push(v[k]);
        k += 1;
    }
    assert(out@ =~= v@);
    out
}

fn field_text(owner: &str, name: &str) -> (r: String)
    ensures
        r@ == field_name(owner@, name@),
{
    let left = joined(binary_to_source(owner).as_str(), "#");
    joined(left.as_str(), name)
}

/// Classifies the expression that drives a definition.
///
/// Every call is reported as opaque: a frontend cannot know which callees
/// carry no behavior. A closure is a call into code that is not analyzed, and
/// the captured values escape with it. A monitor is observable across threads,
/// so entering or leaving it is a change of state.
pub fn classify_expr(e: &Expr) -> (r: (NodeKind, Vec<Ident>))
    ensures
        (r.0@, r.1@) == expr_meaning(e@),
{
    match e {
        Expr::Call { owner, name } => {
            let left = joined(binary_to_source(owner.as_str()).as_str(), "::");
            let callee = joined(left.as_str(), name.as_str());
            (NodeKind::Call { callee, opacity: CallOpacity::Opaque }, Vec::new())
        },
        Expr::Closure { name } => {
            let left = joined("<closure ", name.as_str());
            let callee = joined(left.as_str(), ">");
            (NodeKind::Call { callee, opacity: CallOpacity::Opaque }, Vec::new())
        },
        Expr::Throw => (NodeKind::Throw, Vec::new()),
        Expr::Field(access) => match access {
            FieldOp::WriteStatic { owner, name } => (
                NodeKind::StateWrite { target: field_text(owner.as_str(), name.as_str()) },
                Vec::new(),
            ),
            FieldOp::WriteInstance { owner, name, object } => (
                NodeKind::StateWrite { target: field_text(owner.as_str(), name.as_str()) },
                copied(object),
            ),
            FieldOp::ReadStatic | FieldOp::ReadInstance => (NodeKind::Pure, Vec::new()),
        },
        Expr::Array(op) => match op {
            ArrayOp::Write { array, index } => {
                let mut through = copied(array);
                let mut more = copied(index);
                through.append(&mut more);
                assert(through@ =~= array@ + index@);
                (NodeKind::StateWrite { target: "<array element>".to_owned() }, through)
            },
            _ => (NodeKind::Pure, Vec::new()),
        },
        Expr::Synchronization => (
            NodeKind::StateWrite { target: "<monitor>".to_owned() },
            Vec::new(),
        ),
        Expr::Const | Expr::Math | Expr::Conversion | Expr::New | Expr::Subroutine => (
            NodeKind::Pure,
            Vec::new(),
        ),
    }
}

/// Classifies an instruction. A subroutine return is control flow left over
/// from old compilers and carries nothing of its own, like a `nop`.
pub fn classify(op: &Op) -> (r: (NodeKind, Vec<Ident>))
    ensures
        (r.0@, r.1@) == op_meaning(op@),
{
    match op {
        Op::Nop | Op::SubroutineRet => (NodeKind::Pure, Vec::new()),
        Op::Return => (NodeKind::Return, Vec::new()),
        Op::Jump { conditional } => if *conditional {
            (NodeKind::Branch, Vec::new())
        } else {
            (NodeKind::Pure, Vec::new())
        },
        Op::Switch => (NodeKind::Branch, Vec::new()),
        Op::Definition(e) => classify_expr(e),
    }
}

/// The nearest entry at or before a program counter, among the first `k` of a
/// line table: the one that starts last, and of those the greatest line.
pub open spec fn nearest(table: Seq<(u16, u16)>, pc: u16, k: int) -> Option<(u16, u16)>
    decreases k,
{
    if k <= 0 || k > table.len() {
        None
    } else {
        let rest = nearest(table, pc, k - 1);
        let e = table[k - 1];
        if e.0 > pc {
            rest
        } else {
            match rest {
                None => Some(e),
                Some(b) => if b.0 < e.0 || (b.0 == e.0 && b.1 <= e.1) {
                    Some(e)
                } else {
                    rest
                },
            }
        }
    }
}

/// The line of a program counter.
pub open spec fn line_at(table: Seq<(u16, u16)>, pc: u16) -> Option<u32> {
    match nearest(table, pc, table.len() as int) {
        Some(e) => Some(e.1 as u32),
        None => None,
    }
}

/// The entry that `line_at` takes its line from is at or before the program
/// counter, and no other such entry starts later.
pub proof fn line_comes_from_the_nearest_entry(
    table: Seq<(u16, u16)>,
    pc: u16,
    k: int,
    j: int,
)
    requires
        0 <= j < k <= table.len(),
        table[j].0 <= pc,
    ensures
        nearest(table, pc, k) matches Some(e) && table[j].0 <= e.0 <= pc && table.contains(e),
    decreases k,
{
    if j < k - 1 {
        line_comes_from_the_nearest_entry(table, pc, k - 1, j);
    } else {
        lemma_nearest(table, pc, k - 1);
    }
    assert(table.contains(table[k - 1]));
}

proof fn lemma_nearest(table: Seq<(u16, u16)>, pc: u16, k: int)
    requires
        0 <= k <= table.len(),
    ensures
        nearest(table, pc, k) matches Some(e) ==> e.0 <= pc && table.contains(e),
    decreases k,
{
    if k > 0 {
        lemma_nearest(table, pc, k - 1);
        assert(table.contains(table[k - 1]));
    }
}

/// The line for a program counter: that of the nearest table entry at or
/// before it.
pub fn line_for(table: &Vec<(u16, u16)>, pc: u16) -> (r: Option<u32>)
    ensures
        r == line_at(table@, pc),
{
    let mut best: Option<(u16, u16)> = None;
    let mut k: usize = 0;
    while k < table.len()
        invariant
            k <= table.len(),
            best == nearest(table@, pc, k as int),
        decreases table.len() - k,
    {
        let e: (u16, u16) = table[k];
        if e.0 <= pc {
            best = match best {
                None => Some(e),
                Some(b) => if b.0 < e.0 || (b.0 == e.0 && b.1 <= e.1) {
                    Some(e)
                } else {
                    Some(b)
                },
            };
        }
        k += 1;
    }
    match best {
        Some(e) => Some(e.1 as u32),
        None => None,
    }
}

/// The line table of a method: none at all is an empty one.
pub open spec fn table_of(m: MethodView) -> Seq<(u16, u16)> {
    match m.lines {
        Some(l) => l,
        None => Seq::empty(),
    }
}

/// The source line that an instruction belongs to, and whether it belongs to
/// another file's.
pub open spec fn resolved(map: Option<SourceMapView>, raw: Option<u32>) -> (Option<u32>, bool) {
    match (raw, map) {
        (Some(l), Some(m)) => match m.meaning(l) {
            ResolutionView::Resolved(line) => (Some(line), false),
            ResolutionView::Foreign(_) => (None, true),
        },
        _ => (raw, false),
    }
}

/// Whether the map gives a line a number that is a line number.
pub open spec fn line_fits(map: SourceMapView, l: u32) -> bool {
    covering(map.mappings, l as int, 0) matches Some(m) ==> m.input_line(l as int) <= u32::MAX
}

/// Whether the map gives every instruction's line a line number.
pub open spec fn code_fits(
    code: CodeView,
    table: Seq<(u16, u16)>,
    map: Option<SourceMapView>,
) -> bool {
    forall|i: int|
        0 <= i < code.insns.len() ==> (match (line_at(table, (#[trigger] code.insns[i]).pc), map) {
            (Some(l), Some(m)) => line_fits(m, l),
            _ => true,
        })
}

/// The variables of a set of values.
pub open spec fn vars_of(s: Set<Ident>) -> Set<VarId> {
    Set::new(|v: VarId| exists|i: Ident| #[trigger] s.contains(i) && var_of(i) == v)
}

/// What an instruction uses, in ascending order.
pub open spec fn uses_of(i: InsnView) -> Seq<VarId> {
    vars_listed(vars_of(i.uses + op_meaning(i.op).1.to_set()))
}

/// What an instruction defines.
pub open spec fn defs_of(i: InsnView) -> Seq<VarId> {
    match i.def {
        Some(v) => seq![var_of(Ident::Local(v))],
        None => Seq::empty(),
    }
}

/// The index of the last instruction at a program counter, among the first
/// `k`.
pub open spec fn index_of(insns: Seq<InsnView>, pc: u16, k: int) -> Option<usize>
    decreases k,
{
    if k <= 0 || k > insns.len() {
        None
    } else if insns[k - 1].pc == pc {
        Some((k - 1) as usize)
    } else {
        index_of(insns, pc, k - 1)
    }
}

/// The instructions that control can pass to behind the `i`-th, by the first
/// `k` edges. Edges from or to nowhere are dropped, and so are those of
/// exceptions: a handler is lowered, but nothing leads into it.
pub open spec fn targets(code: CodeView, i: usize, k: int) -> Set<usize>
    decreases k,
{
    if k <= 0 || k > code.edges.len() {
        Set::empty()
    } else {
        let rest = targets(code, i, k - 1);
        let n = code.insns.len() as int;
        let (a, b, exceptional) = code.edges[k - 1];
        match (index_of(code.insns, a, n), index_of(code.insns, b, n)) {
            (Some(from), Some(to)) => if from == i && !exceptional {
                rest.insert(to)
            } else {
                rest
            },
            _ => rest,
        }
    }
}

/// What the `i`-th instruction of a body is lowered to.
pub open spec fn insn_lowered(
    code: CodeView,
    table: Seq<(u16, u16)>,
    map: Option<SourceMapView>,
    i: int,
) -> NodeView {
    let insn = code.insns[i];
    NodeView {
        line: resolved(map, line_at(table, insn.pc)).0,
        kind: op_meaning(insn.op).0,
        defs: defs_of(insn),
        uses: uses_of(insn),
        succs: ids_listed(targets(code, i as usize, code.edges.len() as int)),
        label: insn.label,
    }
}

/// What a body is lowered to.
pub open spec fn code_lowered(
    code: CodeView,
    table: Seq<(u16, u16)>,
    map: Option<SourceMapView>,
) -> Seq<NodeView> {
    Seq::new(code.insns.len(), |i: int| insn_lowered(code, table, map, i))
}

/// How many of the first `k` instructions belong to another file.
pub open spec fn foreign_before(
    code: CodeView,
    table: Seq<(u16, u16)>,
    map: Option<SourceMapView>,
    k: int,
) -> nat
    decreases k,
{
    if k <= 0 || k > code.insns.len() {
        0
    } else {
        foreign_before(code, table, map, k - 1) + if resolved(
            map,
            line_at(table, code.insns[k - 1].pc),
        ).1 {
            1nat
        } else {
            0nat
        }
    }
}

/// The least line of the first `k` nodes.
pub open spec fn least_line(nodes: Seq<NodeView>, k: int) -> Option<u32>
    decreases k,
{
    if k <= 0 || k > nodes.len() {
        None
    } else {
        match (least_line(nodes, k - 1), nodes[k - 1].line) {
            (Some(a), Some(b)) => if b < a {
                Some(b)
            } else {
                Some(a)
            },
            (None, b) => b,
            (a, None) => a,
        }
    }
}

/// What a method is lowered to.
pub open spec fn method_lowered(
    m: MethodView,
    code: CodeView,
    file: Seq<char>,
    owner: Seq<char>,
    map: Option<SourceMapView>,
) -> FunctionView {
    let nodes = code_lowered(code, table_of(m), map);
    FunctionView {
        id: IdView {
            file,
            name: owner + "::"@ + m.name,
            signature: m.descriptor,
            decl_line: least_line(nodes, nodes.len() as int),
        },
        nodes,
        entry: 0,
    }
}

fn list_uses(insn: &Insn, extra: &Vec<Ident>) -> (r: Vec<VarId>)
    ensures
        r@ == vars_listed(vars_of(insn.uses@.to_set() + extra@.to_set())),
{
    let mut out: Vec<VarId> = Vec::new();
    let ghost mut seen: Set<Ident> = Set::empty();
    assert(out@.to_set() =~= vars_of(seen));
    let mut k: usize = 0;
    while k < insn.uses.len()
        invariant
            k <= insn.uses.len(),
            vars_ascend(out@),
            out@.to_set() == vars_of(seen),
            seen =~= insn.uses@.take(k as int).to_set(),
        decreases insn.uses.len() - k,
    {
        let i: Ident = insn.uses[k];
        let ghost before = out@.to_set();
        put_var(&mut out, var_id(i));
        proof {
            lemma_vars_of_insert(seen, i);
            lemma_take_to_set(insn.uses@, k as int);
            seen = seen.insert(i);
        }
        k += 1;
    }
    let mut k: usize = 0;
    assert(insn.uses@.take(insn.uses@.len() as int) =~= insn.uses@);
    assert(extra@.take(0).to_set() =~= Set::empty());
    while k < extra.len()
        invariant
            k <= extra.len(),
            vars_ascend(out@),
            out@.to_set() == vars_of(seen),
            seen =~= insn.uses@.to_set() + extra@.take(k as int).to_set(),
        decreases extra.len() - k,
    {
        let i: Ident = extra[k];
        put_var(&mut out, var_id(i));
        proof {
            lemma_vars_of_insert(seen, i);
            lemma_take_to_set(extra@, k as int);
            seen = seen.insert(i);
        }
        k += 1;
    }
    proof {
        assert(extra@.take(extra@.len() as int) =~= extra@);
        lemma_vars_listed(out@);
    }
    out
}

proof fn lemma_vars_of_insert(s: Set<Ident>, i: Ident)
    ensures
        vars_of(s.insert(i)) == vars_of(s).insert(var_of(i)),
{
    assert forall|v: VarId|
        vars_of(s.insert(i)).contains(v) == vars_of(s).insert(var_of(i)).contains(v) by {
        if v == var_of(i) {
            assert(s.insert(i).contains(i));
        }
        if vars_of(s).contains(v) {
            let j = choose|j: Ident| #[trigger] s.contains(j) && var_of(j) == v;
            assert(s.insert(i).contains(j));
        }
        if vars_of(s.insert(i)).contains(v) && v != var_of(i) {
            let j = choose|j: Ident| #[trigger] s.insert(i).contains(j) && var_of(j) == v;
            assert(s.contains(j));
        }
    }
    assert(vars_of(s.insert(i)) =~= vars_of(s).insert(var_of(i)));
}

proof fn lemma_take_to_set(q: Seq<Ident>, k: int)
    requires
        0 <= k < q.len(),
    ensures
        q.take(k + 1).to_set() == q.take(k).to_set().insert(q[k]),
{
    let a = q.take(k + 1);
    let b = q.take(k);
    assert(a =~= b.push(q[k]));
    assert forall|x: Ident| a.to_set().contains(x) == b.to_set().insert(q[k]).contains(x) by {
        if a.contains(x) {
            let j = choose|j: int| 0 <= j < a.len() && a[j] == x;
            if j < k {
                assert(b[j] == x);
            }
        }
        if b.contains(x) {
            let j = choose|j: int| 0 <= j < b.len() && b[j] == x;
            assert(a[j] == x);
        }
        assert(a[k] == q[k]);
    }
    assert(a.to_set() =~= b.to_set().insert(q[k]));
}

/// Where each program counter's instruction stands.
fn index_table(insns: &Vec<Insn>) -> (r: Vec<Option<usize>>)
    ensures
        r.len() == 0x1_0000,
        forall|pc: int|
            0 <= pc < 0x1_0000 ==> #[trigger] r@[pc] == index_of(
                insn_views(insns@),
                pc as u16,
                insns@.len() as int,
            ),
{
    let ghost v = insn_views(insns@);
    let mut out: Vec<Option<usize>> = Vec::new();
    let mut p: u32 = 0;
    while p < 0x1_0000
        invariant
            p <= 0x1_0000,
            out.len() == p,
            forall|pc: int| 0 <= pc < p ==> #[trigger] out@[pc] == None::<usize>,
        decreases 0x1_0000 - p,
    {
        out.push(None);
        p += 1;
    }
    let mut k: usize = 0;
    while k < insns.len()
        invariant
            k <= insns.len(),
            v == insn_views(insns@),
            out.len() == 0x1_0000,
            forall|pc: int|
                0 <= pc < 0x1_0000 ==> #[trigger] out@[pc] == index_of(v, pc as u16, k as int),
        decreases insns.len() - k,
    {
        assert(v[k as int].pc == insns@[k as int].pc);
        let at: usize = insns[k].pc as usize;
        out[at] = Some(k);
        assert forall|pc: int| 0 <= pc < 0x1_0000 implies #[trigger] out@[pc] == index_of(
            v,
            pc as u16,
            k + 1,
        ) by {}
        k += 1;
    }
    out
}

proof fn lemma_index_of(insns: Seq<InsnView>, pc: u16, k: int)
    requires
        0 <= k <= insns.len(),
        insns.len() <= usize::MAX,
    ensures
        index_of(insns, pc, k) matches Some(i) ==> i < k,
    decreases k,
{
    if k > 0 {
        lemma_index_of(insns, pc, k - 1);
    }
}

/// The successors of every instruction of a body.
fn list_succs(code: &Code) -> (r: Vec<Vec<usize>>)
    ensures
        r.len() == code.insns.len(),
        forall|i: int|
            0 <= i < r.len() ==> (#[trigger] r@[i])@ == ids_listed(
                targets(code@, i as usize, code@.edges.len() as int),
            ),
        forall|i: int, j: int|
            0 <= i < r.len() && 0 <= j < r@[i].len() ==> #[trigger] r@[i]@[j] < code.insns.len(),
{
    let ghost c = code@;
    let n: usize = code.insns.len();
    let index = index_table(&code.insns);
    let mut out: Vec<Vec<usize>> = Vec::new();
    let mut i: usize = 0;
    while i < n
        invariant
            i <= n,
            out.len() == i,
            forall|j: int| 0 <= j < i ==> (#[trigger] out@[j])@ == Seq::<usize>::empty(),
        decreases n - i,
    {
        out.push(Vec::new());
        i += 1;
    }
    proof {
        assert forall|j: int| 0 <= j < n implies ids_ascend((#[trigger] out@[j])@)
            && out@[j]@.to_set() == targets(c, j as usize, 0) by {
            assert(out@[j]@.to_set() =~= Set::empty());
        }
    }
    let mut k: usize = 0;
    while k < code.edges.len()
        invariant
            k <= code.edges.len(),
            c == code@,
            n == code.insns.len(),
            n == c.insns.len(),
            out.len() == n,
            index.len() == 0x1_0000,
            forall|pc: int|
                0 <= pc < 0x1_0000 ==> #[trigger] index@[pc] == index_of(
                    c.insns,
                    pc as u16,
                    n as int,
                ),
            forall|j: int|
                0 <= j < n ==> ids_ascend((#[trigger] out@[j])@) && out@[j]@.to_set() == targets(
                    c,
                    j as usize,
                    k as int,
                ),
        decreases code.edges.len() - k,
    {
        let (a, b, exceptional) = code.edges[k];
        let ghost before = out@;
        proof {
            lemma_index_of(c.insns, a, n as int);
            lemma_index_of(c.insns, b, n as int);
            assert(index@[a as int] == index_of(c.insns, a, n as int));
            assert(index@[b as int] == index_of(c.insns, b, n as int));
        }
        if let (Some(from), Some(to)) = (index[a as usize], index[b as usize]) {
            if !exceptional {
                put_id(&mut out[from], to);
            }
        }
        proof {
            assert forall|j: int| 0 <= j < n implies ids_ascend((#[trigger] out@[j])@)
                && out@[j]@.to_set() == targets(c, j as usize, k + 1) by {
                assert(ids_ascend(before[j]@) && before[j]@.to_set() == targets(
                    c,
                    j as usize,
                    k as int,
                ));
                assert(c.edges[k as int] == (a, b, exceptional));
            }
        }
        k += 1;
    }
    proof {
        assert forall|i: int| 0 <= i < n implies (#[trigger] out@[i])@ == ids_listed(
            targets(c, i as usize, c.edges.len() as int),
        ) by {
            lemma_ids_listed(out@[i]@);
        }
        assert forall|i: int, j: int| 0 <= i < n && 0 <= j < out@[i].len() implies #[trigger]
            out@[i]@[j] < n by {
            assert(out@[i]@.to_set().contains(out@[i]@[j]));
            lemma_targets(c, i as usize, c.edges.len() as int, out@[i]@[j]);
        }
    }
    out
}

proof fn lemma_targets(code: CodeView, i: usize, k: int, t: usize)
    requires
        0 <= k <= code.edges.len(),
        code.insns.len() <= usize::MAX,
        targets(code, i, k).contains(t),
    ensures
        t < code.insns.len(),
    decreases k,
{
    if k > 0 {
        let n = code.insns.len() as int;
        lemma_index_of(code.insns, code.edges[k - 1].1, n);
        if targets(code, i, k - 1).contains(t) {
            lemma_targets(code, i, k - 1, t);
        }
    }
}

/// Resolves a raw line through the map.
fn resolve(map: Option<&SourceMap>, raw: Option<u32>) -> (r: (Option<u32>, bool))
    requires
        match (raw, map) {
            (Some(l), Some(m)) => line_fits(m@, l),
            _ => true,
        },
    ensures
        r == resolved(
            match map {
                Some(m) => Some(m@),
                None => None,
            },
            raw,
        ),
{
    match (raw, map) {
        (Some(l), Some(m)) => match m.resolve(l) {
            Resolution::Resolved(line) => (Some(line), false),
            Resolution::Foreign { .. } => (None, true),
        },
        _ => (raw, false),
    }
}

pub open spec fn map_view(map: Option<&SourceMap>) -> Option<SourceMapView> {
    match map {
        Some(m) => Some(m@),
        None => None,
    }
}

fn defs(def: Option<u16>) -> (r: Vec<VarId>)
    ensures
        r@ == (match def {
            Some(v) => seq![var_of(Ident::Local(v))],
            None => Seq::empty(),
        }),
{
    let mut out: Vec<VarId> = Vec::new();
    if let Some(v) = def {
        out.push(var_id(Ident::Local(v)));
        assert(out@ =~= seq![var_of(Ident::Local(v))]);
    }
    out
}

/// Lowers one method; returns it with the number of instructions whose line
/// belongs to another file.
pub fn lower_method(
    m: &MethodHead,
    code: &Code,
    file: &str,
    owner: &str,
    map: Option<&SourceMap>,
) -> (r: (FunctionIr, usize))
    requires
        code_fits(code@, table_of(m@), map_view(map)),
    ensures
        r.0@ == method_lowered(m@, code@, file@, owner@, map_view(map)),
        r.1 == foreign_before(
            code@,
            table_of(m@),
            map_view(map),
            code@.insns.len() as int,
        ),
        code@.insns.len() > 0 ==> r.0@.valid(),
{
    let ghost c = code@;
    let ghost mv = map_view(map);
    let empty: Vec<(u16, u16)> = Vec::new();
    assert(empty@ =~= Seq::empty());
    let table: &Vec<(u16, u16)> = match &m.lines {
        Some(l) => l,
        None => &empty,
    };
    let ghost t = table_of(m@);
    assert(table@ == t);
    let succs = list_succs(code);
    let mut succs = succs;
    let ghost all = succs@;
    let mut nodes: Vec<Node> = Vec::new();
    let mut foreign: usize = 0;
    let mut least: Option<u32> = None;
    let n: usize = code.insns.len();
    let ghost lowered = code_lowered(c, t, mv);
    let mut k: usize = 0;
    while k < n
        invariant
            k <= n,
            n == code.insns.len(),
            c == code@,
            n == c.insns.len(),
            table@ == t,
            mv == map_view(map),
            code_fits(c, t, mv),
            lowered == code_lowered(c, t, mv),
            lowered.len() == n,
            succs.len() == n,
            all.len() == n,
            forall|i: int| k <= i < n ==> #[trigger] succs@[i] == all[i],
            forall|i: int|
                0 <= i < n ==> (#[trigger] all[i])@ == ids_listed(
                    targets(c, i as usize, c.edges.len() as int),
                ),
            nodes.len() == k,
            forall|i: int| 0 <= i < k ==> (#[trigger] nodes@[i])@ == lowered[i],
            foreign == foreign_before(c, t, mv, k as int),
            foreign <= k,
            least == least_line(lowered, k as int),
        decreases n - k,
    {
        let insn = &code.insns[k];
        assert(c.insns[k as int] == insn@);
        let (kind, extra) = classify(&insn.op);
        let uses = list_uses(insn, &extra);
        let raw: Option<u32> = line_for(table, insn.pc);
        let (line, other) = resolve(map, raw);
        if other {
            foreign += 1;
        }
        let mut own: Vec<usize> = Vec::new();
        std::mem::swap(&mut own, &mut succs[k]);
        let node = Node {
            line,
            kind,
            defs: defs(insn.def),
            uses,
            succs: own,
            label: insn.label.clone(),
        };
        assert(node@ =~= lowered[k as int]);
        least = match (least, line) {
            (Some(a), Some(b)) => if b < a {
                Some(b)
            } else {
                Some(a)
            },
            (None, b) => b,
            (a, None) => a,
        };
        nodes.push(node);
        k += 1;
    }
    let left = joined(owner, "::");
    let id = FunctionId {
        file: file.to_owned(),
        name: joined(left.as_str(), m.name.as_str()),
        signature: m.descriptor.clone(),
        decl_line: least,
    };
    let r = FunctionIr { id, nodes, entry: 0 };
    proof {
        assert(node_views(r.nodes@) =~= lowered);
        assert(r@ =~= method_lowered(m@, c, file@, owner@, mv));
        assert forall|i: int, j: int| 0 <= i < n && 0 <= j < lowered[i].succs.len() implies #[trigger]
            lowered[i].succs[j] < n by {
            assert(all[i]@[j] < n);
        }
    }
    (r, foreign)
}

} // verus!
