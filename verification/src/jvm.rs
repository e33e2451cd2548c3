//! JVM bytecode frontend: class files to functions.
//!
//! Lowering runs over an SSA form lifted from the stack machine, so stack
//! shuffling never reaches the analysis as spurious dataflow. The line table
//! maps instructions to lines, and a class with inlined bodies carries a source
//! map that says what those lines mean.
//!
//! Line attribution needs debug information. Without it the analysis still
//! runs, but every instruction projects onto no line.

use vstd::prelude::*;

use mokapot::ir::control_flow::ControlTransfer;
use mokapot::ir::expression::{ArrayOperation, Expression, FieldAccess};
use mokapot::ir::{Identifier, MokaIRMethod, MokaIRMethodExt, MokaInstruction};
use mokapot::jvm::code::{Instruction, ProgramCounter, WideInstruction};
use mokapot::jvm::method::AccessFlags;
use mokapot::jvm::Class;
use mokapot::types::field_type::{FieldType, PrimitiveType};
use mokapot::types::method_descriptor::ReturnType;

use crate::ir::{function_views, FunctionIr, FunctionView};
use crate::js::source::opt_text;
use crate::jvm::code::{
    code_views, method_views, ArrayOp, ArrayView, ClassHead, ClassView, Code, CodeView, Expr,
    ExprView, FieldOp, FieldView, Ident, Insn, MethodHead, MethodView, Op, OpView,
};
use crate::jvm::lifted::{body_matches, listed, LiftedView};
use crate::jvm::lower::{
    code_fits, foreign_before, line_at, line_fits, line_for, lower_method, method_lowered, table_of,
};
use crate::jvm::smap::{source_map, SourceMap, SourceMapView};
use crate::jvm::stack::{
    agree, member_text, stacks_agree, Handler, RawBody, RawBodyView, RawInsn, RawView, TypeShape,
    WideShape,
};
use crate::text::{
    bytes_of, chars_of, comes_before, lemma_bytes_injective, precedes, precedes_is_total,
    precedes_is_transitive, same,
};

pub mod code;
pub mod lifted;
pub mod lower;
pub mod smap;
pub mod stack;

verus! {

/// Something went wrong reading or lowering a class.
#[derive(Debug, Clone)]
pub enum JvmError {
    /// The bytes were not a well-formed class file.
    Parse(String),
    /// A method body could not be lifted.
    Brew {
        /// The method that failed.
        method: String,
        /// What was said of it.
        detail: String,
    },
    /// The class's source map names a line beyond the largest line number.
    Lines,
}

/// A failure as plain text.
pub enum JvmErrorView {
    Parse(Seq<char>),
    Brew { method: Seq<char>, detail: Seq<char> },
    Lines,
}

impl View for JvmError {
    type V = JvmErrorView;

    open spec fn view(&self) -> JvmErrorView {
        match *self {
            JvmError::Parse(text) => JvmErrorView::Parse(text@),
            JvmError::Brew { method, detail } => JvmErrorView::Brew {
                method: method@,
                detail: detail@,
            },
            JvmError::Lines => JvmErrorView::Lines,
        }
    }
}

/// What a lowered class carries beyond its functions.
#[derive(Debug)]
pub struct LoweredClass {
    /// Source file recorded in the class, if present.
    pub source_file: Option<String>,
    /// The binary name of the class.
    pub binary_name: String,
    /// Which stratum line numbers were resolved through, if the class carried
    /// a source map.
    pub smap_stratum: Option<String>,
    /// How many instructions were dropped because their line belonged to
    /// another source file inlined into this class.
    pub foreign_lines_dropped: usize,
    /// One entry per method with a body.
    pub functions: Vec<FunctionIr>,
}

/// A lowered class as plain values.
#[verifier::ext_equal]
pub struct LoweredView {
    pub source_file: Option<Seq<char>>,
    pub binary_name: Seq<char>,
    pub smap_stratum: Option<Seq<char>>,
    pub foreign_lines_dropped: usize,
    pub functions: Seq<FunctionView>,
}

impl View for LoweredClass {
    type V = LoweredView;

    open spec fn view(&self) -> LoweredView {
        LoweredView {
            source_file: opt_text(self.source_file),
            binary_name: self.binary_name@,
            smap_stratum: opt_text(self.smap_stratum),
            foreign_lines_dropped: self.foreign_lines_dropped,
            functions: function_views(self.functions@),
        }
    }
}

/// The text that bytes encode, if they encode one.
pub open spec fn decoded(bytes: Seq<u8>) -> Option<Seq<char>> {
    if exists|t: Seq<char>| bytes_of(t) == bytes {
        Some(choose|t: Seq<char>| bytes_of(t) == bytes)
    } else {
        None
    }
}

/// The source map of a class, if it carries one that holds a mapping.
pub open spec fn class_map(c: ClassView) -> Option<SourceMapView> {
    match c.debug_extension {
        Some(bytes) => match decoded(bytes) {
            Some(text) => source_map(text),
            None => None,
        },
        None => None,
    }
}

/// Whether a method is lowered: it has a body, and no compiler generated it to
/// forward to another method. Such a member carries a full line table pointing
/// at the lines of the real one, so every line would be analyzed twice.
pub open spec fn is_lowered(m: MethodView) -> bool {
    m.has_body && !m.synthetic && !m.bridge
}

/// The file name that functions are recorded under.
pub open spec fn class_file(c: ClassView) -> Seq<char> {
    match c.source_file {
        Some(f) => f,
        None => "<unknown>"@,
    }
}

/// The methods among the first `k` that are lowered, lowered, in the order of
/// the class. A body that could not be lifted is skipped.
pub open spec fn lowered_before(c: ClassView, code: Seq<Option<CodeView>>, k: int) -> Seq<
    FunctionView,
>
    decreases k,
{
    if k <= 0 || k > c.methods.len() {
        Seq::empty()
    } else {
        let rest = lowered_before(c, code, k - 1);
        let m = c.methods[k - 1];
        match code[k - 1] {
            Some(body) => if is_lowered(m) {
                rest.push(method_lowered(m, body, class_file(c), c.binary_name, class_map(c)))
            } else {
                rest
            },
            None => rest,
        }
    }
}

/// How many instructions of the first `k` methods belong to another file, as
/// far as a machine counts.
pub open spec fn dropped_before(c: ClassView, code: Seq<Option<CodeView>>, k: int) -> usize
    decreases k,
{
    if k <= 0 || k > c.methods.len() {
        0
    } else {
        let rest = dropped_before(c, code, k - 1);
        let m = c.methods[k - 1];
        match code[k - 1] {
            Some(body) => if is_lowered(m) {
                let sum = rest + foreign_before(
                    body,
                    table_of(m),
                    class_map(c),
                    body.insns.len() as int,
                );
                if sum > usize::MAX {
                    usize::MAX
                } else {
                    sum as usize
                }
            } else {
                rest
            },
            None => rest,
        }
    }
}

/// Whether one function comes strictly before another: an unknown declaration
/// line first, then by line, then by name, then by signature.
pub open spec fn function_before(a: FunctionView, b: FunctionView) -> bool {
    match (a.id.decl_line, b.id.decl_line) {
        (None, Some(_)) => true,
        (Some(_), None) => false,
        (Some(x), Some(y)) if x != y => x < y,
        _ => precedes(a.id.name, b.id.name) || (a.id.name == b.id.name && precedes(
            a.id.signature,
            b.id.signature,
        )),
    }
}

/// Where a function belongs among the first `n` of a list: behind the last
/// that does not come after it.
pub open spec fn place_of(list: Seq<FunctionView>, f: FunctionView, n: int) -> int
    decreases n,
{
    if n <= 0 || n > list.len() {
        0
    } else if function_before(f, list[n - 1]) {
        place_of(list, f, n - 1)
    } else {
        n
    }
}

/// The first `k` functions of a list in order, equals as they stood.
pub open spec fn ordered(v: Seq<FunctionView>, k: int) -> Seq<FunctionView>
    decreases k,
{
    if k <= 0 || k > v.len() {
        Seq::empty()
    } else {
        let rest = ordered(v, k - 1);
        let p = place_of(rest, v[k - 1], rest.len() as int);
        rest.insert(p, v[k - 1])
    }
}

/// What a class is lowered to, given its methods' lifted bodies.
pub open spec fn class_lowered(c: ClassView, code: Seq<Option<CodeView>>) -> LoweredView {
    let n = c.methods.len() as int;
    let functions = lowered_before(c, code, n);
    LoweredView {
        source_file: c.source_file,
        binary_name: c.binary_name,
        smap_stratum: match class_map(c) {
            Some(m) => Some(m.stratum),
            None => None,
        },
        foreign_lines_dropped: dropped_before(c, code, n),
        functions: ordered(functions, functions.len() as int),
    }
}

/// Whether every line that the class's source map gives an instruction is a
/// line number.
pub open spec fn class_fits(c: ClassView, code: Seq<Option<CodeView>>) -> bool {
    forall|k: int|
        0 <= k < c.methods.len() && is_lowered(#[trigger] c.methods[k]) ==> (match code[k] {
            Some(body) => code_fits(body, table_of(c.methods[k]), class_map(c)),
            None => true,
        })
}

proof fn lemma_function_before(a: FunctionView, b: FunctionView, c: FunctionView)
    ensures
        !(function_before(a, b) && function_before(b, a)),
        !function_before(b, a) && !function_before(c, b) ==> !function_before(c, a),
{
    precedes_is_total(a.id.name, b.id.name);
    precedes_is_total(b.id.name, c.id.name);
    precedes_is_total(a.id.name, c.id.name);
    precedes_is_total(a.id.signature, b.id.signature);
    precedes_is_total(b.id.signature, c.id.signature);
    precedes_is_total(a.id.signature, c.id.signature);
    if precedes(a.id.name, b.id.name) && precedes(b.id.name, c.id.name) {
        precedes_is_transitive(a.id.name, b.id.name, c.id.name);
    }
    if precedes(a.id.signature, b.id.signature) && precedes(b.id.signature, c.id.signature) {
        precedes_is_transitive(a.id.signature, b.id.signature, c.id.signature);
    }
}

proof fn lemma_place(list: Seq<FunctionView>, f: FunctionView, n: int)
    requires
        0 <= n <= list.len(),
    ensures
        0 <= place_of(list, f, n) <= n,
        place_of(list, f, n) > 0 ==> !function_before(f, list[place_of(list, f, n) - 1]),
        forall|k: int| place_of(list, f, n) <= k < n ==> function_before(f, #[trigger] list[k]),
    decreases n,
{
    if n > 0 && function_before(f, list[n - 1]) {
        lemma_place(list, f, n - 1);
    }
}

/// No function of a lowered class comes before an earlier one, so the order
/// does not depend on how the class file laid its methods out.
pub proof fn functions_come_in_order(v: Seq<FunctionView>, k: int)
    requires
        0 <= k <= v.len(),
    ensures
        ordered(v, k).len() == k,
        forall|i: int, j: int|
            0 <= i < j < k ==> !function_before(
                #[trigger] ordered(v, k)[j],
                #[trigger] ordered(v, k)[i],
            ),
    decreases k,
{
    if k > 0 {
        functions_come_in_order(v, k - 1);
        let rest = ordered(v, k - 1);
        let f = v[k - 1];
        let p = place_of(rest, f, rest.len() as int);
        lemma_place(rest, f, rest.len() as int);
        let all = rest.insert(p, f);
        assert(ordered(v, k) == all);
        assert forall|i: int, j: int| 0 <= i < j < k implies !function_before(
            #[trigger] all[j],
            #[trigger] all[i],
        ) by {
            if i == p {
                assert(all[j] == rest[j - 1]);
                lemma_function_before(f, rest[j - 1], f);
            } else if j == p {
                assert(all[i] == rest[i]);
                if i < p - 1 {
                    assert(!function_before(rest[p - 1], rest[i]));
                    lemma_function_before(rest[i], rest[p - 1], f);
                }
            } else {
                let i2 = if i < p {
                    i
                } else {
                    i - 1
                };
                let j2 = if j < p {
                    j
                } else {
                    j - 1
                };
                assert(all[i] == rest[i2] && all[j] == rest[j2]);
            }
        }
    }
}

fn optional_text(t: &Option<String>) -> (r: Option<String>)
    ensures
        opt_text(r) == opt_text(*t),
{
    match t {
        Some(s) => Some(s.clone()),
        None => None,
    }
}

fn text_before(a: &str, b: &str) -> (r: bool)
    ensures
        r == precedes(a@, b@),
{
    let x = chars_of(a);
    let y = chars_of(b);
    comes_before(x.as_slice(), y.as_slice())
}

fn comes_first(a: &FunctionIr, b: &FunctionIr) -> (r: bool)
    ensures
        r == function_before(a@, b@),
{
    match (a.id.decl_line, b.id.decl_line) {
        (None, Some(_)) => {
            return true;
        },
        (Some(_), None) => {
            return false;
        },
        (Some(x), Some(y)) => {
            if x != y {
                return x < y;
            }
        },
        (None, None) => {},
    }
    text_before(a.id.name.as_str(), b.id.name.as_str()) || (same(
        a.id.name.as_str(),
        b.id.name.as_str(),
    ) && text_before(a.id.signature.as_str(), b.id.signature.as_str()))
}

/// Puts a function at its place among ordered ones.
fn put_in_order(list: &mut Vec<FunctionIr>, f: FunctionIr)
    ensures
        function_views(final(list)@) == function_views(old(list)@).insert(
            place_of(function_views(old(list)@), f@, old(list)@.len() as int),
            f@,
        ),
{
    let ghost v = function_views(list@);
    let ghost before = list@;
    let mut p: usize = list.len();
    while p > 0 && comes_first(&f, &list[p - 1])
        invariant
            p <= list.len(),
            list@ == before,
            v == function_views(before),
            place_of(v, f@, before.len() as int) == place_of(v, f@, p as int),
        decreases p,
    {
        assert(v[p - 1] == list@[p - 1]@);
        p -= 1;
    }
    proof {
        if p > 0 {
            assert(v[p - 1] == list@[p - 1]@);
        }
    }
    list.insert(p, f);
    proof {
        assert(list@ =~= before.insert(p as int, f));
        assert(function_views(list@) =~= v.insert(p as int, f@));
    }
}

/// `std::str::from_utf8`: the text whose UTF-8 encoding the bytes are, if
/// there is one.
#[verifier::external_body]
fn utf8_text(bytes: &[u8]) -> (r: Option<&str>)
    ensures
        match r {
            Some(t) => bytes_of(t@) == bytes@,
            None => forall|t: Seq<char>| bytes_of(t) != bytes@,
        },
{
    std::str::from_utf8(bytes).ok()
}

/// Reads the source map of a class.
fn read_map(class: &ClassHead) -> (r: Option<SourceMap>)
    ensures
        match r {
            Some(m) => class_map(class@) == Some(m@),
            None => class_map(class@) is None,
        },
{
    let bytes = match &class.debug_extension {
        Some(b) => b,
        None => {
            return None;
        },
    };
    match utf8_text(bytes.as_slice()) {
        Some(text) => {
            proof {
                lemma_bytes_injective(decoded(bytes@)->0, text@);
            }
            SourceMap::parse(text)
        },
        None => None,
    }
}

/// Whether a method is lowered.
fn wanted(m: &MethodHead) -> (r: bool)
    ensures
        r == is_lowered(m@),
{
    m.has_body && !m.synthetic && !m.bridge
}

fn body_fits(m: &MethodHead, code: &Code, map: &SourceMap) -> (r: bool)
    ensures
        r == code_fits(code@, table_of(m@), Some(map@)),
{
    let ghost t = table_of(m@);
    let ghost c = code@;
    let empty: Vec<(u16, u16)> = Vec::new();
    assert(empty@ =~= Seq::empty());
    let table: &Vec<(u16, u16)> = match &m.lines {
        Some(l) => l,
        None => &empty,
    };
    assert(table@ == t);
    let mut k: usize = 0;
    while k < code.insns.len()
        invariant
            k <= code.insns.len(),
            c == code@,
            t == table_of(m@),
            table@ == t,
            forall|i: int|
                0 <= i < k ==> (match line_at(t, (#[trigger] c.insns[i]).pc) {
                    Some(l) => line_fits(map@, l),
                    None => true,
                }),
        decreases code.insns.len() - k,
    {
        assert(c.insns[k as int] == code.insns@[k as int]@);
        if let Some(l) = line_for(table, code.insns[k].pc) {
            if !map.fits_line(l) {
                assert(!line_fits(map@, l));
                return false;
            }
        }
        k += 1;
    }
    true
}

/// Whether every line that the class's source map gives an instruction is a
/// line number.
pub fn lines_fit(class: &ClassHead, code: &Vec<Option<Code>>) -> (r: bool)
    requires
        code@.len() == class.methods@.len(),
    ensures
        r == class_fits(class@, code_views(code@)),
{
    let ghost c = class@;
    let ghost bodies = code_views(code@);
    let map = match read_map(class) {
        Some(m) => m,
        None => {
            return true;
        },
    };
    let mut k: usize = 0;
    while k < class.methods.len()
        invariant
            k <= class.methods.len(),
            code@.len() == class.methods@.len(),
            c == class@,
            bodies == code_views(code@),
            class_map(c) == Some(map@),
            forall|i: int|
                0 <= i < k && is_lowered(#[trigger] c.methods[i]) ==> (match bodies[i] {
                    Some(body) => code_fits(body, table_of(c.methods[i]), class_map(c)),
                    None => true,
                }),
        decreases class.methods.len() - k,
    {
        assert(c.methods[k as int] == class.methods@[k as int]@);
        assert(bodies[k as int] == (match code@[k as int] {
            Some(b) => Some(b@),
            None => None,
        }));
        if wanted(&class.methods[k]) {
            if let Some(body) = &code[k] {
                if !body_fits(&class.methods[k], body, &map) {
                    return false;
                }
            }
        }
        k += 1;
    }
    true
}

/// Lowers every method of a class that has a body and is not generated. A
/// method whose body could not be lifted is skipped rather than failing the
/// class: one such method should not cost the caller every other method in the
/// file. Exceptions lead nowhere: a handler is lowered, but nothing leads into
/// it.
pub fn lower_methods(class: &ClassHead, code: &Vec<Option<Code>>) -> (r: LoweredClass)
    requires
        code@.len() == class.methods@.len(),
        class_fits(class@, code_views(code@)),
    ensures
        r@ == class_lowered(class@, code_views(code@)),
{
    let ghost c = class@;
    let ghost bodies = code_views(code@);
    let map = read_map(class);
    let ghost mv = class_map(c);
    let file = match &class.source_file {
        Some(f) => f.clone(),
        None => "<unknown>".to_owned(),
    };
    let mut functions: Vec<FunctionIr> = Vec::new();
    let mut dropped: usize = 0;
    let mut k: usize = 0;
    assert(function_views(functions@) =~= Seq::empty());
    while k < class.methods.len()
        invariant
            k <= class.methods.len(),
            code@.len() == class.methods@.len(),
            c == class@,
            bodies == code_views(code@),
            class_fits(c, bodies),
            file@ == class_file(c),
            mv == class_map(c),
            mv == (match map {
                Some(m) => Some(m@),
                None => None,
            }),
            functions@.len() == lowered_before(c, bodies, k as int).len(),
            function_views(functions@) == ordered(
                lowered_before(c, bodies, k as int),
                functions@.len() as int,
            ),
            dropped == dropped_before(c, bodies, k as int),
        decreases class.methods.len() - k,
    {
        assert(c.methods[k as int] == class.methods@[k as int]@);
        assert(bodies[k as int] == (match code@[k as int] {
            Some(b) => Some(b@),
            None => None,
        }));
        let m = &class.methods[k];
        if wanted(m) {
            if let Some(body) = &code[k] {
                let (ir, foreign) = lower_method(
                    m,
                    body,
                    file.as_str(),
                    class.binary_name.as_str(),
                    map.as_ref(),
                );
                let ghost found = lowered_before(c, bodies, k as int);
                proof {
                    lemma_ordered_prefix(found, ir@, found.len() as int);
                    functions_come_in_order(found, found.len() as int);
                    assert(found.push(ir@)[found.len() as int] == ir@);
                    let listed = function_views(functions@);
                    lemma_place(listed, ir@, listed.len() as int);
                }
                put_in_order(&mut functions, ir);
                assert(functions@.len() == function_views(functions@).len());
                let room: usize = usize::MAX - dropped;
                dropped = if foreign > room {
                    usize::MAX
                } else {
                    dropped + foreign
                };
            }
        }
        k += 1;
    }
    let smap_stratum = match &map {
        Some(m) => Some(m.stratum().to_owned()),
        None => None,
    };
    let r = LoweredClass {
        source_file: optional_text(&class.source_file),
        binary_name: class.binary_name.clone(),
        smap_stratum,
        foreign_lines_dropped: dropped,
        functions,
    };
    assert(r@ =~= class_lowered(c, bodies));
    r
}

/// A parsed class file: opaque here but for what it says.
#[verifier::external_type_specification]
#[verifier::external_body]
pub struct ExClass(mokapot::jvm::Class);

/// A lifted method body: opaque here but for what it holds.
#[verifier::external_type_specification]
#[verifier::external_body]
pub struct ExMokaIRMethod(mokapot::ir::MokaIRMethod);

/// What a parsed class says: of itself and its methods, and each method's
/// bytecode, which is empty where there is none.
#[verifier::ext_equal]
pub struct ParsedView {
    pub head: ClassView,
    pub bytecode: Seq<RawBodyView>,
}

/// What a parsed class says.
pub uninterp spec fn class_in(class: Class) -> ParsedView;

/// What a lifted body holds: whose it is, its program counters in ascending
/// order, the instruction at each, and the edges of its control flow graph.
pub uninterp spec fn body_in(body: MokaIRMethod) -> LiftedView;

/// The class that a class file's bytes hold, if the parser takes them for one.
pub uninterp spec fn class_read(bytes: Seq<u8>) -> Option<ParsedView>;

/// Whether lifting the body of a class's `k`-th method can come to a result: a
/// lifted body, or none where it fails.
pub uninterp spec fn may_lift(c: ParsedView, k: int, r: Option<LiftedView>) -> bool;

/// Which instruction an operation is.
#[derive(Debug, Clone, Copy, PartialEq, Eq, Structural)]
pub enum Shape {
    Nop,
    Definition,
    Jump { conditional: bool },
    Switch,
    Return,
    SubroutineRet,
}

/// Which expression a definition evaluates.
#[derive(Debug, Clone, Copy, PartialEq, Eq, Structural)]
pub enum ExprShape {
    Const,
    Call,
    Closure,
    Math,
    Field,
    Array,
    Conversion,
    Throw,
    Synchronization,
    New,
    Subroutine,
}

/// Which access to a field an expression is.
#[derive(Debug, Clone, Copy, PartialEq, Eq, Structural)]
pub enum FieldShape {
    ReadStatic,
    WriteStatic,
    ReadInstance,
    WriteInstance,
}

/// Which operation on an array an expression is.
#[derive(Debug, Clone, Copy, PartialEq, Eq, Structural)]
pub enum ArrayShape {
    New,
    NewMultiDim,
    Read,
    Write,
    Length,
}

pub open spec fn shape_of(op: OpView) -> Shape {
    match op {
        OpView::Nop => Shape::Nop,
        OpView::Definition(_) => Shape::Definition,
        OpView::Jump { conditional } => Shape::Jump { conditional },
        OpView::Switch => Shape::Switch,
        OpView::Return => Shape::Return,
        OpView::SubroutineRet => Shape::SubroutineRet,
    }
}

pub open spec fn expr_shape_of(op: OpView) -> Option<ExprShape> {
    match op {
        OpView::Definition(e) => Some(
            match e {
                ExprView::Const => ExprShape::Const,
                ExprView::Call { .. } => ExprShape::Call,
                ExprView::Closure { .. } => ExprShape::Closure,
                ExprView::Math => ExprShape::Math,
                ExprView::Field(_) => ExprShape::Field,
                ExprView::Array(_) => ExprShape::Array,
                ExprView::Conversion => ExprShape::Conversion,
                ExprView::Throw => ExprShape::Throw,
                ExprView::Synchronization => ExprShape::Synchronization,
                ExprView::New => ExprShape::New,
                ExprView::Subroutine => ExprShape::Subroutine,
            },
        ),
        _ => None,
    }
}

/// Whether a field access has a shape, and writes the field of that owner and
/// name where it writes one.
pub open spec fn field_is(
    f: FieldView,
    shape: FieldShape,
    owner: Seq<char>,
    name: Seq<char>,
) -> bool {
    match f {
        FieldView::ReadStatic => shape is ReadStatic,
        FieldView::WriteStatic { owner: o, name: n } => shape is WriteStatic && o == owner && n
            == name,
        FieldView::ReadInstance => shape is ReadInstance,
        FieldView::WriteInstance { owner: o, name: n, .. } => shape is WriteInstance && o == owner
            && n == name,
    }
}

/// Whether a call names the method of that owner and name.
pub open spec fn call_is(op: OpView, r: Option<(String, String)>) -> bool {
    op matches OpView::Definition(ExprView::Call { owner, name }) ==> (r matches Some(c) && c.0@
        == owner && c.1@ == name)
}

/// Whether a closure has that name.
pub open spec fn closure_is(op: OpView, r: Option<String>) -> bool {
    op matches OpView::Definition(ExprView::Closure { name }) ==> (r matches Some(n) && n@ == name)
}

/// Whether a field access is the one described.
pub open spec fn access_is(op: OpView, r: Option<(FieldShape, String, String)>) -> bool {
    op matches OpView::Definition(ExprView::Field(f)) ==> (r matches Some(a) && field_is(
        f,
        a.0,
        a.1@,
        a.2@,
    ))
}

/// Whether a write of an instance field goes through that object.
pub open spec fn object_is(op: OpView, r: Seq<Ident>) -> bool {
    op matches OpView::Definition(ExprView::Field(FieldView::WriteInstance { object, .. })) ==> r
        == object
}

/// Which operation on an array an expression is.
pub open spec fn array_shape_of(op: OpView) -> Option<ArrayShape> {
    match op {
        OpView::Definition(ExprView::Array(a)) => Some(
            match a {
                ArrayView::New => ArrayShape::New,
                ArrayView::NewMultiDim => ArrayShape::NewMultiDim,
                ArrayView::Read => ArrayShape::Read,
                ArrayView::Write { .. } => ArrayShape::Write,
                ArrayView::Length => ArrayShape::Length,
            },
        ),
        _ => None,
    }
}

/// Whether a write of an array element goes through that array and index.
pub open spec fn element_is(op: OpView, a: Seq<Ident>, i: Seq<Ident>) -> bool {
    op matches OpView::Definition(ExprView::Array(ArrayView::Write { array, index })) ==> a == array
        && i == index
}

/// Whether the bytes start like a class file.
pub open spec fn has_magic(bytes: Seq<u8>) -> bool {
    bytes.len() >= 4 && bytes[0] == 0xca && bytes[1] == 0xfe && bytes[2] == 0xba && bytes[3] == 0xbe
}

/// Whether a class file counts more constants than a table of them can have:
/// the count stands behind the magic number and the version.
pub open spec fn counts_too_many(bytes: Seq<u8>) -> bool {
    has_magic(bytes) && bytes.len() > 9 && bytes[8] == 0xff && bytes[9] == 0xff
}

/// `mokapot::jvm::Class::from_reader`: the class that the bytes hold, or the
/// parser's message. The bytes decide which of the two, and which class. They
/// do not fix the message, of which nothing is said: where debug assertions are
/// on, it holds a backtrace. The parser adds one to the count of constants
/// behind the magic number, so the largest count is left out.
#[verifier::external_body]
fn parse_class(bytes: &[u8]) -> (r: Result<Class, String>)
    requires
        !counts_too_many(bytes@),
    ensures
        match r {
            Ok(class) => class_read(bytes@) == Some(class_in(class)),
            Err(_) => class_read(bytes@) is None,
        },
{
    let mut reader = std::io::Cursor::new(bytes);
    Class::from_reader(&mut reader).map_err(|e| e.to_string())
}

/// The source file, binary name and source debug extension of a
/// `mokapot::jvm::Class`, and how many methods it has.
#[verifier::external_body]
fn class_facts(class: &Class) -> (r: (Option<String>, String, Option<Vec<u8>>, usize))
    ensures
        opt_text(r.0) == class_in(*class).head.source_file,
        r.1@ == class_in(*class).head.binary_name,
        (match r.2 {
            Some(b) => Some(b@),
            None => None,
        }) == class_in(*class).head.debug_extension,
        r.3 == class_in(*class).head.methods.len(),
        r.3 == class_in(*class).bytecode.len(),
{
    let name = class.binary_name.to_string();
    let extension = class.source_debug_extension.clone();
    (class.source_file.clone(), name, extension, class.methods.len())
}

/// The name, descriptor, flags and line table of a `mokapot::jvm::Method`.
#[verifier::external_body]
fn method_facts(class: &Class, k: usize) -> (r: MethodHead)
    requires
        k < class_in(*class).head.methods.len(),
    ensures
        r@ == class_in(*class).head.methods[k as int],
{
    let m = &class.methods[k];
    let table = m.body.as_ref().and_then(|b| b.line_number_table.as_ref());
    let lines = table.map(|t| t.iter().map(|e| (e.start_pc.into(), e.line_number)).collect());
    MethodHead {
        name: m.name.clone(),
        descriptor: m.descriptor.to_string(),
        synthetic: m.access_flags.contains(AccessFlags::SYNTHETIC),
        bridge: m.access_flags.contains(AccessFlags::BRIDGE),
        has_body: m.body.is_some(),
        lines,
    }
}

/// The program counters and opcodes of a method's bytecode
/// (`mokapot::jvm::code::InstructionList::iter`, `Instruction::opcode`), in the
/// order of the program counters, no two of which are equal, and its exception
/// handlers (`mokapot::jvm::code::ExceptionTableEntry`).
#[verifier::external_body]
fn raw_outline(class: &Class, k: usize) -> (r: (Vec<(u16, u8)>, Vec<Handler>))
    requires
        k < class_in(*class).bytecode.len(),
    ensures
        r.0@ == class_in(*class).bytecode[k as int].insns.map_values(
            |i: RawView| (i.pc, i.opcode),
        ),
        r.1@ == class_in(*class).bytecode[k as int].handlers,
        forall|i: int, j: int|
            0 <= i < j < r.0@.len() ==> (#[trigger] r.0@[i]).0 < (#[trigger] r.0@[j]).0,
{
    let Some(body) = class.methods[k].body.as_ref() else { return (Vec::new(), Vec::new()) };
    let insns = body.instructions.iter().map(|(pc, i)| ((*pc).into(), i.opcode())).collect();
    let handlers = body.exception_table.iter().map(|e| Handler {
        start: e.covered_pc.start.into(),
        end: e.covered_pc.end.into(),
        pc: e.handler_pc.into(),
    });
    (insns, handlers.collect())
}

/// Where the jump at a program counter of a method's bytecode leads
/// (`mokapot::jvm::code::Instruction`), if one stands there.
#[verifier::external_body]
fn jump_at(class: &Class, k: usize, pc: u16) -> (r: Option<u16>)
    requires
        k < class_in(*class).bytecode.len(),
    ensures
        forall|i: int|
            0 <= i < class_in(*class).bytecode[k as int].insns.len() && (
            #[trigger] class_in(*class).bytecode[k as int].insns[i]).pc == pc ==> r == class_in(
                *class,
            ).bytecode[k as int].insns[i].jump,
{
    match class.methods[k].body.as_ref()?.instruction_at(ProgramCounter::from(pc))? {
        Instruction::IfEq(t) | Instruction::IfNe(t) | Instruction::IfLt(t) | Instruction::IfGe(t)
        | Instruction::IfGt(t) | Instruction::IfLe(t) | Instruction::IfICmpEq(t)
        | Instruction::IfICmpNe(t) | Instruction::IfICmpLt(t) | Instruction::IfICmpGe(t)
        | Instruction::IfICmpGt(t) | Instruction::IfICmpLe(t) | Instruction::IfACmpEq(t)
        | Instruction::IfACmpNe(t) | Instruction::IfNull(t) | Instruction::IfNonNull(t)
        | Instruction::Goto(t) | Instruction::GotoW(t) | Instruction::Jsr(t)
        | Instruction::JsrW(t) => Some((*t).into()),
        _ => None,
    }
}

/// Where the cases of the switch at a program counter of a method's bytecode
/// lead, the default last (`mokapot::jvm::code::Instruction`).
#[verifier::external_body]
fn cases_at(class: &Class, k: usize, pc: u16) -> (r: Vec<u16>)
    requires
        k < class_in(*class).bytecode.len(),
    ensures
        forall|i: int|
            0 <= i < class_in(*class).bytecode[k as int].insns.len() && (
            #[trigger] class_in(*class).bytecode[k as int].insns[i]).pc == pc ==> r@ == class_in(
                *class,
            ).bytecode[k as int].insns[i].cases,
{
    let body = class.methods[k].body.as_ref();
    match body.and_then(|b| b.instruction_at(ProgramCounter::from(pc))) {
        Some(Instruction::TableSwitch { jump_targets, default, .. }) => {
            jump_targets.iter().chain([default]).map(|t| (*t).into()).collect()
        },
        Some(Instruction::LookupSwitch { match_targets, default }) => {
            match_targets.values().chain([default]).map(|t| (*t).into()).collect()
        },
        _ => Vec::new(),
    }
}

/// The types of the parameters of the call at a program counter of a method's
/// bytecode (`mokapot::types::method_descriptor::MethodDescriptor`).
#[verifier::external_body]
fn params_at(class: &Class, k: usize, pc: u16) -> (r: Vec<TypeShape>)
    requires
        k < class_in(*class).bytecode.len(),
    ensures
        forall|i: int|
            0 <= i < class_in(*class).bytecode[k as int].insns.len() && (
            #[trigger] class_in(*class).bytecode[k as int].insns[i]).pc == pc ==> r@ == class_in(
                *class,
            ).bytecode[k as int].insns[i].params,
{
    let body = class.methods[k].body.as_ref();
    let signature = match body.and_then(|b| b.instruction_at(ProgramCounter::from(pc))) {
        Some(Instruction::InvokeVirtual(m) | Instruction::InvokeSpecial(m)) => &m.descriptor,
        Some(Instruction::InvokeStatic(m) | Instruction::InvokeInterface(m, _)) => &m.descriptor,
        Some(Instruction::InvokeDynamic { descriptor, .. }) => descriptor,
        _ => return Vec::new(),
    };
    let shape = |t: &FieldType| match t {
        FieldType::Base(PrimitiveType::Long) => TypeShape::Long,
        FieldType::Base(PrimitiveType::Double) => TypeShape::Double,
        _ => TypeShape::Other,
    };
    signature.parameters_types.iter().map(shape).collect()
}

/// The owner and the name of the method that the instruction at a program
/// counter of a method's bytecode calls, or of the field it accesses
/// (`mokapot::jvm::references::MethodRef` and `FieldRef`).
#[verifier::external_body]
fn member_at(class: &Class, k: usize, pc: u16) -> (r: Option<(String, String)>)
    requires
        k < class_in(*class).bytecode.len(),
    ensures
        forall|i: int|
            0 <= i < class_in(*class).bytecode[k as int].insns.len() && (
            #[trigger] class_in(*class).bytecode[k as int].insns[i]).pc == pc ==> member_text(r)
                == class_in(*class).bytecode[k as int].insns[i].member,
{
    let body = class.methods[k].body.as_ref();
    let (owner, name) = match body.and_then(|b| b.instruction_at(ProgramCounter::from(pc))) {
        Some(Instruction::InvokeVirtual(m) | Instruction::InvokeSpecial(m)) => (&m.owner, &m.name),
        Some(Instruction::InvokeStatic(m) | Instruction::InvokeInterface(m, _)) => (&m.owner, &m.name),
        Some(Instruction::GetStatic(f) | Instruction::PutStatic(f)) => (&f.owner, &f.name),
        Some(Instruction::GetField(f) | Instruction::PutField(f)) => (&f.owner, &f.name),
        _ => return None,
    };
    Some((owner.to_string(), name.clone()))
}

/// The name of the closure that the instruction at a program counter of a
/// method's bytecode makes (`mokapot::jvm::code::Instruction::InvokeDynamic`).
#[verifier::external_body]
fn closure_name_at(class: &Class, k: usize, pc: u16) -> (r: Option<String>)
    requires
        k < class_in(*class).bytecode.len(),
    ensures
        forall|i: int|
            0 <= i < class_in(*class).bytecode[k as int].insns.len() && (
            #[trigger] class_in(*class).bytecode[k as int].insns[i]).pc == pc ==> opt_text(r)
                == class_in(*class).bytecode[k as int].insns[i].closure,
{
    match class.methods[k].body.as_ref()?.instruction_at(ProgramCounter::from(pc))? {
        Instruction::InvokeDynamic { name, .. } => Some(name.clone()),
        _ => None,
    }
}

/// The type of the field that the instruction at a program counter of a
/// method's bytecode accesses (`mokapot::jvm::references::FieldRef`).
#[verifier::external_body]
fn field_type_at(class: &Class, k: usize, pc: u16) -> (r: Option<TypeShape>)
    requires
        k < class_in(*class).bytecode.len(),
    ensures
        forall|i: int|
            0 <= i < class_in(*class).bytecode[k as int].insns.len() && (
            #[trigger] class_in(*class).bytecode[k as int].insns[i]).pc == pc ==> r == class_in(
                *class,
            ).bytecode[k as int].insns[i].field,
{
    let body = class.methods[k].body.as_ref();
    let field = match body.and_then(|b| b.instruction_at(ProgramCounter::from(pc))) {
        Some(Instruction::GetStatic(f) | Instruction::PutStatic(f)) => &f.field_type,
        Some(Instruction::GetField(f) | Instruction::PutField(f)) => &f.field_type,
        _ => return None,
    };
    Some(match field {
        FieldType::Base(PrimitiveType::Long) => TypeShape::Long,
        FieldType::Base(PrimitiveType::Double) => TypeShape::Double,
        _ => TypeShape::Other,
    })
}

/// The type that the call at a program counter of a method's bytecode returns
/// (`mokapot::types::method_descriptor::ReturnType`).
#[verifier::external_body]
fn returned_at(class: &Class, k: usize, pc: u16) -> (r: Option<TypeShape>)
    requires
        k < class_in(*class).bytecode.len(),
    ensures
        forall|i: int|
            0 <= i < class_in(*class).bytecode[k as int].insns.len() && (
            #[trigger] class_in(*class).bytecode[k as int].insns[i]).pc == pc ==> r == class_in(
                *class,
            ).bytecode[k as int].insns[i].returned,
{
    let body = class.methods[k].body.as_ref();
    let signature = match body.and_then(|b| b.instruction_at(ProgramCounter::from(pc))) {
        Some(Instruction::InvokeVirtual(m) | Instruction::InvokeSpecial(m)) => &m.descriptor,
        Some(Instruction::InvokeStatic(m) | Instruction::InvokeInterface(m, _)) => &m.descriptor,
        Some(Instruction::InvokeDynamic { descriptor, .. }) => descriptor,
        _ => return None,
    };
    match &signature.return_type {
        ReturnType::Some(FieldType::Base(PrimitiveType::Long)) => Some(TypeShape::Long),
        ReturnType::Some(FieldType::Base(PrimitiveType::Double)) => Some(TypeShape::Double),
        ReturnType::Some(_) => Some(TypeShape::Other),
        ReturnType::Void => None,
    }
}

/// Which instruction stands behind a `wide` prefix
/// (`mokapot::jvm::code::WideInstruction`).
#[verifier::external_body]
fn wide_at(class: &Class, k: usize, pc: u16) -> (r: Option<WideShape>)
    requires
        k < class_in(*class).bytecode.len(),
    ensures
        forall|i: int|
            0 <= i < class_in(*class).bytecode[k as int].insns.len() && (
            #[trigger] class_in(*class).bytecode[k as int].insns[i]).pc == pc ==> r == class_in(
                *class,
            ).bytecode[k as int].insns[i].wide,
{
    let insn = class.methods[k].body.as_ref()?.instruction_at(ProgramCounter::from(pc))?;
    let Instruction::Wide(wide) = insn else { return None };
    Some(match wide {
        WideInstruction::ILoad(_) => WideShape::ILoad, WideInstruction::LLoad(_) => WideShape::LLoad,
        WideInstruction::FLoad(_) => WideShape::FLoad, WideInstruction::DLoad(_) => WideShape::DLoad,
        WideInstruction::ALoad(_) => WideShape::ALoad, WideInstruction::IStore(_) => WideShape::IStore,
        WideInstruction::LStore(_) => WideShape::LStore,
        WideInstruction::FStore(_) => WideShape::FStore,
        WideInstruction::DStore(_) => WideShape::DStore,
        WideInstruction::AStore(_) => WideShape::AStore,
        WideInstruction::IInc(..) => WideShape::IInc, WideInstruction::Ret(_) => WideShape::Ret,
    })
}

/// How many dimensions the array that the instruction at a program counter
/// allocates has (`mokapot::jvm::code::Instruction::MultiANewArray`).
#[verifier::external_body]
fn dims_at(class: &Class, k: usize, pc: u16) -> (r: Option<u8>)
    requires
        k < class_in(*class).bytecode.len(),
    ensures
        forall|i: int|
            0 <= i < class_in(*class).bytecode[k as int].insns.len() && (
            #[trigger] class_in(*class).bytecode[k as int].insns[i]).pc == pc ==> r == class_in(
                *class,
            ).bytecode[k as int].insns[i].dims,
{
    match class.methods[k].body.as_ref()?.instruction_at(ProgramCounter::from(pc))? {
        Instruction::MultiANewArray(_, dims) => Some(*dims),
        _ => None,
    }
}

/// `mokapot::ir::MokaIRMethodExt::brew`: a method's body lifted into SSA form
/// under the method's own name and descriptor, or `None` when that fails. The
/// lifting joins the stacks of all paths to an instruction, so those must have
/// one shape. It works its instructions off in the order of a hash map, and
/// the result rests on that: it is one that the lifting can come to, and where
/// it is a body, that matches the bytecode. When lifting fails is not said, nor
/// which of the values that may reach an instruction it uses, nor its text.
#[verifier::external_body]
fn lift(class: &Class, k: usize) -> (r: Option<MokaIRMethod>)
    requires
        k < class_in(*class).head.methods.len(),
        k < class_in(*class).bytecode.len(),
        stacks_agree(class_in(*class).bytecode[k as int]),
    ensures
        match r {
            Some(b) => may_lift(class_in(*class), k as int, Some(body_in(b))) && is_lifting(
                class_in(*class),
                k as int,
                body_in(b),
            ),
            None => may_lift(class_in(*class), k as int, None),
        },
{
    class.methods[k].brew().ok()
}

/// `mokapot::jvm::code::InstructionList::iter` and
/// `mokapot::ir::ControlFlowGraph::edges`: the program counters and the edges
/// of a lifted body, with whether an edge is an exception's
/// (`mokapot::ir::control_flow::ControlTransfer::Exception`). Every program
/// counter has an instruction.
#[verifier::external_body]
fn outline(body: &MokaIRMethod) -> (r: (Vec<u16>, Vec<(u16, u16, bool)>))
    ensures
        r.0@ == body_in(*body).pcs,
        r.1@ == body_in(*body).edges,
        forall|i: int|
            0 <= i < r.0@.len() ==> body_in(*body).insns.contains_key(#[trigger] r.0@[i])
                && body_in(*body).insns[r.0@[i]].pc == r.0@[i],
{
    let pcs = body.instructions.iter().map(|(pc, _)| (*pc).into()).collect();
    let edges = body.control_flow_graph.edges().map(|e| match e.data {
        ControlTransfer::Exception(_) => (e.source.into(), e.target.into(), true),
        _ => (e.source.into(), e.target.into(), false),
    });
    (pcs, edges.collect())
}

/// Which instruction stands at a program counter
/// (`mokapot::jvm::code::InstructionList::get`), what it defines
/// (`MokaInstruction::def`), and its text.
#[verifier::external_body]
fn insn_at(body: &MokaIRMethod, pc: u16) -> (r: (Shape, Option<u16>, String))
    requires
        body_in(*body).insns.contains_key(pc),
    ensures
        r.0 == shape_of(body_in(*body).insns[pc].op),
        r.1 == body_in(*body).insns[pc].def,
        r.2@ == body_in(*body).insns[pc].label,
{
    let at = ProgramCounter::from(pc);
    let insn = &body.instructions.get(&at).unwrap();
    let shape = match insn {
        MokaInstruction::Nop => Shape::Nop,
        MokaInstruction::Definition { .. } => Shape::Definition,
        MokaInstruction::Jump { condition, .. } => Shape::Jump { conditional: condition.is_some() },
        MokaInstruction::Switch { .. } => Shape::Switch,
        MokaInstruction::Return(_) => Shape::Return,
        MokaInstruction::SubroutineRet(_) => Shape::SubroutineRet,
    };
    (shape, insn.def().map(u16::from), format!("{at}: {insn}"))
}

/// `mokapot::ir::MokaInstruction::uses`: the values that an instruction uses,
/// in no order.
#[verifier::external_body]
fn uses_at(body: &MokaIRMethod, pc: u16) -> (r: Vec<Ident>)
    requires
        body_in(*body).insns.contains_key(pc),
    ensures
        r@.to_set() == body_in(*body).insns[pc].uses,
{
    let insn = body.instructions.get(&ProgramCounter::from(pc)).unwrap();
    let uses = insn.uses().into_iter().map(|i| match i {
        Identifier::This => Ident::This,
        Identifier::Arg(n) => Ident::Arg(n),
        Identifier::Local(v) => Ident::Local(v.into()),
        Identifier::CaughtException(pc) => Ident::CaughtException(pc.into()),
    });
    uses.collect()
}

/// Which expression a definition evaluates (`mokapot::ir::expression::Expression`).
#[verifier::external_body]
fn expr_at(body: &MokaIRMethod, pc: u16) -> (r: Option<ExprShape>)
    requires
        body_in(*body).insns.contains_key(pc),
    ensures
        r == expr_shape_of(body_in(*body).insns[pc].op),
{
    let insn = body.instructions.get(&ProgramCounter::from(pc)).unwrap();
    let MokaInstruction::Definition { expr, .. } = insn else { return None };
    Some(match expr {
        Expression::Const(_) => ExprShape::Const,
        Expression::Call { .. } => ExprShape::Call,
        Expression::Closure { .. } => ExprShape::Closure,
        Expression::Math(_) => ExprShape::Math,
        Expression::Field(_) => ExprShape::Field,
        Expression::Array(_) => ExprShape::Array,
        Expression::Conversion(_) => ExprShape::Conversion,
        Expression::Throw(_) => ExprShape::Throw,
        Expression::Synchronization(_) => ExprShape::Synchronization,
        Expression::New(_) => ExprShape::New,
        Expression::Subroutine { .. } => ExprShape::Subroutine,
    })
}

/// The owner and the name of the method that a call names
/// (`mokapot::jvm::references::MethodRef`).
#[verifier::external_body]
fn call_at(body: &MokaIRMethod, pc: u16) -> (r: Option<(String, String)>)
    requires
        body_in(*body).insns.contains_key(pc),
    ensures
        call_is(body_in(*body).insns[pc].op, r),
{
    match body.instructions.get(&ProgramCounter::from(pc)) {
        Some(MokaInstruction::Definition { expr: Expression::Call { method, .. }, .. }) => {
            Some((method.owner.to_string(), method.name.clone()))
        },
        _ => None,
    }
}

/// The name of a closure (`mokapot::ir::expression::Expression::Closure`).
#[verifier::external_body]
fn closure_at(body: &MokaIRMethod, pc: u16) -> (r: Option<String>)
    requires
        body_in(*body).insns.contains_key(pc),
    ensures
        closure_is(body_in(*body).insns[pc].op, r),
{
    match body.instructions.get(&ProgramCounter::from(pc)) {
        Some(MokaInstruction::Definition { expr: Expression::Closure { name, .. }, .. }) => {
            Some(name.clone())
        },
        _ => None,
    }
}

/// Which access to a field an expression is
/// (`mokapot::ir::expression::FieldAccess`), with the field's owner and name.
#[verifier::external_body]
fn field_at(body: &MokaIRMethod, pc: u16) -> (r: Option<(FieldShape, String, String)>)
    requires
        body_in(*body).insns.contains_key(pc),
    ensures
        access_is(body_in(*body).insns[pc].op, r),
{
    let insn = body.instructions.get(&ProgramCounter::from(pc));
    let Some(MokaInstruction::Definition { expr: Expression::Field(access), .. }) = insn else {
        return None;
    };
    let (shape, field) = match access {
        FieldAccess::ReadStatic { field } => (FieldShape::ReadStatic, field),
        FieldAccess::WriteStatic { field, .. } => (FieldShape::WriteStatic, field),
        FieldAccess::ReadInstance { field, .. } => (FieldShape::ReadInstance, field),
        FieldAccess::WriteInstance { field, .. } => (FieldShape::WriteInstance, field),
    };
    Some((shape, field.owner.to_string(), field.name.clone()))
}

/// The object that a write of an instance field goes through
/// (`mokapot::ir::expression::FieldAccess::WriteInstance`): the values it may
/// be, in the order of `mokapot::ir::Operand::iter`.
#[verifier::external_body]
fn object_at(body: &MokaIRMethod, pc: u16) -> (r: Vec<Ident>)
    requires
        body_in(*body).insns.contains_key(pc),
    ensures
        object_is(body_in(*body).insns[pc].op, r@),
{
    let insn = body.instructions.get(&ProgramCounter::from(pc));
    let Some(MokaInstruction::Definition { expr: Expression::Field(access), .. }) = insn else {
        return Vec::new();
    };
    let FieldAccess::WriteInstance { object_ref, .. } = access else { return Vec::new() };
    let values = object_ref.iter().map(|i| match *i {
        Identifier::This => Ident::This,
        Identifier::Arg(n) => Ident::Arg(n),
        Identifier::Local(v) => Ident::Local(v.into()),
        Identifier::CaughtException(pc) => Ident::CaughtException(pc.into()),
    });
    values.collect()
}

/// Which operation on an array an expression is
/// (`mokapot::ir::expression::ArrayOperation`).
#[verifier::external_body]
fn array_at(body: &MokaIRMethod, pc: u16) -> (r: Option<ArrayShape>)
    requires
        body_in(*body).insns.contains_key(pc),
    ensures
        r == array_shape_of(body_in(*body).insns[pc].op),
{
    let insn = body.instructions.get(&ProgramCounter::from(pc));
    let Some(MokaInstruction::Definition { expr: Expression::Array(op), .. }) = insn else {
        return None;
    };
    Some(match op {
        ArrayOperation::New { .. } => ArrayShape::New,
        ArrayOperation::NewMultiDim { .. } => ArrayShape::NewMultiDim,
        ArrayOperation::Read { .. } => ArrayShape::Read,
        ArrayOperation::Write { .. } => ArrayShape::Write,
        ArrayOperation::Length { .. } => ArrayShape::Length,
    })
}

/// The array and the index of a write
/// (`mokapot::ir::expression::ArrayOperation::Write`), each as the values it
/// may be, in the order of `mokapot::ir::Operand::iter`.
#[verifier::external_body]
fn element_at(body: &MokaIRMethod, pc: u16) -> (r: (Vec<Ident>, Vec<Ident>))
    requires
        body_in(*body).insns.contains_key(pc),
    ensures
        element_is(body_in(*body).insns[pc].op, r.0@, r.1@),
{
    let insn = body.instructions.get(&ProgramCounter::from(pc));
    let Some(MokaInstruction::Definition { expr: Expression::Array(op), .. }) = insn else {
        return (Vec::new(), Vec::new());
    };
    let ArrayOperation::Write { array_ref, index, .. } = op else { return (Vec::new(), Vec::new()) };
    let plain = |i: &Identifier| match *i {
        Identifier::This => Ident::This,
        Identifier::Arg(n) => Ident::Arg(n),
        Identifier::Local(v) => Ident::Local(v.into()),
        Identifier::CaughtException(pc) => Ident::CaughtException(pc.into()),
    };
    (array_ref.iter().map(plain).collect(), index.iter().map(plain).collect())
}

/// The expression of the definition at a program counter.
fn read_expr(body: &MokaIRMethod, pc: u16, shape: ExprShape) -> (r: Expr)
    requires
        body_in(*body).insns.contains_key(pc),
        expr_shape_of(body_in(*body).insns[pc].op) == Some(shape),
    ensures
        body_in(*body).insns[pc].op == OpView::Definition(r@),
{
    match shape {
        ExprShape::Const => Expr::Const,
        ExprShape::Call => {
            let (owner, name) = match call_at(body, pc) {
                Some(c) => c,
                None => (String::new(), String::new()),
            };
            Expr::Call { owner, name }
        },
        ExprShape::Closure => {
            let name = match closure_at(body, pc) {
                Some(n) => n,
                None => String::new(),
            };
            Expr::Closure { name }
        },
        ExprShape::Math => Expr::Math,
        ExprShape::Field => match field_at(body, pc) {
            Some((FieldShape::WriteStatic, owner, name)) => Expr::Field(
                FieldOp::WriteStatic { owner, name },
            ),
            Some((FieldShape::WriteInstance, owner, name)) => {
                let object = object_at(body, pc);
                Expr::Field(FieldOp::WriteInstance { owner, name, object })
            },
            Some((FieldShape::ReadInstance, _, _)) => Expr::Field(FieldOp::ReadInstance),
            _ => Expr::Field(FieldOp::ReadStatic),
        },
        ExprShape::Array => match array_at(body, pc) {
            Some(ArrayShape::Write) => {
                let (array, index) = element_at(body, pc);
                Expr::Array(ArrayOp::Write { array, index })
            },
            Some(ArrayShape::NewMultiDim) => Expr::Array(ArrayOp::NewMultiDim),
            Some(ArrayShape::Read) => Expr::Array(ArrayOp::Read),
            Some(ArrayShape::Length) => Expr::Array(ArrayOp::Length),
            _ => Expr::Array(ArrayOp::New),
        },
        ExprShape::Conversion => Expr::Conversion,
        ExprShape::Throw => Expr::Throw,
        ExprShape::Synchronization => Expr::Synchronization,
        ExprShape::New => Expr::New,
        ExprShape::Subroutine => Expr::Subroutine,
    }
}

/// The instruction at a program counter.
fn read_insn(body: &MokaIRMethod, pc: u16) -> (r: Insn)
    requires
        body_in(*body).insns.contains_key(pc),
        body_in(*body).insns[pc].pc == pc,
    ensures
        r@ == body_in(*body).insns[pc],
{
    let (shape, def, label) = insn_at(body, pc);
    let uses = uses_at(body, pc);
    let op = match shape {
        Shape::Nop => Op::Nop,
        Shape::Definition => {
            let expr = match expr_at(body, pc) {
                Some(e) => read_expr(body, pc, e),
                None => Expr::Const,
            };
            Op::Definition(expr)
        },
        Shape::Jump { conditional } => Op::Jump { conditional },
        Shape::Switch => Op::Switch,
        Shape::Return => Op::Return,
        Shape::SubroutineRet => Op::SubroutineRet,
    };
    let r = Insn { pc, op, def, uses, label };
    assert(r@ =~= body_in(*body).insns[pc]);
    r
}

fn read_body(body: &MokaIRMethod) -> (r: Code)
    ensures
        r@ == listed(body_in(*body)),
{
    let ghost b = body_in(*body);
    let (pcs, edges) = outline(body);
    let mut insns: Vec<Insn> = Vec::new();
    let mut k: usize = 0;
    while k < pcs.len()
        invariant
            k <= pcs.len(),
            b == body_in(*body),
            pcs@ == b.pcs,
            forall|i: int|
                0 <= i < pcs@.len() ==> b.insns.contains_key(#[trigger] pcs@[i])
                    && b.insns[pcs@[i]].pc == pcs@[i],
            insns.len() == k,
            forall|i: int| 0 <= i < k ==> (#[trigger] insns@[i])@ == b.insns[b.pcs[i]],
        decreases pcs.len() - k,
    {
        assert(b.insns.contains_key(pcs@[k as int]));
        insns.push(read_insn(body, pcs[k]));
        k += 1;
    }
    let r = Code { insns, edges };
    assert(r@ =~= listed(b));
    r
}

/// Reads the bytecode of a method.
fn read_raw(class: &Class, k: usize) -> (r: RawBody)
    requires
        k < class_in(*class).bytecode.len(),
    ensures
        r@ == class_in(*class).bytecode[k as int],
{
    let ghost b = class_in(*class).bytecode[k as int];
    let (heads, handlers) = raw_outline(class, k);
    let mut insns: Vec<RawInsn> = Vec::new();
    let mut i: usize = 0;
    while i < heads.len()
        invariant
            i <= heads.len(),
            k < class_in(*class).bytecode.len(),
            b == class_in(*class).bytecode[k as int],
            heads@ == b.insns.map_values(|i: RawView| (i.pc, i.opcode)),
            insns.len() == i,
            forall|j: int| 0 <= j < i ==> (#[trigger] insns@[j])@ == b.insns[j],
        decreases heads.len() - i,
    {
        let (pc, opcode) = heads[i];
        assert(b.insns[i as int].pc == pc && b.insns[i as int].opcode == opcode);
        let insn = RawInsn {
            pc,
            opcode,
            wide: wide_at(class, k, pc),
            params: params_at(class, k, pc),
            member: member_at(class, k, pc),
            closure: closure_name_at(class, k, pc),
            field: field_type_at(class, k, pc),
            returned: returned_at(class, k, pc),
            dims: dims_at(class, k, pc),
            jump: jump_at(class, k, pc),
            cases: cases_at(class, k, pc),
        };
        assert(insn@ =~= b.insns[i as int]);
        insns.push(insn);
        i += 1;
    }
    let r = RawBody { insns, handlers };
    assert(r@ =~= b);
    r
}

/// Whether a body is one that a class's `k`-th method is lifted to: it bears
/// the method's name and descriptor, and matches its bytecode.
pub open spec fn is_lifting(c: ParsedView, k: int, b: LiftedView) -> bool {
    &&& b.name == c.head.methods[k].name
    &&& b.descriptor == c.head.methods[k].descriptor
    &&& body_matches(c.bytecode[k], b)
}

/// Whether a body, or none, is what becomes of a class's `k`-th method. A method
/// that is lowered and whose stacks agree is lifted, and the body is the result
/// of that; of another method there is none.
pub open spec fn is_body_of(c: ParsedView, k: int, body: Option<LiftedView>) -> bool {
    if is_lowered(c.head.methods[k]) && stacks_agree(c.bytecode[k]) {
        &&& may_lift(c, k, body)
        &&& body matches Some(b) ==> is_lifting(c, k, b)
    } else {
        body is None
    }
}

/// Whether there is a body, or none, for every method of a class, each its own.
pub open spec fn are_bodies_of(c: ParsedView, bodies: Seq<Option<LiftedView>>) -> bool {
    &&& bodies.len() == c.head.methods.len()
    &&& forall|k: int| 0 <= k < bodies.len() ==> is_body_of(c, k, #[trigger] bodies[k])
}

/// Lifted bodies as code.
pub open spec fn all_listed(bodies: Seq<Option<LiftedView>>) -> Seq<Option<CodeView>> {
    bodies.map_values(
        |b: Option<LiftedView>|
            match b {
                Some(b) => Some(listed(b)),
                None => None,
            },
    )
}

/// Reads what a parsed class says, and lifts the bodies of the methods that
/// are lowered. A method whose stacks disagree is not lifted.
fn read_class(class: &Class) -> (r: (ClassHead, Vec<Option<Code>>, Ghost<Seq<Option<LiftedView>>>))
    ensures
        r.0@ == class_in(*class).head,
        r.1@.len() == r.0.methods@.len(),
        are_bodies_of(class_in(*class), r.2@),
        code_views(r.1@) == all_listed(r.2@),
{
    let ghost p = class_in(*class);
    let ghost c = p.head;
    let ghost mut bodies: Seq<Option<LiftedView>> = Seq::empty();
    let (source_file, binary_name, debug_extension, n) = class_facts(class);
    let mut methods: Vec<MethodHead> = Vec::new();
    let mut code: Vec<Option<Code>> = Vec::new();
    let mut k: usize = 0;
    while k < n
        invariant
            k <= n,
            p == class_in(*class),
            c == p.head,
            n == c.methods.len(),
            n == p.bytecode.len(),
            methods.len() == k,
            code.len() == k,
            bodies.len() == k,
            forall|i: int| 0 <= i < k ==> (#[trigger] methods@[i])@ == c.methods[i],
            forall|i: int| 0 <= i < k ==> is_body_of(p, i, #[trigger] bodies[i]),
            forall|i: int|
                0 <= i < k ==> (match #[trigger] code@[i] {
                    Some(x) => bodies[i] matches Some(b) && x@ == listed(b),
                    None => bodies[i] is None,
                }),
        decreases n - k,
    {
        let m = method_facts(class, k);
        let mut body: Option<Code> = None;
        let ghost mut lifted: Option<LiftedView> = None;
        if wanted(&m) {
            let raw = read_raw(class, k);
            if agree(&raw) {
                if let Some(b) = lift(class, k) {
                    body = Some(read_body(&b));
                    proof {
                        lifted = Some(body_in(b));
                    }
                }
            }
        }
        methods.push(m);
        code.push(body);
        proof {
            bodies = bodies.push(lifted);
        }
        k += 1;
    }
    let head = ClassHead { source_file, binary_name, debug_extension, methods };
    assert(method_views(head.methods@) =~= c.methods);
    assert(head@ =~= c);
    assert(code_views(code@) =~= all_listed(bodies));
    (head, code, Ghost(bodies))
}

/// Whether a result is what the bytes of a class file are lowered to, whatever
/// of its possible results the lifting of each method came to. Nothing is said
/// of the parser's message where the bytes are no class file.
pub open spec fn bytes_lowered(bytes: Seq<u8>, r: Result<LoweredClass, JvmError>) -> bool {
    if counts_too_many(bytes) {
        r matches Err(e) && e@ == JvmErrorView::Parse("too many constants"@)
    } else {
        match class_read(bytes) {
            None => r matches Err(JvmError::Parse(_)),
            Some(c) => exists|bodies: Seq<Option<LiftedView>>| #[trigger]
                are_bodies_of(c, bodies) && (match r {
                    Ok(l) => class_fits(c.head, all_listed(bodies)) && l@ == class_lowered(
                        c.head,
                        all_listed(bodies),
                    ),
                    Err(e) => !class_fits(c.head, all_listed(bodies)) && e@ == JvmErrorView::Lines,
                }),
        }
    }
}

/// Parses a class file and lowers every method with a body.
///
/// # Errors
///
/// [`JvmError::Parse`] if the bytes are not a class file or count more
/// constants than can be read, and [`JvmError::Lines`] if the class's source
/// map gives an instruction a line beyond the largest line number.
pub fn lower_class(bytes: &[u8]) -> (r: Result<LoweredClass, JvmError>)
    ensures
        bytes_lowered(bytes@, r),
{
    let class_file: bool = bytes.len() >= 4 && bytes[0] == 0xca && bytes[1] == 0xfe && bytes[2]
        == 0xba && bytes[3] == 0xbe;
    if class_file && bytes.len() > 9 && bytes[8] == 0xff && bytes[9] == 0xff {
        return Err(JvmError::Parse("too many constants".to_owned()));
    }
    let class = match parse_class(bytes) {
        Ok(class) => class,
        Err(text) => {
            return Err(JvmError::Parse(text));
        },
    };
    let (head, code, Ghost(bodies)) = read_class(&class);
    assert(are_bodies_of(class_in(class), bodies));
    if !lines_fit(&head, &code) {
        return Err(JvmError::Lines);
    }
    Ok(lower_methods(&head, &code))
}

proof fn lemma_ordered_prefix(v: Seq<FunctionView>, f: FunctionView, k: int)
    requires
        0 <= k <= v.len(),
    ensures
        ordered(v.push(f), k) == ordered(v, k),
    decreases k,
{
    if k > 0 {
        lemma_ordered_prefix(v, f, k - 1);
    }
}

} // verus!
