//! A class file as plain values: what the lowering reads of it.

use vstd::prelude::*;

use crate::js::source::opt_text;

verus! {

/// A value of a lifted method body.
#[derive(Debug, Clone, Copy, PartialEq, Eq, Structural)]
pub enum Ident {
    /// The receiver of an instance method.
    This,
    /// An argument.
    Arg(u16),
    /// A value defined in the body.
    Local(u16),
    /// The exception that the handler at a program counter catches.
    CaughtException(u16),
}

/// What a field operation does.
#[derive(Debug, Clone)]
pub enum FieldOp {
    ReadStatic,
    WriteStatic { owner: String, name: String },
    ReadInstance,
    WriteInstance { owner: String, name: String, object: Vec<Ident> },
}

/// What an array operation does.
#[derive(Debug, Clone)]
pub enum ArrayOp {
    New,
    NewMultiDim,
    Read,
    Write { array: Vec<Ident>, index: Vec<Ident> },
    Length,
}

/// The expression that defines a value.
#[derive(Debug, Clone)]
pub enum Expr {
    Const,
    Call { owner: String, name: String },
    Closure { name: String },
    Math,
    Field(FieldOp),
    Array(ArrayOp),
    Conversion,
    Throw,
    Synchronization,
    New,
    Subroutine,
}

/// What an instruction does.
#[derive(Debug, Clone)]
pub enum Op {
    Nop,
    Definition(Expr),
    Jump { conditional: bool },
    Switch,
    Return,
    SubroutineRet,
}

/// One instruction of a lifted body.
#[derive(Debug, Clone)]
pub struct Insn {
    /// Its program counter.
    pub pc: u16,
    pub op: Op,
    /// The value it defines.
    pub def: Option<u16>,
    /// The values it uses, in any order.
    pub uses: Vec<Ident>,
    /// The program counter and the instruction as text.
    pub label: String,
}

/// A lifted body: its instructions, and the program counters between which
/// control can pass, each pair with whether only an exception leads there.
#[derive(Debug, Clone)]
pub struct Code {
    pub insns: Vec<Insn>,
    pub edges: Vec<(u16, u16, bool)>,
}

/// What a class file says of a method besides its code.
#[derive(Debug, Clone)]
pub struct MethodHead {
    pub name: String,
    /// The parameter types and the return type, as text.
    pub descriptor: String,
    pub synthetic: bool,
    pub bridge: bool,
    pub has_body: bool,
    /// The line table: where a run of instructions starts, and its line.
    pub lines: Option<Vec<(u16, u16)>>,
}

/// What a class file says of a class.
#[derive(Debug, Clone)]
pub struct ClassHead {
    pub source_file: Option<String>,
    pub binary_name: String,
    /// The source debug extension, as it stands in the file.
    pub debug_extension: Option<Vec<u8>>,
    pub methods: Vec<MethodHead>,
}

pub enum FieldView {
    ReadStatic,
    WriteStatic { owner: Seq<char>, name: Seq<char> },
    ReadInstance,
    WriteInstance { owner: Seq<char>, name: Seq<char>, object: Seq<Ident> },
}

pub enum ArrayView {
    New,
    NewMultiDim,
    Read,
    Write { array: Seq<Ident>, index: Seq<Ident> },
    Length,
}

pub enum ExprView {
    Const,
    Call { owner: Seq<char>, name: Seq<char> },
    Closure { name: Seq<char> },
    Math,
    Field(FieldView),
    Array(ArrayView),
    Conversion,
    Throw,
    Synchronization,
    New,
    Subroutine,
}

pub enum OpView {
    Nop,
    Definition(ExprView),
    Jump { conditional: bool },
    Switch,
    Return,
    SubroutineRet,
}

/// An instruction as plain values: what it uses is a set.
#[verifier::ext_equal]
pub struct InsnView {
    pub pc: u16,
    pub op: OpView,
    pub def: Option<u16>,
    pub uses: Set<Ident>,
    pub label: Seq<char>,
}

#[verifier::ext_equal]
pub struct CodeView {
    pub insns: Seq<InsnView>,
    pub edges: Seq<(u16, u16, bool)>,
}

#[verifier::ext_equal]
pub struct MethodView {
    pub name: Seq<char>,
    pub descriptor: Seq<char>,
    pub synthetic: bool,
    pub bridge: bool,
    pub has_body: bool,
    pub lines: Option<Seq<(u16, u16)>>,
}

#[verifier::ext_equal]
pub struct ClassView {
    pub source_file: Option<Seq<char>>,
    pub binary_name: Seq<char>,
    pub debug_extension: Option<Seq<u8>>,
    pub methods: Seq<MethodView>,
}

impl View for FieldOp {
    type V = FieldView;

    open spec fn view(&self) -> FieldView {
        match *self {
            FieldOp::ReadStatic => FieldView::ReadStatic,
            FieldOp::WriteStatic { owner, name } => FieldView::WriteStatic {
                owner: owner@,
                name: name@,
            },
            FieldOp::ReadInstance => FieldView::ReadInstance,
            FieldOp::WriteInstance { owner, name, object } => FieldView::WriteInstance {
                owner: owner@,
                name: name@,
                object: object@,
            },
        }
    }
}

impl View for ArrayOp {
    type V = ArrayView;

    open spec fn view(&self) -> ArrayView {
        match *self {
            ArrayOp::New => ArrayView::New,
            ArrayOp::NewMultiDim => ArrayView::NewMultiDim,
            ArrayOp::Read => ArrayView::Read,
            ArrayOp::Write { array, index } => ArrayView::Write { array: array@, index: index@ },
            ArrayOp::Length => ArrayView::Length,
        }
    }
}

impl View for Expr {
    type V = ExprView;

    open spec fn view(&self) -> ExprView {
        match *self {
            Expr::Const => ExprView::Const,
            Expr::Call { owner, name } => ExprView::Call { owner: owner@, name: name@ },
            Expr::Closure { name } => ExprView::Closure { name: name@ },
            Expr::Math => ExprView::Math,
            Expr::Field(f) => ExprView::Field(f@),
            Expr::Array(a) => ExprView::Array(a@),
            Expr::Conversion => ExprView::Conversion,
            Expr::Throw => ExprView::Throw,
            Expr::Synchronization => ExprView::Synchronization,
            Expr::New => ExprView::New,
            Expr::Subroutine => ExprView::Subroutine,
        }
    }
}

impl View for Op {
    type V = OpView;

    open spec fn view(&self) -> OpView {
        match *self {
            Op::Nop => OpView::Nop,
            Op::Definition(e) => OpView::Definition(e@),
            Op::Jump { conditional } => OpView::Jump { conditional },
            Op::Switch => OpView::Switch,
            Op::Return => OpView::Return,
            Op::SubroutineRet => OpView::SubroutineRet,
        }
    }
}

impl View for Insn {
    type V = InsnView;

    open spec fn view(&self) -> InsnView {
        InsnView {
            pc: self.pc,
            op: self.op@,
            def: self.def,
            uses: self.uses@.to_set(),
            label: self.label@,
        }
    }
}

pub open spec fn insn_views(v: Seq<Insn>) -> Seq<InsnView> {
    v.map_values(|i: Insn| i@)
}

impl View for Code {
    type V = CodeView;

    open spec fn view(&self) -> CodeView {
        CodeView { insns: insn_views(self.insns@), edges: self.edges@ }
    }
}

/// The views of optional bodies.
pub open spec fn code_views(v: Seq<Option<Code>>) -> Seq<Option<CodeView>> {
    v.map_values(
        |c: Option<Code>|
            match c {
                Some(c) => Some(c@),
                None => None,
            },
    )
}

impl View for MethodHead {
    type V = MethodView;

    open spec fn view(&self) -> MethodView {
        MethodView {
            name: self.name@,
            descriptor: self.descriptor@,
            synthetic: self.synthetic,
            bridge: self.bridge,
            has_body: self.has_body,
            lines: match self.lines {
                Some(l) => Some(l@),
                None => None,
            },
        }
    }
}

pub open spec fn method_views(v: Seq<MethodHead>) -> Seq<MethodView> {
    v.map_values(|m: MethodHead| m@)
}

impl View for ClassHead {
    type V = ClassView;

    open spec fn view(&self) -> ClassView {
        ClassView {
            source_file: opt_text(self.source_file),
            binary_name: self.binary_name@,
            debug_extension: match self.debug_extension {
                Some(b) => Some(b@),
                None => None,
            },
            methods: method_views(self.methods@),
        }
    }
}

} // verus!
