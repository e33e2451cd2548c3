//! The module that a MIR lowering hands over, as plain values.
//!
//! The shape is neutral: a kind is a tag with its fields, and a call's opacity
//! is a word.

use vstd::prelude::*;

use crate::ir::{
    function_views, node_views, CallOpacity, FunctionId, FunctionIr, FunctionView, IdView, KindView,
    Node, NodeKind, NodeView, VarId,
};
use crate::text::same;

verus! {

/// What a node does.
#[derive(Debug, Clone)]
pub enum WireKind {
    Pure,
    Branch,
    Return,
    Throw,
    Call { callee: String, opacity: String },
    StateWrite { target: String },
}

/// One node.
#[derive(Debug, Clone)]
pub struct WireNode {
    pub line: Option<u32>,
    pub kind: WireKind,
    pub defs: Vec<VarId>,
    pub uses: Vec<VarId>,
    pub succs: Vec<usize>,
    pub label: String,
}

/// One function. An empty file means the module's.
#[derive(Debug, Clone)]
pub struct WireFunction {
    pub file: String,
    pub name: String,
    pub signature: String,
    pub decl_line: Option<u32>,
    pub entry: usize,
    pub nodes: Vec<WireNode>,
}

/// A module.
#[derive(Debug, Clone)]
pub struct WireModule {
    pub file: String,
    pub functions: Vec<WireFunction>,
}

pub enum WireKindView {
    Pure,
    Branch,
    Return,
    Throw,
    Call { callee: Seq<char>, opacity: Seq<char> },
    StateWrite { target: Seq<char> },
}

#[verifier::ext_equal]
pub struct WireNodeView {
    pub line: Option<u32>,
    pub kind: WireKindView,
    pub defs: Seq<VarId>,
    pub uses: Seq<VarId>,
    pub succs: Seq<usize>,
    pub label: Seq<char>,
}

#[verifier::ext_equal]
pub struct WireFunctionView {
    pub file: Seq<char>,
    pub name: Seq<char>,
    pub signature: Seq<char>,
    pub decl_line: Option<u32>,
    pub entry: usize,
    pub nodes: Seq<WireNodeView>,
}

#[verifier::ext_equal]
pub struct WireModuleView {
    pub file: Seq<char>,
    pub functions: Seq<WireFunctionView>,
}

impl View for WireKind {
    type V = WireKindView;

    open spec fn view(&self) -> WireKindView {
        match *self {
            WireKind::Pure => WireKindView::Pure,
            WireKind::Branch => WireKindView::Branch,
            WireKind::Return => WireKindView::Return,
            WireKind::Throw => WireKindView::Throw,
            WireKind::Call { callee, opacity } => WireKindView::Call {
                callee: callee@,
                opacity: opacity@,
            },
            WireKind::StateWrite { target } => WireKindView::StateWrite { target: target@ },
        }
    }
}

impl View for WireNode {
    type V = WireNodeView;

    open spec fn view(&self) -> WireNodeView {
        WireNodeView {
            line: self.line,
            kind: self.kind@,
            defs: self.defs@,
            uses: self.uses@,
            succs: self.succs@,
            label: self.label@,
        }
    }
}

pub open spec fn wire_nodes(v: Seq<WireNode>) -> Seq<WireNodeView> {
    v.map_values(|n: WireNode| n@)
}

impl View for WireFunction {
    type V = WireFunctionView;

    open spec fn view(&self) -> WireFunctionView {
        WireFunctionView {
            file: self.file@,
            name: self.name@,
            signature: self.signature@,
            decl_line: self.decl_line,
            entry: self.entry,
            nodes: wire_nodes(self.nodes@),
        }
    }
}

pub open spec fn wire_functions(v: Seq<WireFunction>) -> Seq<WireFunctionView> {
    v.map_values(|f: WireFunction| f@)
}

impl View for WireModule {
    type V = WireModuleView;

    open spec fn view(&self) -> WireModuleView {
        WireModuleView { file: self.file@, functions: wire_functions(self.functions@) }
    }
}

/// A lowered Rust file.
#[derive(Debug)]
pub struct LoweredModule {
    /// The source file analyzed.
    pub file: String,
    /// One entry per MIR body: functions, methods, closures, const
    /// initializers.
    pub functions: Vec<FunctionIr>,
}

/// A lowered file as plain values.
#[verifier::ext_equal]
pub struct ModuleView {
    pub file: Seq<char>,
    pub functions: Seq<FunctionView>,
}

impl View for LoweredModule {
    type V = ModuleView;

    open spec fn view(&self) -> ModuleView {
        ModuleView { file: self.file@, functions: function_views(self.functions@) }
    }
}

/// The kind that a wire kind stands for: a call is inert only where it is said
/// to be.
pub open spec fn kind_of(w: WireKindView) -> KindView {
    match w {
        WireKindView::Pure => KindView::Pure,
        WireKindView::Branch => KindView::Branch,
        WireKindView::Return => KindView::Return,
        WireKindView::Throw => KindView::Throw,
        WireKindView::Call { callee, opacity } => KindView::Call {
            callee,
            opacity: if opacity == "inert"@ {
                CallOpacity::Inert
            } else {
                CallOpacity::Opaque
            },
        },
        WireKindView::StateWrite { target } => KindView::StateWrite { target },
    }
}

/// The node that a wire node stands for.
pub open spec fn node_of(w: WireNodeView) -> NodeView {
    NodeView {
        line: w.line,
        kind: kind_of(w.kind),
        defs: w.defs,
        uses: w.uses,
        succs: w.succs,
        label: w.label,
    }
}

/// The function that a wire function of a module stands for. A package spans
/// many source files, so each function may name its own.
pub open spec fn function_of(module_file: Seq<char>, w: WireFunctionView) -> FunctionView {
    FunctionView {
        id: IdView {
            file: if w.file.len() == 0 {
                module_file
            } else {
                w.file
            },
            name: w.name,
            signature: w.signature,
            decl_line: w.decl_line,
        },
        nodes: w.nodes.map_values(|n: WireNodeView| node_of(n)),
        entry: w.entry,
    }
}

/// The module that a wire module stands for.
pub open spec fn module_of(w: WireModuleView) -> ModuleView {
    ModuleView {
        file: w.file,
        functions: w.functions.map_values(|f: WireFunctionView| function_of(w.file, f)),
    }
}

impl From<WireKind> for NodeKind {
    fn from(w: WireKind) -> (r: Self) {
        match w {
            WireKind::Pure => NodeKind::Pure,
            WireKind::Branch => NodeKind::Branch,
            WireKind::Return => NodeKind::Return,
            WireKind::Throw => NodeKind::Throw,
            WireKind::Call { callee, opacity } => {
                let opacity = if same(opacity.as_str(), "inert") {
                    CallOpacity::Inert
                } else {
                    CallOpacity::Opaque
                };
                NodeKind::Call { callee, opacity }
            },
            WireKind::StateWrite { target } => NodeKind::StateWrite { target },
        }
    }
}

impl vstd::std_specs::convert::FromSpecImpl<WireKind> for NodeKind {
    open spec fn obeys_from_spec() -> bool {
        true
    }

    open spec fn from_spec(w: WireKind) -> NodeKind {
        match w {
            WireKind::Pure => NodeKind::Pure,
            WireKind::Branch => NodeKind::Branch,
            WireKind::Return => NodeKind::Return,
            WireKind::Throw => NodeKind::Throw,
            WireKind::Call { callee, opacity } => NodeKind::Call {
                callee,
                opacity: if opacity@ == "inert"@ {
                    CallOpacity::Inert
                } else {
                    CallOpacity::Opaque
                },
            },
            WireKind::StateWrite { target } => NodeKind::StateWrite { target },
        }
    }
}

fn read_node(w: WireNode) -> (r: Node)
    ensures
        r@ == node_of(w@),
{
    let kind = NodeKind::from(w.kind);
    Node { line: w.line, kind, defs: w.defs, uses: w.uses, succs: w.succs, label: w.label }
}

fn read_nodes(w: Vec<WireNode>) -> (r: Vec<Node>)
    ensures
        node_views(r@) == wire_nodes(w@).map_values(|n: WireNodeView| node_of(n)),
{
    let ghost all = w@;
    let mut out: Vec<Node> = Vec::new();
    for node in it: w
        invariant
            it.seq() == all,
            out@.len() == it.index(),
            forall|k: int| 0 <= k < it.index() ==> (#[trigger] out@[k])@ == node_of(all[k]@),
    {
        out.push(read_node(node));
    }
    assert(node_views(out@) =~= wire_nodes(all).map_values(|n: WireNodeView| node_of(n)));
    out
}

fn read_function(module_file: &str, w: WireFunction) -> (r: FunctionIr)
    ensures
        r@ == function_of(module_file@, w@),
{
    let ghost v = w@;
    let file = if same(w.file.as_str(), "") {
        module_file.to_owned()
    } else {
        w.file
    };
    proof {
        reveal_strlit("");
        assert(""@ =~= Seq::empty());
        if v.file.len() == 0 {
            assert(v.file =~= ""@);
        }
    }
    let id = FunctionId { file, name: w.name, signature: w.signature, decl_line: w.decl_line };
    let r = FunctionIr { id, nodes: read_nodes(w.nodes), entry: w.entry };
    assert(r@ =~= function_of(module_file@, v));
    r
}

/// Reads a module off the wire.
pub fn wire_to_module(module: WireModule) -> (r: LoweredModule)
    ensures
        r@ == module_of(module@),
{
    let ghost m = module@;
    let file = module.file;
    let functions = module.functions;
    let ghost all = functions@;
    let mut out: Vec<FunctionIr> = Vec::new();
    for f in it: functions
        invariant
            it.seq() == all,
            file@ == m.file,
            out@.len() == it.index(),
            forall|k: int|
                0 <= k < it.index() ==> (#[trigger] out@[k])@ == function_of(m.file, all[k]@),
    {
        out.push(read_function(file.as_str(), f));
    }
    assert(function_views(out@) =~= m.functions.map_values(
        |f: WireFunctionView| function_of(m.file, f),
    ));
    LoweredModule { file, functions: out }
}

} // verus!
