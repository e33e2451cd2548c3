//! The language-neutral IR contract.
//!
//! A frontend lowers whatever substrate it has into [`FunctionIr`]. It must
//! answer four questions per instruction: what line did it come from, what
//! does it define, what does it use, and where can control go next.
//!
//! The graph is instruction-level, not block-level, and definitions need not
//! be in SSA form: reaching definitions are computed from these facts.

use std::collections::BTreeSet;

use vstd::prelude::*;
use vstd::string::StringExecFns;

use crate::text::{decimal, decimal_text};

verus! {

/// Index of a node in [`FunctionIr::nodes`].
pub type NodeId = usize;

/// A frontend-assigned variable identifier: two nodes that name the same id
/// talk about the same storage location.
pub type VarId = u32;

/// How a call site relates to the analysis frontier.
#[derive(Debug, Clone, Copy, PartialEq, Eq, PartialOrd, Ord, Structural)]
pub enum CallOpacity {
    /// An atom at the abstraction frontier: the callee's body is never
    /// analyzed, so the call is treated as an effect.
    Opaque,
    /// A call known to carry no behavior: logging, metrics, tracing.
    Inert,
}

/// What a node does, as far as importance is concerned.
#[derive(Debug, Clone, PartialEq, Eq)]
pub enum NodeKind {
    /// Computation with no effect outside the function.
    Pure,
    /// A conditional transfer of control.
    Branch,
    /// Returns from the function.
    Return,
    /// Throws: an effect, and an abnormal exit.
    Throw,
    /// A call. Effect-ness depends on [`CallOpacity`].
    Call {
        /// Fully-qualified callee name.
        callee: String,
        /// Whether the callee is an opaque atom or a known-inert call.
        opacity: CallOpacity,
    },
    /// A write to storage that outlives the function.
    StateWrite {
        /// Human-readable target, e.g. `com.example.Cache#entries`.
        target: String,
    },
}

/// A node kind as plain text.
pub enum KindView {
    Pure,
    Branch,
    Return,
    Throw,
    Call { callee: Seq<char>, opacity: CallOpacity },
    StateWrite { target: Seq<char> },
}

impl View for NodeKind {
    type V = KindView;

    open spec fn view(&self) -> KindView {
        match *self {
            NodeKind::Pure => KindView::Pure,
            NodeKind::Branch => KindView::Branch,
            NodeKind::Return => KindView::Return,
            NodeKind::Throw => KindView::Throw,
            NodeKind::Call { callee, opacity } => KindView::Call { callee: callee@, opacity },
            NodeKind::StateWrite { target } => KindView::StateWrite { target: target@ },
        }
    }
}

impl KindView {
    /// Whether a node of this kind makes behavior observable.
    pub open spec fn effect(self) -> bool {
        match self {
            KindView::Pure | KindView::Branch => false,
            KindView::Return | KindView::Throw | KindView::StateWrite { .. } => true,
            KindView::Call { opacity, .. } => opacity is Opaque,
        }
    }

    /// The stable tag of the kind.
    pub open spec fn tag(self) -> Seq<char> {
        match self {
            KindView::Pure => "pure"@,
            KindView::Branch => "branch"@,
            KindView::Return => "return"@,
            KindView::Throw => "throw"@,
            KindView::Call { .. } => "call"@,
            KindView::StateWrite { .. } => "state-write"@,
        }
    }
}

impl NodeKind {
    /// Whether this node is an effect: a point where behavior becomes
    /// observable outside the function body.
    #[must_use]
    pub fn is_effect(&self) -> (r: bool)
        ensures
            r == self@.effect(),
    {
        match self {
            NodeKind::Return | NodeKind::Throw | NodeKind::StateWrite { .. } => true,
            NodeKind::Call { opacity, .. } => *opacity == CallOpacity::Opaque,
            NodeKind::Pure | NodeKind::Branch => false,
        }
    }

    /// Whether this node is denylisted as carrying no behavior.
    #[must_use]
    pub fn is_inert(&self) -> (r: bool)
        ensures
            r == (self@ matches KindView::Call { opacity, .. } && opacity is Inert),
    {
        match self {
            NodeKind::Call { opacity, .. } => *opacity == CallOpacity::Inert,
            _ => false,
        }
    }

    /// A short stable tag used in artifact reasons.
    #[must_use]
    pub fn tag(&self) -> (r: &'static str)
        ensures
            r@ == self@.tag(),
    {
        match self {
            NodeKind::Pure => "pure",
            NodeKind::Branch => "branch",
            NodeKind::Return => "return",
            NodeKind::Throw => "throw",
            NodeKind::Call { .. } => "call",
            NodeKind::StateWrite { .. } => "state-write",
        }
    }
}

/// One instruction in the language-neutral graph.
#[derive(Debug, Clone)]
pub struct Node {
    /// Source line this instruction was lowered from, if known.
    pub line: Option<u32>,
    /// What this instruction does.
    pub kind: NodeKind,
    /// Variables this instruction defines.
    pub defs: Vec<VarId>,
    /// Variables this instruction reads.
    pub uses: Vec<VarId>,
    /// Control-flow successors, as node indices.
    pub succs: Vec<NodeId>,
    /// Frontend-supplied text. Never parsed.
    pub label: String,
}

/// A node as plain values.
#[verifier::ext_equal]
pub struct NodeView {
    pub line: Option<u32>,
    pub kind: KindView,
    pub defs: Seq<VarId>,
    pub uses: Seq<VarId>,
    pub succs: Seq<NodeId>,
    pub label: Seq<char>,
}

impl View for Node {
    type V = NodeView;

    open spec fn view(&self) -> NodeView {
        NodeView {
            line: self.line,
            kind: self.kind@,
            defs: self.defs@,
            uses: self.uses@,
            succs: self.succs@,
            label: self.label@,
        }
    }
}

/// The views of a sequence of nodes.
pub open spec fn node_views(nodes: Seq<Node>) -> Seq<NodeView> {
    nodes.map_values(|n: Node| n@)
}

impl NodeView {
    /// Whether the node carries no importance signal of its own.
    pub open spec fn structural(self) -> bool {
        self.defs.len() == 0 && self.uses.len() == 0 && self.kind is Pure
    }
}

impl Node {
    /// Whether this node carries no importance signal of its own: it defines
    /// nothing, reads nothing and is not an effect.
    #[must_use]
    pub fn is_structural(&self) -> (r: bool)
        ensures
            r == self@.structural(),
    {
        self.defs.is_empty() && self.uses.is_empty() && matches!(self.kind, NodeKind::Pure)
    }

    /// A pure node with no dataflow.
    #[must_use]
    pub fn pure(line: u32) -> (r: Self)
        ensures
            r@ == (NodeView {
                line: Some(line),
                kind: KindView::Pure,
                defs: Seq::empty(),
                uses: Seq::empty(),
                succs: Seq::empty(),
                label: Seq::empty(),
            }),
    {
        Node {
            line: Some(line),
            kind: NodeKind::Pure,
            defs: Vec::new(),
            uses: Vec::new(),
            succs: Vec::new(),
            label: String::new(),
        }
    }

    /// Sets this node's successors, returning it, for terse construction.
    #[must_use]
    pub fn with_succs(self, succs: Vec<NodeId>) -> (r: Self)
        ensures
            r@ == (NodeView { succs: succs@, ..self@ }),
    {
        let mut node = self;
        node.succs = succs;
        node
    }

    /// Sets this node's defs and uses, returning it, for terse construction.
    #[must_use]
    pub fn with_dataflow(self, defs: Vec<VarId>, uses: Vec<VarId>) -> (r: Self)
        ensures
            r@ == (NodeView { defs: defs@, uses: uses@, ..self@ }),
    {
        let mut node = self;
        node.defs = defs;
        node.uses = uses;
        node
    }

    /// Sets this node's kind, returning it, for terse construction.
    #[must_use]
    pub fn with_kind(self, kind: NodeKind) -> (r: Self)
        ensures
            r@ == (NodeView { kind: kind@, ..self@ }),
    {
        let mut node = self;
        node.kind = kind;
        node
    }
}

/// Identity of the analyzed function, carried through to the artifact.
#[derive(Debug, Clone, PartialEq, Eq, PartialOrd, Ord)]
pub struct FunctionId {
    /// Source file path as recorded by the substrate.
    pub file: String,
    /// Fully-qualified function name including any owner type.
    pub name: String,
    /// Signature or descriptor, when the substrate has one. Empty otherwise.
    pub signature: String,
    /// First line of the function body, when known.
    pub decl_line: Option<u32>,
}

/// A single function, lowered into the neutral contract.
#[derive(Debug, Clone)]
pub struct FunctionIr {
    /// Who this is.
    pub id: FunctionId,
    /// Instructions, indexed by [`NodeId`].
    pub nodes: Vec<Node>,
    /// Entry node.
    pub entry: NodeId,
}

/// A function identity as plain text.
#[verifier::ext_equal]
pub struct IdView {
    pub file: Seq<char>,
    pub name: Seq<char>,
    pub signature: Seq<char>,
    pub decl_line: Option<u32>,
}

impl View for FunctionId {
    type V = IdView;

    open spec fn view(&self) -> IdView {
        IdView {
            file: self.file@,
            name: self.name@,
            signature: self.signature@,
            decl_line: self.decl_line,
        }
    }
}

/// A function as plain values.
#[verifier::ext_equal]
pub struct FunctionView {
    pub id: IdView,
    pub nodes: Seq<NodeView>,
    pub entry: NodeId,
}

impl View for FunctionIr {
    type V = FunctionView;

    open spec fn view(&self) -> FunctionView {
        FunctionView { id: self.id@, nodes: node_views(self.nodes@), entry: self.entry }
    }
}

/// The views of a sequence of functions.
pub open spec fn function_views(fns: Seq<FunctionIr>) -> Seq<FunctionView> {
    fns.map_values(|f: FunctionIr| f@)
}

/// Whether every successor of every node is a node.
pub open spec fn succs_in_range(nodes: Seq<NodeView>) -> bool {
    forall|n: int, k: int|
        0 <= n < nodes.len() && 0 <= k < nodes[n].succs.len() ==> #[trigger] nodes[n].succs[k]
            < nodes.len()
}

impl FunctionView {
    /// Whether the graph is consistent: the entry is a node unless there is
    /// none, and every successor is a node.
    pub open spec fn valid(self) -> bool {
        &&& self.nodes.len() > 0 ==> self.entry < self.nodes.len()
        &&& succs_in_range(self.nodes)
    }

    /// Whether an edge leaves the graph while every edge before it, in the
    /// order of nodes and successors, stays inside.
    pub open spec fn first_bad_edge(self, n: int, k: int) -> bool {
        &&& 0 <= n < self.nodes.len()
        &&& 0 <= k < self.nodes[n].succs.len()
        &&& self.nodes[n].succs[k] >= self.nodes.len()
        &&& forall|m: int, j: int|
            0 <= m < self.nodes.len() && 0 <= j < self.nodes[m].succs.len() && (m < n || (m == n
                && j < k)) ==> #[trigger] self.nodes[m].succs[j] < self.nodes.len()
    }

    /// The lines that the nodes come from.
    pub open spec fn line_set(self) -> Set<u32> {
        self.lines_before(self.nodes.len() as int)
    }

    /// The lines that the first `k` nodes come from.
    pub open spec fn lines_before(self, k: int) -> Set<u32> {
        Set::new(
            |l: u32|
                exists|n: int|
                    0 <= n < k && n < self.nodes.len() && (#[trigger] self.nodes[n]).line
                        == Some(l),
        )
    }

    /// The effects among the first `k` nodes, in order.
    pub open spec fn effects_before(self, k: int) -> Seq<NodeId>
        decreases k,
    {
        if k <= 0 || k > self.nodes.len() {
            Seq::empty()
        } else {
            let rest = self.effects_before(k - 1);
            if self.nodes[k - 1].kind.effect() {
                rest.push((k - 1) as usize)
            } else {
                rest
            }
        }
    }
}

impl FunctionIr {
    /// Number of nodes.
    #[must_use]
    pub fn len(&self) -> (r: usize)
        ensures
            r == self@.nodes.len(),
    {
        self.nodes.len()
    }

    /// Whether the function has no instructions: an abstract or native
    /// method, or a body the substrate declined to lower.
    #[must_use]
    pub fn is_empty(&self) -> (r: bool)
        ensures
            r == (self@.nodes.len() == 0),
    {
        self.nodes.is_empty()
    }

    /// Every distinct source line this function's instructions map to.
    #[must_use]
    pub fn lines(&self) -> (r: BTreeSet<u32>)
        ensures
            r@ == self@.line_set(),
    {
        broadcast use vstd::std_specs::btree::group_btree_axioms;

        let mut out: BTreeSet<u32> = BTreeSet::new();
        let mut k: usize = 0;
        while k < self.nodes.len()
            invariant
                k <= self.nodes.len(),
                out@ =~= self@.lines_before(k as int),
            decreases self.nodes.len() - k,
        {
            let ghost before = out@;
            assert(self@.nodes[k as int] == self.nodes@[k as int]@);
            if let Some(l) = self.nodes[k].line {
                out.insert(l);
                assert(out@ =~= before.insert(l));
            }
            k += 1;
        }
        out
    }

    /// Nodes that are effects, the anchors of the backward slice.
    #[must_use]
    pub fn effects(&self) -> (r: Vec<NodeId>)
        ensures
            r@ == self@.effects_before(self@.nodes.len() as int),
    {
        let mut out: Vec<NodeId> = Vec::new();
        let mut k: usize = 0;
        while k < self.nodes.len()
            invariant
                k <= self.nodes.len(),
                out@ == self@.effects_before(k as int),
            decreases self.nodes.len() - k,
        {
            assert(self@.nodes[k as int] == self.nodes@[k as int]@);
            if self.nodes[k].kind.is_effect() {
                out.push(k);
            }
            k += 1;
        }
        out
    }

    /// Validates the graph's internal consistency.
    ///
    /// # Errors
    ///
    /// Returns the offending node and successor when a successor index is out
    /// of range, or when the entry node is.
    pub fn validate(&self) -> (r: Result<(), IrError>)
        ensures
            match r {
                Ok(_) => self@.valid(),
                Err(IrError::EntryOutOfRange { entry, len }) => entry == self.entry && len
                    == self@.nodes.len() && 0 < len <= entry,
                Err(IrError::SuccessorOutOfRange { node, succ, len }) => {
                    &&& len == self@.nodes.len()
                    &&& self.entry < len
                    &&& exists|k: int|
                        #[trigger] self@.first_bad_edge(node as int, k)
                            && self@.nodes[node as int].succs[k] == succ
                },
            },
    {
        if !self.nodes.is_empty() && self.entry >= self.nodes.len() {
            return Err(
                IrError::EntryOutOfRange { entry: self.entry, len: self.nodes.len() },
            );
        }
        let mut id: usize = 0;
        while id < self.nodes.len()
            invariant
                id <= self.nodes.len(),
                !(self.nodes.len() > 0 && self.entry >= self.nodes.len()),
                forall|m: int, j: int|
                    0 <= m < id && 0 <= j < self@.nodes[m].succs.len()
                        ==> #[trigger] self@.nodes[m].succs[j] < self.nodes.len(),
            decreases self.nodes.len() - id,
        {
            let node = &self.nodes[id];
            assert(self@.nodes[id as int] == node@);
            let mut k: usize = 0;
            while k < node.succs.len()
                invariant
                    id < self.nodes.len(),
                    k <= node.succs.len(),
                    self@.nodes[id as int] == node@,
                    !(self.nodes.len() > 0 && self.entry >= self.nodes.len()),
                    forall|m: int, j: int|
                        0 <= m < id && 0 <= j < self@.nodes[m].succs.len()
                            ==> #[trigger] self@.nodes[m].succs[j] < self.nodes.len(),
                    forall|j: int| 0 <= j < k ==> #[trigger] node.succs@[j] < self.nodes.len(),
                decreases node.succs.len() - k,
            {
                let s: usize = node.succs[k];
                if s >= self.nodes.len() {
                    assert(self@.nodes[id as int].succs[k as int] == s);
                    assert(self@.first_bad_edge(id as int, k as int));
                    let len: usize = self.nodes.len();
                    let e = IrError::SuccessorOutOfRange { node: id, succ: s, len };
                    assert(e matches IrError::SuccessorOutOfRange { node, succ, .. } && exists|
                        k: int,
                    |
                        #[trigger] self@.first_bad_edge(node as int, k)
                            && self@.nodes[node as int].succs[k] == succ);
                    return Err(e);
                }
                k += 1;
            }
            id += 1;
        }
        Ok(())
    }
}

/// A malformed [`FunctionIr`] handed in by a frontend.
#[derive(Debug, Clone, PartialEq, Eq)]
pub enum IrError {
    /// The entry index is past the end of the node list.
    EntryOutOfRange {
        /// The bad entry index.
        entry: NodeId,
        /// Number of nodes present.
        len: usize,
    },
    /// A successor index is past the end of the node list.
    SuccessorOutOfRange {
        /// The node carrying the bad edge.
        node: NodeId,
        /// The out-of-range successor.
        succ: NodeId,
        /// Number of nodes present.
        len: usize,
    },
}

impl IrError {
    /// The message of the error.
    pub open spec fn text(self) -> Seq<char> {
        match self {
            IrError::EntryOutOfRange { entry, len } => "entry node "@ + decimal(entry as nat)
                + " is out of range (function has "@ + decimal(len as nat) + " nodes)"@,
            IrError::SuccessorOutOfRange { node, succ, len } => "node "@ + decimal(node as nat)
                + " has successor "@ + decimal(succ as nat)
                + ", which is out of range (function has "@ + decimal(len as nat) + " nodes)"@,
        }
    }

    /// The message of the error.
    pub fn message(&self) -> (r: String)
        ensures
            r@ == self.text(),
    {
        match self {
            IrError::EntryOutOfRange { entry, len } => {
                let mut m = "entry node ".to_owned();
                m.append(decimal_text(*entry as u128).as_str());
                m.append(" is out of range (function has ");
                m.append(decimal_text(*len as u128).as_str());
                m.append(" nodes)");
                m
            },
            IrError::SuccessorOutOfRange { node, succ, len } => {
                let mut m = "node ".to_owned();
                m.append(decimal_text(*node as u128).as_str());
                m.append(" has successor ");
                m.append(decimal_text(*succ as u128).as_str());
                m.append(", which is out of range (function has ");
                m.append(decimal_text(*len as u128).as_str());
                m.append(" nodes)");
                m
            },
        }
    }
}

} // verus!
