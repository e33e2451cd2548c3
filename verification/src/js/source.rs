//! A parsed JavaScript or TypeScript source as flat lists.
//!
//! The parser's node table is read once: for each syntax node its kind, its
//! span, its parent and what the resolver knows of it. The nodes come in
//! document order, each before what stands below it, so a node's depth is one
//! more than its parent's.

use vstd::prelude::*;

use crate::text::same;
use crate::ts::tree::{
    below, first, indices, kids, last, lemma_kid, tree_view, Choice, Nodes, Pick, SyntaxNode,
    SyntaxTree, SyntaxView,
};

verus! {

/// A range of bytes.
#[derive(Debug, Clone, Copy, PartialEq, Eq, Structural)]
pub struct Span {
    pub start: u32,
    pub end: u32,
}

/// Whether `a` lies in `b`.
pub open spec fn within(a: Span, b: Span) -> bool {
    a.start >= b.start && a.end <= b.end
}

/// One node of the parser's table.
#[derive(Debug, Clone)]
pub struct JsNode {
    /// The node's kind, e.g. `IfStatement`.
    pub kind: String,
    /// Where its text starts, in bytes.
    pub start: u32,
    /// Where its text ends, in bytes.
    pub end: u32,
    /// Index of the node it stands below; the root is its own parent.
    pub parent: usize,
    /// The name of an identifier node.
    pub name: Option<String>,
}

/// A node as plain values.
#[verifier::ext_equal]
pub struct JsNodeView {
    pub kind: Seq<char>,
    pub start: u32,
    pub end: u32,
    pub parent: usize,
    pub name: Option<Seq<char>>,
}

pub open spec fn opt_text(t: Option<String>) -> Option<Seq<char>> {
    match t {
        Some(s) => Some(s@),
        None => None,
    }
}

/// The views of a list of optional texts.
pub open spec fn opt_texts(v: Seq<Option<String>>) -> Seq<Option<Seq<char>>> {
    v.map_values(|t: Option<String>| opt_text(t))
}

impl View for JsNode {
    type V = JsNodeView;

    open spec fn view(&self) -> JsNodeView {
        JsNodeView {
            kind: self.kind@,
            start: self.start,
            end: self.end,
            parent: self.parent,
            name: opt_text(self.name),
        }
    }
}

/// The views of a list of nodes.
pub open spec fn js_views(v: Seq<JsNode>) -> Seq<JsNodeView> {
    v.map_values(|n: JsNode| n@)
}

/// What an identifier reference refers to, and how.
#[derive(Debug, Clone, Copy, PartialEq, Eq, Structural)]
pub struct Reference {
    /// The binding, unless the name is ambient.
    pub symbol: Option<u32>,
    /// Whether the value is read.
    pub read: bool,
    /// Whether the value is written.
    pub write: bool,
}

/// Which optional parts a `for` statement or a `switch` case has.
#[derive(Debug, Clone, Copy, PartialEq, Eq, Structural)]
pub struct Parts {
    pub init: bool,
    pub test: bool,
    pub update: bool,
}

/// What the parser and the resolver know of each node, list by list.
#[derive(Debug, Clone)]
pub struct NodeTable {
    pub nodes: Vec<JsNode>,
    /// The symbol that a binding identifier binds.
    pub bindings: Vec<Option<u32>>,
    /// What an identifier reference refers to.
    pub references: Vec<Option<Reference>>,
    /// The fixed key of a property or a method.
    pub keys: Vec<Option<String>>,
    /// The optional parts of a `for` statement or a `switch` case.
    pub parts: Vec<Parts>,
}

impl View for NodeTable {
    type V = JsFacts;

    open spec fn view(&self) -> JsFacts {
        JsFacts {
            nodes: js_views(self.nodes@),
            bindings: self.bindings@,
            references: self.references@,
            keys: opt_texts(self.keys@),
            parts: self.parts@,
        }
    }
}

/// What is known of each node, as plain values.
#[verifier::ext_equal]
pub struct JsFacts {
    pub nodes: Seq<JsNodeView>,
    pub bindings: Seq<Option<u32>>,
    pub references: Seq<Option<Reference>>,
    pub keys: Seq<Option<Seq<char>>>,
    pub parts: Seq<Parts>,
}

/// The depth of each of the first `k` nodes.
pub open spec fn depths(nodes: Seq<JsNodeView>, k: int) -> Seq<u32>
    decreases k,
{
    if k <= 0 || k > nodes.len() {
        Seq::empty()
    } else {
        let rest = depths(nodes, k - 1);
        let p = nodes[k - 1].parent;
        rest.push(
            if p < k - 1 {
                if rest[p as int] == u32::MAX {
                    u32::MAX
                } else {
                    (rest[p as int] + 1) as u32
                }
            } else {
                0
            },
        )
    }
}

/// The nodes as a tree.
pub open spec fn js_tree(nodes: Seq<JsNodeView>) -> SyntaxTree {
    Seq::new(
        nodes.len(),
        |i: int|
            SyntaxView {
                kind: nodes[i].kind,
                field: None,
                named: true,
                error: false,
                missing: false,
                has_error: false,
                start: nodes[i].start as usize,
                end: nodes[i].end as usize,
                row: 0,
                depth: depths(nodes, nodes.len() as int)[i],
            },
    )
}

/// The nodes as a tree.
pub fn build_tree(nodes: &Vec<JsNode>) -> (r: Vec<SyntaxNode>)
    ensures
        tree_view(r@) == js_tree(js_views(nodes@)),
{
    let ghost nv = js_views(nodes@);
    let mut depth: Vec<u32> = Vec::new();
    let mut out: Vec<SyntaxNode> = Vec::new();
    let mut i: usize = 0;
    let n: usize = nodes.len();
    while i < n
        invariant
            n == nodes.len(),
            nv == js_views(nodes@),
            i <= n,
            depth@ == depths(nv, i as int),
            depth.len() == i,
            out.len() == i,
            forall|k: int|
                0 <= k < i ==> (#[trigger] out@[k])@ == (SyntaxView {
                    kind: nv[k].kind,
                    field: None,
                    named: true,
                    error: false,
                    missing: false,
                    has_error: false,
                    start: nv[k].start as usize,
                    end: nv[k].end as usize,
                    row: 0,
                    depth: depth@[k],
                }),
        decreases n - i,
    {
        let node = &nodes[i];
        assert(nv[i as int] == node@);
        let p: usize = node.parent;
        let d: u32 = if p < i {
            if depth[p] == 0xffff_ffff {
                0xffff_ffff
            } else {
                depth[p] + 1
            }
        } else {
            0
        };
        let ghost before = depth@;
        depth.push(d);
        proof {
            assert forall|k: int| 0 <= k < i implies depth@[k] == before[k] by {}
        }
        out.push(
            SyntaxNode {
                kind: node.kind.clone(),
                field: None,
                named: true,
                error: false,
                missing: false,
                has_error: false,
                start: node.start as usize,
                end: node.end as usize,
                row: 0,
                depth: d,
            },
        );
        i += 1;
    }
    assert(tree_view(out@) =~= js_tree(nv));
    out
}

/// A parsed source: its tree, what is known of its nodes, and its text.
pub struct Source {
    pub t: SyntaxTree,
    pub names: Seq<Option<Seq<char>>>,
    pub bindings: Seq<Option<u32>>,
    pub references: Seq<Option<Reference>>,
    pub keys: Seq<Option<Seq<char>>>,
    pub parts: Seq<Parts>,
    pub src: Seq<char>,
}

/// The source that the facts and the text make up.
pub open spec fn source_of(f: JsFacts, src: Seq<char>) -> Source {
    Source {
        t: js_tree(f.nodes),
        names: f.nodes.map_values(|n: JsNodeView| n.name),
        bindings: f.bindings,
        references: f.references,
        keys: f.keys,
        parts: f.parts,
        src,
    }
}

impl Source {
    pub open spec fn is(self, i: int, kind: Seq<char>) -> bool {
        0 <= i < self.t.len() && self.t[i].kind == kind
    }

    pub open spec fn span(self, i: int) -> Span {
        Span { start: self.t[i].start as u32, end: self.t[i].end as u32 }
    }

    pub open spec fn name(self, i: int) -> Option<Seq<char>> {
        if 0 <= i < self.names.len() {
            self.names[i]
        } else {
            None
        }
    }

    pub open spec fn binding(self, i: int) -> Option<u32> {
        if 0 <= i < self.bindings.len() {
            self.bindings[i]
        } else {
            None
        }
    }

    pub open spec fn reference(self, i: int) -> Option<Reference> {
        if 0 <= i < self.references.len() {
            self.references[i]
        } else {
            None
        }
    }

    pub open spec fn key(self, i: int) -> Option<Seq<char>> {
        if 0 <= i < self.keys.len() {
            self.keys[i]
        } else {
            None
        }
    }

    pub open spec fn part(self, i: int) -> Parts {
        if 0 <= i < self.parts.len() {
            self.parts[i]
        } else {
            Parts { init: false, test: false, update: false }
        }
    }

    /// The children of a node.
    pub open spec fn kids(self, i: int) -> Seq<int> {
        kids(self.t, i, Pick::Named)
    }

    /// The `n`-th child of a node.
    pub open spec fn kid(self, i: int, n: int) -> Option<int> {
        if 0 <= n < self.kids(i).len() {
            Some(self.kids(i)[n])
        } else {
            None
        }
    }

    /// The first child of a kind.
    pub open spec fn kid_of(self, i: int, kind: Seq<char>) -> Option<int> {
        first(kids(self.t, i, Pick::Kind(kind)))
    }

    /// The last child of a node.
    pub open spec fn last_kid(self, i: int) -> Option<int> {
        last(self.kids(i))
    }
}

/// A parsed source, for lowering.
pub struct JsSource<'a> {
    pub tree: Nodes<'a>,
    pub names: &'a Vec<Option<String>>,
    pub bindings: &'a Vec<Option<u32>>,
    pub references: &'a Vec<Option<Reference>>,
    pub keys: &'a Vec<Option<String>>,
    pub parts: &'a Vec<Parts>,
}

/// Whether every span of the tree is made of 32-bit offsets.
pub open spec fn spans_fit(t: SyntaxTree) -> bool {
    forall|i: int|
        0 <= i < t.len() ==> (#[trigger] t[i]).start <= u32::MAX && t[i].end <= u32::MAX
}

impl<'a> JsSource<'a> {
    pub open spec fn s(&self) -> Source {
        Source {
            t: self.tree.t(),
            names: opt_texts(self.names@),
            bindings: self.bindings@,
            references: self.references@,
            keys: opt_texts(self.keys@),
            parts: self.parts@,
            src: self.tree.source@,
        }
    }

    pub open spec fn has(&self, i: int) -> bool {
        0 <= i < self.s().t.len() && spans_fit(self.s().t)
    }

    pub fn is(&self, i: usize, kind: &str) -> (r: bool)
        requires
            self.has(i as int),
        ensures
            r == self.s().is(i as int, kind@),
    {
        assert(self.s().t[i as int] == self.tree.nodes@[i as int]@);
        same(self.tree.nodes[i].kind.as_str(), kind)
    }

    pub fn span(&self, i: usize) -> (r: Span)
        requires
            self.has(i as int),
        ensures
            r == self.s().span(i as int),
    {
        assert(self.s().t[i as int] == self.tree.nodes@[i as int]@);
        Span { start: self.tree.nodes[i].start as u32, end: self.tree.nodes[i].end as u32 }
    }

    pub fn name(&self, i: usize) -> (r: Option<&'a str>)
        ensures
            match r {
                Some(t) => self.s().name(i as int) == Some(t@),
                None => self.s().name(i as int) is None,
            },
    {
        if i < self.names.len() {
            assert(self.s().names[i as int] == opt_text(self.names@[i as int]));
            match &self.names[i] {
                Some(t) => Some(t.as_str()),
                None => None,
            }
        } else {
            None
        }
    }

    pub fn binding(&self, i: usize) -> (r: Option<u32>)
        ensures
            r == self.s().binding(i as int),
    {
        if i < self.bindings.len() {
            self.bindings[i]
        } else {
            None
        }
    }

    pub fn reference(&self, i: usize) -> (r: Option<Reference>)
        ensures
            r == self.s().reference(i as int),
    {
        if i < self.references.len() {
            self.references[i]
        } else {
            None
        }
    }

    pub fn key(&self, i: usize) -> (r: Option<&'a str>)
        ensures
            match r {
                Some(t) => self.s().key(i as int) == Some(t@),
                None => self.s().key(i as int) is None,
            },
    {
        if i < self.keys.len() {
            assert(self.s().keys[i as int] == opt_text(self.keys@[i as int]));
            match &self.keys[i] {
                Some(t) => Some(t.as_str()),
                None => None,
            }
        } else {
            None
        }
    }

    pub fn part(&self, i: usize) -> (r: Parts)
        ensures
            r == self.s().part(i as int),
    {
        if i < self.parts.len() {
            self.parts[i]
        } else {
            Parts { init: false, test: false, update: false }
        }
    }

    /// The children of a node.
    pub fn kids(&self, i: usize) -> (r: Vec<usize>)
        requires
            self.has(i as int),
        ensures
            indices(r@) == self.s().kids(i as int),
            forall|k: int|
                0 <= k < r@.len() ==> self.has(#[trigger] r@[k] as int) && below(
                    self.s().t,
                    i as int,
                    r@[k] as int,
                ),
    {
        let r = self.tree.children(i, Choice::Named);
        let ghost ks = self.s().kids(i as int);
        assert forall|k: int| 0 <= k < r@.len() implies self.has(#[trigger] r@[k] as int) && below(
            self.s().t,
            i as int,
            r@[k] as int,
        ) by {
            assert(ks[k] == r@[k] as int);
            lemma_kid(self.s().t, i as int, Pick::Named, k);
        }
        r
    }

    /// The `n`-th child of a node.
    pub fn kid(&self, i: usize, n: usize) -> (r: Option<usize>)
        requires
            self.has(i as int),
        ensures
            match r {
                Some(c) => self.s().kid(i as int, n as int) == Some(c as int) && self.has(c as int)
                    && below(self.s().t, i as int, c as int),
                None => self.s().kid(i as int, n as int) is None,
            },
    {
        let all = self.kids(i);
        assert(self.s().kids(i as int).len() == all@.len());
        if n < all.len() {
            assert(self.s().kids(i as int)[n as int] == all@[n as int] as int);
            assert(self.has(all@[n as int] as int));
            Some(all[n])
        } else {
            None
        }
    }

    /// The first child of a kind.
    pub fn kid_of(&self, i: usize, kind: &str) -> (r: Option<usize>)
        requires
            self.has(i as int),
        ensures
            match r {
                Some(c) => self.s().kid_of(i as int, kind@) == Some(c as int) && self.has(c as int)
                    && below(self.s().t, i as int, c as int),
                None => self.s().kid_of(i as int, kind@) is None,
            },
    {
        let all = self.tree.children(i, Choice::Kind(kind));
        let ghost ks = kids(self.s().t, i as int, Pick::Kind(kind@));
        assert(ks.len() == all@.len());
        if all.len() > 0 {
            assert(ks[0] == all@[0] as int);
            proof {
                lemma_kid(self.s().t, i as int, Pick::Kind(kind@), 0);
            }
            Some(all[0])
        } else {
            None
        }
    }

    /// The last child of a node.
    pub fn last_kid(&self, i: usize) -> (r: Option<usize>)
        requires
            self.has(i as int),
        ensures
            match r {
                Some(c) => self.s().last_kid(i as int) == Some(c as int) && self.has(c as int)
                    && below(self.s().t, i as int, c as int),
                None => self.s().last_kid(i as int) is None,
            },
    {
        let all = self.kids(i);
        let n: usize = all.len();
        assert(self.s().kids(i as int).len() == n);
        if n > 0 {
            assert(self.s().kids(i as int)[n - 1] == all@[n - 1] as int);
            assert(self.has(all@[n - 1] as int));
            Some(all[n - 1])
        } else {
            None
        }
    }
}

} // verus!
