//! Syntax trees as flat lists.
//!
//! A parsed tree is held as the list of its nodes in document order, each
//! with its depth: the nodes below a node are those that follow it up to the
//! next one that is no deeper. Every list of depths reads as a forest this
//! way, so nothing has to be known of the list for the walk to end.

use vstd::prelude::*;

use crate::text::{byte_slice, same, slice};
use crate::ts::grammar::words;

verus! {

/// One node of a syntax tree.
#[derive(Debug, Clone)]
pub struct SyntaxNode {
    /// The node's kind in its grammar.
    pub kind: String,
    /// The field of its parent that holds it, if any.
    pub field: Option<String>,
    /// Whether it is a named node of the grammar.
    pub named: bool,
    /// Whether it stands for a syntax error.
    pub error: bool,
    /// Whether the parser made it up to recover from an error.
    pub missing: bool,
    /// Whether there is a syntax error at it or below it.
    pub has_error: bool,
    /// Where its text starts, in bytes.
    pub start: usize,
    /// Where its text ends, in bytes.
    pub end: usize,
    /// The line its text starts on, from zero.
    pub row: usize,
    /// How many nodes stand above it.
    pub depth: u32,
}

/// A syntax node as plain values.
#[verifier::ext_equal]
pub struct SyntaxView {
    pub kind: Seq<char>,
    pub field: Option<Seq<char>>,
    pub named: bool,
    pub error: bool,
    pub missing: bool,
    pub has_error: bool,
    pub start: usize,
    pub end: usize,
    pub row: usize,
    pub depth: u32,
}

impl View for SyntaxNode {
    type V = SyntaxView;

    open spec fn view(&self) -> SyntaxView {
        SyntaxView {
            kind: self.kind@,
            field: match self.field {
                Some(f) => Some(f@),
                None => None,
            },
            named: self.named,
            error: self.error,
            missing: self.missing,
            has_error: self.has_error,
            start: self.start,
            end: self.end,
            row: self.row,
            depth: self.depth,
        }
    }
}

/// A tree as plain values: its nodes in document order.
pub type SyntaxTree = Seq<SyntaxView>;

/// The views of a list of nodes.
pub open spec fn tree_view(nodes: Seq<SyntaxNode>) -> SyntaxTree {
    nodes.map_values(|n: SyntaxNode| n@)
}

/// Where the nodes below `i` end, when those up to `j` are known to be below.
pub open spec fn extent_from(t: SyntaxTree, i: int, j: int) -> int
    decreases t.len() - j,
{
    if j >= t.len() || t[j].depth <= t[i].depth {
        j
    } else {
        extent_from(t, i, j + 1)
    }
}

/// The index behind the last node below `i`.
pub open spec fn extent(t: SyntaxTree, i: int) -> int {
    extent_from(t, i, i + 1)
}

/// How many nodes stand at `i` and below it.
pub open spec fn size(t: SyntaxTree, i: int) -> int {
    extent(t, i) - i
}

/// Which children of a node are meant.
pub enum Pick {
    /// The named ones.
    Named,
    /// Those that a field of the parent holds.
    Field(Seq<char>),
    /// The named ones of one kind.
    Kind(Seq<char>),
    /// The named ones of some kinds.
    Kinds(Seq<Seq<char>>),
    /// The named ones but for some nodes.
    Except(Seq<usize>),
}

impl Pick {
    pub open spec fn takes(self, t: SyntaxTree, j: int) -> bool {
        match self {
            Pick::Named => t[j].named,
            Pick::Field(f) => f.len() > 0 && t[j].field == Some(f),
            Pick::Kind(k) => t[j].named && t[j].kind == k,
            Pick::Kinds(ks) => t[j].named && ks.contains(t[j].kind),
            Pick::Except(ids) => t[j].named && !ids.contains(j as usize),
        }
    }
}

/// The children of `i` at or behind `j` that are meant, in order.
pub open spec fn kids_from(t: SyntaxTree, i: int, j: int, p: Pick) -> Seq<int>
    decreases extent(t, i) - j,
{
    if j >= extent(t, i) {
        Seq::empty()
    } else if t[j].depth == t[i].depth + 1 && p.takes(t, j) {
        seq![j] + kids_from(t, i, j + 1, p)
    } else {
        kids_from(t, i, j + 1, p)
    }
}

/// The children of `i` that are meant, in order.
pub open spec fn kids(t: SyntaxTree, i: int, p: Pick) -> Seq<int> {
    if 0 <= i < t.len() {
        kids_from(t, i, i + 1, p)
    } else {
        Seq::empty()
    }
}

pub open spec fn first(s: Seq<int>) -> Option<int> {
    if s.len() > 0 {
        Some(s[0])
    } else {
        None
    }
}

pub open spec fn last(s: Seq<int>) -> Option<int> {
    if s.len() > 0 {
        Some(s[s.len() - 1])
    } else {
        None
    }
}

/// The first child that a field holds.
pub open spec fn child_by_field(t: SyntaxTree, i: int, field: Seq<char>) -> Option<int> {
    first(kids(t, i, Pick::Field(field)))
}

/// The first named child of a kind; none when no kind is given.
pub open spec fn child_of_kind(t: SyntaxTree, i: int, kind: Seq<char>) -> Option<int> {
    if kind.len() == 0 {
        None
    } else {
        first(kids(t, i, Pick::Kind(kind)))
    }
}

/// The child that a field holds, or else the first one of a kind.
pub open spec fn field_or_kind(
    t: SyntaxTree,
    i: int,
    field: Seq<char>,
    kind: Seq<char>,
) -> Option<int> {
    match child_by_field(t, i, field) {
        Some(n) => Some(n),
        None => child_of_kind(t, i, kind),
    }
}

/// The child that a field holds, or else the `n`th named one.
pub open spec fn field_or_nth(t: SyntaxTree, i: int, field: Seq<char>, n: int) -> Option<int> {
    match child_by_field(t, i, field) {
        Some(x) => Some(x),
        None => {
            let all = kids(t, i, Pick::Named);
            if 0 <= n < all.len() {
                Some(all[n])
            } else {
                None
            }
        },
    }
}

/// The child that a field holds, or else the last named one.
pub open spec fn field_or_last(t: SyntaxTree, i: int, field: Seq<char>) -> Option<int> {
    match child_by_field(t, i, field) {
        Some(x) => Some(x),
        None => last(kids(t, i, Pick::Named)),
    }
}

/// The nearest node at or before `j` that is less deep than `i`.
pub open spec fn parent_from(t: SyntaxTree, i: int, j: int) -> Option<int>
    decreases j + 1,
{
    if j < 0 {
        None
    } else if t[j].depth < t[i].depth {
        Some(j)
    } else {
        parent_from(t, i, j - 1)
    }
}

/// The node that `i` stands below.
pub open spec fn parent(t: SyntaxTree, i: int) -> Option<int> {
    parent_from(t, i, i - 1)
}

/// The text of a node.
pub open spec fn text_at(t: SyntaxTree, src: Seq<char>, i: int) -> Option<Seq<char>> {
    byte_slice(src, t[i].start as int, t[i].end as int)
}

/// The line a node starts on.
pub open spec fn line_at(t: SyntaxTree, i: int) -> u32 {
    if t[i].row >= u32::MAX {
        u32::MAX
    } else {
        (t[i].row + 1) as u32
    }
}

/// Whether `c` stands below `i`.
pub open spec fn below(t: SyntaxTree, i: int, c: int) -> bool {
    0 <= i < c < extent(t, i) && i < t.len()
}

proof fn lemma_extent_from(t: SyntaxTree, i: int, j: int)
    requires
        0 <= i < j <= t.len(),
    ensures
        j <= extent_from(t, i, j) <= t.len(),
        forall|k: int| j <= k < extent_from(t, i, j) ==> (#[trigger] t[k]).depth > t[i].depth,
        extent_from(t, i, j) < t.len() ==> t[extent_from(t, i, j)].depth <= t[i].depth,
    decreases t.len() - j,
{
    if j < t.len() && t[j].depth > t[i].depth {
        lemma_extent_from(t, i, j + 1);
    }
}

/// What stands below a node that stands below `i` stands below `i`.
pub proof fn lemma_extent_nests(t: SyntaxTree, i: int, c: int)
    requires
        0 <= i < c < extent(t, i),
        i < t.len(),
    ensures
        extent(t, c) <= extent(t, i) <= t.len(),
        0 < size(t, c) < size(t, i),
{
    lemma_extent_from(t, i, i + 1);
    lemma_extent_from(t, c, c + 1);
    if extent(t, c) > extent(t, i) {
        assert(t[extent(t, i)].depth > t[c].depth);
    }
}

proof fn lemma_kids_from(t: SyntaxTree, i: int, j: int, p: Pick)
    requires
        0 <= i < j,
        i < t.len(),
    ensures
        forall|k: int|
            0 <= k < kids_from(t, i, j, p).len() ==> j <= #[trigger] kids_from(t, i, j, p)[k]
                < extent(t, i) && p.takes(t, kids_from(t, i, j, p)[k]),
    decreases extent(t, i) - j,
{
    if j < extent(t, i) {
        lemma_kids_from(t, i, j + 1, p);
        let rest = kids_from(t, i, j + 1, p);
        let all = kids_from(t, i, j, p);
        assert forall|k: int| 0 <= k < all.len() implies j <= #[trigger] all[k] < extent(t, i)
            && p.takes(t, all[k]) by {
            if all == seq![j] + rest && k > 0 {
                assert(all[k] == rest[k - 1]);
            }
        }
    }
}

/// A child is a node below its parent, and smaller than it.
pub broadcast proof fn lemma_kid(t: SyntaxTree, i: int, p: Pick, k: int)
    requires
        0 <= k < kids(t, i, p).len(),
    ensures
        below(t, i, #[trigger] kids(t, i, p)[k]),
        i < kids(t, i, p)[k] < t.len(),
        0 < size(t, kids(t, i, p)[k]) < size(t, i),
        p.takes(t, kids(t, i, p)[k]),
{
    lemma_kids_from(t, i, i + 1, p);
    lemma_extent_nests(t, i, kids(t, i, p)[k]);
    lemma_extent_from(t, i, i + 1);
}

proof fn lemma_kids_from_sorted(t: SyntaxTree, i: int, j: int, p: Pick, a: int, b: int)
    requires
        0 <= i < j,
        i < t.len(),
        0 <= a < b < kids_from(t, i, j, p).len(),
    ensures
        extent(t, kids_from(t, i, j, p)[a]) <= kids_from(t, i, j, p)[b],
    decreases extent(t, i) - j,
{
    let rest = kids_from(t, i, j + 1, p);
    let all = kids_from(t, i, j, p);
    lemma_kids_from(t, i, j, p);
    lemma_kids_from(t, i, j + 1, p);
    lemma_extent_from(t, i, i + 1);
    if t[j].depth == t[i].depth + 1 && p.takes(t, j) {
        assert(all =~= seq![j] + rest);
        assert(all[b] == rest[b - 1]);
        if a > 0 {
            assert(all[a] == rest[a - 1]);
            lemma_kids_from_sorted(t, i, j + 1, p, a - 1, b - 1);
        } else {
            lemma_extent_from(t, j, j + 1);
            lemma_kids_from_depth(t, i, j + 1, p);
            if extent(t, j) > rest[b - 1] {
                assert(t[rest[b - 1]].depth > t[j].depth);
            }
        }
    } else {
        lemma_kids_from_sorted(t, i, j + 1, p, a, b);
    }
}

proof fn lemma_kids_from_depth(t: SyntaxTree, i: int, j: int, p: Pick)
    ensures
        forall|k: int|
            0 <= k < kids_from(t, i, j, p).len() ==> t[#[trigger] kids_from(t, i, j, p)[k]].depth
                == t[i].depth + 1,
    decreases extent(t, i) - j,
{
    if j < extent(t, i) {
        lemma_kids_from_depth(t, i, j + 1, p);
        let rest = kids_from(t, i, j + 1, p);
        let all = kids_from(t, i, j, p);
        assert forall|k: int| 0 <= k < all.len() implies t[#[trigger] all[k]].depth == t[i].depth
            + 1 by {
            if all == seq![j] + rest && k > 0 {
                assert(all[k] == rest[k - 1]);
            }
        }
    }
}

/// What stands below a child comes before the next children.
pub proof fn lemma_kids_sorted(t: SyntaxTree, i: int, p: Pick, a: int, b: int)
    requires
        0 <= i < t.len(),
        0 <= a < b < kids(t, i, p).len(),
    ensures
        extent(t, kids(t, i, p)[a]) <= kids(t, i, p)[b],
{
    lemma_kids_from_sorted(t, i, i + 1, p, a, b);
}

/// A node below another is smaller than it.
pub broadcast proof fn lemma_below(t: SyntaxTree, i: int, c: int)
    requires
        #[trigger] below(t, i, c),
    ensures
        i < c < t.len(),
        0 < size(t, c) < size(t, i),
        extent(t, c) <= extent(t, i) <= t.len(),
{
    lemma_extent_nests(t, i, c);
    lemma_extent_from(t, i, i + 1);
}

/// What stands below a node below `i` stands below `i`.
pub proof fn lemma_below_trans(t: SyntaxTree, i: int, c: int, d: int)
    requires
        below(t, i, c),
        below(t, c, d),
    ensures
        below(t, i, d),
{
    lemma_extent_nests(t, i, c);
}

/// A node's size is at least one.
pub proof fn lemma_size(t: SyntaxTree, i: int)
    requires
        0 <= i < t.len(),
    ensures
        0 < size(t, i),
        extent(t, i) <= t.len(),
{
    lemma_extent_from(t, i, i + 1);
}

/// The indices of a list of nodes.
pub open spec fn indices(v: Seq<usize>) -> Seq<int> {
    v.map_values(|x: usize| x as int)
}

/// Whether two optional indices name the same node, or none.
pub open spec fn same_index(a: Option<usize>, b: Option<int>) -> bool {
    match a {
        Some(x) => b == Some(x as int),
        None => b is None,
    }
}

/// Whether `word` is one of the words.
pub fn has_word(list: &[&'static str], word: &str) -> (r: bool)
    ensures
        r == words(list@).contains(word@),
{
    let mut k: usize = 0;
    while k < list.len()
        invariant
            k <= list.len(),
            forall|j: int| 0 <= j < k ==> (#[trigger] words(list@)[j]) != word@,
        decreases list.len() - k,
    {
        assert(words(list@)[k as int] == list@[k as int]@);
        if same(list[k], word) {
            return true;
        }
        k += 1;
    }
    false
}

/// Whether the list holds the index.
pub fn has_index(list: &[usize], x: usize) -> (r: bool)
    ensures
        r == list@.contains(x),
{
    let mut k: usize = 0;
    while k < list.len()
        invariant
            k <= list.len(),
            forall|j: int| 0 <= j < k ==> list@[j] != x,
        decreases list.len() - k,
    {
        if list[k] == x {
            return true;
        }
        k += 1;
    }
    false
}

/// Which children of a node are meant, for a search.
pub enum Choice<'a> {
    Named,
    Field(&'a str),
    Kind(&'a str),
    Kinds(&'a [&'static str]),
    Except(&'a [usize]),
}

impl<'a> View for Choice<'a> {
    type V = Pick;

    open spec fn view(&self) -> Pick {
        match *self {
            Choice::Named => Pick::Named,
            Choice::Field(f) => Pick::Field(f@),
            Choice::Kind(k) => Pick::Kind(k@),
            Choice::Kinds(ks) => Pick::Kinds(words(ks@)),
            Choice::Except(ids) => Pick::Except(ids@),
        }
    }
}

/// A parsed source text: its nodes in document order.
pub struct Nodes<'a> {
    pub nodes: &'a [SyntaxNode],
    pub source: &'a str,
}

impl<'a> Nodes<'a> {
    pub open spec fn t(&self) -> SyntaxTree {
        tree_view(self.nodes@)
    }

    fn taken(&self, j: usize, p: &Choice) -> (r: bool)
        requires
            j < self.nodes.len(),
        ensures
            r == p@.takes(self.t(), j as int),
    {
        let n = &self.nodes[j];
        assert(self.t()[j as int] == n@);
        match p {
            Choice::Named => n.named,
            Choice::Field(f) => match &n.field {
                Some(g) => !f.is_empty() && same(g.as_str(), f),
                None => false,
            },
            Choice::Kind(k) => n.named && same(n.kind.as_str(), k),
            Choice::Kinds(ks) => n.named && has_word(ks, n.kind.as_str()),
            Choice::Except(ids) => n.named && !has_index(ids, j),
        }
    }

    /// The children of `i` that are meant, in order.
    pub fn children(&self, i: usize, p: Choice) -> (r: Vec<usize>)
        requires
            i < self.nodes.len(),
        ensures
            indices(r@) == kids(self.t(), i as int, p@),
    {
        let ghost t = self.t();
        let mut out: Vec<usize> = Vec::new();
        let mut j: usize = i + 1;
        proof {
            assert(indices(out@) =~= Seq::empty());
            assert(Seq::<int>::empty() + kids(t, i as int, p@) =~= kids(t, i as int, p@));
            lemma_size(t, i as int);
        }
        while j < self.nodes.len() && self.nodes[j].depth > self.nodes[i].depth
            invariant
                t == self.t(),
                t.len() == self.nodes.len(),
                i < j <= self.nodes.len(),
                extent(t, i as int) == extent_from(t, i as int, j as int),
                indices(out@) + kids_from(t, i as int, j as int, p@) == kids(t, i as int, p@),
            decreases self.nodes.len() - j,
        {
            proof {
                lemma_extent_from(t, i as int, j + 1);
                assert(t[j as int] == self.nodes@[j as int]@);
                assert(t[i as int] == self.nodes@[i as int]@);
            }
            let ghost before = indices(out@);
            if self.nodes[j].depth - 1 == self.nodes[i].depth && self.taken(j, &p) {
                out.push(j);
                proof {
                    assert(indices(out@) =~= before.push(j as int));
                    assert(before + (seq![j as int] + kids_from(t, i as int, j + 1, p@))
                        =~= indices(out@) + kids_from(t, i as int, j + 1, p@));
                }
            }
            j += 1;
        }
        proof {
            if j < self.nodes.len() {
                assert(t[j as int] == self.nodes@[j as int]@);
                assert(t[i as int] == self.nodes@[i as int]@);
            }
            assert(extent(t, i as int) == j);
            assert(indices(out@) + Seq::<int>::empty() =~= indices(out@));
        }
        out
    }

    fn first_child(&self, i: usize, p: Choice) -> (r: Option<usize>)
        requires
            i < self.nodes.len(),
        ensures
            same_index(r, first(kids(self.t(), i as int, p@))),
            r matches Some(c) ==> below(self.t(), i as int, c as int) && c < self.nodes.len(),
    {
        broadcast use lemma_kid;

        let all = self.children(i, p);
        let ghost ks = kids(self.t(), i as int, p@);
        if all.len() > 0 {
            assert(ks[0] == all@[0] as int);
            Some(all[0])
        } else {
            assert(ks.len() == 0);
            None
        }
    }

    /// The first child that a field holds.
    pub fn child_by_field(&self, i: usize, field: &str) -> (r: Option<usize>)
        requires
            i < self.nodes.len(),
        ensures
            same_index(r, child_by_field(self.t(), i as int, field@)),
            r matches Some(c) ==> below(self.t(), i as int, c as int) && c < self.nodes.len(),
    {
        self.first_child(i, Choice::Field(field))
    }

    /// The first named child of a kind.
    pub fn child_of_kind(&self, i: usize, kind: &str) -> (r: Option<usize>)
        requires
            i < self.nodes.len(),
        ensures
            same_index(r, child_of_kind(self.t(), i as int, kind@)),
            r matches Some(c) ==> below(self.t(), i as int, c as int) && c < self.nodes.len(),
    {
        if kind.is_empty() {
            None
        } else {
            self.first_child(i, Choice::Kind(kind))
        }
    }

    /// The child that a field holds, or else the first one of a kind.
    pub fn field_or_kind(&self, i: usize, field: &str, kind: &str) -> (r: Option<usize>)
        requires
            i < self.nodes.len(),
        ensures
            same_index(r, field_or_kind(self.t(), i as int, field@, kind@)),
            r matches Some(c) ==> below(self.t(), i as int, c as int) && c < self.nodes.len(),
    {
        match self.child_by_field(i, field) {
            Some(n) => Some(n),
            None => self.child_of_kind(i, kind),
        }
    }

    /// The child that a field holds, or else the `n`th named one.
    pub fn field_or_nth(&self, i: usize, field: &str, n: usize) -> (r: Option<usize>)
        requires
            i < self.nodes.len(),
        ensures
            same_index(r, field_or_nth(self.t(), i as int, field@, n as int)),
            r matches Some(c) ==> below(self.t(), i as int, c as int) && c < self.nodes.len(),
    {
        broadcast use lemma_kid;

        match self.child_by_field(i, field) {
            Some(x) => Some(x),
            None => {
                let all = self.children(i, Choice::Named);
                let ghost ks = kids(self.t(), i as int, Pick::Named);
                assert(ks.len() == all@.len());
                if n < all.len() {
                    assert(ks[n as int] == all@[n as int] as int);
                    Some(all[n])
                } else {
                    None
                }
            },
        }
    }

    /// The last named child.
    pub fn last_named(&self, i: usize) -> (r: Option<usize>)
        requires
            i < self.nodes.len(),
        ensures
            same_index(r, last(kids(self.t(), i as int, Pick::Named))),
            r matches Some(c) ==> below(self.t(), i as int, c as int) && c < self.nodes.len(),
    {
        broadcast use lemma_kid;

        let all = self.children(i, Choice::Named);
        let ghost ks = kids(self.t(), i as int, Pick::Named);
        assert(ks.len() == all@.len());
        let n: usize = all.len();
        if n > 0 {
            assert(ks[n - 1] == all@[n - 1] as int);
            Some(all[n - 1])
        } else {
            None
        }
    }

    /// The child that a field holds, or else the last named one.
    pub fn field_or_last(&self, i: usize, field: &str) -> (r: Option<usize>)
        requires
            i < self.nodes.len(),
        ensures
            same_index(r, field_or_last(self.t(), i as int, field@)),
            r matches Some(c) ==> below(self.t(), i as int, c as int) && c < self.nodes.len(),
    {
        match self.child_by_field(i, field) {
            Some(x) => Some(x),
            None => self.last_named(i),
        }
    }

    /// The node that `i` stands below.
    pub fn parent(&self, i: usize) -> (r: Option<usize>)
        requires
            i < self.nodes.len(),
        ensures
            same_index(r, parent(self.t(), i as int)),
            r matches Some(p) ==> p < i,
    {
        let ghost t = self.t();
        let mut j: usize = i;
        assert(t[i as int] == self.nodes@[i as int]@);
        while j > 0
            invariant
                i < self.nodes.len(),
                j <= i,
                t == self.t(),
                t[i as int] == self.nodes@[i as int]@,
                parent(t, i as int) == parent_from(t, i as int, j - 1),
            decreases j,
        {
            j -= 1;
            assert(t[j as int] == self.nodes@[j as int]@);
            if self.nodes[j].depth < self.nodes[i].depth {
                return Some(j);
            }
        }
        None
    }

    /// The text of a node.
    pub fn text(&self, i: usize) -> (r: Option<&'a str>)
        requires
            i < self.nodes.len(),
        ensures
            match r {
                Some(s) => text_at(self.t(), self.source@, i as int) == Some(s@),
                None => text_at(self.t(), self.source@, i as int) is None,
            },
    {
        assert(self.t()[i as int] == self.nodes@[i as int]@);
        slice(self.source, self.nodes[i].start, self.nodes[i].end)
    }

    /// The line a node starts on.
    pub fn line(&self, i: usize) -> (r: u32)
        requires
            i < self.nodes.len(),
        ensures
            r == line_at(self.t(), i as int),
    {
        assert(self.t()[i as int] == self.nodes@[i as int]@);
        let row: usize = self.nodes[i].row;
        if row >= 0xffff_ffff {
            0xffff_ffff
        } else {
            row as u32 + 1
        }
    }
}

} // verus!
