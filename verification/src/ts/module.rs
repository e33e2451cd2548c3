//! Whole modules: which functions a tree holds, what they are called, and how
//! each is lowered.

use vstd::prelude::*;
use vstd::string::StringExecFns;

use crate::ir::{
    function_views, FunctionId, FunctionIr, FunctionView, IdView, KindView, Node, NodeKind,
};
use crate::text::{decimal, decimal_text, replace, replaced, same};
use crate::ts::grammar::GrammarTable;
use crate::ts::grammar::Grammar;
use crate::ts::model::{
    DiagnosticView, Env, Walk, bare_name, bare_node, edge, fresh, function_like, params_lowered,
    seq_lowered, unit, unwrapped,
};
use crate::ts::state::{diagnostic_views, in_range, lemma_grown_trans, sound, Diagnostic, FnState};
use crate::ts::tree::{
    child_by_field, field_or_kind, first, indices, kids, lemma_below, lemma_kid, line_at, parent,
    same_index, size, text_at, tree_view, Choice, Nodes, Pick, SyntaxNode, SyntaxTree,
};
use crate::ts::walk::{index_of, FnCtx};

verus! {

/// Every function and closure at and below a node, in document order, each
/// with whether it is a closure.
pub open spec fn functions_in(g: Grammar, t: SyntaxTree, i: int) -> Seq<(int, bool)>
    decreases size(t, i), 1int, 0int,
    via functions_in_decreases
{
    (if g.function_kinds.contains(t[i].kind) {
        seq![(i, false)]
    } else if g.closure_kinds.contains(t[i].kind) {
        seq![(i, true)]
    } else {
        Seq::empty()
    }) + functions_below(g, t, i, 0)
}

#[via_fn]
proof fn functions_in_decreases(g: Grammar, t: SyntaxTree, i: int) {
    broadcast use lemma_kid;

}

/// Every function and closure at and below the named children of a node,
/// from the `k`-th on.
pub open spec fn functions_below(g: Grammar, t: SyntaxTree, i: int, k: int) -> Seq<(int, bool)>
    decreases size(t, i), 0int, kids(t, i, Pick::Named).len() - k,
    via functions_below_decreases
{
    if k < 0 || k >= kids(t, i, Pick::Named).len() {
        Seq::empty()
    } else {
        functions_in(g, t, kids(t, i, Pick::Named)[k]) + functions_below(g, t, i, k + 1)
    }
}

#[via_fn]
proof fn functions_below_decreases(g: Grammar, t: SyntaxTree, i: int, k: int) {
    broadcast use lemma_kid;

}

/// The nearest function or closure around a node.
pub open spec fn enclosing_fn(g: Grammar, t: SyntaxTree, i: int) -> Option<int>
    decreases i,
{
    match parent(t, i) {
        Some(p) => if p < 0 || p >= i {
            None
        } else if function_like(g, t[p].kind) {
            Some(p)
        } else {
            enclosing_fn(g, t, p)
        },
        None => None,
    }
}

/// The name of the nearest class around a node, when it has one.
pub open spec fn owner_prefix(e: Env, i: int) -> Option<Seq<char>>
    decreases i,
{
    match parent(e.t, i) {
        Some(p) => if p < 0 || p >= i {
            None
        } else if e.g.class_kinds.contains(e.t[p].kind) {
            match child_by_field(e.t, p, e.g.class_name_field) {
                Some(n) => text_at(e.t, e.src, n),
                None => None,
            }
        } else {
            owner_prefix(e, p)
        },
        None => None,
    }
}

/// The type that a function itself names as the one it belongs to.
pub open spec fn receiver_owner(e: Env, i: int) -> Option<Seq<char>> {
    if e.g.receiver_field.len() == 0 {
        None
    } else {
        match child_by_field(e.t, i, e.g.receiver_field) {
            Some(list) => match first(kids(e.t, list, Pick::Named)) {
                Some(param) => match child_by_field(e.t, param, e.g.receiver_type_field) {
                    Some(ty) => if e.t[ty].kind == e.g.receiver_pointer_kind {
                        match first(kids(e.t, ty, Pick::Named)) {
                            Some(inner) => text_at(e.t, e.src, inner),
                            None => None,
                        }
                    } else {
                        text_at(e.t, e.src, ty)
                    },
                    None => None,
                },
                None => None,
            },
            None => None,
        }
    }
}

/// The type that a function belongs to.
pub open spec fn owner_of(e: Env, i: int) -> Option<Seq<char>> {
    match receiver_owner(e, i) {
        Some(owner) => Some(owner),
        None => owner_prefix(e, i),
    }
}

/// What naming remembers: the names given so far, and the function around
/// each closure that was named.
#[verifier::ext_equal]
pub struct Naming {
    pub names: Seq<(int, Seq<char>)>,
    pub closures: Seq<Option<int>>,
}

pub open spec fn nothing_named() -> Naming {
    Naming { names: Seq::empty(), closures: Seq::empty() }
}

/// The name given to a node.
pub open spec fn name_of(names: Seq<(int, Seq<char>)>, i: int) -> Option<Seq<char>>
    decreases names.len(),
{
    if names.len() == 0 {
        None
    } else if names.last().0 == i {
        Some(names.last().1)
    } else {
        name_of(names.drop_last(), i)
    }
}

/// How many of the closures have `scope` around them.
pub open spec fn closures_in(closures: Seq<Option<int>>, scope: Option<int>) -> nat
    decreases closures.len(),
{
    if closures.len() == 0 {
        0
    } else {
        closures_in(closures.drop_last(), scope) + if closures.last() == scope {
            1nat
        } else {
            0nat
        }
    }
}

/// The name that a closure is qualified with: that of the function around it,
/// else that of the class around it, else the module.
pub open spec fn closure_owner(e: Env, nm: Naming, i: int) -> Seq<char> {
    let around = match enclosing_fn(e.g, e.t, i) {
        Some(n) => name_of(nm.names, n),
        None => None,
    };
    match around {
        Some(name) => name,
        None => match owner_prefix(e, i) {
            Some(name) => name,
            None => "<module>"@,
        },
    }
}

/// The name of a function or closure. A closure is numbered among those with
/// the same function around them.
pub open spec fn full_name(e: Env, nm: Naming, i: int, closure: bool) -> Seq<char> {
    if closure {
        let idx = closures_in(nm.closures, enclosing_fn(e.g, e.t, i));
        replaced(
            replaced(e.g.closure_name_format, "{idx}"@, decimal(idx)),
            "{owner}"@,
            closure_owner(e, nm, i),
        )
    } else {
        match owner_of(e, i) {
            Some(owner) => owner + "::"@ + bare_name(e, i),
            None => bare_name(e, i),
        }
    }
}

/// What naming remembers after one more function.
pub open spec fn named(e: Env, nm: Naming, i: int, closure: bool) -> Naming {
    Naming {
        names: nm.names.push((i, full_name(e, nm, i, closure))),
        closures: if closure {
            nm.closures.push(enclosing_fn(e.g, e.t, i))
        } else {
            nm.closures
        },
    }
}

pub open spec fn function_id(file: Seq<char>, name: Seq<char>, line: u32) -> IdView {
    IdView { file, name, signature: Seq::empty(), decl_line: Some(line) }
}

pub open spec fn params_of(e: Env, i: int, closure: bool) -> Option<int> {
    if closure {
        field_or_kind(e.t, i, e.g.closure_params_field, e.g.closure_params_kind)
    } else {
        field_or_kind(e.t, i, e.g.function_params_field, e.g.function_params_kind)
    }
}

pub open spec fn body_of(e: Env, i: int, closure: bool) -> Option<int> {
    if closure {
        field_or_kind(e.t, i, e.g.closure_body_field, e.g.closure_body_kind)
    } else {
        field_or_kind(e.t, i, e.g.function_body_field, e.g.function_body_kind)
    }
}

pub open spec fn one_node(i: Option<int>) -> Seq<usize> {
    match i {
        Some(n) => seq![n as usize],
        None => Seq::empty(),
    }
}

/// The state after the parameters and the body of a function. A body that is
/// no block is what the function returns.
pub open spec fn body_lowered(e: Env, i: int, closure: bool) -> Walk {
    let params = params_of(e, i, closure);
    let w = params_lowered(e, fresh(), params, line_at(e.t, i));
    if closure && e.g.closure_body_is_bare_children {
        seq_lowered(e, w, i, Pick::Except(one_node(params)), 0, seq![0usize]).0
    } else {
        match body_of(e, i, closure) {
            None => w,
            Some(raw) => {
                let body = unwrapped(e.g, e.t, raw);
                if e.g.block_kinds.contains(e.t[body].kind) {
                    seq_lowered(e, w, body, Pick::Named, 0, seq![0usize]).0
                } else {
                    let (w1, entry, _exit) = unit(e, w, body, KindView::Return, Seq::empty());
                    edge(w1, 0, entry)
                }
            },
        }
    }
}

/// A function whose body holds a parse error: one node.
pub open spec fn stub(file: Seq<char>, name: Seq<char>, line: u32) -> FunctionView {
    FunctionView {
        id: function_id(file, name, line),
        nodes: seq![
            bare_node(line, KindView::Pure, Seq::empty(), Seq::empty(), Seq::empty()),
        ],
        entry: 0,
    }
}

/// One function lowered, with what is reported of it.
pub open spec fn function_lowered(e: Env, file: Seq<char>, i: int, closure: bool) -> (
    FunctionView,
    Seq<DiagnosticView>,
) {
    let line = line_at(e.t, i);
    if e.t[i].has_error {
        (
            stub(file, e.name, line),
            seq![
                DiagnosticView {
                    function: e.name,
                    message: "body contains a parse error; lowered as an opaque stub"@,
                },
            ],
        )
    } else {
        let w = body_lowered(e, i, closure);
        (
            FunctionView { id: function_id(file, e.name, line), nodes: w.nodes, entry: 0 },
            w.diagnostics,
        )
    }
}

/// The functions of the list from the `k`-th on, named and lowered in order.
pub open spec fn functions_lowered(
    e: Env,
    file: Seq<char>,
    list: Seq<(int, bool)>,
    k: int,
    nm: Naming,
    fns: Seq<FunctionView>,
    diags: Seq<DiagnosticView>,
) -> (Seq<FunctionView>, Seq<DiagnosticView>)
    decreases list.len() - k,
{
    if k < 0 || k >= list.len() {
        (fns, diags)
    } else {
        let (i, closure) = list[k];
        let name = full_name(e, nm, i, closure);
        let (f, d) = function_lowered(Env { name, ..e }, file, i, closure);
        functions_lowered(
            e,
            file,
            list,
            k + 1,
            named(e, nm, i, closure),
            fns.push(f),
            diags + d,
        )
    }
}

/// The state after the top-level code of a tree.
pub open spec fn top_lowered(e: Env) -> Walk {
    seq_lowered(e, params_lowered(e, fresh(), None, 1), 0, Pick::Named, 0, seq![0usize]).0
}

/// A whole tree: the top-level code as `<module>`, then every function and
/// closure in document order.
pub open spec fn module_lowered(g: Grammar, t: SyntaxTree, src: Seq<char>, file: Seq<char>) -> (
    Seq<FunctionView>,
    Seq<DiagnosticView>,
) {
    let e = Env { g, t, src, name: "<module>"@ };
    let w = top_lowered(e);
    let module = FunctionView {
        id: function_id(file, "<module>"@, 1),
        nodes: w.nodes,
        entry: 0,
    };
    let list = if t.len() > 0 {
        functions_in(g, t, 0)
    } else {
        Seq::empty()
    };
    functions_lowered(e, file, list, 0, nothing_named(), seq![module], w.diagnostics)
}

/// How many nodes stand at a node and below it, by way of named children,
/// and how many of them are errors or missing.
pub open spec fn error_counts(t: SyntaxTree, i: int) -> (nat, nat)
    decreases size(t, i), 1int, 0int,
    via error_counts_decreases
{
    let (total, bad) = error_counts_below(t, i, 0);
    (total + 1, if t[i].error || t[i].missing {
        bad + 1
    } else {
        bad
    })
}

#[via_fn]
proof fn error_counts_decreases(t: SyntaxTree, i: int) {
    broadcast use lemma_kid;

}

pub open spec fn error_counts_below(t: SyntaxTree, i: int, k: int) -> (nat, nat)
    decreases size(t, i), 0int, kids(t, i, Pick::Named).len() - k,
    via error_counts_below_decreases
{
    if k < 0 || k >= kids(t, i, Pick::Named).len() {
        (0, 0)
    } else {
        let (a, b) = error_counts(t, kids(t, i, Pick::Named)[k]);
        let (c, d) = error_counts_below(t, i, k + 1);
        (a + c, b + d)
    }
}

#[via_fn]
proof fn error_counts_below_decreases(t: SyntaxTree, i: int, k: int) {
    broadcast use lemma_kid;

}

/// The functions and closures of a list of nodes.
pub open spec fn pairs(v: Seq<(usize, bool)>) -> Seq<(int, bool)> {
    v.map_values(|p: (usize, bool)| (p.0 as int, p.1))
}

struct NamingState {
    names: Vec<(usize, String)>,
    closures: Vec<Option<usize>>,
}

impl View for NamingState {
    type V = Naming;

    closed spec fn view(&self) -> Naming {
        Naming {
            names: self.names@.map_values(|p: (usize, String)| (p.0 as int, p.1@)),
            closures: self.closures@.map_values(|s: Option<usize>| index_of(s)),
        }
    }
}

impl NamingState {
    fn name_of(&self, i: usize) -> (r: Option<&str>)
        ensures
            match r {
                Some(s) => name_of(self@.names, i as int) == Some(s@),
                None => name_of(self@.names, i as int) is None,
            },
    {
        let ghost all = self@.names;
        let mut k: usize = self.names.len();
        assert(all.take(k as int) =~= all);
        while k > 0
            invariant
                all == self@.names,
                k <= self.names.len(),
                name_of(all, i as int) == name_of(all.take(k as int), i as int),
            decreases k,
        {
            proof {
                assert(all.take(k as int).drop_last() =~= all.take(k - 1));
                assert(all.take(k as int).last() == all[k - 1]);
            }
            k -= 1;
            if self.names[k].0 == i {
                return Some(self.names[k].1.as_str());
            }
        }
        None
    }

    fn closures_in(&self, scope: Option<usize>) -> (r: usize)
        ensures
            r == closures_in(self@.closures, index_of(scope)),
    {
        let ghost all = self@.closures;
        let mut n: usize = 0;
        let mut k: usize = 0;
        assert(all.take(0) =~= Seq::empty());
        while k < self.closures.len()
            invariant
                all == self@.closures,
                n <= k <= self.closures.len(),
                n == closures_in(all.take(k as int), index_of(scope)),
            decreases self.closures.len() - k,
        {
            proof {
                assert(all.take(k + 1).drop_last() =~= all.take(k as int));
                assert(all.take(k + 1).last() == index_of(self.closures@[k as int]));
            }
            let equal: bool = match (self.closures[k], scope) {
                (Some(a), Some(b)) => a == b,
                (None, None) => true,
                _ => false,
            };
            if equal {
                n += 1;
            }
            k += 1;
        }
        assert(all.take(k as int) =~= all);
        n
    }
}

impl<'a> FnCtx<'a> {
    /// Every function and closure at and below a node, in document order.
    fn collect_functions(&self, i: usize) -> (r: Vec<(usize, bool)>)
        requires
            self.has(i as int),
        ensures
            pairs(r@) == functions_in(self.e().g, self.e().t, i as int),
            forall|k: int| 0 <= k < r@.len() ==> self.has((#[trigger] r@[k]).0 as int),
        decreases size(self.e().t, i as int),
    {
        let ghost e = self.e();
        let mut out: Vec<(usize, bool)> = Vec::new();
        assert(pairs(out@) =~= Seq::empty());
        if crate::ts::tree::has_word(
            self.table.function_kinds,
            self.tree.nodes[i].kind.as_str(),
        ) {
            out.push((i, false));
            assert(pairs(out@) =~= seq![(i as int, false)]);
        } else if crate::ts::tree::has_word(
            self.table.closure_kinds,
            self.tree.nodes[i].kind.as_str(),
        ) {
            out.push((i, true));
            assert(pairs(out@) =~= seq![(i as int, true)]);
        }
        let ghost own = pairs(out@);
        let children = self.tree.children(i, Choice::Named);
        let ghost ks = kids(e.t, i as int, Pick::Named);
        assert(ks.len() == children@.len());
        let mut k: usize = 0;
        while k < children.len()
            invariant
                e == self.e(),
                self.has(i as int),
                k <= children.len(),
                ks == kids(e.t, i as int, Pick::Named),
                ks == indices(children@),
                ks.len() == children@.len(),
                pairs(out@) + functions_below(e.g, e.t, i as int, k as int)
                    == own + functions_below(e.g, e.t, i as int, 0),
                forall|j: int| 0 <= j < out@.len() ==> self.has((#[trigger] out@[j]).0 as int),
            decreases children.len() - k,
        {
            assert(ks[k as int] == children@[k as int] as int);
            proof {
                lemma_kid(e.t, i as int, Pick::Named, k as int);
            }
            let ghost before = out@;
            let mut inner = self.collect_functions(children[k]);
            let ghost added = inner@;
            out.append(&mut inner);
            proof {
                let rest = functions_below(e.g, e.t, i as int, k + 1);
                assert(pairs(out@) =~= pairs(before) + pairs(added));
                assert(pairs(before) + (pairs(added) + rest) =~= pairs(out@) + rest);
                assert forall|j: int| 0 <= j < out@.len() implies self.has(
                    (#[trigger] out@[j]).0 as int,
                ) by {
                    if j < before.len() {
                        assert(out@[j] == before[j]);
                    } else {
                        assert(out@[j] == added[j - before.len()]);
                    }
                }
            }
            k += 1;
        }
        assert(pairs(out@) + Seq::<(int, bool)>::empty() =~= pairs(out@));
        out
    }

    /// The nearest function or closure around a node.
    fn enclosing_fn(&self, i: usize) -> (r: Option<usize>)
        requires
            self.has(i as int),
        ensures
            same_index(r, enclosing_fn(self.e().g, self.e().t, i as int)),
    {
        let ghost e = self.e();
        let mut cur: usize = i;
        loop
            invariant
                e == self.e(),
                self.has(cur as int),
                enclosing_fn(e.g, e.t, i as int) == enclosing_fn(e.g, e.t, cur as int),
            decreases cur,
        {
            match self.tree.parent(cur) {
                Some(p) => {
                    if self.is_function_like(p) {
                        return Some(p);
                    }
                    cur = p;
                },
                None => {
                    return None;
                },
            }
        }
    }

    /// The nearest class's name, for `Type::method` naming.
    fn owner_prefix(&self, i: usize) -> (r: Option<&'a str>)
        requires
            self.has(i as int),
        ensures
            match r {
                Some(s) => owner_prefix(self.e(), i as int) == Some(s@),
                None => owner_prefix(self.e(), i as int) is None,
            },
    {
        let ghost e = self.e();
        let mut cur: usize = i;
        loop
            invariant
                e == self.e(),
                self.has(cur as int),
                owner_prefix(e, i as int) == owner_prefix(e, cur as int),
            decreases cur,
        {
            match self.tree.parent(cur) {
                Some(p) => {
                    if crate::ts::tree::has_word(
                        self.table.class_kinds,
                        self.tree.nodes[p].kind.as_str(),
                    ) {
                        return match self.tree.child_by_field(p, self.table.class_name_field) {
                            Some(n) => self.tree.text(n),
                            None => None,
                        };
                    }
                    cur = p;
                },
                None => {
                    return None;
                },
            }
        }
    }

    /// The type that a method's receiver names.
    fn receiver_owner(&self, i: usize) -> (r: Option<&'a str>)
        requires
            self.has(i as int),
        ensures
            match r {
                Some(s) => receiver_owner(self.e(), i as int) == Some(s@),
                None => receiver_owner(self.e(), i as int) is None,
            },
    {
        let t = self.table;
        if t.receiver_field.is_empty() {
            return None;
        }
        let list = match self.tree.child_by_field(i, t.receiver_field) {
            Some(n) => n,
            None => {
                return None;
            },
        };
        let param = match self.first_named(list) {
            Some(n) => n,
            None => {
                return None;
            },
        };
        let ty = match self.tree.child_by_field(param, t.receiver_type_field) {
            Some(n) => n,
            None => {
                return None;
            },
        };
        assert(self.e().t[ty as int] == self.tree.nodes@[ty as int]@);
        if same(self.tree.nodes[ty].kind.as_str(), t.receiver_pointer_kind) {
            match self.first_named(ty) {
                Some(inner) => self.tree.text(inner),
                None => None,
            }
        } else {
            self.tree.text(ty)
        }
    }

    /// A closure's synthetic name.
    fn closure_name(&self, nm: &NamingState, i: usize) -> (r: String)
        requires
            self.has(i as int),
        ensures
            r@ == full_name(self.e(), nm@, i as int, true),
    {
        let scope = self.enclosing_fn(i);
        let around = match scope {
            Some(n) => nm.name_of(n),
            None => None,
        };
        let owner: &str = match around {
            Some(name) => name,
            None => match self.owner_prefix(i) {
                Some(name) => name,
                None => "<module>",
            },
        };
        let idx: usize = nm.closures_in(scope);
        let number = decimal_text(idx as u128);
        proof {
            reveal_strlit("{idx}");
            reveal_strlit("{owner}");
        }
        let numbered = replace(self.table.closure_name_format, "{idx}", number.as_str());
        replace(numbered.as_str(), "{owner}", owner)
    }

    /// The name of a function or closure.
    fn full_name(&self, nm: &NamingState, i: usize, closure: bool) -> (r: String)
        requires
            self.has(i as int),
        ensures
            r@ == full_name(self.e(), nm@, i as int, closure),
    {
        if closure {
            return self.closure_name(nm, i);
        }
        let name = self.bare_name(i);
        let owner = match self.receiver_owner(i) {
            Some(owner) => Some(owner),
            None => self.owner_prefix(i),
        };
        match owner {
            Some(owner) => {
                let mut text = owner.to_owned();
                text.append("::");
                text.append(name);
                text
            },
            None => name.to_owned(),
        }
    }

    /// Lowers the parameters and the body of a function.
    fn lower_function_body(&self, i: usize, closure: bool) -> (r: FnState)
        requires
            self.has(i as int),
        ensures
            r@ == body_lowered(self.e(), i as int, closure),
            sound(r@),
            r@.nodes.len() > 0,
    {
        broadcast use {lemma_grown_trans, lemma_below};

        let t = self.table;
        let params = if closure {
            self.tree.field_or_kind(i, t.closure_params_field, t.closure_params_kind)
        } else {
            self.tree.field_or_kind(i, t.function_params_field, t.function_params_kind)
        };
        let mut st = FnState::new();
        let line: u32 = self.tree.line(i);
        self.lower_params(&mut st, params, line);
        let entry_node: Vec<usize> = vec![0usize];
        assert(entry_node@ =~= seq![0usize]);
        assert(in_range(st@, entry_node@));
        if closure && t.closure_body_is_bare_children {
            let mut skip: Vec<usize> = Vec::new();
            if let Some(p) = params {
                skip.push(p);
            }
            assert(skip@ =~= one_node(index_of(params)));
            let _ = self.lower_seq(&mut st, i, Choice::Except(skip.as_slice()), entry_node);
            return st;
        }
        let raw_body = if closure {
            self.tree.field_or_kind(i, t.closure_body_field, t.closure_body_kind)
        } else {
            self.tree.field_or_kind(i, t.function_body_field, t.function_body_kind)
        };
        if let Some(raw) = raw_body {
            let body: usize = self.unwrap_wrapper(raw);
            if crate::ts::tree::has_word(t.block_kinds, self.tree.nodes[body].kind.as_str()) {
                let _ = self.lower_seq(&mut st, body, Choice::Named, entry_node);
            } else {
                let (entry, _) = self.unit(&mut st, body, NodeKind::Return);
                st.edge(0, entry);
            }
        }
        st
    }

    /// Lowers one function, with what is reported of it. A parse error
    /// anywhere in it degrades it to a stub.
    fn lower_function(&self, file: &str, i: usize, closure: bool) -> (r: (
        FunctionIr,
        Vec<Diagnostic>,
    ))
        requires
            self.has(i as int),
        ensures
            r.0@ == function_lowered(self.e(), file@, i as int, closure).0,
            diagnostic_views(r.1@) == function_lowered(self.e(), file@, i as int, closure).1,
            r.0@.valid(),
    {
        let line: u32 = self.tree.line(i);
        let id = FunctionId {
            file: file.to_owned(),
            name: self.name.to_owned(),
            signature: String::new(),
            decl_line: Some(line),
        };
        if self.tree.nodes[i].has_error {
            let mut diags: Vec<Diagnostic> = Vec::new();
            diags.push(
                Diagnostic {
                    function: self.name.to_owned(),
                    message: "body contains a parse error; lowered as an opaque stub".to_owned(),
                },
            );
            let mut nodes: Vec<Node> = Vec::new();
            nodes.push(Node::pure(line));
            let f = FunctionIr { id, nodes, entry: 0 };
            proof {
                assert(diagnostic_views(diags@) =~= function_lowered(
                    self.e(),
                    file@,
                    i as int,
                    closure,
                ).1);
                assert(f@.nodes =~= stub(file@, self.name@, line).nodes);
                assert(f@ =~= stub(file@, self.name@, line));
            }
            return (f, diags);
        }
        let st = self.lower_function_body(i, closure);
        let (nodes, diags) = st.finish();
        let f = FunctionIr { id, nodes, entry: 0 };
        assert(f@ =~= function_lowered(self.e(), file@, i as int, closure).0);
        (f, diags)
    }
}

/// Counts the nodes of a tree by way of named children, and how many of those
/// are errors or missing.
pub fn error_stats(nodes: &[SyntaxNode]) -> (r: (usize, usize))
    ensures
        nodes.len() == 0 ==> r == (0usize, 0usize),
        nodes.len() > 0 ==> r.0 == error_counts(tree_view(nodes@), 0).0 && r.1 == error_counts(
            tree_view(nodes@),
            0,
        ).1,
        r.1 <= r.0,
{
    if nodes.len() == 0 {
        return (0, 0);
    }
    let tree = Nodes { nodes, source: "" };
    count_errors(&tree, 0)
}

fn count_errors(tree: &Nodes, i: usize) -> (r: (usize, usize))
    requires
        i < tree.nodes.len(),
    ensures
        r.0 == error_counts(tree.t(), i as int).0,
        r.1 == error_counts(tree.t(), i as int).1,
        r.1 <= r.0 <= size(tree.t(), i as int),
    decreases size(tree.t(), i as int),
{
    let ghost t = tree.t();
    let children = tree.children(i, Choice::Named);
    let ghost ks = kids(t, i as int, Pick::Named);
    assert(ks.len() == children@.len());
    let mut total: usize = 0;
    let mut bad: usize = 0;
    let mut k: usize = 0;
    proof {
        crate::ts::tree::lemma_size(t, i as int);
        lemma_kids_apart(t, i as int, Pick::Named);
    }
    while k < children.len()
        invariant
            t == tree.t(),
            i < tree.nodes.len(),
            t.len() == tree.nodes.len(),
            k <= children.len(),
            ks == kids(t, i as int, Pick::Named),
            ks == indices(children@),
            ks.len() == children@.len(),
            kids_apart(t, i as int, ks),
            error_counts_below(t, i as int, 0).0 == total + error_counts_below(
                t,
                i as int,
                k as int,
            ).0,
            error_counts_below(t, i as int, 0).1 == bad + error_counts_below(
                t,
                i as int,
                k as int,
            ).1,
            bad <= total,
            total <= used_up(t, i as int, ks, k as int) - i - 1,
            crate::ts::tree::extent(t, i as int) <= t.len(),
        decreases children.len() - k,
    {
        assert(ks[k as int] == children@[k as int] as int);
        proof {
            lemma_kid(t, i as int, Pick::Named, k as int);
        }
        let (a, b) = count_errors(tree, children[k]);
        proof {
            assert(used_up(t, i as int, ks, k as int) <= ks[k as int]);
        }
        total += a;
        bad += b;
        k += 1;
    }
    assert(tree.t()[i as int] == tree.nodes@[i as int]@);
    total += 1;
    if tree.nodes[i].error || tree.nodes[i].missing {
        bad += 1;
    }
    (total, bad)
}

/// Where the subtrees of the first `k` children end.
spec fn used_up(t: SyntaxTree, i: int, ks: Seq<int>, k: int) -> int {
    if k <= 0 {
        i + 1
    } else {
        crate::ts::tree::extent(t, ks[k - 1])
    }
}

/// Whether the subtrees of the children follow each other inside the parent.
spec fn kids_apart(t: SyntaxTree, i: int, ks: Seq<int>) -> bool {
    &&& forall|k: int|
        0 <= k < ks.len() ==> used_up(t, i, ks, k) <= #[trigger] ks[k] && crate::ts::tree::extent(
            t,
            ks[k],
        ) <= crate::ts::tree::extent(t, i)
}

proof fn lemma_kids_apart(t: SyntaxTree, i: int, p: Pick)
    requires
        0 <= i < t.len(),
    ensures
        kids_apart(t, i, kids(t, i, p)),
{
    let ks = kids(t, i, p);
    assert forall|k: int| 0 <= k < ks.len() implies used_up(t, i, ks, k) <= #[trigger] ks[k]
        && crate::ts::tree::extent(t, ks[k]) <= crate::ts::tree::extent(t, i) by {
        lemma_kid(t, i, p, k);
        lemma_below(t, i, ks[k]);
        if k > 0 {
            lemma_kid(t, i, p, k - 1);
            crate::ts::tree::lemma_kids_sorted(t, i, p, k - 1, k);
        }
    }
}

/// Lowers a whole tree into one function for its top-level code plus one for
/// every function and closure, with what is to be reported.
pub fn lower_module(
    table: &GrammarTable,
    nodes: &[SyntaxNode],
    source: &str,
    file: &str,
) -> (r: (Vec<FunctionIr>, Vec<Diagnostic>))
    ensures
        function_views(r.0@) == module_lowered(table@, tree_view(nodes@), source@, file@).0,
        diagnostic_views(r.1@) == module_lowered(table@, tree_view(nodes@), source@, file@).1,
        r.0@.len() > 0,
        forall|k: int| 0 <= k < r.0@.len() ==> (#[trigger] r.0@[k])@.valid(),
{
    let ctx = FnCtx { table, tree: Nodes { nodes, source }, name: "<module>" };
    let ghost e = ctx.e();
    let ghost t = tree_view(nodes@);
    let mut st = FnState::new();
    ctx.lower_params(&mut st, None, 1);
    let mut list: Vec<(usize, bool)> = Vec::new();
    assert(pairs(list@) =~= Seq::empty());
    if nodes.len() > 0 {
        list = ctx.collect_functions(0);
        let entry_node: Vec<usize> = vec![0usize];
        assert(entry_node@ =~= seq![0usize]);
        assert(in_range(st@, entry_node@));
        let _ = ctx.lower_seq(&mut st, 0, Choice::Named, entry_node);
    }
    let ghost top = top_lowered(e);
    assert(st@ == top);
    let ghost ls = if t.len() > 0 {
        functions_in(e.g, t, 0)
    } else {
        Seq::empty()
    };
    assert(pairs(list@) == ls);
    let id = FunctionId {
        file: file.to_owned(),
        name: "<module>".to_owned(),
        signature: String::new(),
        decl_line: Some(1),
    };
    let mut functions: Vec<FunctionIr> = Vec::new();
    let (top_nodes, mut diagnostics) = st.finish();
    let module = FunctionIr { id, nodes: top_nodes, entry: 0 };
    let ghost mv = FunctionView {
        id: function_id(file@, "<module>"@, 1),
        nodes: top.nodes,
        entry: 0,
    };
    assert(module@ =~= mv);
    functions.push(module);
    let ghost fns0 = seq![mv];
    let ghost diags0 = top.diagnostics;
    assert(function_views(functions@) =~= fns0);
    let mut nm = NamingState { names: Vec::new(), closures: Vec::new() };
    assert(nm@ =~= nothing_named());
    let mut k: usize = 0;
    while k < list.len()
        invariant
            e == ctx.e(),
            e.t == t,
            ctx.table == table,
            ctx.tree.nodes == nodes,
            ctx.tree.source == source,
            t == tree_view(nodes@),
            ls == pairs(list@),
            k <= list.len(),
            forall|j: int| 0 <= j < list@.len() ==> ctx.has((#[trigger] list@[j]).0 as int),
            functions@.len() > 0,
            forall|j: int| 0 <= j < functions@.len() ==> (#[trigger] functions@[j])@.valid(),
            functions_lowered(e, file@, ls, 0, nothing_named(), fns0, diags0)
                == functions_lowered(
                e,
                file@,
                ls,
                k as int,
                nm@,
                function_views(functions@),
                diagnostic_views(diagnostics@),
            ),
        decreases list.len() - k,
    {
        let (i, closure) = list[k];
        assert(ls[k as int] == (i as int, closure));
        let ghost nm0 = nm@;
        let name = ctx.full_name(&nm, i, closure);
        let inner = FnCtx { table, tree: Nodes { nodes, source }, name: name.as_str() };
        assert(inner.e() == Env { name: name@, ..e });
        let (f, mut diags) = inner.lower_function(file, i, closure);
        let ghost fs = functions@;
        let ghost ds = diagnostics@;
        let ghost added = diags@;
        functions.push(f);
        diagnostics.append(&mut diags);
        proof {
            assert(function_views(functions@) =~= function_views(fs).push(f@));
            assert(diagnostic_views(diagnostics@) =~= diagnostic_views(ds) + diagnostic_views(
                added,
            ));
        }
        if closure {
            let scope = ctx.enclosing_fn(i);
            nm.closures.push(scope);
        }
        nm.names.push((i, name));
        assert(nm@ =~= named(e, nm0, i as int, closure));
        k += 1;
    }
    (functions, diagnostics)
}

} // verus!
