//! The generic walker: one statement-granular lowering, driven entirely by a
//! [`GrammarTable`].
//!
//! One node per statement. Calls are extracted ahead of the statement that
//! contains them, each as its own node with a variable for its result, so a
//! denylisted call can be swept out of the graph on its own.
//!
//! There is no symbol table here: definitions and uses come from a
//! shadowing-aware, name-based scope stack. Names that nothing in scope binds
//! become variables that the whole function shares.
//!
//! Known simplifications: loop labels are not modelled; a match, a `try` or a
//! closure nested inside another statement stays part of that statement; a
//! handler is lowered but nothing leads to it.

use vstd::prelude::*;
use vstd::string::StringExecFns;

use crate::ir::{CallOpacity, Node, NodeKind, VarId};
use crate::text::{join, same, snippet, texts};
use crate::ts::grammar::GrammarTable;
use crate::ts::model::{
    Env, Walk, arm_head_nodes, arm_is_default, arm_labels, arm_lowered, arms_lowered,
    assign_lowered, bare_name, bare_node, behind, binding_lowered, binding_names, binding_parts,
    block_lowered, bound_below, bound_in, call_callee, call_pushed, call_stmt_lowered,
    callee_chain, callee_text, calls_below, calls_extracted, calls_in, calls_of, calls_pushed,
    catch_lowered, catch_param, catches_lowered, class_lowered, compound_assign,
    declarator_names, declarators_lowered, declared, declared_all, defs_scanned, entered,
    fn_decl_lowered, for_clause, for_lowered, for_pattern, function_like, identifiers_below, identifiers_in, if_alts,
    if_chain_lowered, if_lowered, is_word, label_scanned, labels_scanned, loop_closed,
    loop_lowered, loop_opened, match_lowered, member_parts, next_node, one_binding_lowered,
    other_lowered, params_lowered, plain, resolved, resolved_all, seq_lowered, snippet_at,
    sole_item, stmt_lowered, text_or_empty, try_lowered, unit, unit_after, unwrapped, uses_of,
    uses_scanned, while_lowered, with_var, with_vars, word_lowered,
};
use crate::ts::state::{
    add_var, grown, in_range, lemma_grown_trans, lemma_in_range_grows, sound, FnState,
};
use crate::ts::tree::{
    below, child_by_field, child_of_kind, field_or_kind, field_or_last, field_or_nth, first,
    has_word, indices, kids, lemma_below, lemma_below_trans, lemma_kid, lemma_size, same_index,
    size, Choice, Nodes, Pick,
};

verus! {

/// What the lowering of one function reads and never changes.
pub(crate) struct FnCtx<'a> {
    pub(crate) table: &'a GrammarTable,
    pub(crate) tree: Nodes<'a>,
    pub(crate) name: &'a str,
}

fn push_all(out: &mut Vec<String>, more: Vec<String>)
    ensures
        texts(final(out)@) == texts(old(out)@) + texts(more@),
{
    let mut more = more;
    let ghost before = out@;
    let ghost added = more@;
    out.append(&mut more);
    assert(texts(out@) =~= texts(before) + texts(added));
}

fn bare(line: u32, kind: NodeKind, defs: Vec<VarId>, uses: Vec<VarId>, label: String) -> (r: Node)
    ensures
        r@ == bare_node(line, kind@, defs@, uses@, label@),
{
    let r = Node { line: Some(line), kind, defs, uses, succs: Vec::new(), label };
    assert(r@ =~= bare_node(line, kind@, defs@, uses@, label@));
    r
}

impl<'a> FnCtx<'a> {
    pub(crate) open(crate) spec fn e(&self) -> Env {
        Env { g: self.table@, t: self.tree.t(), src: self.tree.source@, name: self.name@ }
    }

    pub(crate) open(crate) spec fn has(&self, i: int) -> bool {
        0 <= i < self.e().t.len()
    }

    fn kind_is(&self, i: usize, kinds: &'static [&'static str]) -> (r: bool)
        requires
            self.has(i as int),
        ensures
            r == crate::ts::grammar::words(kinds@).contains(self.e().t[i as int].kind),
    {
        has_word(kinds, self.tree.nodes[i].kind.as_str())
    }

    fn text_or_empty(&self, i: usize) -> (r: &'a str)
        requires
            self.has(i as int),
        ensures
            r@ == text_or_empty(self.e(), i as int),
    {
        match self.tree.text(i) {
            Some(s) => s,
            None => {
                proof {
                    reveal_strlit("");
                    assert(""@ =~= Seq::empty());
                }
                ""
            },
        }
    }

    fn snippet(&self, i: usize) -> (r: String)
        requires
            self.has(i as int),
        ensures
            r@ == snippet_at(self.e(), i as int),
    {
        snippet(self.text_or_empty(i))
    }

    /// Whether the node is a function or a closure, which a scan for calls
    /// or identifiers never enters.
    pub(crate) fn is_function_like(&self, i: usize) -> (r: bool)
        requires
            self.has(i as int),
        ensures
            r == function_like(self.e().g, self.e().t[i as int].kind),
    {
        self.kind_is(i, self.table.function_kinds) || self.kind_is(i, self.table.closure_kinds)
    }

    /// A member access's object and property, by field or by position.
    fn member_parts(&self, i: usize) -> (r: (Option<usize>, Option<usize>))
        requires
            self.has(i as int),
        ensures
            same_index(r.0, member_parts(self.e(), i as int).0),
            same_index(r.1, member_parts(self.e(), i as int).1),
            r.0 matches Some(c) ==> below(self.e().t, i as int, c as int) && self.has(c as int),
            r.1 matches Some(c) ==> below(self.e().t, i as int, c as int) && self.has(c as int),
    {
        let object = self.tree.child_by_field(i, self.table.member_object_field);
        let property = self.tree.child_by_field(i, self.table.member_property_field);
        if object.is_some() && property.is_some() {
            return (object, property);
        }
        (self.first_named(i), self.tree.last_named(i))
    }

    pub(crate) fn first_named(&self, i: usize) -> (r: Option<usize>)
        requires
            self.has(i as int),
        ensures
            same_index(r, first(kids(self.e().t, i as int, Pick::Named))),
            r matches Some(c) ==> below(self.e().t, i as int, c as int) && self.has(c as int),
    {
        broadcast use lemma_kid;

        let all = self.tree.children(i, Choice::Named);
        let ghost ks = kids(self.e().t, i as int, Pick::Named);
        assert(ks.len() == all@.len());
        if all.len() > 0 {
            assert(ks[0] == all@[0] as int);
            Some(all[0])
        } else {
            None
        }
    }

    fn callee_chain(&self, i: usize) -> (r: (Vec<String>, bool))
        requires
            self.has(i as int),
        ensures
            texts(r.0@) == callee_chain(self.e(), i as int).0,
            r.1 == callee_chain(self.e(), i as int).1,
        decreases size(self.e().t, i as int),
    {
        broadcast use lemma_below;

        let mut parts: Vec<String> = Vec::new();
        assert(texts(parts@) =~= Seq::empty());
        if self.kind_is(i, self.table.identifier_kinds) {
            parts.push(self.text_or_empty(i).to_owned());
            assert(texts(parts@) =~= seq![text_or_empty(self.e(), i as int)]);
            return (parts, true);
        }
        if self.kind_is(i, self.table.member_access_kinds) {
            let (object, property) = self.member_parts(i);
            let mut ok: bool = false;
            if let Some(o) = object {
                let (inner, inner_ok) = self.callee_chain(o);
                parts = inner;
                ok = inner_ok;
            }
            if let Some(p) = property {
                let ghost before = parts@;
                parts.push(self.text_or_empty(p).to_owned());
                assert(texts(parts@) =~= texts(before).push(text_or_empty(self.e(), p as int)));
            }
            return (parts, ok);
        }
        (parts, false)
    }

    /// Dotted callee text for a call target.
    fn callee_text(&self, i: usize) -> (r: String)
        requires
            self.has(i as int),
        ensures
            r@ == callee_text(self.e(), i as int),
    {
        let (parts, ok) = self.callee_chain(i);
        assert(texts(parts@).len() == parts@.len());
        if ok && parts.len() > 0 {
            join(&parts, ".")
        } else {
            self.snippet(i)
        }
    }

    /// A call node's callee text.
    fn call_callee(&self, i: usize) -> (r: String)
        requires
            self.has(i as int),
        ensures
            r@ == call_callee(self.e(), i as int),
    {
        let t = self.table;
        if !t.call_object_field.is_empty() || !t.call_name_field.is_empty() {
            let name = match self.tree.child_by_field(i, t.call_name_field) {
                Some(n) => match self.tree.text(n) {
                    Some(s) => s,
                    None => "<dynamic>",
                },
                None => "<dynamic>",
            };
            return match self.tree.child_by_field(i, t.call_object_field) {
                Some(o) => {
                    let mut text = self.callee_text(o);
                    text.append(".");
                    text.append(name);
                    text
                },
                None => name.to_owned(),
            };
        }
        let callee = if t.call_callee_field.is_empty() {
            self.first_named(i)
        } else {
            self.tree.child_by_field(i, t.call_callee_field)
        };
        match callee {
            Some(c) => self.callee_text(c),
            None => "<dynamic>".to_owned(),
        }
    }

    /// Whether an assignment's operator makes it compound.
    fn is_compound_assign(&self, i: usize) -> (r: bool)
        requires
            self.has(i as int),
        ensures
            r == compound_assign(self.e(), i as int),
    {
        match self.tree.child_by_field(i, self.table.assign_operator_field) {
            Some(n) => match self.tree.text(n) {
                Some(op) => !same(op, "="),
                None => false,
            },
            None => false,
        }
    }

    /// Whether the node is a bare identifier that spells one of `words`.
    fn is_word(&self, i: usize, words: &'static [&'static str]) -> (r: bool)
        requires
            self.has(i as int),
        ensures
            r == is_word(self.e(), i as int, crate::ts::grammar::words(words@)),
    {
        self.kind_is(i, self.table.identifier_kinds) && match self.tree.text(i) {
            Some(s) => has_word(words, s),
            None => false,
        }
    }

    /// Every call at and below the node, innermost first, never crossing
    /// into a nested function's body.
    fn collect_call_nodes(&self, i: usize) -> (r: Vec<usize>)
        requires
            self.has(i as int),
        ensures
            indices(r@) == calls_in(self.e(), i as int),
            forall|k: int| 0 <= k < r@.len() ==> self.has(#[trigger] r@[k] as int),
        decreases size(self.e().t, i as int),
    {
        broadcast use {lemma_kid, lemma_below};

        let ghost e = self.e();
        let mut out: Vec<usize> = Vec::new();
        assert(indices(out@) =~= Seq::empty());
        if self.is_function_like(i) {
            return out;
        }
        let children = self.tree.children(i, Choice::Named);
        let ghost ks = kids(e.t, i as int, Pick::Named);
        assert(ks.len() == children@.len());
        let mut k: usize = 0;
        assert(indices(out@) + calls_below(e, i as int, 0) =~= calls_below(e, i as int, 0));
        while k < children.len()
            invariant
                e == self.e(),
                self.has(i as int),
                k <= children.len(),
                ks == kids(e.t, i as int, Pick::Named),
                ks == indices(children@),
                ks.len() == children@.len(),
                indices(out@) + calls_below(e, i as int, k as int) == calls_below(e, i as int, 0),
                forall|j: int| 0 <= j < out@.len() ==> self.has(#[trigger] out@[j] as int),
            decreases children.len() - k,
        {
            assert(ks[k as int] == children@[k as int] as int);
            proof {
                lemma_kid(e.t, i as int, Pick::Named, k as int);
            }
            let ghost before = out@;
            let mut inner = self.collect_call_nodes(children[k]);
            let ghost added = inner@;
            out.append(&mut inner);
            proof {
                assert(indices(out@) =~= indices(before) + indices(added));
                assert(indices(before) + (indices(added) + calls_below(e, i as int, k + 1))
                    =~= indices(out@) + calls_below(e, i as int, k + 1));
                assert forall|j: int| 0 <= j < out@.len() implies self.has(
                    #[trigger] out@[j] as int,
                ) by {
                    if j < before.len() {
                        assert(out@[j] == before[j]);
                    } else {
                        assert(out@[j] == added[j - before.len()]);
                    }
                }
            }
            k += 1;
        }
        assert(indices(out@) + Seq::<int>::empty() =~= indices(out@));
        if self.kind_is(i, self.table.call_kinds) {
            let ghost before = out@;
            out.push(i);
            assert(indices(out@) =~= indices(before).push(i as int));
        }
        out
    }

    /// The identifiers at and below the node, skipping member names, nested
    /// functions and the node `skip`.
    fn identifiers(&self, i: usize, skip: Option<usize>) -> (r: Vec<String>)
        requires
            self.has(i as int),
        ensures
            texts(r@) == identifiers_in(self.e(), i as int, index_of(skip)),
        decreases size(self.e().t, i as int),
    {
        broadcast use {lemma_kid, lemma_below};

        let ghost e = self.e();
        let ghost sk = index_of(skip);
        let mut out: Vec<String> = Vec::new();
        assert(texts(out@) =~= Seq::empty());
        if let Some(s) = skip {
            if s == i {
                return out;
            }
        }
        if self.kind_is(i, self.table.identifier_kinds) {
            if let Some(text) = self.tree.text(i) {
                out.push(text.to_owned());
                assert(texts(out@) =~= seq![text@]);
            }
            return out;
        }
        if self.is_function_like(i) {
            return out;
        }
        let property = if self.kind_is(i, self.table.member_access_kinds) {
            self.member_parts(i).1
        } else {
            None
        };
        let ghost pr = index_of(property);
        let children = self.tree.children(i, Choice::Named);
        let ghost ks = kids(e.t, i as int, Pick::Named);
        assert(ks.len() == children@.len());
        let mut k: usize = 0;
        assert(texts(out@) + identifiers_below(e, i as int, sk, pr, 0) =~= identifiers_below(
            e,
            i as int,
            sk,
            pr,
            0,
        ));
        while k < children.len()
            invariant
                e == self.e(),
                self.has(i as int),
                sk == index_of(skip),
                pr == index_of(property),
                k <= children.len(),
                ks == kids(e.t, i as int, Pick::Named),
                ks == indices(children@),
                ks.len() == children@.len(),
                texts(out@) + identifiers_below(e, i as int, sk, pr, k as int)
                    == identifiers_below(e, i as int, sk, pr, 0),
            decreases children.len() - k,
        {
            let c: usize = children[k];
            assert(ks[k as int] == c as int);
            proof {
                lemma_kid(e.t, i as int, Pick::Named, k as int);
            }
            let skipped: bool = match property {
                Some(p) => p == c,
                None => false,
            } || match skip {
                Some(s) => s == c,
                None => false,
            };
            let ghost before = texts(out@);
            let ghost rest = identifiers_below(e, i as int, sk, pr, k + 1);
            if !skipped {
                let inner = self.identifiers(c, skip);
                let ghost added = texts(inner@);
                push_all(&mut out, inner);
                assert(before + (added + rest) =~= texts(out@) + rest);
            } else {
                assert(before + (Seq::<Seq<char>>::empty() + rest) =~= texts(out@) + rest);
            }
            k += 1;
        }
        assert(texts(out@) + Seq::<Seq<char>>::empty() =~= texts(out@));
        out
    }

    /// A binding's pattern and value when it has no list of declarators.
    fn binding_parts(&self, i: usize) -> (r: (Option<usize>, Option<usize>))
        requires
            self.has(i as int),
        ensures
            same_index(r.0, binding_parts(self.e(), i as int).0),
            same_index(r.1, binding_parts(self.e(), i as int).1),
            r.0 matches Some(c) ==> self.has(c as int),
            r.1 matches Some(c) ==> self.has(c as int),
    {
        let t = self.table;
        if self.kind_is(i, t.binding_kinds2) {
            return (
                self.tree.child_by_field(i, t.binding_pattern_field2),
                self.tree.child_by_field(i, t.binding_value_field2),
            );
        }
        if !t.binding_pattern_field.is_empty() || !t.binding_value_field.is_empty() {
            return (
                self.tree.child_by_field(i, t.binding_pattern_field),
                self.tree.child_by_field(i, t.binding_value_field),
            );
        }
        let pattern = self.tree.child_of_kind(i, t.binding_pattern_kind);
        let end = self.tree.last_named(i);
        let value = match (pattern, end) {
            (Some(p), Some(l)) => if p != l {
                Some(l)
            } else {
                None
            },
            (None, Some(l)) => Some(l),
            _ => None,
        };
        (pattern, value)
    }

    /// The names that a binding declares.
    fn binding_names(&self, i: usize) -> (r: Vec<String>)
        requires
            self.has(i as int),
        ensures
            texts(r@) == binding_names(self.e(), i as int),
    {
        broadcast use lemma_kid;

        let ghost e = self.e();
        let mut out: Vec<String> = Vec::new();
        assert(texts(out@) =~= Seq::empty());
        if !self.kind_is(i, self.table.binding_kinds) {
            return out;
        }
        if self.table.binding_declarator_field.is_empty() {
            return match self.binding_parts(i).0 {
                Some(p) => self.identifiers(p, None),
                None => out,
            };
        }
        let field = self.table.binding_declarator_field;
        let all = self.tree.children(i, Choice::Field(field));
        let ghost ks = kids(e.t, i as int, Pick::Field(field@));
        assert(ks.len() == all@.len());
        let mut k: usize = 0;
        assert(texts(out@) + declarator_names(e, i as int, 0) =~= declarator_names(e, i as int, 0));
        while k < all.len()
            invariant
                e == self.e(),
                k <= all.len(),
                field == self.table.binding_declarator_field,
                ks == kids(e.t, i as int, Pick::Field(field@)),
                ks == indices(all@),
                ks.len() == all@.len(),
                texts(out@) + declarator_names(e, i as int, k as int) == declarator_names(
                    e,
                    i as int,
                    0,
                ),
            decreases all.len() - k,
        {
            assert(ks[k as int] == all@[k as int] as int);
            proof {
                lemma_kid(e.t, i as int, Pick::Field(field@), k as int);
            }
            let ghost before = texts(out@);
            let ghost rest = declarator_names(e, i as int, k + 1);
            match self.tree.child_by_field(all[k], self.table.binding_declarator_name_field) {
                Some(n) => {
                    let inner = self.identifiers(n, None);
                    let ghost added = texts(inner@);
                    push_all(&mut out, inner);
                    assert(before + (added + rest) =~= texts(out@) + rest);
                },
                None => {
                    assert(before + (Seq::<Seq<char>>::empty() + rest) =~= texts(out@) + rest);
                },
            }
            k += 1;
        }
        assert(texts(out@) + Seq::<Seq<char>>::empty() =~= texts(out@));
        out
    }

    /// The names that bindings at and below the node declare, outside nested
    /// functions.
    fn bound_names(&self, i: usize) -> (r: Vec<String>)
        requires
            self.has(i as int),
        ensures
            texts(r@) == bound_in(self.e(), i as int),
        decreases size(self.e().t, i as int),
    {
        broadcast use {lemma_kid, lemma_below};

        let ghost e = self.e();
        if self.is_function_like(i) {
            let out: Vec<String> = Vec::new();
            assert(texts(out@) =~= Seq::empty());
            return out;
        }
        let mut out = self.binding_names(i);
        let ghost own = texts(out@);
        let children = self.tree.children(i, Choice::Named);
        let ghost ks = kids(e.t, i as int, Pick::Named);
        assert(ks.len() == children@.len());
        let mut k: usize = 0;
        while k < children.len()
            invariant
                e == self.e(),
                self.has(i as int),
                k <= children.len(),
                ks == kids(e.t, i as int, Pick::Named),
                ks == indices(children@),
                ks.len() == children@.len(),
                texts(out@) + bound_below(e, i as int, k as int) == own + bound_below(
                    e,
                    i as int,
                    0,
                ),
            decreases children.len() - k,
        {
            assert(ks[k as int] == children@[k as int] as int);
            proof {
                lemma_kid(e.t, i as int, Pick::Named, k as int);
            }
            let ghost before = texts(out@);
            let ghost rest = bound_below(e, i as int, k + 1);
            let inner = self.bound_names(children[k]);
            let ghost added = texts(inner@);
            push_all(&mut out, inner);
            assert(before + (added + rest) =~= texts(out@) + rest);
            k += 1;
        }
        assert(texts(out@) + Seq::<Seq<char>>::empty() =~= texts(out@));
        out
    }

    /// Binds `name` fresh in the innermost scope, or reuses what a
    /// function-scoped language already bound it to.
    fn declare(&self, st: &mut FnState, name: &str) -> (r: VarId)
        requires
            sound(old(st)@),
        ensures
            (final(st)@, r) == declared(self.e(), old(st)@, name@),
            grown(old(st)@, final(st)@),
    {
        if !self.table.block_scoped {
            if let Some(v) = st.innermost(name) {
                return v;
            }
        }
        let v: VarId = st.alloc_var();
        st.bind(name, v);
        v
    }

    fn resolve_all(&self, st: &mut FnState, names: &Vec<String>, out: &mut Vec<VarId>)
        requires
            sound(old(st)@),
        ensures
            (final(st)@, final(out)@) == resolved_all(old(st)@, texts(names@), 0, old(out)@),
            grown(old(st)@, final(st)@),
    {
        let ghost w = st@;
        let ghost list = out@;
        let ghost all = texts(names@);
        let mut k: usize = 0;
        while k < names.len()
            invariant
                k <= names.len(),
                all == texts(names@),
                grown(w, st@),
                resolved_all(w, all, 0, list) == resolved_all(st@, all, k as int, out@),
            decreases names.len() - k,
        {
            let ghost mid = st@;
            assert(all[k as int] == names@[k as int]@);
            let v: VarId = st.resolve_or_global(names[k].as_str());
            add_var(out, v);
            proof {
                lemma_grown_trans(w, mid, st@);
            }
            k += 1;
        }
    }

    fn declare_all(&self, st: &mut FnState, names: &Vec<String>, out: &mut Vec<VarId>)
        requires
            sound(old(st)@),
        ensures
            (final(st)@, final(out)@) == declared_all(
                self.e(),
                old(st)@,
                texts(names@),
                0,
                old(out)@,
            ),
            grown(old(st)@, final(st)@),
    {
        let ghost w = st@;
        let ghost list = out@;
        let ghost all = texts(names@);
        let ghost e = self.e();
        let mut k: usize = 0;
        while k < names.len()
            invariant
                e == self.e(),
                k <= names.len(),
                all == texts(names@),
                grown(w, st@),
                declared_all(e, w, all, 0, list) == declared_all(e, st@, all, k as int, out@),
            decreases names.len() - k,
        {
            let ghost mid = st@;
            assert(all[k as int] == names@[k as int]@);
            let v: VarId = self.declare(st, names[k].as_str());
            add_var(out, v);
            proof {
                lemma_grown_trans(w, mid, st@);
            }
            k += 1;
        }
    }

    fn scan_uses(&self, st: &mut FnState, i: usize, out: &mut Vec<VarId>)
        requires
            sound(old(st)@),
            self.has(i as int),
        ensures
            (final(st)@, final(out)@) == uses_scanned(self.e(), old(st)@, i as int, old(out)@),
            grown(old(st)@, final(st)@),
    {
        let names = self.identifiers(i, None);
        self.resolve_all(st, &names, out);
    }

    fn uses_of(&self, st: &mut FnState, i: Option<usize>) -> (r: Vec<VarId>)
        requires
            sound(old(st)@),
            i matches Some(n) ==> self.has(n as int),
        ensures
            (final(st)@, r@) == uses_of(self.e(), old(st)@, index_of(i)),
            grown(old(st)@, final(st)@),
    {
        let mut uses: Vec<VarId> = Vec::new();
        if let Some(n) = i {
            self.scan_uses(st, n, &mut uses);
        }
        uses
    }

    fn scan_defs(&self, st: &mut FnState, i: usize, declare: bool, out: &mut Vec<VarId>)
        requires
            sound(old(st)@),
            self.has(i as int),
        ensures
            (final(st)@, final(out)@) == defs_scanned(
                self.e(),
                old(st)@,
                i as int,
                declare,
                old(out)@,
            ),
            grown(old(st)@, final(st)@),
    {
        let names = self.identifiers(i, None);
        if declare {
            self.declare_all(st, &names, out);
        } else {
            self.resolve_all(st, &names, out);
        }
    }

    /// Pushes one call as a node of its own.
    fn push_call(&self, st: &mut FnState, c: usize) -> (r: usize)
        requires
            sound(old(st)@),
            self.has(c as int),
        ensures
            final(st)@ == call_pushed(self.e(), old(st)@, c as int),
            r == next_node(old(st)@),
            r < final(st)@.nodes.len(),
            grown(old(st)@, final(st)@),
    {
        broadcast use lemma_grown_trans;

        let ghost w = st@;
        let callee = self.call_callee(c);
        let mut uses: Vec<VarId> = Vec::new();
        self.scan_uses(st, c, &mut uses);
        proof {
            lemma_resolved_all_nodes(w, identifiers_in(self.e(), c as int, None), 0, Seq::empty());
        }
        let temp: VarId = st.alloc_var();
        let line: u32 = self.tree.line(c);
        let defs: Vec<VarId> = vec![temp];
        assert(defs@ =~= seq![temp]);
        let label = callee.clone();
        st.push(
            bare(line, NodeKind::Call { callee, opacity: CallOpacity::Opaque }, defs, uses, label),
        )
    }

    /// Extracts every call at and below the node as a chain of nodes, and
    /// returns their ids.
    fn extract_calls(&self, st: &mut FnState, i: usize) -> (r: Vec<usize>)
        requires
            sound(old(st)@),
            self.has(i as int),
        ensures
            (final(st)@, r@) == calls_extracted(self.e(), old(st)@, i as int),
            grown(old(st)@, final(st)@),
            in_range(final(st)@, r@),
    {
        broadcast use lemma_grown_trans;

        let ghost e = self.e();
        let ghost w = st@;
        let calls = self.collect_call_nodes(i);
        let ghost cs = calls_in(e, i as int);
        assert(cs.len() == calls@.len());
        let mut ids: Vec<usize> = Vec::new();
        let mut k: usize = 0;
        while k < calls.len()
            invariant
                e == self.e(),
                cs == indices(calls@),
                k <= calls.len(),
                forall|j: int| 0 <= j < calls@.len() ==> self.has(#[trigger] calls@[j] as int),
                grown(w, st@),
                in_range(st@, ids@),
                calls_pushed(e, w, cs, 0, Seq::empty()) == calls_pushed(
                    e,
                    st@,
                    cs,
                    k as int,
                    ids@,
                ),
            decreases calls.len() - k,
        {
            let ghost mid = st@;
            assert(cs[k as int] == calls@[k as int] as int);
            let id: usize = self.push_call(st, calls[k]);
            ids.push(id);
            proof {
                lemma_grown_trans(w, mid, st@);
            }
            k += 1;
        }
        st.chain(&ids);
        ids
    }

    fn calls_of(&self, st: &mut FnState, i: Option<usize>) -> (r: Vec<usize>)
        requires
            sound(old(st)@),
            i matches Some(n) ==> self.has(n as int),
        ensures
            (final(st)@, r@) == calls_of(self.e(), old(st)@, index_of(i)),
            grown(old(st)@, final(st)@),
            in_range(final(st)@, r@),
    {
        match i {
            Some(n) => self.extract_calls(st, n),
            None => Vec::new(),
        }
    }

    /// Puts the node behind its calls; returns the node that control enters.
    fn put_behind(&self, st: &mut FnState, calls: &Vec<usize>, id: usize) -> (r: usize)
        requires
            sound(old(st)@),
            in_range(old(st)@, calls@),
            id < old(st)@.nodes.len(),
        ensures
            (final(st)@, r) == behind(old(st)@, calls@, id),
            grown(old(st)@, final(st)@),
            final(st)@.nodes.len() == old(st)@.nodes.len(),
            r < final(st)@.nodes.len(),
    {
        let n: usize = calls.len();
        if n > 0 {
            assert(calls@[0] < st@.nodes.len());
            assert(calls@[n - 1] < st@.nodes.len());
            st.edge(calls[n - 1], id);
            calls[0]
        } else {
            id
        }
    }

    /// Pushes a node behind its calls and leads `open` into it.
    fn enter(&self, st: &mut FnState, calls: &Vec<usize>, node: Node, open: &Vec<usize>) -> (r:
        usize)
        requires
            sound(old(st)@),
            in_range(old(st)@, calls@),
            in_range(old(st)@, open@),
            node@.succs.len() == 0,
        ensures
            (final(st)@, r) == entered(old(st)@, calls@, node@, open@),
            grown(old(st)@, final(st)@),
            r < final(st)@.nodes.len(),
    {
        broadcast use {lemma_grown_trans, lemma_in_range_grows};

        let id: usize = st.push(node);
        let entry: usize = self.put_behind(st, calls, id);
        st.link(open.as_slice(), entry);
        id
    }

    /// Lowers one unit: its calls, then the node; returns entry and exit.
    pub(crate) fn unit(&self, st: &mut FnState, i: usize, kind: NodeKind) -> (r: (usize, usize))
        requires
            sound(old(st)@),
            self.has(i as int),
        ensures
            (final(st)@, r.0, r.1) == unit(self.e(), old(st)@, i as int, kind@, Seq::empty()),
            grown(old(st)@, final(st)@),
            r.0 < final(st)@.nodes.len(),
            r.1 < final(st)@.nodes.len(),
    {
        broadcast use {lemma_grown_trans, lemma_in_range_grows};

        let calls = self.extract_calls(st, i);
        let mut uses: Vec<VarId> = Vec::new();
        self.scan_uses(st, i, &mut uses);
        let line: u32 = self.tree.line(i);
        let label = self.snippet(i);
        let defs: Vec<VarId> = Vec::new();
        let id: usize = st.push(bare(line, kind, defs, uses, label));
        let entry: usize = self.put_behind(st, &calls, id);
        (entry, id)
    }

    /// Lowers one unit that `open` leads into; returns its exit.
    fn unit_after(&self, st: &mut FnState, i: usize, kind: NodeKind, open: &Vec<usize>) -> (r:
        usize)
        requires
            sound(old(st)@),
            self.has(i as int),
            in_range(old(st)@, open@),
        ensures
            (final(st)@, r) == unit_after(self.e(), old(st)@, i as int, kind@, open@),
            grown(old(st)@, final(st)@),
            r < final(st)@.nodes.len(),
    {
        broadcast use {lemma_grown_trans, lemma_in_range_grows};

        let (entry, exit) = self.unit(st, i, kind);
        st.link(open.as_slice(), entry);
        exit
    }

    fn plain(&self, st: &mut FnState, i: usize, open: &Vec<usize>) -> (r: Vec<usize>)
        requires
            sound(old(st)@),
            self.has(i as int),
            in_range(old(st)@, open@),
        ensures
            (final(st)@, r@) == plain(self.e(), old(st)@, i as int, open@),
            grown(old(st)@, final(st)@),
            in_range(final(st)@, r@),
    {
        let exit: usize = self.unit_after(st, i, NodeKind::Pure, open);
        let r: Vec<usize> = vec![exit];
        assert(r@ =~= seq![exit]);
        r
    }

    /// Repeatedly unwraps a transparent wrapper.
    pub(crate) fn unwrap_wrapper(&self, i: usize) -> (r: usize)
        requires
            self.has(i as int),
        ensures
            r == unwrapped(self.e().g, self.e().t, i as int),
            self.has(r as int),
            r == i || below(self.e().t, i as int, r as int),
    {
        broadcast use lemma_below;

        let ghost e = self.e();
        let mut node: usize = i;
        let mut done: bool = false;
        proof {
            lemma_size(e.t, i as int);
        }
        while !done
            invariant
                e == self.e(),
                self.has(node as int),
                node == i || below(e.t, i as int, node as int),
                if done {
                    node == unwrapped(e.g, e.t, i as int)
                } else {
                    unwrapped(e.g, e.t, node as int) == unwrapped(e.g, e.t, i as int)
                },
                size(e.t, node as int) > 0,
            decreases size(e.t, node as int), if done { 0int } else { 1int },
        {
            if !self.kind_is(node, self.table.wrapper_kinds) {
                done = true;
            } else {
                match self.tree.field_or_last(node, "body") {
                    Some(n) => {
                        proof {
                            lemma_below(e.t, node as int, n as int);
                            if node != i {
                                lemma_below_trans(e.t, i as int, node as int, n as int);
                            }
                        }
                        node = n;
                    },
                    None => {
                        done = true;
                    },
                }
            }
        }
        node
    }

    /// Pushes the entry node of the function, which defines its parameters.
    pub(crate) fn lower_params(&self, st: &mut FnState, params: Option<usize>, line: u32)
        requires
            sound(old(st)@),
            params matches Some(p) ==> self.has(p as int),
        ensures
            final(st)@ == params_lowered(self.e(), old(st)@, index_of(params), line),
            grown(old(st)@, final(st)@),
            final(st)@.nodes.len() > 0,
    {
        broadcast use lemma_grown_trans;

        let mut defs: Vec<VarId> = Vec::new();
        if let Some(p) = params {
            self.scan_defs(st, p, true, &mut defs);
        }
        let _ = st.push(bare(line, NodeKind::Pure, defs, Vec::new(), "<params>".to_owned()));
    }

    /// Lowers the children that `p` picks, in order.
    pub(crate) fn lower_seq(&self, st: &mut FnState, i: usize, p: Choice, open: Vec<usize>) -> (r: Vec<usize>)
        requires
            sound(old(st)@),
            self.has(i as int),
            in_range(old(st)@, open@),
        ensures
            (final(st)@, r@) == seq_lowered(self.e(), old(st)@, i as int, p@, 0, open@),
            grown(old(st)@, final(st)@),
            in_range(final(st)@, r@),
        decreases size(self.e().t, i as int), 1int, 0int,
    {
        let ghost e = self.e();
        let ghost w = st@;
        let ghost pick = p@;
        let ghost start = open@;
        let children = self.tree.children(i, p);
        let ghost ks = kids(e.t, i as int, pick);
        assert(ks.len() == children@.len());
        let mut open = open;
        let mut k: usize = 0;
        while k < children.len()
            invariant
                e == self.e(),
                self.has(i as int),
                k <= children.len(),
                ks == kids(e.t, i as int, pick),
                ks == indices(children@),
                ks.len() == children@.len(),
                grown(w, st@),
                in_range(st@, open@),
                seq_lowered(e, w, i as int, pick, 0, start) == seq_lowered(
                    e,
                    st@,
                    i as int,
                    pick,
                    k as int,
                    open@,
                ),
            decreases children.len() - k,
        {
            assert(ks[k as int] == children@[k as int] as int);
            let ghost mid = st@;
            proof {
                lemma_kid(e.t, i as int, pick, k as int);
            }
            open = self.lower_stmt(st, children[k], open);
            proof {
                lemma_grown_trans(w, mid, st@);
            }
            k += 1;
        }
        open
    }

    fn lower_block(&self, st: &mut FnState, i: usize, open: Vec<usize>) -> (r: Vec<usize>)
        requires
            sound(old(st)@),
            self.has(i as int),
            in_range(old(st)@, open@),
        ensures
            (final(st)@, r@) == block_lowered(self.e(), old(st)@, i as int, open@),
            grown(old(st)@, final(st)@),
            in_range(final(st)@, r@),
        decreases size(self.e().t, i as int), 2int, 0int,
    {
        broadcast use {lemma_grown_trans, lemma_in_range_grows, lemma_below};

        if self.table.block_scoped {
            st.push_scope();
        }
        let exits = self.lower_seq(st, i, Choice::Named, open);
        if self.table.block_scoped {
            st.pop_scope();
        }
        exits
    }

    /// A class at statement position: its body's statements, in the scope
    /// around it.
    fn lower_class_body(&self, st: &mut FnState, i: usize, open: Vec<usize>) -> (r: Vec<usize>)
        requires
            sound(old(st)@),
            self.has(i as int),
            in_range(old(st)@, open@),
        ensures
            (final(st)@, r@) == class_lowered(self.e(), old(st)@, i as int, open@),
            grown(old(st)@, final(st)@),
            in_range(final(st)@, r@),
        decreases size(self.e().t, i as int), 4int, 0int,
    {
        broadcast use {lemma_grown_trans, lemma_in_range_grows, lemma_below};

        match self.tree.field_or_kind(i, self.table.class_body_field, self.table.class_body_kind) {
            Some(body) => self.lower_seq(st, body, Choice::Named, open),
            None => open,
        }
    }

    /// The name of a function, from its name field.
    pub(crate) fn bare_name(&self, i: usize) -> (r: &'a str)
        requires
            self.has(i as int),
        ensures
            r@ == bare_name(self.e(), i as int),
    {
        match self.tree.child_by_field(i, self.table.function_name_field) {
            Some(n) => match self.tree.text(n) {
                Some(s) => s,
                None => "<anon>",
            },
            None => "<anon>",
        }
    }

    fn lower_fn_decl(&self, st: &mut FnState, i: usize, open: Vec<usize>) -> (r: Vec<usize>)
        requires
            sound(old(st)@),
            self.has(i as int),
            in_range(old(st)@, open@),
        ensures
            (final(st)@, r@) == fn_decl_lowered(self.e(), old(st)@, i as int, open@),
            grown(old(st)@, final(st)@),
            in_range(final(st)@, r@),
    {
        broadcast use {lemma_grown_trans, lemma_in_range_grows};

        let v: VarId = self.declare(st, self.bare_name(i));
        let line: u32 = self.tree.line(i);
        let defs: Vec<VarId> = vec![v];
        assert(defs@ =~= seq![v]);
        let id: usize = st.push(
            bare(line, NodeKind::Pure, defs, Vec::new(), "<fndecl>".to_owned()),
        );
        st.link(open.as_slice(), id);
        let r: Vec<usize> = vec![id];
        assert(r@ =~= seq![id]);
        r
    }

    /// One binding; returns its node. What the value reads is resolved before
    /// the pattern's names are declared, so `let x = x + 1;` reads the outer
    /// `x`.
    fn lower_one_binding(
        &self,
        st: &mut FnState,
        span: usize,
        pattern: Option<usize>,
        value: Option<usize>,
        kind: NodeKind,
        open: &Vec<usize>,
    ) -> (r: usize)
        requires
            sound(old(st)@),
            self.has(span as int),
            pattern matches Some(n) ==> self.has(n as int),
            value matches Some(n) ==> self.has(n as int),
            in_range(old(st)@, open@),
        ensures
            (final(st)@, r) == one_binding_lowered(
                self.e(),
                old(st)@,
                span as int,
                index_of(pattern),
                index_of(value),
                kind@,
                open@,
            ),
            grown(old(st)@, final(st)@),
            r < final(st)@.nodes.len(),
    {
        broadcast use {lemma_grown_trans, lemma_in_range_grows};

        let calls = self.calls_of(st, value);
        let uses = self.uses_of(st, value);
        let mut defs: Vec<VarId> = Vec::new();
        if let Some(p) = pattern {
            self.scan_defs(st, p, true, &mut defs);
        }
        let line: u32 = self.tree.line(span);
        let label = self.snippet(span);
        self.enter(st, &calls, bare(line, kind, defs, uses, label), open)
    }

    /// The declarators of a binding, one node each.
    fn lower_declarators(&self, st: &mut FnState, i: usize, open: Vec<usize>) -> (r: Vec<usize>)
        requires
            sound(old(st)@),
            self.has(i as int),
            in_range(old(st)@, open@),
        ensures
            (final(st)@, r@) == declarators_lowered(self.e(), old(st)@, i as int, 0, open@),
            grown(old(st)@, final(st)@),
            in_range(final(st)@, r@),
    {
        let ghost e = self.e();
        let ghost w = st@;
        let ghost start = open@;
        let field = self.table.binding_declarator_field;
        let all = self.tree.children(i, Choice::Field(field));
        let ghost ks = kids(e.t, i as int, Pick::Field(field@));
        assert(ks.len() == all@.len());
        let mut open = open;
        let mut k: usize = 0;
        while k < all.len()
            invariant
                e == self.e(),
                self.has(i as int),
                k <= all.len(),
                field == self.table.binding_declarator_field,
                ks == kids(e.t, i as int, Pick::Field(field@)),
                ks == indices(all@),
                ks.len() == all@.len(),
                grown(w, st@),
                in_range(st@, open@),
                declarators_lowered(e, w, i as int, 0, start) == declarators_lowered(
                    e,
                    st@,
                    i as int,
                    k as int,
                    open@,
                ),
            decreases all.len() - k,
        {
            assert(ks[k as int] == all@[k as int] as int);
            let ghost mid = st@;
            proof {
                lemma_kid(e.t, i as int, Pick::Field(field@), k as int);
            }
            let decl: usize = all[k];
            let pattern = self.tree.child_by_field(decl, self.table.binding_declarator_name_field);
            let value = self.tree.child_by_field(decl, self.table.binding_declarator_value_field);
            let id: usize = self.lower_one_binding(
                st,
                decl,
                pattern,
                value,
                NodeKind::Pure,
                &open,
            );
            open = vec![id];
            proof {
                assert(open@ =~= seq![id]);
                lemma_grown_trans(w, mid, st@);
            }
            k += 1;
        }
        open
    }

    fn lower_binding(&self, st: &mut FnState, i: usize, open: Vec<usize>) -> (r: Vec<usize>)
        requires
            sound(old(st)@),
            self.has(i as int),
            in_range(old(st)@, open@),
        ensures
            (final(st)@, r@) == binding_lowered(self.e(), old(st)@, i as int, open@),
            grown(old(st)@, final(st)@),
            in_range(final(st)@, r@),
        decreases size(self.e().t, i as int), 4int, 0int,
    {
        broadcast use {lemma_grown_trans, lemma_in_range_grows, lemma_below};

        if !self.table.binding_declarator_field.is_empty() {
            return self.lower_declarators(st, i, open);
        }
        let (pattern, value) = self.binding_parts(i);
        match self.tree.child_by_field(i, self.table.binding_alt_field) {
            Some(alt) => {
                let id: usize = self.lower_one_binding(
                    st,
                    i,
                    pattern,
                    value,
                    NodeKind::Branch,
                    &open,
                );
                let ghost mid = st@;
                let first_exit: Vec<usize> = vec![id];
                assert(first_exit@ =~= seq![id]);
                let mut more = self.lower_stmt(st, alt, first_exit);
                let ghost added = more@;
                let mut exits: Vec<usize> = vec![id];
                exits.append(&mut more);
                assert(exits@ =~= seq![id] + added);
                exits
            },
            None => {
                let id: usize = self.lower_one_binding(
                    st,
                    i,
                    pattern,
                    value,
                    NodeKind::Pure,
                    &open,
                );
                let exits: Vec<usize> = vec![id];
                assert(exits@ =~= seq![id]);
                exits
            },
        }
    }

    fn add_vars(&self, list: &mut Vec<VarId>, more: &Vec<VarId>)
        ensures
            final(list)@ == with_vars(old(list)@, more@, 0),
    {
        let ghost start = list@;
        let mut k: usize = 0;
        while k < more.len()
            invariant
                k <= more.len(),
                with_vars(start, more@, 0) == with_vars(list@, more@, k as int),
            decreases more.len() - k,
        {
            add_var(list, more[k]);
            k += 1;
        }
    }

    /// The node that a list of targets stands for.
    fn sole_item(&self, i: usize) -> (r: usize)
        requires
            self.has(i as int),
        ensures
            r as int == sole_item(self.e(), i as int),
            self.has(r as int),
    {
        broadcast use lemma_kid;

        let t = self.table;
        let ghost ks = kids(self.e().t, i as int, Pick::Named);
        assert(self.e().t[i as int] == self.tree.nodes@[i as int]@);
        if !t.list_kind.is_empty() && same(self.tree.nodes[i].kind.as_str(), t.list_kind) {
            let all = self.tree.children(i, Choice::Named);
            assert(ks.len() == all@.len());
            if all.len() == 1 {
                assert(ks[0] == all@[0] as int);
                return all[0];
            }
        }
        i
    }

    fn lower_assign(&self, st: &mut FnState, i: usize, open: Vec<usize>, compound: bool) -> (r:
        Vec<usize>)
        requires
            sound(old(st)@),
            self.has(i as int),
            in_range(old(st)@, open@),
        ensures
            (final(st)@, r@) == assign_lowered(self.e(), old(st)@, i as int, open@, compound),
            grown(old(st)@, final(st)@),
            in_range(final(st)@, r@),
    {
        broadcast use {lemma_grown_trans, lemma_in_range_grows};

        let left = match self.tree.child_by_field(i, self.table.assign_left_field) {
            Some(l) => self.sole_item(l),
            None => {
                return self.plain(st, i, &open);
            },
        };
        let right = self.tree.child_by_field(i, self.table.assign_right_field);
        let calls = self.calls_of(st, right);
        let mut uses = self.uses_of(st, right);
        let line: u32 = self.tree.line(i);
        let label = self.snippet(i);
        let node = if self.kind_is(left, self.table.member_access_kinds) {
            // A write through a member access outlives the function: the
            // base object is a use, never a def.
            self.scan_uses(st, left, &mut uses);
            let target = self.snippet(left);
            bare(line, NodeKind::StateWrite { target }, Vec::new(), uses, label)
        } else {
            let mut defs: Vec<VarId> = Vec::new();
            self.scan_defs(st, left, self.table.assign_declares, &mut defs);
            if compound {
                self.add_vars(&mut uses, &defs);
            }
            bare(line, NodeKind::Pure, defs, uses, label)
        };
        let id: usize = self.enter(st, &calls, node, &open);
        let r: Vec<usize> = vec![id];
        assert(r@ =~= seq![id]);
        r
    }

    /// A statement-position call: the extracted calls plus a discard.
    fn lower_call_stmt(&self, st: &mut FnState, i: usize, open: Vec<usize>) -> (r: Vec<usize>)
        requires
            sound(old(st)@),
            self.has(i as int),
            in_range(old(st)@, open@),
        ensures
            (final(st)@, r@) == call_stmt_lowered(self.e(), old(st)@, i as int, open@),
            grown(old(st)@, final(st)@),
            in_range(final(st)@, r@),
    {
        broadcast use {lemma_grown_trans, lemma_in_range_grows};

        let calls = self.extract_calls(st, i);
        let mut uses: Vec<VarId> = Vec::new();
        self.scan_uses(st, i, &mut uses);
        let line: u32 = self.tree.line(i);
        let node = bare(line, NodeKind::Pure, Vec::new(), uses, "<discard>".to_owned());
        let id: usize = self.enter(st, &calls, node, &open);
        let r: Vec<usize> = vec![id];
        assert(r@ =~= seq![id]);
        r
    }

    /// The `else` and `elif` parts of an `if`.
    fn if_alts(&self, i: usize) -> (r: Vec<usize>)
        requires
            self.has(i as int),
        ensures
            indices(r@) == if_alts(self.e(), i as int),
            forall|k: int|
                0 <= k < r@.len() ==> below(self.e().t, i as int, #[trigger] r@[k] as int),
    {
        proof {
            reveal_strlit("");
            assert(""@ =~= Seq::empty());
        }
        if self.table.if_alt_field.is_empty() {
            match self.tree.field_or_nth(i, "", 2) {
                Some(n) => {
                    let r: Vec<usize> = vec![n];
                    assert(indices(r@) =~= seq![n as int]);
                    r
                },
                None => {
                    let r: Vec<usize> = Vec::new();
                    assert(indices(r@) =~= Seq::empty());
                    r
                },
            }
        } else {
            let field = self.table.if_alt_field;
            let r = self.tree.children(i, Choice::Field(field));
            let ghost ks = kids(self.e().t, i as int, Pick::Field(field@));
            assert forall|k: int| 0 <= k < r@.len() implies below(
                self.e().t,
                i as int,
                #[trigger] r@[k] as int,
            ) by {
                assert(ks[k] == r@[k] as int);
                lemma_kid(self.e().t, i as int, Pick::Field(field@), k);
            }
            r
        }
    }

    fn lower_if(&self, st: &mut FnState, i: usize, open: Vec<usize>) -> (r: Vec<usize>)
        requires
            sound(old(st)@),
            self.has(i as int),
            in_range(old(st)@, open@),
        ensures
            (final(st)@, r@) == if_lowered(self.e(), old(st)@, i as int, open@),
            grown(old(st)@, final(st)@),
            in_range(final(st)@, r@),
        decreases size(self.e().t, i as int), 4int, 0int,
    {
        let t = self.table;
        let cond = self.tree.field_or_nth(i, t.if_cond_field, 0);
        let then_ = self.tree.field_or_nth(i, t.if_then_field, 1);
        match (cond, then_) {
            (Some(c), Some(b)) => {
                let alts = self.if_alts(i);
                self.lower_if_chain(st, i, c, b, &alts, 0, open)
            },
            _ => self.plain(st, i, &open),
        }
    }

    /// Lowers a condition, its consequence and the remaining alternatives,
    /// threading the false edge through each in turn.
    fn lower_if_chain(
        &self,
        st: &mut FnState,
        top: usize,
        cond: usize,
        then_: usize,
        alts: &Vec<usize>,
        k: usize,
        open: Vec<usize>,
    ) -> (r: Vec<usize>)
        requires
            sound(old(st)@),
            self.has(top as int),
            self.has(cond as int),
            below(self.e().t, top as int, then_ as int),
            forall|j: int|
                0 <= j < alts@.len() ==> below(self.e().t, top as int, #[trigger] alts@[j] as int),
            k <= alts.len(),
            in_range(old(st)@, open@),
        ensures
            (final(st)@, r@) == if_chain_lowered(
                self.e(),
                old(st)@,
                top as int,
                cond as int,
                then_ as int,
                indices(alts@),
                k as int,
                open@,
            ),
            grown(old(st)@, final(st)@),
            in_range(final(st)@, r@),
        decreases size(self.e().t, top as int), 3int, alts.len() - k,
    {
        broadcast use {lemma_grown_trans, lemma_in_range_grows, lemma_below};

        let ghost e = self.e();
        let ghost as_ = indices(alts@);
        let branch: usize = self.unit_after(st, cond, NodeKind::Branch, &open);
        let from: Vec<usize> = vec![branch];
        assert(from@ =~= seq![branch]);
        let ghost w1 = st@;
        assert(in_range(w1, from@));
        let mut exits = self.lower_stmt(st, then_, from);
        let ghost w2 = st@;
        let ghost ex = exits@;
        assert(branch < w2.nodes.len());
        if k >= alts.len() {
            exits.push(branch);
            return exits;
        }
        assert(as_[k as int] == alts@[k as int] as int);
        assert(below(e.t, top as int, alts@[k as int] as int));
        let alt: usize = self.unwrap_wrapper(alts[k]);
        proof {
            if alt != alts@[k as int] {
                lemma_below_trans(e.t, top as int, alts@[k as int] as int, alt as int);
            }
        }
        let is_elif: bool = match self.table.elif_kind {
            Some(kind) => same(kind, self.tree.nodes[alt].kind.as_str()),
            None => false,
        };
        let again: Vec<usize> = vec![branch];
        assert(again@ =~= seq![branch]);
        assert(in_range(w2, again@));
        if is_elif {
            let c2 = self.tree.child_by_field(alt, self.table.if_cond_field);
            let t2 = self.tree.child_by_field(alt, self.table.if_then_field);
            match (c2, t2) {
                (Some(c2), Some(t2)) => {
                    proof {
                        lemma_below_trans(e.t, top as int, alt as int, t2 as int);
                    }
                    let mut more = self.lower_if_chain(st, top, c2, t2, alts, k + 1, again);
                    let ghost added = more@;
                    exits.append(&mut more);
                    proof {
                        assert(exits@ =~= ex + added);
                        lemma_in_range_concat(st@, ex, added);
                    }
                    exits
                },
                _ => {
                    exits.push(branch);
                    exits
                },
            }
        } else {
            let mut more = self.lower_stmt(st, alt, again);
            let ghost added = more@;
            exits.append(&mut more);
            proof {
                assert(exits@ =~= ex + added);
                lemma_in_range_concat(st@, ex, added);
            }
            exits
        }
    }

    fn lower_while(&self, st: &mut FnState, i: usize, open: Vec<usize>) -> (r: Vec<usize>)
        requires
            sound(old(st)@),
            self.has(i as int),
            in_range(old(st)@, open@),
        ensures
            (final(st)@, r@) == while_lowered(self.e(), old(st)@, i as int, open@),
            grown(old(st)@, final(st)@),
            in_range(final(st)@, r@),
        decreases size(self.e().t, i as int), 4int, 0int,
    {
        broadcast use {lemma_grown_trans, lemma_in_range_grows, lemma_below};

        let t = self.table;
        let cond = self.tree.field_or_nth(i, t.while_cond_field, 0);
        let body = self.tree.field_or_last(i, t.while_body_field);
        match (cond, body) {
            (Some(cond), Some(body)) => {
                let head: usize = self.unit_after(st, cond, NodeKind::Branch, &open);
                self.lower_loop_body(st, i, body, head)
            },
            _ => self.plain(st, i, &open),
        }
    }

    /// The body of the loop at `top` whose head is `head`; returns the nodes
    /// that control leaves the loop from.
    fn lower_loop_body(&self, st: &mut FnState, top: usize, body: usize, head: usize) -> (r: Vec<
        usize,
    >)
        requires
            sound(old(st)@),
            below(self.e().t, top as int, body as int),
            head < old(st)@.nodes.len(),
        ensures
            ({
                let (w, exits) = stmt_lowered(
                    self.e(),
                    loop_opened(old(st)@, head),
                    body as int,
                    seq![head],
                );
                (final(st)@, r@) == loop_closed(w, exits, head)
            }),
            grown(old(st)@, final(st)@),
            in_range(final(st)@, r@),
        decreases size(self.e().t, top as int), 0int, 0int,
    {
        broadcast use {lemma_grown_trans, lemma_in_range_grows, lemma_below};

        st.open_loop(head);
        let from: Vec<usize> = vec![head];
        assert(from@ =~= seq![head]);
        let exits = self.lower_stmt(st, body, from);
        st.close_loop(&exits, head)
    }

    /// An unconditional loop: a head with no condition of its own.
    fn lower_loop(&self, st: &mut FnState, i: usize, open: Vec<usize>) -> (r: Vec<usize>)
        requires
            sound(old(st)@),
            self.has(i as int),
            in_range(old(st)@, open@),
        ensures
            (final(st)@, r@) == loop_lowered(self.e(), old(st)@, i as int, open@),
            grown(old(st)@, final(st)@),
            in_range(final(st)@, r@),
        decreases size(self.e().t, i as int), 4int, 0int,
    {
        broadcast use {lemma_grown_trans, lemma_in_range_grows, lemma_below};

        proof {
            reveal_strlit("");
            assert(""@ =~= Seq::empty());
        }
        match self.tree.field_or_kind(i, self.table.loop_body_field, "") {
            Some(body) => {
                let line: u32 = self.tree.line(i);
                let label = self.snippet(i);
                let head: usize = st.push(
                    bare(line, NodeKind::Branch, Vec::new(), Vec::new(), label),
                );
                st.link(open.as_slice(), head);
                self.lower_loop_body(st, i, body, head)
            },
            None => self.plain(st, i, &open),
        }
    }

    /// A for-each loop: its head defines the loop pattern and reads the
    /// iterated expression.
    fn lower_for(&self, st: &mut FnState, i: usize, open: Vec<usize>) -> (r: Vec<usize>)
        requires
            sound(old(st)@),
            self.has(i as int),
            in_range(old(st)@, open@),
        ensures
            (final(st)@, r@) == for_lowered(self.e(), old(st)@, i as int, open@),
            grown(old(st)@, final(st)@),
            in_range(final(st)@, r@),
        decreases size(self.e().t, i as int), 4int, 0int,
    {
        broadcast use {lemma_grown_trans, lemma_in_range_grows, lemma_below};

        let t = self.table;
        let plain_for: bool = t.for_range_kind.is_empty();
        let clause: usize = match self.tree.child_of_kind(i, t.for_range_kind) {
            Some(c) => c,
            None => i,
        };
        assert(clause as int == for_clause(self.e(), i as int));
        let pattern = if plain_for {
            self.tree.field_or_nth(i, t.for_pattern_field, 0)
        } else {
            self.tree.child_by_field(clause, t.for_pattern_field)
        };
        assert(same_index(pattern, for_pattern(self.e(), i as int)));
        let value = self.tree.field_or_nth(clause, t.for_value_field, 1);
        let body = self.tree.field_or_last(i, t.for_body_field);
        match (value, body) {
            (Some(value), Some(body)) => {
                if pattern.is_none() && plain_for {
                    return self.plain(st, i, &open);
                }
                let calls = self.extract_calls(st, value);
                let mut uses: Vec<VarId> = Vec::new();
                self.scan_uses(st, value, &mut uses);
                let ghost w2 = st@;
                if t.block_scoped {
                    st.push_scope();
                }
                let mut defs: Vec<VarId> = Vec::new();
                if let Some(p) = pattern {
                    self.scan_defs(st, p, true, &mut defs);
                }
                let line: u32 = self.tree.line(i);
                let label = self.snippet(i);
                let node = bare(line, NodeKind::Branch, defs, uses, label);
                proof {
                    assert(in_range(w2, open@));
                    assert(in_range(w2, calls@));
                    assert(in_range(st@, open@));
                    assert(in_range(st@, calls@));
                }
                let head: usize = self.enter(st, &calls, node, &open);
                let exits = self.lower_loop_body(st, i, body, head);
                if t.block_scoped {
                    st.pop_scope();
                }
                exits
            },
            _ => self.plain(st, i, &open),
        }
    }

    /// A `match`, `switch` or `when`: the discriminant branches to every
    /// arm's head.
    fn lower_match(&self, st: &mut FnState, i: usize, open: Vec<usize>) -> (r: Vec<usize>)
        requires
            sound(old(st)@),
            self.has(i as int),
            in_range(old(st)@, open@),
        ensures
            (final(st)@, r@) == match_lowered(self.e(), old(st)@, i as int, open@),
            grown(old(st)@, final(st)@),
            in_range(final(st)@, r@),
        decreases size(self.e().t, i as int), 4int, 0int,
    {
        broadcast use {lemma_grown_trans, lemma_in_range_grows, lemma_below};

        let t = self.table;
        let ghost e = self.e();
        let subject = self.tree.field_or_kind(i, t.match_subject_field, t.match_subject_kind);
        let calls = self.calls_of(st, subject);
        let uses = self.uses_of(st, subject);
        let line: u32 = self.tree.line(i);
        let label = self.snippet(i);
        let node = bare(line, NodeKind::Branch, Vec::new(), uses, label);
        let disc: usize = self.enter(st, &calls, node, &open);
        let ghost w3 = st@;
        let container: usize = match self.tree.field_or_kind(
            i,
            t.match_body_field,
            t.match_body_kind,
        ) {
            Some(c) => c,
            None => i,
        };
        let (mut exits, default) = self.lower_arms(st, container, disc);
        if !default {
            exits.push(disc);
        }
        exits
    }

    fn lower_arms(&self, st: &mut FnState, container: usize, disc: usize) -> (r: (Vec<usize>, bool))
        requires
            sound(old(st)@),
            self.has(container as int),
            disc < old(st)@.nodes.len(),
        ensures
            (final(st)@, r.0@, r.1) == arms_lowered(
                self.e(),
                old(st)@,
                container as int,
                0,
                disc,
                Seq::empty(),
                false,
            ),
            grown(old(st)@, final(st)@),
            in_range(final(st)@, r.0@),
        decreases size(self.e().t, container as int), 2int, 0int,
    {
        let ghost e = self.e();
        let ghost w = st@;
        let kinds = self.table.match_arm_kinds;
        let ghost pick = Pick::Kinds(crate::ts::grammar::words(kinds@));
        let arms = self.tree.children(container, Choice::Kinds(kinds));
        let ghost ks = kids(e.t, container as int, pick);
        assert(ks.len() == arms@.len());
        let mut exits: Vec<usize> = Vec::new();
        let mut default: bool = false;
        let mut k: usize = 0;
        while k < arms.len()
            invariant
                e == self.e(),
                self.has(container as int),
                k <= arms.len(),
                e.g.match_arm_kinds == crate::ts::grammar::words(kinds@),
                pick == Pick::Kinds(e.g.match_arm_kinds),
                ks == kids(e.t, container as int, pick),
                ks == indices(arms@),
                ks.len() == arms@.len(),
                grown(w, st@),
                disc < st@.nodes.len(),
                in_range(st@, exits@),
                arms_lowered(e, w, container as int, 0, disc, Seq::empty(), false) == arms_lowered(
                    e,
                    st@,
                    container as int,
                    k as int,
                    disc,
                    exits@,
                    default,
                ),
            decreases arms.len() - k,
        {
            assert(ks[k as int] == arms@[k as int] as int);
            let ghost mid = st@;
            let ghost ex = exits@;
            proof {
                lemma_kid(e.t, container as int, pick, k as int);
            }
            let (mut more, is_default) = self.lower_match_arm(st, arms[k], disc);
            let ghost added = more@;
            exits.append(&mut more);
            default = default || is_default;
            proof {
                lemma_grown_trans(w, mid, st@);
                lemma_in_range_grows(mid, st@, ex);
                assert(exits@ =~= ex + added);
                lemma_in_range_concat(st@, ex, added);
            }
            k += 1;
        }
        (exits, default)
    }

    /// The labels of a match arm.
    fn arm_labels(&self, arm: usize) -> (r: Vec<usize>)
        requires
            self.has(arm as int),
        ensures
            indices(r@) == arm_labels(self.e(), arm as int),
            forall|k: int| 0 <= k < r@.len() ==> self.has(#[trigger] r@[k] as int),
    {
        let t = self.table;
        if t.match_arm_pattern_multi {
            let field = t.match_arm_pattern_field;
            let r = self.tree.children(arm, Choice::Field(field));
            let ghost ks = kids(self.e().t, arm as int, Pick::Field(field@));
            assert forall|k: int| 0 <= k < r@.len() implies self.has(#[trigger] r@[k] as int) by {
                assert(ks[k] == r@[k] as int);
                lemma_kid(self.e().t, arm as int, Pick::Field(field@), k);
            }
            r
        } else {
            match self.tree.field_or_kind(arm, t.match_arm_pattern_field, t.match_arm_pattern_kind) {
                Some(n) => {
                    let r: Vec<usize> = vec![n];
                    assert(indices(r@) =~= seq![n as int]);
                    r
                },
                None => {
                    let r: Vec<usize> = Vec::new();
                    assert(indices(r@) =~= Seq::empty());
                    r
                },
            }
        }
    }

    fn is_default_arm(&self, labels: &Vec<usize>) -> (r: bool)
        requires
            forall|k: int| 0 <= k < labels@.len() ==> self.has(#[trigger] labels@[k] as int),
        ensures
            r == arm_is_default(self.e(), indices(labels@)),
    {
        let ghost e = self.e();
        let ghost ls = indices(labels@);
        let mut k: usize = 0;
        while k < labels.len()
            invariant
                e == self.e(),
                ls == indices(labels@),
                k <= labels.len(),
                forall|j: int| 0 <= j < labels@.len() ==> self.has(#[trigger] labels@[j] as int),
                forall|j: int|
                    0 <= j < k ==> snippet_at(e, #[trigger] ls[j]) == "_"@ || snippet_at(e, ls[j])
                        == "default"@,
            decreases labels.len() - k,
        {
            assert(ls[k as int] == labels@[k as int] as int);
            let text = self.snippet(labels[k]);
            if !same(text.as_str(), "_") && !same(text.as_str(), "default") {
                return false;
            }
            k += 1;
        }
        true
    }

    /// What one label of an arm defines and reads.
    fn scan_label(
        &self,
        st: &mut FnState,
        label: usize,
        defs: &mut Vec<VarId>,
        uses: &mut Vec<VarId>,
    )
        requires
            sound(old(st)@),
            self.has(label as int),
        ensures
            (final(st)@, final(defs)@, final(uses)@) == label_scanned(
                self.e(),
                old(st)@,
                label as int,
                old(defs)@,
                old(uses)@,
            ),
            grown(old(st)@, final(st)@),
    {
        broadcast use lemma_grown_trans;

        let guard = self.tree.child_by_field(label, self.table.match_pattern_guard_field);
        if self.table.match_arm_pattern_declares {
            let names = self.identifiers(label, guard);
            self.declare_all(st, &names, defs);
        } else {
            self.scan_uses(st, label, uses);
        }
        if let Some(g) = guard {
            self.scan_uses(st, g, uses);
        }
    }

    /// One match arm: a head feeding into the arm's own statements, scoped so
    /// a bound name never leaks into a sibling arm. Returns the arm's exits
    /// and whether it is a wildcard arm.
    fn lower_match_arm(&self, st: &mut FnState, arm: usize, disc: usize) -> (r: (Vec<usize>, bool))
        requires
            sound(old(st)@),
            self.has(arm as int),
            disc < old(st)@.nodes.len(),
        ensures
            (final(st)@, r.0@) == arm_lowered(self.e(), old(st)@, arm as int, disc),
            r.1 == arm_is_default(self.e(), arm_labels(self.e(), arm as int)),
            grown(old(st)@, final(st)@),
            in_range(final(st)@, r.0@),
        decreases size(self.e().t, arm as int), 3int, 0int,
    {
        broadcast use {lemma_grown_trans, lemma_in_range_grows, lemma_below};

        let t = self.table;
        let ghost e = self.e();
        let ghost w0 = st@;
        let labels = self.arm_labels(arm);
        let ghost ls = arm_labels(e, arm as int);
        let is_default: bool = self.is_default_arm(&labels);
        if t.block_scoped {
            st.push_scope();
        }
        let ghost w = st@;
        let mut defs: Vec<VarId> = Vec::new();
        let mut uses: Vec<VarId> = Vec::new();
        let mut k: usize = 0;
        while k < labels.len()
            invariant
                e == self.e(),
                ls == indices(labels@),
                k <= labels.len(),
                forall|j: int| 0 <= j < labels@.len() ==> self.has(#[trigger] labels@[j] as int),
                grown(w, st@),
                labels_scanned(e, w, ls, 0, Seq::empty(), Seq::empty()) == labels_scanned(
                    e,
                    st@,
                    ls,
                    k as int,
                    defs@,
                    uses@,
                ),
            decreases labels.len() - k,
        {
            assert(ls[k as int] == labels@[k as int] as int);
            let ghost mid = st@;
            self.scan_label(st, labels[k], &mut defs, &mut uses);
            proof {
                lemma_grown_trans(w, mid, st@);
            }
            k += 1;
        }
        let guard = self.tree.child_by_field(arm, t.match_arm_guard_field);
        if let Some(g) = guard {
            self.scan_uses(st, g, &mut uses);
        }
        let mut head_nodes = labels;
        proof {
            assert(head_nodes@ =~= ls.map_values(|x: int| x as usize)) by {
                assert forall|j: int| 0 <= j < head_nodes@.len() implies head_nodes@[j]
                    == ls.map_values(|x: int| x as usize)[j] by {
                    assert(ls[j] == head_nodes@[j] as int);
                }
            }
        }
        if let Some(g) = guard {
            head_nodes.push(g);
        }
        assert(head_nodes@ =~= arm_head_nodes(e, arm as int));
        let line: u32 = self.tree.line(arm);
        let label = self.snippet(arm);
        let head: usize = st.push(bare(line, NodeKind::Pure, defs, uses, label));
        st.edge(disc, head);
        let from: Vec<usize> = vec![head];
        assert(from@ =~= seq![head]);
        let exits = self.lower_seq(st, arm, Choice::Except(head_nodes.as_slice()), from);
        if t.block_scoped {
            st.pop_scope();
        }
        (exits, is_default)
    }

    /// `try`: the body lowers as ordinary code, every handler is lowered but
    /// never linked from the body, and `else` and `finally` run once behind
    /// the body's own exits.
    fn lower_try(&self, st: &mut FnState, i: usize, open: Vec<usize>) -> (r: Vec<usize>)
        requires
            sound(old(st)@),
            self.has(i as int),
            in_range(old(st)@, open@),
        ensures
            (final(st)@, r@) == try_lowered(self.e(), old(st)@, i as int, open@),
            grown(old(st)@, final(st)@),
            in_range(final(st)@, r@),
        decreases size(self.e().t, i as int), 4int, 0int,
    {
        broadcast use {lemma_grown_trans, lemma_in_range_grows, lemma_below};

        let t = self.table;
        let body = match self.tree.field_or_kind(i, t.try_body_field, t.try_body_kind) {
            Some(b) => b,
            None => {
                return self.plain(st, i, &open);
            },
        };
        let mut exits = self.lower_block(st, body, open);
        self.lower_catches(st, i);
        if let Some(n) = self.tree.child_of_kind(i, t.try_else_kind) {
            if let Some(b) = self.tree.child_by_field(n, t.try_else_body_field) {
                exits = self.lower_block(st, b, exits);
            }
        }
        if let Some(n) = self.tree.child_of_kind(i, t.finally_kind) {
            if let Some(b) = self.tree.field_or_kind(n, t.finally_body_field, t.finally_body_kind) {
                exits = self.lower_block(st, b, exits);
            }
        }
        exits
    }

    fn lower_catches(&self, st: &mut FnState, i: usize)
        requires
            sound(old(st)@),
            self.has(i as int),
        ensures
            final(st)@ == catches_lowered(self.e(), old(st)@, i as int, 0),
            grown(old(st)@, final(st)@),
        decreases size(self.e().t, i as int), 3int, 0int,
    {
        let ghost e = self.e();
        let ghost w = st@;
        let kinds = self.table.catch_kinds;
        let ghost pick = Pick::Kinds(crate::ts::grammar::words(kinds@));
        let all = self.tree.children(i, Choice::Kinds(kinds));
        let ghost ks = kids(e.t, i as int, pick);
        assert(ks.len() == all@.len());
        let mut k: usize = 0;
        while k < all.len()
            invariant
                e == self.e(),
                self.has(i as int),
                k <= all.len(),
                e.g.catch_kinds == crate::ts::grammar::words(kinds@),
                pick == Pick::Kinds(e.g.catch_kinds),
                ks == kids(e.t, i as int, pick),
                ks == indices(all@),
                ks.len() == all@.len(),
                grown(w, st@),
                catches_lowered(e, w, i as int, 0) == catches_lowered(e, st@, i as int, k as int),
            decreases all.len() - k,
        {
            assert(ks[k as int] == all@[k as int] as int);
            let ghost mid = st@;
            proof {
                lemma_kid(e.t, i as int, pick, k as int);
            }
            self.lower_catch_handler(st, all[k]);
            proof {
                lemma_grown_trans(w, mid, st@);
            }
            k += 1;
        }
    }

    /// Where a handler binds its exception.
    fn catch_param_node(&self, i: usize) -> (r: Option<usize>)
        requires
            self.has(i as int),
        ensures
            same_index(r, catch_param(self.e(), i as int)),
            r matches Some(c) ==> self.has(c as int),
    {
        let t = self.table;
        if !t.catch_param_kind.is_empty() {
            return match self.tree.child_of_kind(i, t.catch_param_kind) {
                Some(found) => if t.catch_param_name_field.is_empty() {
                    Some(found)
                } else {
                    self.tree.child_by_field(found, t.catch_param_name_field)
                },
                None => None,
            };
        }
        match self.tree.child_by_field(i, t.catch_param_as_field) {
            Some(value) => if same(
                self.tree.nodes[value].kind.as_str(),
                t.catch_param_as_pattern_kind,
            ) {
                self.tree.child_by_field(value, t.catch_param_alias_field)
            } else {
                None
            },
            None => None,
        }
    }

    /// One handler clause, lowered from an entry node that nothing leads to.
    fn lower_catch_handler(&self, st: &mut FnState, i: usize)
        requires
            sound(old(st)@),
            self.has(i as int),
        ensures
            final(st)@ == catch_lowered(self.e(), old(st)@, i as int),
            grown(old(st)@, final(st)@),
        decreases size(self.e().t, i as int), 3int, 0int,
    {
        broadcast use {lemma_grown_trans, lemma_in_range_grows, lemma_below};

        let t = self.table;
        let body = match self.tree.field_or_kind(i, t.catch_body_field, t.catch_body_kind) {
            Some(b) => b,
            None => {
                return ;
            },
        };
        if t.block_scoped {
            st.push_scope();
        }
        let mut defs: Vec<VarId> = Vec::new();
        if let Some(p) = self.catch_param_node(i) {
            let names = self.identifiers(p, None);
            self.declare_all(st, &names, &mut defs);
        }
        let line: u32 = self.tree.line(i);
        let entry: usize = st.push(
            bare(line, NodeKind::Pure, defs, Vec::new(), "<catch>".to_owned()),
        );
        let from: Vec<usize> = vec![entry];
        assert(from@ =~= seq![entry]);
        let _ = self.lower_block(st, body, from);
        if t.block_scoped {
            st.pop_scope();
        }
    }

    /// Pushes a node that reads nothing, for a leaf that only matters for its
    /// position.
    fn lower_word(&self, st: &mut FnState, i: usize, open: &Vec<usize>) -> (r: usize)
        requires
            sound(old(st)@),
            self.has(i as int),
            in_range(old(st)@, open@),
        ensures
            (final(st)@, r) == word_lowered(self.e(), old(st)@, i as int, open@),
            grown(old(st)@, final(st)@),
            r < final(st)@.nodes.len(),
    {
        broadcast use {lemma_grown_trans, lemma_in_range_grows};

        let line: u32 = self.tree.line(i);
        let label = self.snippet(i);
        let id: usize = st.push(bare(line, NodeKind::Pure, Vec::new(), Vec::new(), label));
        st.link(open.as_slice(), id);
        id
    }

    /// A construct that is not modelled: one unit keeps the graph connected.
    fn lower_other(&self, st: &mut FnState, i: usize, open: Vec<usize>) -> (r: Vec<usize>)
        requires
            sound(old(st)@),
            self.has(i as int),
            in_range(old(st)@, open@),
        ensures
            (final(st)@, r@) == other_lowered(self.e(), old(st)@, i as int, open@),
            grown(old(st)@, final(st)@),
            in_range(final(st)@, r@),
    {
        broadcast use {lemma_grown_trans, lemma_in_range_grows};

        let ghost w = st@;
        if self.table.block_scoped {
            st.push_scope();
            let ghost w1 = st@;
            let names = self.bound_names(i);
            let mut ignored: Vec<VarId> = Vec::new();
            self.declare_all(st, &names, &mut ignored);
        }
        let (entry, exit) = self.unit(st, i, NodeKind::Pure);
        if self.table.block_scoped {
            st.pop_scope();
        }
        assert(in_range(st@, open@));
        st.link(open.as_slice(), entry);
        let r: Vec<usize> = vec![exit];
        assert(r@ =~= seq![exit]);
        r
    }

    /// Whether anything stands before the body of a loop.
    fn has_condition(&self, i: usize) -> (r: bool)
        requires
            self.has(i as int),
        ensures
            r == (first(kids(self.e().t, i as int, Pick::Named)) is Some && first(
                kids(self.e().t, i as int, Pick::Named),
            ) != child_by_field(self.e().t, i as int, self.e().g.while_body_field)),
    {
        match (self.first_named(i), self.tree.child_by_field(i, self.table.while_body_field)) {
            (Some(c), Some(body)) => c != body,
            (Some(_), None) => true,
            (None, _) => false,
        }
    }

    /// Lowers one statement; returns the nodes that control leaves it from.
    pub(crate) fn lower_stmt(&self, st: &mut FnState, i0: usize, open: Vec<usize>) -> (r: Vec<usize>)
        requires
            sound(old(st)@),
            self.has(i0 as int),
            in_range(old(st)@, open@),
        ensures
            (final(st)@, r@) == stmt_lowered(self.e(), old(st)@, i0 as int, open@),
            grown(old(st)@, final(st)@),
            in_range(final(st)@, r@),
        decreases size(self.e().t, i0 as int), 5int, 0int,
    {
        broadcast use {lemma_grown_trans, lemma_in_range_grows, lemma_below};

        let i: usize = self.unwrap_wrapper(i0);
        let t = self.table;
        if self.tree.nodes[i].has_error {
            st.push_diagnostic(
                self.name,
                "statement contains a parse error; lowered as an opaque unit",
            );
        }
        if self.kind_is(i, t.block_kinds) {
            return self.lower_block(st, i, open);
        }
        if self.kind_is(i, t.flatten_kinds) {
            return self.lower_seq(st, i, Choice::Named, open);
        }
        if self.kind_is(i, t.class_kinds) {
            return self.lower_class_body(st, i, open);
        }
        if self.kind_is(i, t.function_kinds) {
            return self.lower_fn_decl(st, i, open);
        }
        if self.kind_is(i, t.binding_kinds) {
            return self.lower_binding(st, i, open);
        }
        if self.kind_is(i, t.compound_assign_kinds) {
            return self.lower_assign(st, i, open, true);
        }
        if self.kind_is(i, t.assign_kinds) {
            let compound: bool = self.is_compound_assign(i);
            return self.lower_assign(st, i, open, compound);
        }
        if self.kind_is(i, t.call_kinds) {
            return self.lower_call_stmt(st, i, open);
        }
        if self.kind_is(i, t.if_kinds) {
            return self.lower_if(st, i, open);
        }
        if self.kind_is(i, t.while_kinds) {
            return self.lower_while(st, i, open);
        }
        if self.kind_is(i, t.loop_kinds) {
            return self.lower_loop(st, i, open);
        }
        if self.kind_is(i, t.for_kinds) {
            if t.for_range_kind.is_empty() || self.tree.child_of_kind(
                i,
                t.for_range_kind,
            ).is_some() {
                return self.lower_for(st, i, open);
            }
            if self.tree.child_of_kind(i, t.for_clause_kind).is_some() {
                return self.lower_other(st, i, open);
            }
            return if self.has_condition(i) {
                self.lower_while(st, i, open)
            } else {
                self.lower_loop(st, i, open)
            };
        }
        if self.kind_is(i, t.return_kinds) {
            let _ = self.unit_after(st, i, NodeKind::Return, &open);
            return Vec::new();
        }
        if self.kind_is(i, t.throw_kinds) {
            let _ = self.unit_after(st, i, NodeKind::Throw, &open);
            return Vec::new();
        }
        if self.kind_is(i, t.break_kinds) {
            let exit: usize = self.unit_after(st, i, NodeKind::Pure, &open);
            st.take_break(exit);
            return Vec::new();
        }
        if self.kind_is(i, t.continue_kinds) {
            let exit: usize = self.unit_after(st, i, NodeKind::Pure, &open);
            st.take_continue(exit);
            return Vec::new();
        }
        if self.kind_is(i, t.match_kinds) {
            return self.lower_match(st, i, open);
        }
        if self.kind_is(i, t.try_kinds) {
            return self.lower_try(st, i, open);
        }
        if self.is_word(i, t.break_texts) {
            let exit: usize = self.lower_word(st, i, &open);
            st.take_break(exit);
            return Vec::new();
        }
        if self.is_word(i, t.continue_texts) {
            let exit: usize = self.lower_word(st, i, &open);
            st.take_continue(exit);
            return Vec::new();
        }
        self.lower_other(st, i, open)
    }
}

/// Two lists of nodes together.
proof fn lemma_in_range_concat(w: Walk, a: Seq<usize>, b: Seq<usize>)
    requires
        in_range(w, a),
        in_range(w, b),
    ensures
        in_range(w, a + b),
{
    assert forall|k: int| 0 <= k < (a + b).len() implies #[trigger] (a + b)[k] < w.nodes.len() by {
        if k < a.len() {
            assert((a + b)[k] == a[k]);
        } else {
            assert((a + b)[k] == b[k - a.len()]);
        }
    }
}

/// Resolving names makes no nodes.
proof fn lemma_resolved_all_nodes(w: Walk, names: Seq<Seq<char>>, k: int, out: Seq<VarId>)
    ensures
        resolved_all(w, names, k, out).0.nodes == w.nodes,
    decreases names.len() - k,
{
    if 0 <= k < names.len() {
        let (w1, v) = resolved(w, names[k]);
        lemma_resolved_all_nodes(w1, names, k + 1, with_var(out, v));
    }
}

/// The node that an optional index names.
pub open spec fn index_of(i: Option<usize>) -> Option<int> {
    match i {
        Some(x) => Some(x as int),
        None => None,
    }
}

} // verus!
