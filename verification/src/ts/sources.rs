//! Which functions a source comes to, what they are named, and that they run
//! their bodies, in each language.

use vstd::prelude::*;

use crate::flow::stands;
use crate::ir::{FunctionView, KindView};
use crate::ts::branches::{in_order, lemma_in_order, list_runs};
use crate::ts::constructs::{lemma_no_field, lemma_sorts};
use crate::ts::laws::{lemma_defs_scanned_quiet, lemma_params, lemma_seq_lowered, same_node};
use crate::ts::model::{
    edge, fresh, link, link_from, params_lowered, seq_lowered, unit, unit_after, unwrapped,
    DiagnosticView, Env,
};
use crate::ts::module::{
    body_lowered, closures_in, enclosing_fn, error_counts, error_counts_below, full_name,
    function_id, function_lowered, functions_below, functions_in, functions_lowered,
    module_lowered, named, nothing_named, one_node, owner_prefix, params_of, top_lowered, Naming,
};
use crate::ts::names::{is_function, lemma_kinds, lemma_one};
use crate::ts::shapes::{came_to, lemma_goes, lemma_unit_came};
use crate::ts::tree::{
    child_by_field, child_of_kind, first, kids, lemma_kid, line_at, parent, size, text_at, Pick,
    SyntaxTree,
};
use crate::ts::{broken, tree_lowered, Language};

verus! {

/// Whether a kind is that of a closure of a language.
pub open spec fn is_closure(l: Language, kind: Seq<char>) -> bool {
    match l {
        Language::Rust => kind == "closure_expression"@,
        Language::Python => kind == "lambda"@,
        Language::Java => kind == "lambda_expression"@,
        Language::Kotlin => kind == "lambda_literal"@,
        Language::Go => false,
    }
}

/// Whether a kind is that of a class of a language.
pub open spec fn is_class(l: Language, kind: Seq<char>) -> bool {
    (l is Java || l is Kotlin) && kind == "class_declaration"@
}

proof fn lemma_texts()
    ensures
        "receiver"@.len() == 8,
        "function_body"@.len() == 13,
        "function_item"@.len() == 13,
        "closure_expression"@.len() == 18,
        "function_definition"@.len() == 19,
        "lambda"@.len() == 6,
        "method_declaration"@.len() == 18,
        "lambda_expression"@.len() == 17,
        "function_declaration"@.len() == 20,
        "lambda_literal"@.len() == 14,
{
    reveal_strlit("receiver");
    reveal_strlit("function_body");
    reveal_strlit("function_item");
    reveal_strlit("closure_expression");
    reveal_strlit("function_definition");
    reveal_strlit("lambda");
    reveal_strlit("method_declaration");
    reveal_strlit("lambda_expression");
    reveal_strlit("function_declaration");
    reveal_strlit("lambda_literal");
}

proof fn lemma_closures(l: Language, kind: Seq<char>)
    ensures
        l.grammar().closure_kinds.contains(kind) == is_closure(l, kind),
        l.grammar().function_kinds.contains(kind) == (is_function(l, kind) && !is_closure(l, kind)),
        l.grammar().class_kinds.contains(kind) == is_class(l, kind),
{
    lemma_texts();
    lemma_kinds(l, kind);
    let g = l.grammar();
    match l {
        Language::Rust => {
            lemma_one(g.closure_kinds, "closure_expression"@, kind);
            lemma_one(g.function_kinds, "function_item"@, kind);
        },
        Language::Python => {
            lemma_one(g.closure_kinds, "lambda"@, kind);
            lemma_one(g.function_kinds, "function_definition"@, kind);
        },
        Language::Java => {
            lemma_one(g.closure_kinds, "lambda_expression"@, kind);
            lemma_one(g.function_kinds, "method_declaration"@, kind);
            lemma_one(g.class_kinds, "class_declaration"@, kind);
        },
        Language::Kotlin => {
            lemma_one(g.closure_kinds, "lambda_literal"@, kind);
            lemma_one(g.function_kinds, "function_declaration"@, kind);
            lemma_one(g.class_kinds, "class_declaration"@, kind);
        },
        Language::Go => {},
    }
}

/// A function or a closure is found first at its own node.
pub proof fn a_function_is_found(l: Language, t: SyntaxTree, i: int)
    requires
        is_function(l, t[i].kind),
    ensures
        functions_in(l.grammar(), t, i).len() > 0,
        functions_in(l.grammar(), t, i)[0] == (i, is_closure(l, t[i].kind)),
{
    lemma_closures(l, t[i].kind);
}

proof fn lemma_functions_below(l: Language, t: SyntaxTree, i: int, from: int, k: int, x: (int, bool))
    requires
        0 <= from <= k < kids(t, i, Pick::Named).len(),
        functions_in(l.grammar(), t, kids(t, i, Pick::Named)[k]).contains(x),
    ensures
        functions_below(l.grammar(), t, i, from).contains(x),
    decreases k - from,
{
    let g = l.grammar();
    let here = functions_in(g, t, kids(t, i, Pick::Named)[from]);
    let rest = functions_below(g, t, i, from + 1);
    if from == k {
        let j = choose|j: int| 0 <= j < here.len() && here[j] == x;
        assert((here + rest)[j] == x);
    } else {
        lemma_functions_below(l, t, i, from + 1, k, x);
        let j = choose|j: int| 0 <= j < rest.len() && rest[j] == x;
        assert((here + rest)[here.len() + j] == x);
    }
}

/// The functions in every part of a node are found, also inside functions.
pub proof fn the_functions_of_the_parts_are_found(
    l: Language,
    t: SyntaxTree,
    i: int,
    k: int,
    x: (int, bool),
)
    requires
        0 <= k < kids(t, i, Pick::Named).len(),
        functions_in(l.grammar(), t, kids(t, i, Pick::Named)[k]).contains(x),
    ensures
        functions_in(l.grammar(), t, i).contains(x),
{
    let g = l.grammar();
    lemma_functions_below(l, t, i, 0, k, x);
    let inner = functions_below(g, t, i, 0);
    let all = functions_in(g, t, i);
    let j = choose|j: int| 0 <= j < inner.len() && inner[j] == x;
    assert(all[all.len() - inner.len() + j] == x);
}

proof fn lemma_only_below(l: Language, t: SyntaxTree, i: int, k: int, x: (int, bool))
    requires
        0 <= k,
        functions_below(l.grammar(), t, i, k).contains(x),
    ensures
        is_function(l, t[x.0].kind),
        x.1 == is_closure(l, t[x.0].kind),
    decreases size(t, i), 0int, kids(t, i, Pick::Named).len() - k,
{
    broadcast use lemma_kid;

    let g = l.grammar();
    let all = functions_below(g, t, i, k);
    let j = choose|j: int| 0 <= j < all.len() && all[j] == x;
    let here = functions_in(g, t, kids(t, i, Pick::Named)[k]);
    let rest = functions_below(g, t, i, k + 1);
    if j < here.len() {
        assert(here[j] == x);
        only_functions_are_found(l, t, kids(t, i, Pick::Named)[k], x);
    } else {
        assert(rest[j - here.len()] == x);
        lemma_only_below(l, t, i, k + 1, x);
    }
}

/// Nothing but functions and closures is found, each told which it is.
pub proof fn only_functions_are_found(l: Language, t: SyntaxTree, i: int, x: (int, bool))
    requires
        functions_in(l.grammar(), t, i).contains(x),
    ensures
        is_function(l, t[x.0].kind),
        x.1 == is_closure(l, t[x.0].kind),
    decreases size(t, i), 1int, 0int,
{
    lemma_closures(l, t[i].kind);
    lemma_kinds(l, t[i].kind);
    let g = l.grammar();
    let all = functions_in(g, t, i);
    let j = choose|j: int| 0 <= j < all.len() && all[j] == x;
    let inner = functions_below(g, t, i, 0);
    let own = all.len() - inner.len();
    if j >= own {
        assert(inner[j - own] == x);
        lemma_only_below(l, t, i, 0, x);
    }
}

/// Whether a function stands for the `k`-th one found.
pub open spec fn stands_for(
    f: FunctionView,
    t: SyntaxTree,
    file: Seq<char>,
    found: (int, bool),
) -> bool {
    &&& f.id.file == file
    &&& f.id.decl_line == Some(line_at(t, found.0))
    &&& f.entry == 0
}

proof fn lemma_each(
    e: Env,
    file: Seq<char>,
    list: Seq<(int, bool)>,
    k: int,
    nm: Naming,
    fns: Seq<FunctionView>,
    diags: Seq<DiagnosticView>,
)
    requires
        0 <= k <= list.len(),
        fns.len() == k + 1,
        forall|j: int| 0 <= j < k ==> stands_for(#[trigger] fns[j + 1], e.t, file, list[j]),
    ensures
        ({
            let r = functions_lowered(e, file, list, k, nm, fns, diags).0;
            &&& r.len() == list.len() + 1
            &&& r[0] == fns[0]
            &&& forall|j: int|
                0 <= j < list.len() ==> stands_for(#[trigger] r[j + 1], e.t, file, list[j])
        }),
    decreases list.len() - k,
{
    if k < list.len() {
        let (i, closure) = list[k];
        let name = full_name(e, nm, i, closure);
        let (f, d) = function_lowered(Env { name, ..e }, file, i, closure);
        let next = fns.push(f);
        assert forall|j: int| 0 <= j < k + 1 implies stands_for(
            #[trigger] next[j + 1],
            e.t,
            file,
            list[j],
        ) by {
            if j < k {
                assert(next[j + 1] == fns[j + 1]);
            }
        }
        lemma_each(e, file, list, k + 1, named(e, nm, i, closure), next, diags + d);
    }
}

/// A source comes to its top-level code, and behind it to one function for each
/// function and closure in it, in order.
pub proof fn a_source_comes_to_its_functions(
    l: Language,
    t: SyntaxTree,
    src: Seq<char>,
    file: Seq<char>,
)
    requires
        t.len() > 0,
    ensures
        ({
            let r = module_lowered(l.grammar(), t, src, file).0;
            let found = functions_in(l.grammar(), t, 0);
            &&& r.len() == found.len() + 1
            &&& r[0].id.name == "<module>"@
            &&& forall|k: int|
                0 <= k < found.len() ==> stands_for(#[trigger] r[k + 1], t, file, found[k])
        }),
{
    let g = l.grammar();
    let e = Env { g, t, src, name: "<module>"@ };
    let w = top_lowered(e);
    let module = FunctionView {
        id: function_id(file, "<module>"@, 1),
        nodes: w.nodes,
        entry: 0,
    };
    lemma_each(
        e,
        file,
        functions_in(g, t, 0),
        0,
        nothing_named(),
        seq![module],
        w.diagnostics,
    );
}

/// A class owns what stands in it, at any depth up to the next class.
pub proof fn a_class_owns_what_is_in_it(
    l: Language,
    e: Env,
    i: int,
    p: int,
    n: int,
    owner: Seq<char>,
)
    requires
        e.g == l.grammar(),
        parent(e.t, i) == Some(p),
        0 <= p < i,
    ensures
        is_class(l, e.t[p].kind) && child_by_field(e.t, p, "name"@) == Some(n) && text_at(
            e.t,
            e.src,
            n,
        ) == Some(owner) ==> owner_prefix(e, i) == Some(owner),
        !is_class(l, e.t[p].kind) ==> owner_prefix(e, i) == owner_prefix(e, p),
{
    lemma_closures(l, e.t[p].kind);
}

/// A function is named by its name, behind that of the class around it where
/// there is one.
pub proof fn a_function_is_named(l: Language, e: Env, nm: Naming, i: int, n: int, name: Seq<char>)
    requires
        e.g == l.grammar(),
        !(l is Go),
        child_by_field(e.t, i, "name"@) == Some(n),
        text_at(e.t, e.src, n) == Some(name),
    ensures
        owner_prefix(e, i) is None ==> full_name(e, nm, i, false) == name,
        owner_prefix(e, i) matches Some(owner) ==> full_name(e, nm, i, false) == owner + "::"@
            + name,
{
    reveal_strlit("");
}

proof fn lemma_no_owner(e: Env, i: int)
    requires
        e.g == Language::Go.grammar(),
    ensures
        owner_prefix(e, i) is None,
    decreases i,
{
    if let Some(p) = parent(e.t, i) {
        if 0 <= p < i {
            lemma_closures(Language::Go, e.t[p].kind);
            lemma_no_owner(e, p);
        }
    }
}

/// A Go function is named by its name, and a method behind the type of its
/// receiver, whether or not that is taken by a pointer.
pub proof fn a_go_method_is_named_after_its_receiver(
    e: Env,
    nm: Naming,
    i: int,
    n: int,
    name: Seq<char>,
    list: int,
    param: int,
    ty: int,
    inner: int,
    owner: Seq<char>,
)
    requires
        e.g == Language::Go.grammar(),
        child_by_field(e.t, i, "name"@) == Some(n),
        text_at(e.t, e.src, n) == Some(name),
    ensures
        child_by_field(e.t, i, "receiver"@) is None ==> full_name(e, nm, i, false) == name,
        child_by_field(e.t, i, "receiver"@) == Some(list) && first(kids(e.t, list, Pick::Named))
            == Some(param) && child_by_field(e.t, param, "type"@) == Some(ty) && (if e.t[ty].kind
            == "pointer_type"@ {
            first(kids(e.t, ty, Pick::Named)) == Some(inner)
        } else {
            inner == ty
        }) && text_at(e.t, e.src, inner) == Some(owner) ==> full_name(e, nm, i, false) == owner
            + "::"@ + name,
{
    lemma_texts();
    lemma_no_owner(e, i);
}

/// The closures of one function are numbered on, and those of others are not.
pub proof fn a_closure_takes_the_next_number(e: Env, nm: Naming, i: int, scope: Option<int>)
    ensures
        closures_in(named(e, nm, i, true).closures, scope) == closures_in(nm.closures, scope)
            + if scope == enclosing_fn(e.g, e.t, i) {
            1nat
        } else {
            0nat
        },
{
    let all = named(e, nm, i, true).closures;
    assert(all.drop_last() =~= nm.closures);
}

/// Whether a node is the body of a function or a closure.
pub open spec fn is_body(l: Language, t: SyntaxTree, i: int, closure: bool, body: int) -> bool {
    if l is Kotlin {
        !closure && child_of_kind(t, i, "function_body"@) == Some(body)
    } else {
        !(l is Go && closure) && child_by_field(t, i, "body"@) == Some(body)
    }
}

/// A function starts with a node on its line that defines its parameters. A body
/// that is a block runs in order behind it; one that is an expression is
/// returned.
pub proof fn a_function_runs_its_body(
    l: Language,
    e: Env,
    file: Seq<char>,
    i: int,
    closure: bool,
    raw: int,
    body: int,
) -> (r: (Seq<usize>, usize))
    requires
        e.g == l.grammar(),
        !e.t[i].has_error,
        is_body(l, e.t, i, closure, raw),
        unwrapped(e.g, e.t, raw) == body,
        function_lowered(e, file, i, closure).0.nodes.len() <= usize::MAX,
    ensures
        ({
            let f = function_lowered(e, file, i, closure).0;
            &&& f.entry == 0
            &&& f.nodes.len() > 0
            &&& f.nodes[0].kind is Pure
            &&& f.nodes[0].line == Some(line_at(e.t, i))
            &&& f.id.file == file
            &&& f.id.name == e.name
            &&& f.id.decl_line == Some(line_at(e.t, i))
            &&& e.t[body].kind == "block"@ ==> list_runs(
                e,
                1,
                f.nodes,
                body,
                Pick::Named,
                seq![0usize],
                r.0,
            )
            &&& e.t[body].kind != "block"@ && e.t[body].kind != "statement_list"@ ==> came_to(
                e,
                1,
                f.nodes,
                body,
                Some(body),
                KindView::Return,
                seq![0usize],
                r.1,
            )
        }),
{
    lemma_sorts(l);
    lemma_no_field(e, i);
    lemma_texts();
    let params = params_of(e, i, closure);
    let line = line_at(e.t, i);
    let w = params_lowered(e, fresh(), params, line);
    let one = seq![0usize];
    lemma_params(e, params, line);
    lemma_first(e, params, line);
    assert(function_lowered(e, file, i, closure).0.nodes == body_lowered(e, i, closure).nodes);
    if e.g.block_kinds.contains(e.t[body].kind) {
        let (w1, to) = seq_lowered(e, w, body, Pick::Named, 0, one);
        assert(body_lowered(e, i, closure) == w1);
        lemma_seq_lowered(e, w, body, Pick::Named, 0, one);
        lemma_goes(w, one, w1, to);
        assert(same_node(w.nodes[0], w1.nodes[0]));
        assert(stands(w1.nodes, w1.nodes));
        let fronts = lemma_in_order(e, w, w1.nodes, body, Pick::Named, 0, 1, one);
        assert(in_order(e, 1, w1.nodes, body, Pick::Named, 0, fronts, one, to));
        if l is Go {
            assert(e.t[body].kind == e.g.block_kinds[0] || e.t[body].kind == e.g.block_kinds[1]);
        } else {
            lemma_one(e.g.block_kinds, "block"@, e.t[body].kind);
        }
        (to, 0)
    } else {
        let (w1, entry, exit) = unit(e, w, body, KindView::Return, Seq::empty());
        let w2 = edge(w1, 0, entry);
        assert(link_from(w2, one, 1, entry) == w2);
        assert(link(w1, one, entry) == w2);
        assert(unit_after(e, w, body, KindView::Return, one) == (w2, exit));
        assert(body_lowered(e, i, closure) == w2);
        lemma_unit_came(e, w, body, KindView::Return, one);
        assert(same_node(w.nodes[0], w2.nodes[0]));
        (one, exit)
    }
}

/// The statements of a Kotlin lambda, which stand beside its parameters, run in
/// order behind a node on its line that defines those.
pub proof fn a_lambda_runs_its_statements(
    e: Env,
    file: Seq<char>,
    i: int,
    params: Option<int>,
) -> (to: Seq<usize>)
    requires
        e.g == Language::Kotlin.grammar(),
        !e.t[i].has_error,
        child_of_kind(e.t, i, "lambda_parameters"@) == params,
        function_lowered(e, file, i, true).0.nodes.len() <= usize::MAX,
    ensures
        ({
            let f = function_lowered(e, file, i, true).0;
            let beside = match params {
                Some(p) => seq![p as usize],
                None => Seq::<usize>::empty(),
            };
            &&& f.entry == 0
            &&& f.nodes.len() > 0
            &&& f.nodes[0].kind is Pure
            &&& f.nodes[0].line == Some(line_at(e.t, i))
            &&& list_runs(e, 1, f.nodes, i, Pick::Except(beside), seq![0usize], to)
        }),
{
    lemma_no_field(e, i);
    let line = line_at(e.t, i);
    assert(params_of(e, i, true) == params);
    let w = params_lowered(e, fresh(), params, line);
    let one = seq![0usize];
    let pick = Pick::Except(one_node(params));
    lemma_params(e, params, line);
    lemma_first(e, params, line);
    let (w1, to) = seq_lowered(e, w, i, pick, 0, one);
    assert(body_lowered(e, i, true) == w1);
    lemma_seq_lowered(e, w, i, pick, 0, one);
    lemma_goes(w, one, w1, to);
    assert(same_node(w.nodes[0], w1.nodes[0]));
    assert(stands(w1.nodes, w1.nodes));
    let fronts = lemma_in_order(e, w, w1.nodes, i, pick, 0, 1, one);
    assert(in_order(e, 1, w1.nodes, i, pick, 0, fronts, one, to));
    to
}

proof fn lemma_first(e: Env, params: Option<int>, line: u32)
    ensures
        ({
            let w = params_lowered(e, fresh(), params, line);
            w.nodes.len() == 1 && w.nodes[0].kind is Pure && w.nodes[0].line == Some(line)
        }),
{
    if let Some(p) = params {
        lemma_defs_scanned_quiet(e, fresh(), p, true, Seq::empty());
    }
}

/// A function in which the parser found an error is one node that does nothing,
/// and is reported by name.
pub proof fn a_broken_function_is_a_stub(e: Env, file: Seq<char>, i: int, closure: bool)
    requires
        e.t[i].has_error,
    ensures
        ({
            let (f, d) = function_lowered(e, file, i, closure);
            &&& f.nodes.len() == 1
            &&& f.nodes[0].kind is Pure
            &&& f.nodes[0].succs.len() == 0
            &&& f.id.name == e.name
            &&& d.len() == 1
            &&& d[0].function == e.name
        }),
{
}

proof fn lemma_clean_below(t: SyntaxTree, i: int, k: int)
    requires
        0 <= k,
        forall|j: int| 0 <= j < t.len() ==> !(#[trigger] t[j]).error && !t[j].missing,
    ensures
        error_counts_below(t, i, k).1 == 0,
    decreases size(t, i), 0int, kids(t, i, Pick::Named).len() - k,
{
    broadcast use lemma_kid;

    if k < kids(t, i, Pick::Named).len() {
        lemma_clean(t, kids(t, i, Pick::Named)[k]);
        lemma_clean_below(t, i, k + 1);
    }
}

proof fn lemma_clean(t: SyntaxTree, i: int)
    requires
        0 <= i < t.len(),
        forall|j: int| 0 <= j < t.len() ==> !(#[trigger] t[j]).error && !t[j].missing,
    ensures
        error_counts(t, i).1 == 0,
    decreases size(t, i), 1int, 0int,
{
    assert(!t[i].error && !t[i].missing);
    lemma_clean_below(t, i, 0);
}

/// A tree without errors is lowered.
pub proof fn a_clean_tree_is_lowered(
    l: Language,
    t: SyntaxTree,
    source: Seq<char>,
    file: Seq<char>,
)
    requires
        forall|j: int| 0 <= j < t.len() ==> !(#[trigger] t[j]).error && !t[j].missing,
    ensures
        tree_lowered(l, t, source, file) is Ok,
{
    if t.len() > 0 {
        lemma_clean(t, 0);
    }
}

proof fn lemma_broken_below(t: SyntaxTree, i: int, k: int)
    requires
        0 <= k,
        forall|j: int| 0 <= j < t.len() ==> (#[trigger] t[j]).error || t[j].missing,
    ensures
        error_counts_below(t, i, k).1 == error_counts_below(t, i, k).0,
    decreases size(t, i), 0int, kids(t, i, Pick::Named).len() - k,
{
    broadcast use lemma_kid;

    if k < kids(t, i, Pick::Named).len() {
        lemma_broken(t, kids(t, i, Pick::Named)[k]);
        lemma_broken_below(t, i, k + 1);
    }
}

proof fn lemma_broken(t: SyntaxTree, i: int)
    requires
        0 <= i < t.len(),
        forall|j: int| 0 <= j < t.len() ==> (#[trigger] t[j]).error || t[j].missing,
    ensures
        error_counts(t, i).1 == error_counts(t, i).0,
        error_counts(t, i).0 > 0,
    decreases size(t, i), 1int, 0int,
{
    assert(t[i].error || t[i].missing);
    lemma_broken_below(t, i, 0);
}

/// A tree of nothing but errors is refused, and the refusal tells how many of how
/// many nodes are broken. Up to a quarter of them may be.
pub proof fn a_broken_tree_is_refused(
    l: Language,
    t: SyntaxTree,
    source: Seq<char>,
    file: Seq<char>,
)
    requires
        t.len() > 0,
    ensures
        (forall|j: int| 0 <= j < t.len() ==> (#[trigger] t[j]).error || t[j].missing)
            ==> tree_lowered(l, t, source, file) is Err,
        4 * broken(t).0 <= broken(t).1 <==> tree_lowered(l, t, source, file) is Ok,
        error_counts(t, 0).0 <= u32::MAX && error_counts(t, 0).1 <= u32::MAX ==> broken(t) == (
            error_counts(t, 0).1,
            error_counts(t, 0).0,
        ),
{
    if forall|j: int| 0 <= j < t.len() ==> (#[trigger] t[j]).error || t[j].missing {
        lemma_broken(t, 0);
    }
}

/// A file is read in the language that its extension names, and no other.
pub proof fn a_language_is_known_by_its_extension(l: Language, ext: Seq<char>)
    ensures
        Language::of_extension(ext) == Some(l) <==> match l {
            Language::Rust => ext == "rs"@,
            Language::Python => ext == "py"@,
            Language::Java => ext == "java"@,
            Language::Kotlin => ext == "kt"@ || ext == "kts"@,
            Language::Go => ext == "go"@,
        },
{
    reveal_strlit("rs");
    reveal_strlit("py");
    reveal_strlit("java");
    reveal_strlit("kt");
    reveal_strlit("kts");
    reveal_strlit("go");
    assert("rs"@[0] == 'r' && "py"@[0] == 'p' && "kt"@[0] == 'k' && "go"@[0] == 'g');
    assert("java"@.len() == 4 && "kts"@.len() == 3);
    assert("rs"@.len() == 2 && "py"@.len() == 2 && "kt"@.len() == 2 && "go"@.len() == 2);
}

} // verus!
