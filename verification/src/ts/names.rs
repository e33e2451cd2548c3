//! Which calls are made, what they name, and which names are read, in each
//! language.

use vstd::prelude::*;

use crate::text::joined_with;
use crate::ts::constructs::lemma_no_field;
use crate::ts::model::{
    call_callee, callee_chain, callee_text, calls_below, calls_in, function_like,
    identifiers_below, identifiers_in, member_parts, Env,
};
use crate::ts::tree::{child_by_field, first, kids, lemma_kid, size, text_at, Pick};
use crate::ts::Language;

verus! {

/// Whether a kind is that of a function or a closure of a language.
pub open spec fn is_function(l: Language, kind: Seq<char>) -> bool {
    match l {
        Language::Rust => kind == "function_item"@ || kind == "closure_expression"@,
        Language::Python => kind == "function_definition"@ || kind == "lambda"@,
        Language::Java => kind == "method_declaration"@ || kind == "lambda_expression"@,
        Language::Kotlin => kind == "function_declaration"@ || kind == "lambda_literal"@,
        Language::Go => kind == "function_declaration"@ || kind == "method_declaration"@,
    }
}

/// Whether a kind is that of a call of a language.
pub open spec fn is_call(l: Language, kind: Seq<char>) -> bool {
    match l {
        Language::Rust | Language::Kotlin | Language::Go => kind == "call_expression"@,
        Language::Python => kind == "call"@,
        Language::Java => kind == "method_invocation"@,
    }
}

/// Whether a kind is that of a member access of a language.
pub open spec fn is_member(l: Language, kind: Seq<char>) -> bool {
    match l {
        Language::Rust => kind == "field_expression"@,
        Language::Python => kind == "attribute"@,
        Language::Java => kind == "field_access"@,
        Language::Kotlin => kind == "navigation_expression"@,
        Language::Go => kind == "selector_expression"@,
    }
}

/// Whether a node is the access to the member `p` of `o`.
pub open spec fn member_of(l: Language, e: Env, i: int, o: int, p: int) -> bool {
    &&& is_member(l, e.t[i].kind)
    &&& kids(e.t, i, Pick::Named) == seq![o, p]
    &&& o != p
    &&& match l {
        Language::Rust => child_by_field(e.t, i, "value"@) == Some(o) && child_by_field(
            e.t,
            i,
            "field"@,
        ) == Some(p),
        Language::Python => child_by_field(e.t, i, "object"@) == Some(o) && child_by_field(
            e.t,
            i,
            "attribute"@,
        ) == Some(p),
        Language::Java => child_by_field(e.t, i, "object"@) == Some(o) && child_by_field(
            e.t,
            i,
            "field"@,
        ) == Some(p),
        Language::Kotlin => true,
        Language::Go => child_by_field(e.t, i, "operand"@) == Some(o) && child_by_field(
            e.t,
            i,
            "field"@,
        ) == Some(p),
    }
}

/// What tells the kinds of names, members, calls and functions apart.
proof fn lemma_texts()
    ensures
        ""@.len() == 0,
        "function"@.len() == 8,
        "object"@.len() == 6,
        "name"@.len() == 4,
        "identifier"@.len() == 10 && "identifier"@[0] == 'i',
        "function_item"@.len() == 13,
        "closure_expression"@.len() == 18,
        "function_definition"@.len() == 19,
        "lambda"@.len() == 6,
        "method_declaration"@.len() == 18,
        "lambda_expression"@.len() == 17 && "lambda_expression"@[0] == 'l',
        "function_declaration"@.len() == 20,
        "lambda_literal"@.len() == 14,
        "call_expression"@.len() == 15,
        "call"@.len() == 4,
        "method_invocation"@.len() == 17 && "method_invocation"@[0] == 'm',
        "field_expression"@.len() == 16,
        "attribute"@.len() == 9,
        "field_access"@.len() == 12,
        "navigation_expression"@.len() == 21,
        "selector_expression"@.len() == 19 && "selector_expression"@[0] == 's',
{
    reveal_strlit("");
    reveal_strlit("function");
    reveal_strlit("object");
    reveal_strlit("name");
    reveal_strlit("identifier");
    reveal_strlit("function_item");
    reveal_strlit("closure_expression");
    reveal_strlit("function_definition");
    reveal_strlit("lambda");
    reveal_strlit("method_declaration");
    reveal_strlit("lambda_expression");
    reveal_strlit("function_declaration");
    reveal_strlit("lambda_literal");
    reveal_strlit("call_expression");
    reveal_strlit("call");
    reveal_strlit("method_invocation");
    reveal_strlit("field_expression");
    reveal_strlit("attribute");
    reveal_strlit("field_access");
    reveal_strlit("navigation_expression");
    reveal_strlit("selector_expression");
}

pub proof fn lemma_one(list: Seq<Seq<char>>, a: Seq<char>, kind: Seq<char>)
    requires
        list == seq![a],
    ensures
        list.contains(kind) == (kind == a),
{
    assert(list[0] == a);
}

/// How the vocabulary of a language tells its kinds.
pub proof fn lemma_kinds(l: Language, kind: Seq<char>)
    ensures
        l.grammar().identifier_kinds.contains(kind) == (kind == "identifier"@),
        l.grammar().call_kinds.contains(kind) == is_call(l, kind),
        l.grammar().member_access_kinds.contains(kind) == is_member(l, kind),
        function_like(l.grammar(), kind) == is_function(l, kind),
{
    let g = l.grammar();
    lemma_one(g.identifier_kinds, "identifier"@, kind);
    match l {
        Language::Rust => {
            lemma_one(g.call_kinds, "call_expression"@, kind);
            lemma_one(g.member_access_kinds, "field_expression"@, kind);
            lemma_one(g.function_kinds, "function_item"@, kind);
            lemma_one(g.closure_kinds, "closure_expression"@, kind);
        },
        Language::Python => {
            lemma_one(g.call_kinds, "call"@, kind);
            lemma_one(g.member_access_kinds, "attribute"@, kind);
            lemma_one(g.function_kinds, "function_definition"@, kind);
            lemma_one(g.closure_kinds, "lambda"@, kind);
        },
        Language::Java => {
            lemma_one(g.call_kinds, "method_invocation"@, kind);
            lemma_one(g.member_access_kinds, "field_access"@, kind);
            lemma_one(g.function_kinds, "method_declaration"@, kind);
            lemma_one(g.closure_kinds, "lambda_expression"@, kind);
        },
        Language::Kotlin => {
            lemma_one(g.call_kinds, "call_expression"@, kind);
            lemma_one(g.member_access_kinds, "navigation_expression"@, kind);
            lemma_one(g.function_kinds, "function_declaration"@, kind);
            lemma_one(g.closure_kinds, "lambda_literal"@, kind);
        },
        Language::Go => {
            lemma_one(g.call_kinds, "call_expression"@, kind);
            lemma_one(g.member_access_kinds, "selector_expression"@, kind);
            assert(g.function_kinds[0] == "function_declaration"@);
            assert(g.function_kinds[1] == "method_declaration"@);
        },
    }
}

/// A call is among the calls at it, behind those in it.
pub proof fn a_call_comes_behind_those_in_it(l: Language, e: Env, i: int)
    requires
        e.g == l.grammar(),
        is_call(l, e.t[i].kind),
    ensures
        calls_in(e, i).len() > 0,
        calls_in(e, i).last() == i,
{
    lemma_texts();
    lemma_kinds(l, e.t[i].kind);
}

proof fn lemma_calls_below(e: Env, i: int, from: int, k: int, c: int)
    requires
        0 <= from <= k < kids(e.t, i, Pick::Named).len(),
        calls_in(e, kids(e.t, i, Pick::Named)[k]).contains(c),
    ensures
        calls_below(e, i, from).contains(c),
    decreases k - from,
{
    let here = calls_in(e, kids(e.t, i, Pick::Named)[from]);
    let rest = calls_below(e, i, from + 1);
    if from == k {
        let x = choose|x: int| 0 <= x < here.len() && here[x] == c;
        assert((here + rest)[x] == c);
    } else {
        lemma_calls_below(e, i, from + 1, k, c);
        let x = choose|x: int| 0 <= x < rest.len() && rest[x] == c;
        assert((here + rest)[here.len() + x] == c);
    }
}

/// The calls of every part of a node are made, unless the node is a function.
pub proof fn the_calls_of_the_parts_are_made(l: Language, e: Env, i: int, k: int, c: int)
    requires
        e.g == l.grammar(),
        !is_function(l, e.t[i].kind),
        0 <= k < kids(e.t, i, Pick::Named).len(),
        calls_in(e, kids(e.t, i, Pick::Named)[k]).contains(c),
    ensures
        calls_in(e, i).contains(c),
{
    lemma_kinds(l, e.t[i].kind);
    lemma_calls_below(e, i, 0, k, c);
    let inner = calls_below(e, i, 0);
    let x = choose|x: int| 0 <= x < inner.len() && inner[x] == c;
    assert(inner.push(i)[x] == c);
}

/// A function that stands among other code makes no call there, and reads no
/// name.
pub proof fn a_nested_function_does_nothing(l: Language, e: Env, i: int)
    requires
        e.g == l.grammar(),
        is_function(l, e.t[i].kind),
    ensures
        calls_in(e, i) == Seq::<int>::empty(),
        identifiers_in(e, i, None) == Seq::<Seq<char>>::empty(),
{
    lemma_texts();
    lemma_kinds(l, e.t[i].kind);
}

proof fn lemma_only_calls_below(l: Language, e: Env, i: int, k: int, c: int)
    requires
        e.g == l.grammar(),
        0 <= k,
        calls_below(e, i, k).contains(c),
    ensures
        is_call(l, e.t[c].kind),
    decreases size(e.t, i), 0int, kids(e.t, i, Pick::Named).len() - k,
{
    broadcast use lemma_kid;

    let all = calls_below(e, i, k);
    let x = choose|x: int| 0 <= x < all.len() && all[x] == c;
    let here = calls_in(e, kids(e.t, i, Pick::Named)[k]);
    let rest = calls_below(e, i, k + 1);
    if x < here.len() {
        assert(here[x] == c);
        only_calls_are_made(l, e, kids(e.t, i, Pick::Named)[k], c);
    } else {
        assert(rest[x - here.len()] == c);
        lemma_only_calls_below(l, e, i, k + 1, c);
    }
}

/// Nothing but a call is made as a call.
pub proof fn only_calls_are_made(l: Language, e: Env, i: int, c: int)
    requires
        e.g == l.grammar(),
        calls_in(e, i).contains(c),
    ensures
        is_call(l, e.t[c].kind),
    decreases size(e.t, i), 1int, 0int,
{
    lemma_kinds(l, e.t[i].kind);
    let all = calls_in(e, i);
    let x = choose|x: int| 0 <= x < all.len() && all[x] == c;
    let inner = calls_below(e, i, 0);
    if x < inner.len() {
        assert(inner[x] == c);
        lemma_only_calls_below(l, e, i, 0, c);
    }
}

/// A name reads itself, and a call of it names it.
pub proof fn a_name_reads_itself(l: Language, e: Env, i: int, name: Seq<char>)
    requires
        e.g == l.grammar(),
        e.t[i].kind == "identifier"@,
        text_at(e.t, e.src, i) == Some(name),
    ensures
        identifiers_in(e, i, None) == seq![name],
        callee_text(e, i) == name,
{
    lemma_kinds(l, e.t[i].kind);
    assert(callee_chain(e, i).0 == seq![name]);
}

proof fn lemma_names_below(
    e: Env,
    i: int,
    property: Option<int>,
    from: int,
    k: int,
    name: Seq<char>,
)
    requires
        0 <= from <= k < kids(e.t, i, Pick::Named).len(),
        property != Some(kids(e.t, i, Pick::Named)[k]),
        identifiers_in(e, kids(e.t, i, Pick::Named)[k], None).contains(name),
    ensures
        identifiers_below(e, i, None, property, from).contains(name),
    decreases k - from,
{
    let c = kids(e.t, i, Pick::Named)[from];
    let here = if property == Some(c) {
        Seq::empty()
    } else {
        identifiers_in(e, c, None)
    };
    let rest = identifiers_below(e, i, None, property, from + 1);
    assert(identifiers_below(e, i, None, property, from) == here + rest);
    if from == k {
        let x = choose|x: int| 0 <= x < here.len() && here[x] == name;
        assert((here + rest)[x] == name);
    } else {
        lemma_names_below(e, i, property, from + 1, k, name);
        let x = choose|x: int| 0 <= x < rest.len() && rest[x] == name;
        assert((here + rest)[here.len() + x] == name);
    }
}

/// Every name that a part of a node reads is read by the node, where it is no
/// function and no member access.
pub proof fn the_names_of_the_parts_are_read(l: Language, e: Env, i: int, k: int, name: Seq<char>)
    requires
        e.g == l.grammar(),
        e.t[i].kind != "identifier"@,
        !is_function(l, e.t[i].kind),
        !is_member(l, e.t[i].kind),
        0 <= k < kids(e.t, i, Pick::Named).len(),
        identifiers_in(e, kids(e.t, i, Pick::Named)[k], None).contains(name),
    ensures
        identifiers_in(e, i, None).contains(name),
{
    lemma_kinds(l, e.t[i].kind);
    lemma_names_below(e, i, None, 0, k, name);
}

proof fn lemma_member_parts(l: Language, e: Env, i: int, o: int, p: int)
    requires
        e.g == l.grammar(),
        member_of(l, e, i, o, p),
    ensures
        member_parts(e, i) == (Some(o), Some(p)),
        e.g.member_access_kinds.contains(e.t[i].kind),
        !e.g.identifier_kinds.contains(e.t[i].kind),
        !function_like(e.g, e.t[i].kind),
{
    lemma_texts();
    lemma_kinds(l, e.t[i].kind);
    lemma_no_field(e, i);
}

/// Access to a member reads what its object reads. The member's name is none
/// that is read.
pub proof fn a_member_reads_its_object(l: Language, e: Env, i: int, o: int, p: int)
    requires
        e.g == l.grammar(),
        member_of(l, e, i, o, p),
    ensures
        identifiers_in(e, i, None) == identifiers_in(e, o, None),
{
    lemma_member_parts(l, e, i, o, p);
    let all = kids(e.t, i, Pick::Named);
    assert(all[0] == o && all[1] == p && all.len() == 2);
    assert(identifiers_below(e, i, None, Some(p), 2) == Seq::<Seq<char>>::empty());
    assert(identifiers_below(e, i, None, Some(p), 1) =~= Seq::<Seq<char>>::empty());
    assert(identifiers_below(e, i, None, Some(p), 0) =~= identifiers_in(e, o, None));
}

/// Whether a node is a name with `n` members behind it.
pub open spec fn is_path(l: Language, e: Env, i: int, n: nat) -> bool
    decreases n,
{
    if n == 0 {
        e.t[i].kind == "identifier"@
    } else {
        exists|o: int, p: int| #[trigger] member_of(l, e, i, o, p) && is_path(
            l,
            e,
            o,
            (n - 1) as nat,
        )
    }
}

proof fn lemma_path(l: Language, e: Env, i: int, n: nat)
    requires
        e.g == l.grammar(),
        is_path(l, e, i, n),
    ensures
        callee_chain(e, i).1,
        callee_chain(e, i).0.len() > 0,
    decreases n,
{
    lemma_kinds(l, e.t[i].kind);
    if n > 0 {
        let (o, p) = choose|o: int, p: int| #[trigger]
            member_of(l, e, i, o, p) && is_path(l, e, o, (n - 1) as nat);
        lemma_member_parts(l, e, i, o, p);
        lemma_path(l, e, o, (n - 1) as nat);
    }
}

/// A member of a name, or of a member of one, is called by what its object is
/// called by, a dot and the member's name.
pub proof fn a_member_is_called_through_its_object(
    l: Language,
    e: Env,
    i: int,
    o: int,
    p: int,
    n: nat,
    name: Seq<char>,
)
    requires
        e.g == l.grammar(),
        member_of(l, e, i, o, p),
        is_path(l, e, o, n),
        text_at(e.t, e.src, p) == Some(name),
    ensures
        callee_text(e, i) == callee_text(e, o) + "."@ + name,
{
    lemma_member_parts(l, e, i, o, p);
    lemma_path(l, e, o, n);
    let parts = callee_chain(e, o).0;
    assert(callee_chain(e, i).0 == parts.push(name));
    assert(parts.push(name).drop_last() =~= parts);
    assert(joined_with(parts.push(name), "."@) == joined_with(parts, "."@) + "."@ + name);
}

/// A call names what its language's grammar holds as the callee: the function in
/// its field, or the first part, and in Java the object, a dot and the method.
pub proof fn a_call_names_its_callee(l: Language, e: Env, i: int, c: int, name: Seq<char>)
    requires
        e.g == l.grammar(),
    ensures
        (l is Rust || l is Python || l is Go) && child_by_field(e.t, i, "function"@) == Some(c)
            ==> call_callee(e, i) == callee_text(e, c),
        l is Kotlin && first(kids(e.t, i, Pick::Named)) == Some(c) ==> call_callee(e, i)
            == callee_text(e, c),
        l is Java && child_by_field(e.t, i, "name"@) == Some(c) && text_at(e.t, e.src, c) == Some(
            name,
        ) ==> match child_by_field(e.t, i, "object"@) {
            Some(o) => call_callee(e, i) == callee_text(e, o) + "."@ + name,
            None => call_callee(e, i) == name,
        },
{
    lemma_texts();
}

} // verus!
