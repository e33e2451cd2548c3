//! Everything span-addressable, collected in one pass over the nodes, so that
//! statement lowering never has to walk expression trees: references, calls,
//! functions and bindings.

use vstd::prelude::*;
use vstd::string::StringExecFns;

use crate::js::source::{spans_fit, within, JsSource, Source, Span};
use crate::text::{
    byte_slice, bytes_of, decimal, decimal_text, find_char, join, joined_with, lemma_find_char,
    newlines, same, slice, string_from_chars, texts, trim, trimmed,
};
use crate::ts::tree::{lemma_below, lemma_kid, parent, size};

verus! {

/// Identity of a variable before per-function interning.
#[derive(Debug, Clone)]
pub enum SymbolKey {
    /// Resolved binding, by symbol index.
    Sym(u32),
    /// Unresolved: ambient, keyed by name.
    Global(String),
    /// Synthetic temporary carrying a call result.
    Temp(u32),
}

/// A variable's identity as plain values.
pub enum KeyView {
    Sym(u32),
    Global(Seq<char>),
    Temp(u32),
}

impl View for SymbolKey {
    type V = KeyView;

    open spec fn view(&self) -> KeyView {
        match *self {
            SymbolKey::Sym(s) => KeyView::Sym(s),
            SymbolKey::Global(n) => KeyView::Global(n@),
            SymbolKey::Temp(t) => KeyView::Temp(t),
        }
    }
}

/// The views of a list of keys.
pub open spec fn key_views(v: Seq<SymbolKey>) -> Seq<KeyView> {
    v.map_values(|k: SymbolKey| k@)
}

impl SymbolKey {
    pub(crate) fn copy(&self) -> (r: SymbolKey)
        ensures
            r@ == self@,
    {
        match self {
            SymbolKey::Sym(s) => SymbolKey::Sym(*s),
            SymbolKey::Global(n) => SymbolKey::Global(n.clone()),
            SymbolKey::Temp(t) => SymbolKey::Temp(*t),
        }
    }

    pub(crate) fn equals(&self, other: &SymbolKey) -> (r: bool)
        ensures
            r == (self@ == other@),
    {
        match (self, other) {
            (SymbolKey::Sym(a), SymbolKey::Sym(b)) => *a == *b,
            (SymbolKey::Global(a), SymbolKey::Global(b)) => same(a.as_str(), b.as_str()),
            (SymbolKey::Temp(a), SymbolKey::Temp(b)) => *a == *b,
            _ => false,
        }
    }
}

/// One identifier reference.
pub struct RefFact {
    pub span: Span,
    pub key: SymbolKey,
    pub read: bool,
    pub write: bool,
}

/// A reference as plain values.
#[verifier::ext_equal]
pub struct RefView {
    pub span: Span,
    pub key: KeyView,
    pub read: bool,
    pub write: bool,
}

impl View for RefFact {
    type V = RefView;

    open spec fn view(&self) -> RefView {
        RefView { span: self.span, key: self.key@, read: self.read, write: self.write }
    }
}

/// One call or `new` expression.
pub struct CallFact {
    pub span: Span,
    pub callee: String,
}

/// A call as plain values.
#[verifier::ext_equal]
pub struct CallView {
    pub span: Span,
    pub callee: Seq<char>,
}

impl View for CallFact {
    type V = CallView;

    open spec fn view(&self) -> CallView {
        CallView { span: self.span, callee: self.callee@ }
    }
}

/// One function: its name, its line, its body and the symbols its parameters
/// bind.
pub struct FnFact {
    pub name: String,
    pub line: u32,
    /// The node of the body.
    pub body: usize,
    /// Whether the body is a block; else an expression that is returned.
    pub block: bool,
    pub params: Vec<u32>,
    /// The span of the body.
    pub body_span: Span,
    /// The span of the whole function, parameters included.
    pub full_span: Span,
}

/// A function as plain values.
#[verifier::ext_equal]
pub struct FnView {
    pub name: Seq<char>,
    pub line: u32,
    pub body: int,
    pub block: bool,
    pub params: Seq<u32>,
    pub body_span: Span,
    pub full_span: Span,
}

impl View for FnFact {
    type V = FnView;

    open spec fn view(&self) -> FnView {
        FnView {
            name: self.name@,
            line: self.line,
            body: self.body as int,
            block: self.block,
            params: self.params@,
            body_span: self.body_span,
            full_span: self.full_span,
        }
    }
}

/// Whether the first pair of offsets comes before the second.
pub open spec fn key_before(a: (u32, u32), b: (u32, u32)) -> bool {
    a.0 < b.0 || (a.0 == b.0 && a.1 < b.1)
}

/// `x` put behind the last position whose key does not come after its own.
pub open spec fn put(keys: Seq<(u32, u32)>, s: Seq<usize>, x: usize) -> Seq<usize>
    decreases s.len(),
{
    if s.len() == 0 || !key_before(keys[x as int], keys[s.last() as int]) {
        s.push(x)
    } else {
        put(keys, s.drop_last(), x).push(s.last())
    }
}

/// The positions of the first `k` keys in the order of the keys, equal keys
/// in the order they have.
pub open spec fn order_of(keys: Seq<(u32, u32)>, k: int) -> Seq<usize>
    decreases k,
{
    if k <= 0 || k > keys.len() {
        Seq::empty()
    } else {
        put(keys, order_of(keys, k - 1), (k - 1) as usize)
    }
}

proof fn lemma_put_at(keys: Seq<(u32, u32)>, s: Seq<usize>, x: usize, p: int)
    requires
        0 <= p <= s.len(),
        forall|k: int| p <= k < s.len() ==> key_before(keys[x as int], keys[#[trigger] s[k] as int]),
        p > 0 ==> !key_before(keys[x as int], keys[s[p - 1] as int]),
    ensures
        put(keys, s, x) == s.take(p).push(x) + s.skip(p),
    decreases s.len() - p,
{
    if p == s.len() {
        assert(s.take(p) =~= s);
        assert(s.take(p).push(x) + s.skip(p) =~= s.push(x));
    } else {
        let r = s.drop_last();
        assert(key_before(keys[x as int], keys[s[s.len() - 1] as int]));
        assert forall|k: int| p <= k < r.len() implies key_before(
            keys[x as int],
            keys[#[trigger] r[k] as int],
        ) by {
            assert(r[k] == s[k]);
        }
        lemma_put_at(keys, r, x, p);
        assert(r.take(p) =~= s.take(p));
        assert((r.take(p).push(x) + r.skip(p)).push(s.last()) =~= s.take(p).push(x) + s.skip(p));
    }
}

/// Sorts positions by their keys, stably.
pub fn sort_order(keys: &Vec<(u32, u32)>) -> (r: Vec<usize>)
    ensures
        r@ == order_of(keys@, keys@.len() as int),
        r.len() == keys.len(),
        forall|k: int| 0 <= k < r@.len() ==> #[trigger] r@[k] < keys.len(),
{
    let mut out: Vec<usize> = Vec::new();
    let mut x: usize = 0;
    while x < keys.len()
        invariant
            x <= keys.len(),
            out@ == order_of(keys@, x as int),
            out.len() == x,
            forall|k: int| 0 <= k < out@.len() ==> #[trigger] out@[k] < keys.len(),
        decreases keys.len() - x,
    {
        let mut p: usize = out.len();
        let key: (u32, u32) = keys[x];
        while p > 0 && (key.0 < keys[out[p - 1]].0 || (key.0 == keys[out[p - 1]].0 && key.1
            < keys[out[p - 1]].1))
            invariant
                p <= out.len(),
                x < keys.len(),
                key == keys@[x as int],
                forall|k: int| 0 <= k < out@.len() ==> #[trigger] out@[k] < keys.len(),
                forall|k: int|
                    p <= k < out@.len() ==> key_before(
                        keys@[x as int],
                        keys@[#[trigger] out@[k] as int],
                    ),
            decreases p,
        {
            p -= 1;
        }
        proof {
            lemma_put_at(keys@, out@, x, p as int);
        }
        let ghost before = out@;
        out.insert(p, x);
        proof {
            assert(out@ =~= before.take(p as int).push(x) + before.skip(p as int));
            assert forall|k: int| 0 <= k < out@.len() implies #[trigger] out@[k] < keys.len() by {
                if k < p {
                    assert(out@[k] == before[k]);
                } else if k > p {
                    assert(out@[k] == before[k - 1]);
                }
            }
        }
        x += 1;
    }
    out
}

/// Sorting leaves no position out and none twice.
pub proof fn order_keeps_positions(keys: Seq<(u32, u32)>, k: int, i: usize)
    requires
        0 <= k <= keys.len() <= usize::MAX,
    ensures
        order_of(keys, k).len() == k,
        order_of(keys, k).contains(i) <==> i < k,
    decreases k,
{
    if k > 0 {
        order_keeps_positions(keys, k - 1, i);
        lemma_put_members(keys, order_of(keys, k - 1), (k - 1) as usize, i);
    }
}

/// Sorting puts no position before one whose key comes first.
pub proof fn order_is_sorted(keys: Seq<(u32, u32)>, k: int)
    requires
        0 <= k <= keys.len() <= usize::MAX,
    ensures
        forall|a: int, b: int|
            0 <= a < b < order_of(keys, k).len() ==> !key_before(
                keys[#[trigger] order_of(keys, k)[b] as int],
                keys[#[trigger] order_of(keys, k)[a] as int],
            ),
    decreases k,
{
    if k > 0 {
        order_is_sorted(keys, k - 1);
        lemma_put_sorted(keys, order_of(keys, k - 1), (k - 1) as usize);
    }
}

proof fn lemma_put_sorted(keys: Seq<(u32, u32)>, s: Seq<usize>, x: usize)
    requires
        forall|a: int, b: int|
            0 <= a < b < s.len() ==> !key_before(
                keys[#[trigger] s[b] as int],
                keys[#[trigger] s[a] as int],
            ),
    ensures
        forall|a: int, b: int|
            0 <= a < b < put(keys, s, x).len() ==> !key_before(
                keys[#[trigger] put(keys, s, x)[b] as int],
                keys[#[trigger] put(keys, s, x)[a] as int],
            ),
    decreases s.len(),
{
    let t = put(keys, s, x);
    if s.len() == 0 || !key_before(keys[x as int], keys[s.last() as int]) {
        assert forall|a: int, b: int| 0 <= a < b < t.len() implies !key_before(
            keys[#[trigger] t[b] as int],
            keys[#[trigger] t[a] as int],
        ) by {
            assert(t[a] == s[a]);
            if b < s.len() {
                assert(t[b] == s[b]);
            } else if a < s.len() - 1 {
                assert(!key_before(keys[s[s.len() - 1] as int], keys[s[a] as int]));
            }
        }
    } else {
        let r = s.drop_last();
        assert forall|a: int, b: int| 0 <= a < b < r.len() implies !key_before(
            keys[#[trigger] r[b] as int],
            keys[#[trigger] r[a] as int],
        ) by {
            assert(r[a] == s[a] && r[b] == s[b]);
        }
        lemma_put_sorted(keys, r, x);
        let u = put(keys, r, x);
        assert forall|a: int, b: int| 0 <= a < b < t.len() implies !key_before(
            keys[#[trigger] t[b] as int],
            keys[#[trigger] t[a] as int],
        ) by {
            assert(t[a] == u[a]);
            if b < u.len() {
                assert(t[b] == u[b]);
            } else {
                lemma_put_members(keys, r, x, u[a]);
                assert(u.contains(u[a]));
                if r.contains(u[a]) {
                    let c = choose|c: int| 0 <= c < r.len() && r[c] == u[a];
                    assert(s[c] == u[a]);
                    assert(!key_before(keys[s[s.len() - 1] as int], keys[s[c] as int]));
                }
            }
        }
    }
}

/// A call comes behind the calls inside it.
pub proof fn inner_calls_come_first(s: Source, i: int, j: int)
    requires
        s.t.len() <= usize::MAX,
        0 <= i < facts_of(s).calls.len(),
        0 <= j < facts_of(s).calls.len(),
        within(facts_of(s).calls[i].span, facts_of(s).calls[j].span),
        facts_of(s).calls[i].span != facts_of(s).calls[j].span,
    ensures
        i < j,
{
    let v = calls_before(s, s.t.len() as int);
    let keys = v.map_values(|c: CallView| call_key(c));
    let o = order_of(keys, keys.len() as int);
    lemma_calls_before_len(s, s.t.len() as int);
    order_is_sorted(keys, keys.len() as int);
    order_keeps_positions(keys, keys.len() as int, o[i]);
    order_keeps_positions(keys, keys.len() as int, o[j]);
    assert(o.contains(o[i]) && o.contains(o[j]));
    assert(facts_of(s).calls[i] == v[o[i] as int]);
    assert(facts_of(s).calls[j] == v[o[j] as int]);
    if j < i {
        assert(!key_before(keys[o[i] as int], keys[o[j] as int]));
    }
}

proof fn lemma_calls_before_len(s: Source, k: int)
    requires
        0 <= k <= s.t.len(),
    ensures
        calls_before(s, k).len() <= k,
    decreases k,
{
    if k > 0 {
        lemma_calls_before_len(s, k - 1);
    }
}

proof fn lemma_put_members(keys: Seq<(u32, u32)>, s: Seq<usize>, x: usize, i: usize)
    ensures
        put(keys, s, x).len() == s.len() + 1,
        put(keys, s, x).contains(i) <==> s.contains(i) || i == x,
    decreases s.len(),
{
    let t = put(keys, s, x);
    if s.len() == 0 || !key_before(keys[x as int], keys[s.last() as int]) {
        if s.contains(i) {
            let k = choose|k: int| 0 <= k < s.len() && s[k] == i;
            assert(t[k] == i);
        }
        assert(t[s.len() as int] == x);
    } else {
        let r = s.drop_last();
        lemma_put_members(keys, r, x, i);
        let u = put(keys, r, x);
        if u.contains(i) {
            let k = choose|k: int| 0 <= k < u.len() && u[k] == i;
            assert(t[k] == i);
        }
        if t.contains(i) {
            let k = choose|k: int| 0 <= k < t.len() && t[k] == i;
            if k < u.len() {
                assert(u[k] == i);
            }
        }
        if s.contains(i) {
            let k = choose|k: int| 0 <= k < s.len() && s[k] == i;
            if k < r.len() {
                assert(r[k] == i);
            } else {
                assert(t[u.len() as int] == i);
            }
        }
        if r.contains(i) {
            let k = choose|k: int| 0 <= k < r.len() && r[k] == i;
            assert(s[k] == i);
        }
        assert(s[s.len() - 1] == s.last());
    }
}

/// The identifier references among the first `k` nodes.
pub open spec fn refs_before(s: Source, k: int) -> Seq<RefView>
    decreases k,
{
    if k <= 0 || k > s.t.len() {
        Seq::empty()
    } else {
        let rest = refs_before(s, k - 1);
        match s.reference(k - 1) {
            Some(r) => if s.is(k - 1, "IdentifierReference"@) {
                rest.push(
                    RefView {
                        span: s.span(k - 1),
                        key: match r.symbol {
                            Some(sym) => KeyView::Sym(sym),
                            None => KeyView::Global(
                                match s.name(k - 1) {
                                    Some(n) => n,
                                    None => Seq::empty(),
                                },
                            ),
                        },
                        read: r.read,
                        write: r.write,
                    },
                )
            } else {
                rest
            },
            None => rest,
        }
    }
}

/// By which a reference is ordered.
pub open spec fn ref_key(r: RefView) -> (u32, u32) {
    (r.span.start, r.span.end)
}

/// The references in the order of their spans.
pub open spec fn sorted_refs(v: Seq<RefView>) -> Seq<RefView> {
    let keys = v.map_values(|r: RefView| ref_key(r));
    order_of(keys, keys.len() as int).map_values(|i: usize| v[i as int])
}

/// The bindings among the first `k` nodes, each with its symbol.
pub open spec fn bindings_before(s: Source, k: int) -> Seq<(Span, u32)>
    decreases k,
{
    if k <= 0 || k > s.t.len() {
        Seq::empty()
    } else {
        let rest = bindings_before(s, k - 1);
        match s.binding(k - 1) {
            Some(sym) => if s.is(k - 1, "BindingIdentifier"@) {
                rest.push((s.span(k - 1), sym))
            } else {
                rest
            },
            None => rest,
        }
    }
}

/// All bindings.
pub open spec fn all_bindings(s: Source) -> Seq<(Span, u32)> {
    bindings_before(s, s.t.len() as int)
}

/// The names of a member chain, and whether it is one.
pub open spec fn callee_chain(s: Source, i: int) -> (Seq<Seq<char>>, bool)
    decreases size(s.t, i), 1int,
    via callee_chain_decreases
{
    if s.is(i, "IdentifierReference"@) {
        (seq![name_or_empty(s, i)], true)
    } else if s.is(i, "ThisExpression"@) {
        (seq!["this"@], true)
    } else if s.is(i, "StaticMemberExpression"@) {
        member_chain(s, i)
    } else if s.is(i, "ChainExpression"@) {
        match s.kid(i, 0) {
            Some(c) => if s.is(c, "StaticMemberExpression"@) {
                member_chain(s, c)
            } else {
                (Seq::empty(), false)
            },
            None => (Seq::empty(), false),
        }
    } else if s.is(i, "ParenthesizedExpression"@) {
        match s.kid(i, 0) {
            Some(c) => callee_chain(s, c),
            None => (Seq::empty(), false),
        }
    } else {
        (Seq::empty(), false)
    }
}

#[via_fn]
proof fn callee_chain_decreases(s: Source, i: int) {
    broadcast use lemma_kid;

}

/// The chain of a member access: that of its object, then its property.
pub open spec fn member_chain(s: Source, i: int) -> (Seq<Seq<char>>, bool)
    decreases size(s.t, i), 0int,
    via member_chain_decreases
{
    match (s.kid(i, 0), s.last_kid(i)) {
        (Some(object), Some(property)) => {
            let (parts, ok) = callee_chain(s, object);
            if ok {
                (parts.push(name_or_empty(s, property)), true)
            } else {
                (parts, false)
            }
        },
        _ => (Seq::empty(), false),
    }
}

#[via_fn]
proof fn member_chain_decreases(s: Source, i: int) {
    broadcast use lemma_kid;

}

pub open spec fn name_or_empty(s: Source, i: int) -> Seq<char> {
    match s.name(i) {
        Some(n) => n,
        None => Seq::empty(),
    }
}

/// The smaller of two indices.
pub open spec fn lesser(a: int, b: int) -> int {
    if a <= b {
        a
    } else {
        b
    }
}

/// The text of a span, cut at the end of the source.
pub open spec fn span_text(src: Seq<char>, span: Span) -> Option<Seq<char>> {
    byte_slice(src, span.start as int, lesser(span.end as int, bytes_of(src).len() as int))
}

/// What stands before the first parenthesis or newline.
pub open spec fn head_of(text: Seq<char>) -> Seq<char> {
    text.take(lesser(find_char(text, '(', 0), find_char(text, '\n', 0)))
}

/// The text of a callee: a dotted chain, else what its text starts with.
pub open spec fn callee_text(s: Source, i: int) -> Seq<char> {
    let (parts, ok) = callee_chain(s, i);
    if ok {
        joined_with(parts, "."@)
    } else {
        let text = match span_text(s.src, s.span(i)) {
            Some(t) => trimmed(head_of(t)),
            None => "<dynamic>"@,
        };
        if text.len() == 0 {
            "<dynamic>"@
        } else {
            text
        }
    }
}

/// The calls among the first `k` nodes.
pub open spec fn calls_before(s: Source, k: int) -> Seq<CallView>
    decreases k,
{
    if k <= 0 || k > s.t.len() {
        Seq::empty()
    } else {
        let rest = calls_before(s, k - 1);
        match s.kid(k - 1, 0) {
            Some(callee) => if s.is(k - 1, "CallExpression"@) {
                rest.push(CallView { span: s.span(k - 1), callee: callee_text(s, callee) })
            } else if s.is(k - 1, "NewExpression"@) {
                rest.push(
                    CallView { span: s.span(k - 1), callee: "new "@ + callee_text(s, callee) },
                )
            } else {
                rest
            },
            None => rest,
        }
    }
}

/// By which a call is ordered: it is evaluated where it ends, behind the calls
/// inside it.
pub open spec fn call_key(c: CallView) -> (u32, u32) {
    (c.span.end, (u32::MAX - c.span.start) as u32)
}

/// The calls in order.
pub open spec fn sorted_calls(v: Seq<CallView>) -> Seq<CallView> {
    let keys = v.map_values(|c: CallView| call_key(c));
    order_of(keys, keys.len() as int).map_values(|i: usize| v[i as int])
}

pub open spec fn clamp_u32(n: int) -> u32 {
    if n > u32::MAX {
        u32::MAX
    } else {
        n as u32
    }
}

/// The line that a byte offset stands on; the first when the offset does not
/// fall between characters.
pub open spec fn offset_line(src: Seq<char>, off: u32) -> u32 {
    if byte_slice(src, 0, off as int) is Some {
        clamp_u32((1 + newlines(bytes_of(src).take(off as int))) as int)
    } else {
        1
    }
}

/// Whether a node is a function of its own.
pub open spec fn is_function(s: Source, i: int) -> bool {
    s.is(i, "Function"@) || s.is(i, "ArrowFunctionExpression"@)
}

/// The name that a function gives itself.
pub open spec fn own_name(s: Source, i: int) -> Option<Seq<char>> {
    if s.is(i, "Function"@) {
        match s.kid_of(i, "BindingIdentifier"@) {
            Some(id) => s.name(id),
            None => None,
        }
    } else {
        None
    }
}

/// The name of an assignment's target: an identifier, or the property of a
/// member access.
pub open spec fn target_name(s: Source, i: int) -> Option<Seq<char>> {
    if s.is(i, "IdentifierReference"@) {
        s.name(i)
    } else if s.is(i, "StaticMemberExpression"@) {
        match s.last_kid(i) {
            Some(p) => s.name(p),
            None => None,
        }
    } else {
        None
    }
}

/// The name that the syntax around a function lends it.
pub open spec fn context_name(s: Source, i: int) -> Option<Seq<char>> {
    match parent(s.t, i) {
        Some(p) => if s.is(p, "VariableDeclarator"@) {
            match s.kid(p, 0) {
                Some(id) => if s.is(id, "BindingIdentifier"@) {
                    s.name(id)
                } else {
                    None
                },
                None => None,
            }
        } else if s.is(p, "AssignmentExpression"@) {
            match s.kid(p, 0) {
                Some(left) => target_name(s, left),
                None => None,
            }
        } else if s.is(p, "ObjectProperty"@) || s.is(p, "PropertyDefinition"@) || s.is(
            p,
            "MethodDefinition"@,
        ) {
            s.key(p)
        } else {
            None
        },
        None => None,
    }
}

/// The nearest function around a node.
pub open spec fn function_around(s: Source, i: int) -> Option<int>
    decreases i,
{
    match parent(s.t, i) {
        Some(p) => if p < 0 || p >= i {
            None
        } else if is_function(s, p) {
            Some(p)
        } else {
            function_around(s, p)
        },
        None => None,
    }
}

proof fn lemma_function_around(s: Source, i: int)
    ensures
        function_around(s, i) matches Some(p) ==> 0 <= p < i,
    decreases i,
{
    if let Some(p) = parent(s.t, i) {
        if 0 <= p < i && !is_function(s, p) {
            lemma_function_around(s, p);
        }
    }
}

/// The name of a function: its own, or the one its context lends it, or one
/// made from the function around it and its line.
pub open spec fn function_name(s: Source, i: int) -> Seq<char>
    decreases i,
    via function_name_decreases
{
    match own_name(s, i) {
        Some(n) => n,
        None => match context_name(s, i) {
            Some(n) => n,
            None => {
                let line = decimal(offset_line(s.src, s.span(i).start) as nat);
                match function_around(s, i) {
                    Some(p) => function_name(s, p) + ".<anon@"@ + line + ">"@,
                    None => "<fn@"@ + line + ">"@,
                }
            },
        },
    }
}

#[via_fn]
proof fn function_name_decreases(s: Source, i: int) {
    lemma_function_around(s, i);
}

/// The symbols bound between a function's start and its body.
pub open spec fn params_of(bindings: Seq<(Span, u32)>, full: Span, body: Span, k: int) -> Seq<u32>
    decreases k,
{
    if k <= 0 || k > bindings.len() {
        Seq::empty()
    } else {
        let rest = params_of(bindings, full, body, k - 1);
        let (span, sym) = bindings[k - 1];
        if span.start >= full.start && span.end <= body.start {
            rest.push(sym)
        } else {
            rest
        }
    }
}

/// The body of a function, if it has one.
pub open spec fn body_of(s: Source, i: int) -> Option<int> {
    if s.is(i, "Function"@) {
        s.kid_of(i, "FunctionBody"@)
    } else if s.is(i, "ArrowFunctionExpression"@) {
        s.last_kid(i)
    } else {
        None
    }
}

/// The function at a node with a body.
pub open spec fn function_fact(s: Source, i: int, body: int) -> FnView {
    FnView {
        name: function_name(s, i),
        line: offset_line(s.src, s.span(i).start),
        body,
        block: s.is(body, "FunctionBody"@),
        params: params_of(
            all_bindings(s),
            s.span(i),
            s.span(body),
            all_bindings(s).len() as int,
        ),
        body_span: s.span(body),
        full_span: s.span(i),
    }
}

/// The functions among the first `k` nodes.
pub open spec fn functions_before(s: Source, k: int) -> Seq<FnView>
    decreases k,
{
    if k <= 0 || k > s.t.len() {
        Seq::empty()
    } else {
        let rest = functions_before(s, k - 1);
        match body_of(s, k - 1) {
            Some(body) => rest.push(function_fact(s, k - 1, body)),
            None => rest,
        }
    }
}

/// Everything that lowering looks up by span.
pub struct Facts {
    pub refs: Seq<RefView>,
    pub calls: Seq<CallView>,
    pub functions: Seq<FnView>,
    pub bindings: Seq<(Span, u32)>,
}

/// The facts of a source.
pub open spec fn facts_of(s: Source) -> Facts {
    let n = s.t.len() as int;
    Facts {
        refs: sorted_refs(refs_before(s, n)),
        calls: sorted_calls(calls_before(s, n)),
        functions: functions_before(s, n),
        bindings: all_bindings(s),
    }
}

/// Everything that lowering looks up by span.
pub struct FactTable {
    pub refs: Vec<RefFact>,
    pub calls: Vec<CallFact>,
    pub functions: Vec<FnFact>,
    pub bindings: Vec<(Span, u32)>,
}

impl FactTable {
    pub open spec fn f(&self) -> Facts {
        Facts {
            refs: self.refs@.map_values(|r: RefFact| r@),
            calls: self.calls@.map_values(|c: CallFact| c@),
            functions: self.functions@.map_values(|f: FnFact| f@),
            bindings: self.bindings@,
        }
    }
}

/// The line that a byte offset stands on.
pub fn line_of_offset(off: u32, source: &str) -> (r: u32)
    ensures
        r == offset_line(source@, off),
{
    let ghost b = bytes_of(source@);
    match slice(source, 0, off as usize) {
        Some(_) => {
            let bytes = source.as_bytes();
            let n: usize = off as usize;
            let count: u64 = count_newlines(bytes, n);
            if count >= 0xffff_ffff {
                0xffff_ffff
            } else {
                count as u32 + 1
            }
        },
        None => 1,
    }
}

/// How many newlines stand before `n`.
pub fn count_newlines(bytes: &[u8], n: usize) -> (r: u64)
    requires
        n <= bytes.len(),
    ensures
        r == newlines(bytes@.take(n as int)),
        r <= n,
{
    let mut count: u64 = 0;
    let mut i: usize = 0;
    assert(bytes@.take(0) =~= Seq::empty());
    while i < n
        invariant
            n <= bytes.len(),
            i <= n,
            count == newlines(bytes@.take(i as int)),
            count <= i,
        decreases n - i,
    {
        assert(bytes@.take(i + 1).drop_last() =~= bytes@.take(i as int));
        if bytes[i] == 10 {
            count += 1;
        }
        i += 1;
    }
    count
}

impl<'a> JsSource<'a> {
    fn name_or_empty(&self, i: usize) -> (r: String)
        ensures
            r@ == name_or_empty(self.s(), i as int),
    {
        match self.name(i) {
            Some(n) => n.to_owned(),
            None => {
                let e = String::new();
                assert(e@ =~= Seq::empty());
                e
            },
        }
    }

    fn member_chain(&self, i: usize) -> (r: (Vec<String>, bool))
        requires
            self.has(i as int),
        ensures
            texts(r.0@) == member_chain(self.s(), i as int).0,
            r.1 == member_chain(self.s(), i as int).1,
        decreases size(self.s().t, i as int), 0int,
    {
        broadcast use lemma_below;

        match (self.kid(i, 0), self.last_kid(i)) {
            (Some(object), Some(property)) => {
                let (mut parts, ok) = self.callee_chain(object);
                if ok {
                    let ghost before = parts@;
                    let name = self.name_or_empty(property);
                    parts.push(name);
                    assert(texts(parts@) =~= texts(before).push(name@));
                }
                (parts, ok)
            },
            _ => {
                let parts: Vec<String> = Vec::new();
                assert(texts(parts@) =~= Seq::empty());
                (parts, false)
            },
        }
    }

    fn callee_chain(&self, i: usize) -> (r: (Vec<String>, bool))
        requires
            self.has(i as int),
        ensures
            texts(r.0@) == callee_chain(self.s(), i as int).0,
            r.1 == callee_chain(self.s(), i as int).1,
        decreases size(self.s().t, i as int), 1int,
    {
        broadcast use lemma_below;

        let mut parts: Vec<String> = Vec::new();
        assert(texts(parts@) =~= Seq::empty());
        if self.is(i, "IdentifierReference") {
            let name = self.name_or_empty(i);
            parts.push(name);
            assert(texts(parts@) =~= seq![name@]);
            return (parts, true);
        }
        if self.is(i, "ThisExpression") {
            parts.push("this".to_owned());
            assert(texts(parts@) =~= seq!["this"@]);
            return (parts, true);
        }
        if self.is(i, "StaticMemberExpression") {
            return self.member_chain(i);
        }
        if self.is(i, "ChainExpression") {
            return match self.kid(i, 0) {
                Some(c) => if self.is(c, "StaticMemberExpression") {
                    self.member_chain(c)
                } else {
                    (parts, false)
                },
                None => (parts, false),
            };
        }
        if self.is(i, "ParenthesizedExpression") {
            return match self.kid(i, 0) {
                Some(c) => self.callee_chain(c),
                None => (parts, false),
            };
        }
        (parts, false)
    }

    /// The text of a span, cut at the end of the source.
    pub fn span_text(&self, span: Span) -> (r: Option<&'a str>)
        ensures
            match r {
                Some(t) => span_text(self.s().src, span) == Some(t@),
                None => span_text(self.s().src, span) is None,
            },
    {
        let n: usize = self.tree.source.as_bytes().len();
        let end: usize = if span.end as usize <= n {
            span.end as usize
        } else {
            n
        };
        slice(self.tree.source, span.start as usize, end)
    }

    /// The text of a callee.
    fn callee_text(&self, i: usize) -> (r: String)
        requires
            self.has(i as int),
        ensures
            r@ == callee_text(self.s(), i as int),
    {
        broadcast use lemma_find_char;

        let (parts, ok) = self.callee_chain(i);
        if ok {
            return join(&parts, ".");
        }
        match self.span_text(self.span(i)) {
            Some(t) => {
                let chars = crate::text::chars_of(t);
                let a: usize = crate::text::position(chars.as_slice(), '(');
                let b: usize = crate::text::position(chars.as_slice(), '\n');
                let k: usize = if a <= b {
                    a
                } else {
                    b
                };
                let head = vstd::slice::slice_subrange(chars.as_slice(), 0, k);
                assert(head@ =~= head_of(t@));
                let cut = trim(head);
                if cut.len() == 0 {
                    "<dynamic>".to_owned()
                } else {
                    string_from_chars(cut)
                }
            },
            None => {
                proof {
                    reveal_strlit("<dynamic>");
                }
                "<dynamic>".to_owned()
            },
        }
    }

    fn collect_refs(&self) -> (r: Vec<RefFact>)
        requires
            spans_fit(self.s().t),
        ensures
            r@.map_values(|x: RefFact| x@) == refs_before(self.s(), self.s().t.len() as int),
    {
        let ghost s = self.s();
        let n: usize = self.tree.nodes.len();
        let mut out: Vec<RefFact> = Vec::new();
        let mut i: usize = 0;
        assert(out@.map_values(|x: RefFact| x@) =~= Seq::empty());
        while i < n
            invariant
                s == self.s(),
                spans_fit(s.t),
                n == s.t.len(),
                n == self.tree.nodes.len(),
                i <= n,
                out@.map_values(|x: RefFact| x@) == refs_before(s, i as int),
            decreases n - i,
        {
            if let Some(r) = self.reference(i) {
                if self.is(i, "IdentifierReference") {
                    let key = match r.symbol {
                        Some(sym) => SymbolKey::Sym(sym),
                        None => SymbolKey::Global(self.name_or_empty(i)),
                    };
                    let ghost before = out@;
                    let fact = RefFact { span: self.span(i), key, read: r.read, write: r.write };
                    out.push(fact);
                    assert(out@.map_values(|x: RefFact| x@) =~= before.map_values(
                        |x: RefFact| x@,
                    ).push(fact@));
                }
            }
            i += 1;
        }
        out
    }

    fn collect_bindings(&self) -> (r: Vec<(Span, u32)>)
        requires
            spans_fit(self.s().t),
        ensures
            r@ == all_bindings(self.s()),
    {
        let ghost s = self.s();
        let n: usize = self.tree.nodes.len();
        let mut out: Vec<(Span, u32)> = Vec::new();
        let mut i: usize = 0;
        while i < n
            invariant
                s == self.s(),
                spans_fit(s.t),
                n == s.t.len(),
                n == self.tree.nodes.len(),
                i <= n,
                out@ == bindings_before(s, i as int),
            decreases n - i,
        {
            if let Some(sym) = self.binding(i) {
                if self.is(i, "BindingIdentifier") {
                    out.push((self.span(i), sym));
                }
            }
            i += 1;
        }
        out
    }

    fn collect_calls(&self) -> (r: Vec<CallFact>)
        requires
            spans_fit(self.s().t),
        ensures
            r@.map_values(|x: CallFact| x@) == calls_before(self.s(), self.s().t.len() as int),
    {
        let ghost s = self.s();
        let n: usize = self.tree.nodes.len();
        let mut out: Vec<CallFact> = Vec::new();
        let mut i: usize = 0;
        assert(out@.map_values(|x: CallFact| x@) =~= Seq::empty());
        while i < n
            invariant
                s == self.s(),
                spans_fit(s.t),
                n == s.t.len(),
                n == self.tree.nodes.len(),
                i <= n,
                out@.map_values(|x: CallFact| x@) == calls_before(s, i as int),
            decreases n - i,
        {
            if let Some(callee) = self.kid(i, 0) {
                let is_call: bool = self.is(i, "CallExpression");
                if is_call || self.is(i, "NewExpression") {
                    let text = self.callee_text(callee);
                    let full = if is_call {
                        text
                    } else {
                        let mut t = "new ".to_owned();
                        t.append(text.as_str());
                        t
                    };
                    let ghost before = out@;
                    let fact = CallFact { span: self.span(i), callee: full };
                    out.push(fact);
                    assert(out@.map_values(|x: CallFact| x@) =~= before.map_values(
                        |x: CallFact| x@,
                    ).push(fact@));
                }
            }
            i += 1;
        }
        out
    }

    fn is_function(&self, i: usize) -> (r: bool)
        requires
            self.has(i as int),
        ensures
            r == is_function(self.s(), i as int),
    {
        self.is(i, "Function") || self.is(i, "ArrowFunctionExpression")
    }

    fn own_name(&self, i: usize) -> (r: Option<&'a str>)
        requires
            self.has(i as int),
        ensures
            match r {
                Some(t) => own_name(self.s(), i as int) == Some(t@),
                None => own_name(self.s(), i as int) is None,
            },
    {
        if self.is(i, "Function") {
            match self.kid_of(i, "BindingIdentifier") {
                Some(id) => self.name(id),
                None => None,
            }
        } else {
            None
        }
    }

    /// The bound name of a simple assignment target.
    fn assignment_target_name(&self, i: usize) -> (r: Option<&'a str>)
        requires
            self.has(i as int),
        ensures
            match r {
                Some(t) => target_name(self.s(), i as int) == Some(t@),
                None => target_name(self.s(), i as int) is None,
            },
    {
        if self.is(i, "IdentifierReference") {
            self.name(i)
        } else if self.is(i, "StaticMemberExpression") {
            match self.last_kid(i) {
                Some(p) => self.name(p),
                None => None,
            }
        } else {
            None
        }
    }

    /// A name borrowed from the immediate parent that binds this function.
    fn context_name(&self, i: usize) -> (r: Option<&'a str>)
        requires
            self.has(i as int),
        ensures
            match r {
                Some(t) => context_name(self.s(), i as int) == Some(t@),
                None => context_name(self.s(), i as int) is None,
            },
    {
        match self.tree.parent(i) {
            Some(p) => {
                if self.is(p, "VariableDeclarator") {
                    match self.kid(p, 0) {
                        Some(id) => if self.is(id, "BindingIdentifier") {
                            self.name(id)
                        } else {
                            None
                        },
                        None => None,
                    }
                } else if self.is(p, "AssignmentExpression") {
                    match self.kid(p, 0) {
                        Some(left) => self.assignment_target_name(left),
                        None => None,
                    }
                } else if self.is(p, "ObjectProperty") || self.is(p, "PropertyDefinition")
                    || self.is(p, "MethodDefinition") {
                    self.key(p)
                } else {
                    None
                }
            },
            None => None,
        }
    }

    fn function_around(&self, i: usize) -> (r: Option<usize>)
        requires
            self.has(i as int),
        ensures
            match r {
                Some(p) => function_around(self.s(), i as int) == Some(p as int) && p < i
                    && self.has(p as int),
                None => function_around(self.s(), i as int) is None,
            },
    {
        let ghost s = self.s();
        let mut cur: usize = i;
        loop
            invariant
                s == self.s(),
                self.has(cur as int),
                cur <= i,
                function_around(s, i as int) == function_around(s, cur as int),
            decreases cur,
        {
            match self.tree.parent(cur) {
                Some(p) => {
                    if self.is_function(p) {
                        return Some(p);
                    }
                    cur = p;
                },
                None => {
                    return None;
                },
            }
        }
    }

    /// A function's name: its own, its context's, or one qualified by the
    /// nearest function around it.
    fn infer_name(&self, i: usize) -> (r: String)
        requires
            self.has(i as int),
        ensures
            r@ == function_name(self.s(), i as int),
        decreases i,
    {
        if let Some(n) = self.own_name(i) {
            return n.to_owned();
        }
        if let Some(n) = self.context_name(i) {
            return n.to_owned();
        }
        let line: u32 = line_of_offset(self.span(i).start, self.tree.source);
        let number = decimal_text(line as u128);
        match self.function_around(i) {
            Some(p) => {
                let mut text = self.infer_name(p);
                text.append(".<anon@");
                text.append(number.as_str());
                text.append(">");
                text
            },
            None => {
                let mut text = "<fn@".to_owned();
                text.append(number.as_str());
                text.append(">");
                text
            },
        }
    }

    fn function_at(&self, i: usize, body: usize, bindings: &Vec<(Span, u32)>) -> (r: FnFact)
        requires
            self.has(i as int),
            self.has(body as int),
            bindings@ == all_bindings(self.s()),
        ensures
            r@ == function_fact(self.s(), i as int, body as int),
    {
        let full_span = self.span(i);
        let body_span = self.span(body);
        let mut params: Vec<u32> = Vec::new();
        let mut k: usize = 0;
        while k < bindings.len()
            invariant
                k <= bindings.len(),
                params@ == params_of(bindings@, full_span, body_span, k as int),
            decreases bindings.len() - k,
        {
            let (span, sym) = bindings[k];
            if span.start >= full_span.start && span.end <= body_span.start {
                params.push(sym);
            }
            k += 1;
        }
        FnFact {
            name: self.infer_name(i),
            line: line_of_offset(full_span.start, self.tree.source),
            body,
            block: self.is(body, "FunctionBody"),
            params,
            body_span,
            full_span,
        }
    }

    fn collect_functions(&self, bindings: &Vec<(Span, u32)>) -> (r: Vec<FnFact>)
        requires
            spans_fit(self.s().t),
            bindings@ == all_bindings(self.s()),
        ensures
            r@.map_values(|x: FnFact| x@) == functions_before(
                self.s(),
                self.s().t.len() as int,
            ),
            forall|k: int| 0 <= k < r@.len() ==> self.has((#[trigger] r@[k]).body as int),
    {
        let ghost s = self.s();
        let n: usize = self.tree.nodes.len();
        let mut out: Vec<FnFact> = Vec::new();
        let mut i: usize = 0;
        assert(out@.map_values(|x: FnFact| x@) =~= Seq::empty());
        while i < n
            invariant
                s == self.s(),
                spans_fit(s.t),
                bindings@ == all_bindings(s),
                n == s.t.len(),
                n == self.tree.nodes.len(),
                i <= n,
                out@.map_values(|x: FnFact| x@) == functions_before(s, i as int),
                forall|k: int|
                    0 <= k < out@.len() ==> self.has((#[trigger] out@[k]).body as int),
            decreases n - i,
        {
            let body = if self.is(i, "Function") {
                self.kid_of(i, "FunctionBody")
            } else if self.is(i, "ArrowFunctionExpression") {
                self.last_kid(i)
            } else {
                None
            };
            if let Some(b) = body {
                let ghost before = out@;
                let fact = self.function_at(i, b, bindings);
                out.push(fact);
                proof {
                    assert(out@.map_values(|x: FnFact| x@) =~= before.map_values(
                        |x: FnFact| x@,
                    ).push(fact@));
                    assert forall|k: int| 0 <= k < out@.len() implies self.has(
                        (#[trigger] out@[k]).body as int,
                    ) by {
                        if k < before.len() {
                            assert(out@[k] == before[k]);
                        }
                    }
                }
            }
            i += 1;
        }
        out
    }

    /// Collects the facts of a source.
    pub fn collect(&self) -> (r: FactTable)
        requires
            spans_fit(self.s().t),
        ensures
            r.f() == facts_of(self.s()),
            forall|k: int|
                0 <= k < r.functions@.len() ==> self.has((#[trigger] r.functions@[k]).body as int),
    {
        let ghost s = self.s();
        let bindings = self.collect_bindings();
        let functions = self.collect_functions(&bindings);
        let unsorted_refs = self.collect_refs();
        let unsorted_calls = self.collect_calls();
        let refs = sort_refs(unsorted_refs);
        let calls = sort_calls(unsorted_calls);
        FactTable { refs, calls, functions, bindings }
    }
}

fn sort_refs(v: Vec<RefFact>) -> (r: Vec<RefFact>)
    ensures
        r@.map_values(|x: RefFact| x@) == sorted_refs(v@.map_values(|x: RefFact| x@)),
{
    let ghost views = v@.map_values(|x: RefFact| x@);
    let ghost wanted = views.map_values(|r: RefView| ref_key(r));
    let mut keys: Vec<(u32, u32)> = Vec::new();
    let mut i: usize = 0;
    while i < v.len()
        invariant
            i <= v.len(),
            views == v@.map_values(|x: RefFact| x@),
            wanted == views.map_values(|r: RefView| ref_key(r)),
            keys@ =~= wanted.take(i as int),
        decreases v.len() - i,
    {
        assert(wanted[i as int] == ref_key(v@[i as int]@));
        keys.push((v[i].span.start, v[i].span.end));
        i += 1;
    }
    assert(keys@ =~= wanted);
    let order = sort_order(&keys);
    let mut out: Vec<RefFact> = Vec::new();
    let mut k: usize = 0;
    let ghost target = sorted_refs(views);
    while k < order.len()
        invariant
            k <= order.len(),
            views == v@.map_values(|x: RefFact| x@),
            views.len() == v.len(),
            order@ == order_of(wanted, wanted.len() as int),
            wanted == views.map_values(|r: RefView| ref_key(r)),
            forall|j: int| 0 <= j < order@.len() ==> #[trigger] order@[j] < v.len(),
            target == sorted_refs(views),
            out@.map_values(|x: RefFact| x@) =~= target.take(k as int),
        decreases order.len() - k,
    {
        let ghost before = out@;
        assert(order@[k as int] < v.len());
        let f = &v[order[k]];
        let copy = RefFact { span: f.span, key: f.key.copy(), read: f.read, write: f.write };
        assert(target[k as int] == views[order@[k as int] as int]);
        assert(copy@ == f@);
        out.push(copy);
        assert(out@.map_values(|x: RefFact| x@) =~= before.map_values(|x: RefFact| x@).push(copy@));
        k += 1;
    }
    assert(out@.map_values(|x: RefFact| x@) =~= target);
    out
}

fn sort_calls(v: Vec<CallFact>) -> (r: Vec<CallFact>)
    ensures
        r@.map_values(|x: CallFact| x@) == sorted_calls(v@.map_values(|x: CallFact| x@)),
{
    let ghost views = v@.map_values(|x: CallFact| x@);
    let ghost wanted = views.map_values(|c: CallView| call_key(c));
    let mut keys: Vec<(u32, u32)> = Vec::new();
    let mut i: usize = 0;
    while i < v.len()
        invariant
            i <= v.len(),
            views == v@.map_values(|x: CallFact| x@),
            wanted == views.map_values(|c: CallView| call_key(c)),
            keys@ =~= wanted.take(i as int),
        decreases v.len() - i,
    {
        assert(wanted[i as int] == call_key(v@[i as int]@));
        keys.push((v[i].span.end, 0xffff_ffff - v[i].span.start));
        i += 1;
    }
    assert(keys@ =~= wanted);
    let order = sort_order(&keys);
    let mut out: Vec<CallFact> = Vec::new();
    let mut k: usize = 0;
    let ghost target = sorted_calls(views);
    while k < order.len()
        invariant
            k <= order.len(),
            views == v@.map_values(|x: CallFact| x@),
            views.len() == v.len(),
            order@ == order_of(wanted, wanted.len() as int),
            wanted == views.map_values(|c: CallView| call_key(c)),
            forall|j: int| 0 <= j < order@.len() ==> #[trigger] order@[j] < v.len(),
            target == sorted_calls(views),
            out@.map_values(|x: CallFact| x@) =~= target.take(k as int),
        decreases order.len() - k,
    {
        let ghost before = out@;
        assert(order@[k as int] < v.len());
        let f = &v[order[k]];
        let copy = CallFact { span: f.span, callee: f.callee.clone() };
        assert(target[k as int] == views[order@[k as int] as int]);
        assert(copy@ == f@);
        out.push(copy);
        assert(out@.map_values(|x: CallFact| x@) =~= before.map_values(|x: CallFact| x@).push(
            copy@,
        ));
        k += 1;
    }
    assert(out@.map_values(|x: CallFact| x@) =~= target);
    out
}

} // verus!
