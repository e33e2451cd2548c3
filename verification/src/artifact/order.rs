//! The order of a sidecar's records: by declaration line, then by name, then by
//! everything else they hold, so that only equal records tie.

use vstd::prelude::*;

use crate::artifact::{FunctionRecord, RecordView, SpanRecord, SpanView};
use crate::text::{bytes_of, lemma_bytes_injective, texts};

verus! {

/// Whether one key comes strictly before another, from the `k`-th number on.
pub open spec fn key_before(a: Seq<int>, b: Seq<int>, k: int) -> bool
    decreases b.len() - k,
{
    if k >= b.len() {
        false
    } else if k >= a.len() {
        true
    } else if a[k] != b[k] {
        a[k] < b[k]
    } else {
        key_before(a, b, k + 1)
    }
}

/// The bytes of a text, closed off by a number that no byte has.
pub open spec fn text_key(t: Seq<char>) -> Seq<int> {
    bytes_of(t).map_values(|b: u8| b as int).push(-1)
}

pub open spec fn score_key(s: Option<i64>) -> Seq<int> {
    match s {
        Some(v) => seq![1, v as int],
        None => seq![0],
    }
}

pub open spec fn opt_text_key(t: Option<Seq<char>>) -> Seq<int> {
    match t {
        Some(v) => seq![1int] + text_key(v),
        None => seq![0],
    }
}

pub open spec fn texts_key(v: Seq<Seq<char>>) -> Seq<int>
    decreases v.len(),
{
    if v.len() == 0 {
        seq![0]
    } else {
        seq![1int] + (text_key(v[0]) + texts_key(v.drop_first()))
    }
}

/// The numbers of a span: everything it holds.
pub open spec fn span_key(s: SpanView) -> Seq<int> {
    seq![s.start as int, s.end as int] + (text_key(s.tier) + (seq![
        s.function_score as int,
        s.rank as int,
    ] + (score_key(s.file_score) + (score_key(s.repo_score) + (opt_text_key(s.text) + texts_key(
        s.reasons,
    ))))))
}

pub open spec fn spans_key(v: Seq<SpanView>) -> Seq<int>
    decreases v.len(),
{
    if v.len() == 0 {
        seq![0]
    } else {
        seq![1int] + (span_key(v[0]) + spans_key(v.drop_first()))
    }
}

/// An unknown line comes before every line.
pub open spec fn line_key(l: Option<u32>) -> int {
    match l {
        Some(x) => x as int,
        None => -1,
    }
}

pub open spec fn counts_key(r: RecordView) -> Seq<int> {
    seq![
        r.coverage.instructions as int,
        r.coverage.with_line as int,
        r.summary.core as int,
        r.summary.boundary as int,
        r.summary.plumbing as int,
        r.summary.inert as int,
    ]
}

/// The numbers of a record: its line, its name, and everything else it holds.
pub open spec fn record_key(r: RecordView) -> Seq<int> {
    seq![line_key(r.decl_line)] + (text_key(r.name) + (text_key(r.file) + (text_key(r.signature) + (
    counts_key(r) + spans_key(r.spans)))))
}

/// Whether one record comes strictly before another: an unknown declaration
/// line first, then by line, then by name, then by file, signature and the
/// rest.
pub open spec fn record_before(a: RecordView, b: RecordView) -> bool {
    key_before(record_key(a), record_key(b), 0)
}

/// Whether no record comes before an earlier one.
pub open spec fn sorted(v: Seq<RecordView>) -> bool {
    forall|i: int, j: int| 0 <= i < j < v.len() ==> !record_before(#[trigger] v[j], #[trigger] v[i])
}

/// Whether `b` is `a` sorted: in order, with the same records.
pub open spec fn is_sorted_form(a: Seq<RecordView>, b: Seq<RecordView>) -> bool {
    &&& sorted(b)
    &&& b.to_multiset() == a.to_multiset()
}

proof fn lemma_key_order(a: Seq<int>, b: Seq<int>, c: Seq<int>, k: int)
    requires
        0 <= k,
    ensures
        !(key_before(a, b, k) && key_before(b, a, k)),
        key_before(a, b, k) && key_before(b, c, k) ==> key_before(a, c, k),
        !key_before(b, a, k) && key_before(c, a, k) ==> key_before(c, b, k),
    decreases a.len() + b.len() + c.len() - k,
{
    if k < a.len() && k < b.len() || k < b.len() && k < c.len() || k < a.len() && k < c.len() {
        lemma_key_order(a, b, c, k + 1);
    }
}

proof fn lemma_key_total(a: Seq<int>, b: Seq<int>, k: int)
    requires
        0 <= k <= a.len(),
        k <= b.len(),
        a.take(k) == b.take(k),
        !key_before(a, b, k),
        !key_before(b, a, k),
    ensures
        a == b,
    decreases a.len() - k,
{
    if k < a.len() && k < b.len() {
        assert(a[k] == b[k]);
        assert(a.take(k + 1) =~= b.take(k + 1)) by {
            assert forall|j: int| 0 <= j < k + 1 implies a[j] == b[j] by {
                if j < k {
                    assert(a.take(k)[j] == a[j]);
                    assert(b.take(k)[j] == b[j]);
                }
            }
        }
        lemma_key_total(a, b, k + 1);
    } else {
        assert(a.take(k) =~= a && b.take(k) =~= b);
    }
}

/// Parts of one length can be told apart from what follows them.
proof fn lemma_cut(p: Seq<int>, s: Seq<int>, q: Seq<int>, t: Seq<int>)
    requires
        p.len() == q.len(),
        p + s == q + t,
    ensures
        p == q,
        s == t,
{
    assert(p =~= (p + s).take(p.len() as int));
    assert(q =~= (q + t).take(q.len() as int));
    assert(s =~= (p + s).skip(p.len() as int));
    assert(t =~= (q + t).skip(q.len() as int));
}

proof fn lemma_text_cut(x: Seq<char>, s: Seq<int>, y: Seq<char>, t: Seq<int>)
    requires
        text_key(x) + s == text_key(y) + t,
    ensures
        x == y,
        s == t,
{
    let (p, q) = (bytes_of(x), bytes_of(y));
    let l = text_key(x) + s;
    let r = text_key(y) + t;
    if p.len() < q.len() {
        let n = p.len() as int;
        assert(l[n] == text_key(x)[n] && text_key(x)[n] == -1);
        assert(r[n] == text_key(y)[n] && text_key(y)[n] == q[n] as int);
        assert(false);
    }
    if q.len() < p.len() {
        let n = q.len() as int;
        assert(r[n] == text_key(y)[n] && text_key(y)[n] == -1);
        assert(l[n] == text_key(x)[n] && text_key(x)[n] == p[n] as int);
        assert(false);
    }
    lemma_cut(text_key(x), s, text_key(y), t);
    assert forall|k: int| 0 <= k < p.len() implies p[k] == q[k] by {
        assert(text_key(x)[k] == p[k] as int);
        assert(text_key(y)[k] == q[k] as int);
    }
    assert(p =~= q);
    lemma_bytes_injective(x, y);
}

proof fn lemma_score_cut(x: Option<i64>, s: Seq<int>, y: Option<i64>, t: Seq<int>)
    requires
        score_key(x) + s == score_key(y) + t,
    ensures
        x == y,
        s == t,
{
    assert((score_key(x) + s)[0] == score_key(x)[0]);
    assert((score_key(y) + t)[0] == score_key(y)[0]);
    lemma_cut(score_key(x), s, score_key(y), t);
    if x is Some {
        assert(score_key(x)[1] == score_key(y)[1]);
    }
}

proof fn lemma_opt_text_cut(
    x: Option<Seq<char>>,
    s: Seq<int>,
    y: Option<Seq<char>>,
    t: Seq<int>,
)
    requires
        opt_text_key(x) + s == opt_text_key(y) + t,
    ensures
        x == y,
        s == t,
{
    assert((opt_text_key(x) + s)[0] == opt_text_key(x)[0]);
    assert((opt_text_key(y) + t)[0] == opt_text_key(y)[0]);
    match (x, y) {
        (Some(a), Some(b)) => {
            assert(opt_text_key(x) + s =~= seq![1int] + (text_key(a) + s));
            assert(opt_text_key(y) + t =~= seq![1int] + (text_key(b) + t));
            lemma_cut(seq![1int], text_key(a) + s, seq![1int], text_key(b) + t);
            lemma_text_cut(a, s, b, t);
        },
        _ => {
            lemma_cut(opt_text_key(x), s, opt_text_key(y), t);
        },
    }
}

proof fn lemma_texts_cut(x: Seq<Seq<char>>, s: Seq<int>, y: Seq<Seq<char>>, t: Seq<int>)
    requires
        texts_key(x) + s == texts_key(y) + t,
    ensures
        x == y,
        s == t,
    decreases x.len(),
{
    assert((texts_key(x) + s)[0] == texts_key(x)[0]);
    assert((texts_key(y) + t)[0] == texts_key(y)[0]);
    if x.len() > 0 && y.len() > 0 {
        let a = texts_key(x.drop_first());
        let b = texts_key(y.drop_first());
        assert(texts_key(x) + s =~= seq![1int] + (text_key(x[0]) + (a + s)));
        assert(texts_key(y) + t =~= seq![1int] + (text_key(y[0]) + (b + t)));
        lemma_cut(seq![1int], text_key(x[0]) + (a + s), seq![1int], text_key(y[0]) + (b + t));
        lemma_text_cut(x[0], a + s, y[0], b + t);
        lemma_texts_cut(x.drop_first(), s, y.drop_first(), t);
        assert(x =~= seq![x[0]] + x.drop_first());
        assert(y =~= seq![y[0]] + y.drop_first());
    } else {
        lemma_cut(texts_key(x), s, texts_key(y), t);
        assert(x =~= y);
    }
}

spec fn after_repo(v: SpanView, e: Seq<int>) -> Seq<int> {
    opt_text_key(v.text) + (texts_key(v.reasons) + e)
}

spec fn after_file(v: SpanView, e: Seq<int>) -> Seq<int> {
    score_key(v.repo_score) + after_repo(v, e)
}

spec fn after_scores(v: SpanView, e: Seq<int>) -> Seq<int> {
    score_key(v.file_score) + after_file(v, e)
}

spec fn after_tier(v: SpanView, e: Seq<int>) -> Seq<int> {
    seq![v.function_score as int, v.rank as int] + after_scores(v, e)
}

spec fn after_lines(v: SpanView, e: Seq<int>) -> Seq<int> {
    text_key(v.tier) + after_tier(v, e)
}

proof fn lemma_assoc(a: Seq<int>, b: Seq<int>, c: Seq<int>)
    ensures
        (a + b) + c == a + (b + c),
{
    assert((a + b) + c =~= a + (b + c));
}

/// A span's numbers and what follows them, part by part.
proof fn lemma_span_parts(v: SpanView, e: Seq<int>)
    ensures
        span_key(v) + e == seq![v.start as int, v.end as int] + after_lines(v, e),
{
    let k6 = texts_key(v.reasons);
    let k5 = opt_text_key(v.text) + k6;
    let k4 = score_key(v.repo_score) + k5;
    let k3 = score_key(v.file_score) + k4;
    let k2 = seq![v.function_score as int, v.rank as int] + k3;
    let k1 = text_key(v.tier) + k2;
    lemma_assoc(seq![v.start as int, v.end as int], k1, e);
    lemma_assoc(text_key(v.tier), k2, e);
    lemma_assoc(seq![v.function_score as int, v.rank as int], k3, e);
    lemma_assoc(score_key(v.file_score), k4, e);
    lemma_assoc(score_key(v.repo_score), k5, e);
    lemma_assoc(opt_text_key(v.text), k6, e);
}

proof fn lemma_span_cut(x: SpanView, s: Seq<int>, y: SpanView, t: Seq<int>)
    requires
        span_key(x) + s == span_key(y) + t,
    ensures
        x == y,
        s == t,
{
    let (c0, d0) = (
        seq![x.start as int, x.end as int],
        seq![y.start as int, y.end as int],
    );
    let (c2, d2) = (
        seq![x.function_score as int, x.rank as int],
        seq![y.function_score as int, y.rank as int],
    );
    lemma_span_parts(x, s);
    lemma_span_parts(y, t);
    lemma_cut(c0, after_lines(x, s), d0, after_lines(y, t));
    assert(c0[0] == d0[0] && c0[1] == d0[1]);
    lemma_text_cut(x.tier, after_tier(x, s), y.tier, after_tier(y, t));
    lemma_cut(c2, after_scores(x, s), d2, after_scores(y, t));
    assert(c2[0] == d2[0] && c2[1] == d2[1]);
    lemma_score_cut(x.file_score, after_file(x, s), y.file_score, after_file(y, t));
    lemma_score_cut(x.repo_score, after_repo(x, s), y.repo_score, after_repo(y, t));
    lemma_opt_text_cut(x.text, texts_key(x.reasons) + s, y.text, texts_key(y.reasons) + t);
    lemma_texts_cut(x.reasons, s, y.reasons, t);
    assert(x =~= y);
}

proof fn lemma_spans_key(x: Seq<SpanView>, y: Seq<SpanView>)
    requires
        spans_key(x) == spans_key(y),
    ensures
        x == y,
    decreases x.len(),
{
    assert(spans_key(x)[0] == spans_key(y)[0]);
    if x.len() > 0 && y.len() > 0 {
        let a = spans_key(x.drop_first());
        let b = spans_key(y.drop_first());
        lemma_cut(seq![1int], span_key(x[0]) + a, seq![1int], span_key(y[0]) + b);
        lemma_span_cut(x[0], a, y[0], b);
        lemma_spans_key(x.drop_first(), y.drop_first());
        assert(x =~= seq![x[0]] + x.drop_first());
        assert(y =~= seq![y[0]] + y.drop_first());
    } else {
        assert(x =~= y);
    }
}

/// Records with the same numbers are the same.
proof fn lemma_record_key(x: RecordView, y: RecordView)
    requires
        record_key(x) == record_key(y),
    ensures
        x == y,
{
    let r4 = |v: RecordView| counts_key(v) + spans_key(v.spans);
    let r3 = |v: RecordView| text_key(v.signature) + r4(v);
    let r2 = |v: RecordView| text_key(v.file) + r3(v);
    let r1 = |v: RecordView| text_key(v.name) + r2(v);
    let one = |v: RecordView| seq![line_key(v.decl_line)];
    lemma_cut(one(x), r1(x), one(y), r1(y));
    assert(one(x)[0] == one(y)[0]);
    lemma_text_cut(x.name, r2(x), y.name, r2(y));
    lemma_text_cut(x.file, r3(x), y.file, r3(y));
    lemma_text_cut(x.signature, r4(x), y.signature, r4(y));
    lemma_cut(counts_key(x), spans_key(x.spans), counts_key(y), spans_key(y.spans));
    let (c, d) = (counts_key(x), counts_key(y));
    assert(c[0] == d[0] && c[1] == d[1] && c[2] == d[2] && c[3] == d[3] && c[4] == d[4] && c[5]
        == d[5]);
    lemma_spans_key(x.spans, y.spans);
    assert(x =~= y);
}

/// The order of records is strict, transitive, and total: only equal records
/// tie.
pub proof fn records_are_ordered(a: RecordView, b: RecordView, c: RecordView)
    ensures
        !(record_before(a, b) && record_before(b, a)),
        record_before(a, b) && record_before(b, c) ==> record_before(a, c),
        !record_before(b, a) && record_before(c, a) ==> record_before(c, b),
        !record_before(a, b) && !record_before(b, a) ==> a == b,
{
    lemma_key_order(record_key(a), record_key(b), record_key(c), 0);
    if !record_before(a, b) && !record_before(b, a) {
        assert(record_key(a).take(0) =~= record_key(b).take(0));
        lemma_key_total(record_key(a), record_key(b), 0);
        lemma_record_key(a, b);
    }
}

/// A sorted list is its own sorted form, so sorting twice is sorting once.
pub proof fn sorting_is_idempotent(a: Seq<RecordView>, b: Seq<RecordView>)
    requires
        sorted(a),
        is_sorted_form(a, b),
    ensures
        b == a,
{
    sorting_forgets_the_order(a, a, a, b);
}

/// Sorting loses no record and makes none up.
pub proof fn sorting_keeps_records(a: Seq<RecordView>, b: Seq<RecordView>, r: RecordView)
    requires
        is_sorted_form(a, b),
    ensures
        a.len() == b.len(),
        a.contains(r) <==> b.contains(r),
{
    a.to_multiset_ensures();
    b.to_multiset_ensures();
    assert(a.contains(r) <==> a.to_multiset().count(r) > 0);
    assert(b.contains(r) <==> b.to_multiset().count(r) > 0);
}

/// Two lists of the same records, in whatever order, have one sorted form.
pub proof fn sorting_forgets_the_order(
    a: Seq<RecordView>,
    b: Seq<RecordView>,
    x: Seq<RecordView>,
    y: Seq<RecordView>,
)
    requires
        a.to_multiset() == b.to_multiset(),
        is_sorted_form(a, x),
        is_sorted_form(b, y),
    ensures
        x == y,
{
    let leq = |p: RecordView, q: RecordView| !record_before(q, p);
    assert forall|p: RecordView, q: RecordView, r: RecordView|
        #![trigger leq(p, q), leq(q, r)]
        leq(p, q) && leq(q, r) implies leq(p, r) by {
        records_are_ordered(p, q, r);
        records_are_ordered(q, r, p);
        records_are_ordered(p, r, q);
    }
    assert forall|p: RecordView, q: RecordView| #[trigger] leq(p, q) && #[trigger] leq(q, p) implies p
        == q by {
        records_are_ordered(p, q, p);
    }
    assert forall|p: RecordView, q: RecordView| #[trigger] leq(p, q) || leq(q, p) by {
        records_are_ordered(p, q, p);
    }
    assert forall|p: RecordView| #[trigger] leq(p, p) by {
        records_are_ordered(p, p, p);
    }
    assert(vstd::relations::total_ordering(leq));
    vstd::seq_lib::lemma_sorted_unique(x, y, leq);
}

/// Putting a record behind all that do not come after it keeps the order.
pub proof fn lemma_inserted(s: Seq<RecordView>, p: int, x: RecordView)
    requires
        sorted(s),
        0 <= p <= s.len(),
        forall|k: int| 0 <= k < p ==> !record_before(x, #[trigger] s[k]),
        forall|k: int| p <= k < s.len() ==> record_before(x, #[trigger] s[k]),
    ensures
        sorted(s.insert(p, x)),
{
    let t = s.insert(p, x);
    assert forall|i: int, j: int| 0 <= i < j < t.len() implies !record_before(
        #[trigger] t[j],
        #[trigger] t[i],
    ) by {
        if i == p {
            assert(t[j] == s[j - 1]);
            records_are_ordered(x, t[j], x);
        } else if j == p {
            assert(t[i] == s[i]);
        } else {
            let i2 = if i < p { i } else { i - 1 };
            let j2 = if j < p { j } else { j - 1 };
            assert(t[i] == s[i2] && t[j] == s[j2]);
        }
    }
}

/// A key's numbers.
pub open spec fn key_ints(v: Seq<i128>) -> Seq<int> {
    v.map_values(|x: i128| x as int)
}

fn put_number(out: &mut Vec<i128>, x: i128)
    ensures
        key_ints(final(out)@) == key_ints(old(out)@) + seq![x as int],
{
    out.push(x);
    assert(key_ints(out@) =~= key_ints(old(out)@) + seq![x as int]);
}

fn put_text(out: &mut Vec<i128>, t: &str)
    ensures
        key_ints(final(out)@) == key_ints(old(out)@) + text_key(t@),
{
    let bytes = t.as_bytes();
    let ghost start = key_ints(out@);
    let ghost all = bytes_of(t@).map_values(|b: u8| b as int);
    let mut k: usize = 0;
    while k < bytes.len()
        invariant
            k <= bytes.len(),
            bytes@ == bytes_of(t@),
            all == bytes_of(t@).map_values(|b: u8| b as int),
            key_ints(out@) =~= start + all.take(k as int),
        decreases bytes.len() - k,
    {
        put_number(out, bytes[k] as i128);
        assert(all.take(k + 1) =~= all.take(k as int).push(all[k as int]));
        k += 1;
    }
    put_number(out, -1);
    assert(all.take(k as int) =~= all);
    assert(key_ints(out@) =~= start + text_key(t@));
}

fn put_score(out: &mut Vec<i128>, s: Option<i64>)
    ensures
        key_ints(final(out)@) == key_ints(old(out)@) + score_key(s),
{
    let ghost start = key_ints(out@);
    match s {
        Some(v) => {
            put_number(out, 1);
            put_number(out, v as i128);
        },
        None => put_number(out, 0),
    }
    assert(key_ints(out@) =~= start + score_key(s));
}

fn put_texts(out: &mut Vec<i128>, v: &Vec<String>)
    ensures
        key_ints(final(out)@) == key_ints(old(out)@) + texts_key(texts(v@)),
{
    let ghost start = key_ints(out@);
    let ghost all = texts(v@);
    let mut k: usize = 0;
    assert(all.skip(0) =~= all);
    while k < v.len()
        invariant
            k <= v.len(),
            all == texts(v@),
            key_ints(out@) + texts_key(all.skip(k as int)) == start + texts_key(all),
        decreases v.len() - k,
    {
        let ghost before = key_ints(out@);
        put_number(out, 1);
        put_text(out, v[k].as_str());
        proof {
            let rest = all.skip(k as int);
            assert(rest[0] == all[k as int]);
            assert(rest.drop_first() =~= all.skip(k + 1));
            assert(key_ints(out@) + texts_key(all.skip(k + 1)) =~= before + texts_key(rest));
        }
        k += 1;
    }
    assert(all.skip(k as int) =~= Seq::empty());
    put_number(out, 0);
}

fn put_span(out: &mut Vec<i128>, s: &SpanRecord)
    ensures
        key_ints(final(out)@) == key_ints(old(out)@) + span_key(s@),
{
    let ghost start = key_ints(out@);
    put_number(out, s.start as i128);
    put_number(out, s.end as i128);
    let ghost s1 = key_ints(out@);
    put_text(out, s.tier.as_str());
    let ghost s2 = key_ints(out@);
    put_number(out, s.function_score as i128);
    put_number(out, s.rank as i128);
    let ghost s3 = key_ints(out@);
    put_score(out, s.file_score);
    let ghost s4 = key_ints(out@);
    put_score(out, s.repo_score);
    let ghost s5 = key_ints(out@);
    match &s.text {
        Some(t) => {
            put_number(out, 1);
            put_text(out, t.as_str());
            proof {
                lemma_assoc(s5, seq![1int], text_key(t@));
            }
        },
        None => put_number(out, 0),
    }
    put_texts(out, &s.reasons);
    proof {
        let v = s@;
        let (c0, c2) = (
            seq![v.start as int, v.end as int],
            seq![v.function_score as int, v.rank as int],
        );
        assert(s1 =~= start + c0);
        assert(s3 =~= s2 + c2);
        let k6 = texts_key(v.reasons);
        let k5 = opt_text_key(v.text) + k6;
        let k4 = score_key(v.repo_score) + k5;
        let k3 = score_key(v.file_score) + k4;
        let k2 = c2 + k3;
        lemma_assoc(s5, opt_text_key(v.text), k6);
        lemma_assoc(s4, score_key(v.repo_score), k5);
        lemma_assoc(s3, score_key(v.file_score), k4);
        lemma_assoc(s2, c2, k3);
        lemma_assoc(s1, text_key(v.tier), k2);
        lemma_assoc(start, c0, text_key(v.tier) + k2);
    }
}

/// The key that a record sorts by.
pub fn key_of(r: &FunctionRecord) -> (key: Vec<i128>)
    ensures
        key_ints(key@) == record_key(r@),
{
    let mut out: Vec<i128> = Vec::new();
    let line: i128 = match r.decl_line {
        Some(x) => x as i128,
        None => -1,
    };
    put_number(&mut out, line);
    let ghost s1 = key_ints(out@);
    put_text(&mut out, r.name.as_str());
    let ghost s2 = key_ints(out@);
    put_text(&mut out, r.file.as_str());
    let ghost s3 = key_ints(out@);
    put_text(&mut out, r.signature.as_str());
    let ghost s4 = key_ints(out@);
    put_number(&mut out, r.coverage.instructions as i128);
    put_number(&mut out, r.coverage.with_line as i128);
    put_number(&mut out, r.summary.core as i128);
    put_number(&mut out, r.summary.boundary as i128);
    put_number(&mut out, r.summary.plumbing as i128);
    put_number(&mut out, r.summary.inert as i128);
    let ghost start = key_ints(out@);
    let ghost all = r@.spans;
    let mut k: usize = 0;
    assert(all.skip(0) =~= all);
    while k < r.spans.len()
        invariant
            k <= r.spans.len(),
            all == r@.spans,
            key_ints(out@) + spans_key(all.skip(k as int)) == start + spans_key(all),
        decreases r.spans.len() - k,
    {
        let ghost before = key_ints(out@);
        put_number(&mut out, 1);
        put_span(&mut out, &r.spans[k]);
        proof {
            let rest = all.skip(k as int);
            assert(rest[0] == r.spans@[k as int]@);
            assert(rest.drop_first() =~= all.skip(k + 1));
            assert(key_ints(out@) + spans_key(all.skip(k + 1)) =~= before + spans_key(rest));
        }
        k += 1;
    }
    assert(all.skip(k as int) =~= Seq::empty());
    put_number(&mut out, 0);
    proof {
        let v = r@;
        let c = counts_key(v);
        assert(s1 =~= seq![line_key(v.decl_line)]);
        assert(start =~= s4 + c);
        let k4 = c + spans_key(v.spans);
        let k3 = text_key(v.signature) + k4;
        let k2 = text_key(v.file) + k3;
        lemma_assoc(s4, c, spans_key(v.spans));
        lemma_assoc(s3, text_key(v.signature), k4);
        lemma_assoc(s2, text_key(v.file), k3);
        lemma_assoc(s1, text_key(v.name), k2);
    }
    out
}

/// Whether one key comes strictly before another.
pub fn comes_first(a: &Vec<i128>, b: &Vec<i128>) -> (r: bool)
    ensures
        r == key_before(key_ints(a@), key_ints(b@), 0),
{
    let mut k: usize = 0;
    while k < b.len()
        invariant
            k <= b.len(),
            k <= a.len(),
            key_before(key_ints(a@), key_ints(b@), 0) == key_before(
                key_ints(a@),
                key_ints(b@),
                k as int,
            ),
        decreases b.len() - k,
    {
        if k >= a.len() {
            return true;
        }
        if a[k] != b[k] {
            return a[k] < b[k];
        }
        k += 1;
    }
    false
}

} // verus!
