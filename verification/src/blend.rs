//! Scores of lines across functions.
//!
//! Each line's score within its function is multiplied by the function's
//! call-graph weight, and the products are ranked across every scored line.
//! A line that several functions score belongs to the innermost.
//!
//! A weight is the mean of four ranks, each brought to the range from zero to
//! one. All functions share the scale of that, so products are compared with
//! integers and nothing is rounded.

use vstd::prelude::*;

use crate::confluence::orders_are_determined;
use crate::filescope::{
    caller_lists, features_are_ranks, function_features, is_features, is_owner_list,
    line_owners_by_file, listed, owner, owner_before, owner_is_the_narrowest, scores_line, total_of,
    FunctionFeatures, LineOwner, ScopedFunction,
};
use crate::ranks::{
    below, lemma_below_grows, lemma_counts, lemma_counts_of_part, lemma_tied_self, tied,
};

verus! {

/// Where a value stands among others, from zero to one: tied values share the
/// mean of their positions, and one alone stands in the middle.
pub open spec fn place(v: Seq<int>, x: int) -> (int, int) {
    let n = v.len() as int;
    if n <= 1 {
        (1, 2)
    } else {
        (2 * below(v, x, n) + tied(v, x, n) - 1, 2 * (n - 1))
    }
}

/// A place lies between zero and one.
pub proof fn places_lie_between_zero_and_one(v: Seq<int>, i: int)
    requires
        0 <= i < v.len(),
    ensures
        0 <= place(v, v[i]).0 <= place(v, v[i]).1,
        place(v, v[i]).1 > 0,
{
    let n = v.len() as int;
    lemma_counts(v, v[i], n);
    lemma_tied_self(v, i, n);
    lemma_others(v, i, n);
}

proof fn lemma_others(v: Seq<int>, i: int, k: int)
    requires
        0 <= i < v.len(),
        0 <= k <= v.len(),
    ensures
        below(v, v[i], k) + (if i < k {
            1int
        } else {
            0int
        }) <= k,
    decreases k,
{
    if k > 0 {
        lemma_others(v, i, k - 1);
    }
}

/// A greater product stands higher, and equal ones stand together.
pub proof fn places_follow_products(v: Seq<int>, i: int, j: int)
    requires
        0 <= i < v.len(),
        0 <= j < v.len(),
    ensures
        v[i] < v[j] ==> place(v, v[i]).0 < place(v, v[j]).0,
        v[i] == v[j] ==> place(v, v[i]) == place(v, v[j]),
        place(v, v[i]).1 == place(v, v[j]).1,
{
    if v[i] < v[j] {
        lemma_below_grows(v, v[i], v[j], v.len() as int);
        lemma_tied_self(v, i, v.len() as int);
        lemma_tied_self(v, j, v.len() as int);
    }
}

/// The weight of a function among `n`, up to a scale that all share: the sum of
/// its four ranks, counted from zero.
pub open spec fn weight(n: nat, f: FunctionFeatures) -> int {
    if n <= 1 {
        1
    } else {
        total_of(f) - 8
    }
}

/// The score that a function gives the first of its lines, from `k` on, that is
/// the given one.
pub open spec fn score_from(lines: Seq<u32>, scores: Seq<i64>, line: u32, k: int) -> i64
    decreases lines.len() - k,
{
    if k < 0 || k >= lines.len() {
        0
    } else if lines[k] == line {
        scores[k]
    } else {
        score_from(lines, scores, line, k + 1)
    }
}

/// A line's score within its function, times the function's weight.
pub open spec fn product(
    fns: Seq<ScopedFunction>,
    features: Seq<FunctionFeatures>,
    o: LineOwner,
) -> int {
    let f = fns[o.owner as int];
    weight(fns.len(), features[o.owner as int]) * score_from(f.lines@, f.scores@, o.line, 0)
}

pub open spec fn products(
    fns: Seq<ScopedFunction>,
    features: Seq<FunctionFeatures>,
    list: Seq<LineOwner>,
) -> Seq<int> {
    list.map_values(|o: LineOwner| product(fns, features, o))
}

/// A line's score across functions: `num` divided by `den`.
#[derive(Debug, Clone, PartialEq, Eq)]
pub struct RankedLine {
    pub file: String,
    pub line: u32,
    pub num: u128,
    pub den: u128,
}

/// Whether the scores are those of the owned lines.
pub open spec fn is_blend(
    fns: Seq<ScopedFunction>,
    features: Seq<FunctionFeatures>,
    list: Seq<LineOwner>,
    r: Seq<RankedLine>,
) -> bool {
    let all = products(fns, features, list);
    &&& r.len() == list.len()
    &&& forall|k: int|
        0 <= k < r.len() ==> (#[trigger] r[k]).file@ == list[k].file@ && r[k].line == list[k].line
            && (r[k].num as int, r[k].den as int) == place(all, all[k])
}

/// Whether the scores are those of every scored line among the functions.
pub open spec fn is_repo_scores(fns: Seq<ScopedFunction>, r: Seq<RankedLine>) -> bool {
    exists|
        edges: Seq<Seq<usize>>,
        levels: Seq<u32>,
        features: Seq<FunctionFeatures>,
        list: Seq<LineOwner>,
    | #[trigger]
        is_features(fns, edges, levels, features) && is_owner_list(fns, list)
            && #[trigger] is_blend(fns, features, list, r)
}

/// Whether the scores are those of every scored line, with the file left out.
pub open spec fn is_file_scores(fns: Seq<ScopedFunction>, r: Seq<(u32, u128, u128)>) -> bool {
    exists|all: Seq<RankedLine>| #[trigger]
        is_repo_scores(fns, all) && r == all.map_values(
            |l: RankedLine| (l.line, l.num, l.den),
        )
}

fn line_score(f: &ScopedFunction, line: u32) -> (r: i64)
    requires
        f.ok(),
    ensures
        r == score_from(f.lines@, f.scores@, line, 0),
{
    let mut k: usize = 0;
    while k < f.lines.len()
        invariant
            k <= f.lines.len(),
            f.ok(),
            score_from(f.lines@, f.scores@, line, 0) == score_from(
                f.lines@,
                f.scores@,
                line,
                k as int,
            ),
        decreases f.lines.len() - k,
    {
        if f.lines[k] == line {
            return f.scores[k];
        }
        k += 1;
    }
    0
}

proof fn lemma_owner_in_range(fns: Seq<ScopedFunction>, file: Seq<char>, line: u32, k: int)
    requires
        0 <= k <= fns.len(),
        fns.len() <= usize::MAX,
    ensures
        owner_before(fns, file, line, k) matches Some(i) ==> i < k,
    decreases k,
{
    if k > 0 {
        lemma_owner_in_range(fns, file, line, k - 1);
    }
}

fn rank_products(v: &Vec<i128>) -> (r: Vec<(u128, u128)>)
    ensures
        r.len() == v.len(),
        forall|k: int|
            0 <= k < r.len() ==> ((#[trigger] r@[k]).0 as int, r@[k].1 as int) == place(
                v@.map_values(|x: i128| x as int),
                v@[k] as int,
            ),
{
    let ghost all = v@.map_values(|x: i128| x as int);
    let n: usize = v.len();
    let mut out: Vec<(u128, u128)> = Vec::new();
    let mut i: usize = 0;
    while i < n
        invariant
            i <= n,
            n == v.len(),
            all == v@.map_values(|x: i128| x as int),
            out.len() == i,
            forall|k: int|
                0 <= k < i ==> ((#[trigger] out@[k]).0 as int, out@[k].1 as int) == place(
                    all,
                    v@[k] as int,
                ),
        decreases n - i,
    {
        let x: i128 = v[i];
        let mut less: usize = 0;
        let mut equal: usize = 0;
        let mut k: usize = 0;
        while k < n
            invariant
                k <= n,
                n == v.len(),
                all == v@.map_values(|x: i128| x as int),
                less == below(all, x as int, k as int),
                equal == tied(all, x as int, k as int),
                less <= k,
                equal <= k,
            decreases n - k,
        {
            if v[k] < x {
                less += 1;
            } else if v[k] == x {
                equal += 1;
            }
            k += 1;
        }
        proof {
            assert(all[i as int] == x as int);
            lemma_tied_self(all, i as int, n as int);
        }
        if n <= 1 {
            out.push((1, 2));
        } else {
            out.push((2 * less as u128 + equal as u128 - 1, 2 * (n as u128 - 1)));
        }
        i += 1;
    }
    out
}

/// The scores of every scored line among the functions, which may come from
/// many files: a call may cross a file boundary, and lines of all files are
/// ranked together.
#[must_use]
pub fn repo_scores(functions: &[ScopedFunction]) -> (r: Vec<RankedLine>)
    requires
        functions.len() < u32::MAX,
        forall|i: int|
            0 <= i < functions@.len() ==> (#[trigger] functions@[i]).ok()
                && functions@[i].lines@.len() <= u32::MAX,
    ensures
        is_repo_scores(functions@, r@),
{
    let features = function_features(functions);
    let ghost (edges, levels) = choose|edges: Seq<Seq<usize>>, levels: Seq<u32>| #[trigger]
        is_features(functions@, edges, levels, features@);
    let list = line_owners_by_file(functions);
    let n: usize = functions.len();
    let ghost all = products(functions@, features@, list@);
    let mut raw: Vec<i128> = Vec::new();
    let mut k: usize = 0;
    while k < list.len()
        invariant
            k <= list.len(),
            n == functions.len(),
            n < u32::MAX,
            forall|i: int| 0 <= i < functions@.len() ==> (#[trigger] functions@[i]).ok(),
            is_features(functions@, edges, levels, features@),
            is_owner_list(functions@, list@),
            all == products(functions@, features@, list@),
            raw.len() == k,
            forall|j: int| 0 <= j < k ==> #[trigger] raw@[j] == all[j],
        decreases list.len() - k,
    {
        let o: usize = list[k].owner;
        proof {
            assert(owner(functions@, list@[k as int].file@, list@[k as int].line) == Some(
                list@[k as int].owner,
            ));
            lemma_owner_in_range(
                functions@,
                list@[k as int].file@,
                list@[k as int].line,
                functions@.len() as int,
            );
            features_are_ranks(functions@, edges, levels, features@, o as int);
        }
        let w: i128 = if n <= 1 {
            1
        } else {
            features[o].total() as i128 - 8
        };
        let s: i64 = line_score(&functions[o], list[k].line);
        proof {
            assert(-0x100_0000_0000_0000_0000_0000_0000 <= w * s
                <= 0x100_0000_0000_0000_0000_0000_0000) by (nonlinear_arith)
                requires
                    -8 <= w <= 0x10_0000_0000,
                    -0x8000_0000_0000_0000 <= s <= 0x7fff_ffff_ffff_ffff,
            ;
        }
        raw.push(w * s as i128);
        k += 1;
    }
    let places = rank_products(&raw);
    assert(raw@.map_values(|x: i128| x as int) =~= all);
    let mut out: Vec<RankedLine> = Vec::new();
    let mut k: usize = 0;
    while k < list.len()
        invariant
            k <= list.len(),
            places.len() == list.len(),
            all == products(functions@, features@, list@),
            raw@.len() == list@.len(),
            forall|j: int| 0 <= j < list@.len() ==> #[trigger] raw@[j] == all[j],
            raw@.map_values(|x: i128| x as int) == all,
            forall|j: int|
                0 <= j < list@.len() ==> ((#[trigger] places@[j]).0 as int, places@[j].1 as int)
                    == place(all, raw@[j] as int),
            out.len() == k,
            forall|j: int|
                0 <= j < k ==> (#[trigger] out@[j]).file@ == list@[j].file@ && out@[j].line
                    == list@[j].line && (out@[j].num as int, out@[j].den as int) == place(
                    all,
                    all[j],
                ),
        decreases list.len() - k,
    {
        let (num, den) = places[k];
        assert((places@[k as int].0 as int, places@[k as int].1 as int) == place(
            all,
            raw@[k as int] as int,
        ));
        out.push(RankedLine { file: list[k].file.clone(), line: list[k].line, num, den });
        k += 1;
    }
    assert(is_blend(functions@, features@, list@, out@));
    assert(is_repo_scores(functions@, out@));
    out
}

/// The scores of every scored line of one file: all functions passed in share
/// it.
#[must_use]
pub fn file_scores(functions: &[ScopedFunction]) -> (r: Vec<(u32, u128, u128)>)
    requires
        functions.len() < u32::MAX,
        forall|i: int|
            0 <= i < functions@.len() ==> (#[trigger] functions@[i]).ok()
                && functions@[i].lines@.len() <= u32::MAX,
    ensures
        is_file_scores(functions@, r@),
{
    let all = repo_scores(functions);
    let mut out: Vec<(u32, u128, u128)> = Vec::new();
    let mut k: usize = 0;
    while k < all.len()
        invariant
            k <= all.len(),
            out@ =~= all@.map_values(|l: RankedLine| (l.line, l.num, l.den)).take(k as int),
        decreases all.len() - k,
    {
        out.push((all[k].line, all[k].num, all[k].den));
        k += 1;
    }
    assert(out@ =~= all@.map_values(|l: RankedLine| (l.line, l.num, l.den)));
    assert(is_file_scores(functions@, out@));
    out
}

/// The place of a line in a list of owned lines.
pub open spec fn line_key(o: LineOwner) -> (Seq<char>, u32) {
    (o.file@, o.line)
}

/// The product of a line that is named by its place.
pub open spec fn key_product(
    fns: Seq<ScopedFunction>,
    features: Seq<FunctionFeatures>,
    key: (Seq<char>, u32),
) -> int {
    let o = owner(fns, key.0, key.1)->0;
    let f = fns[o as int];
    weight(fns.len(), features[o as int]) * score_from(f.lines@, f.scores@, key.1, 0)
}

proof fn lemma_features_same(
    fns: Seq<ScopedFunction>,
    e: Seq<Seq<usize>>,
    l: Seq<u32>,
    a: Seq<FunctionFeatures>,
    f: Seq<Seq<usize>>,
    m: Seq<u32>,
    b: Seq<FunctionFeatures>,
)
    requires
        is_features(fns, e, l, a),
        is_features(fns, f, m, b),
    ensures
        a == b,
{
    assert(e =~= f);
    assert forall|v: int| 0 <= v < l.len() implies l[v] == m[v] by {
        orders_are_determined(caller_lists(e), true, l, m, v);
    }
    assert(l =~= m);
    assert forall|i: int| 0 <= i < a.len() implies a[i] == b[i] by {
        let x = a[i];
        let y = b[i];
        assert(x.trophic == y.trophic);
        assert(x.fan_in == y.fan_in);
        assert(x.size_share == y.size_share);
        assert(x.boundary_density == y.boundary_density);
    }
    assert(a =~= b);
}

proof fn lemma_listed_in_both(
    fns: Seq<ScopedFunction>,
    a: Seq<LineOwner>,
    b: Seq<LineOwner>,
    i: int,
)
    requires
        fns.len() <= usize::MAX,
        is_owner_list(fns, a),
        is_owner_list(fns, b),
        0 <= i < a.len(),
    ensures
        exists|j: int| 0 <= j < b.len() && #[trigger] line_key(b[j]) == line_key(a[i]),
{
    let o = a[i].owner as int;
    owner_is_the_narrowest(fns, a[i].file@, a[i].line, fns.len() as int);
    assert(owner(fns, a[i].file@, a[i].line) == Some(a[i].owner));
    let n = choose|n: int| 0 <= n < fns[o].lines@.len() && fns[o].lines@[n] == a[i].line;
    assert(listed(b, fns[o].ir@.id.file, fns[o].lines@[n]));
    let j = choose|j: int|
        0 <= j < b.len() && (#[trigger] b[j]).file@ == fns[o].ir@.id.file && b[j].line
            == fns[o].lines@[n];
    assert(line_key(b[j]) == line_key(a[i]));
}

proof fn lemma_keys(
    fns: Seq<ScopedFunction>,
    features: Seq<FunctionFeatures>,
    list: Seq<LineOwner>,
)
    requires
        is_owner_list(fns, list),
    ensures
        ({
            let keys = list.map_values(|o: LineOwner| line_key(o));
            &&& keys.no_duplicates()
            &&& products(fns, features, list) == keys.map_values(
                |k: (Seq<char>, u32)| key_product(fns, features, k),
            )
        }),
{
    let keys = list.map_values(|o: LineOwner| line_key(o));
    assert forall|i: int, j: int| 0 <= i < keys.len() && 0 <= j < keys.len() && i != j implies keys[i]
        != keys[j] by {
        if i < j {
            assert(!(list[i].file@ == list[j].file@ && list[i].line == list[j].line));
        } else {
            assert(!(list[j].file@ == list[i].file@ && list[j].line == list[i].line));
        }
    }
    let all = products(fns, features, list);
    let by_key = keys.map_values(|k: (Seq<char>, u32)| key_product(fns, features, k));
    assert forall|i: int| 0 <= i < list.len() implies all[i] == by_key[i] by {
        assert(owner(fns, list[i].file@, list[i].line) == Some(list[i].owner));
    }
    assert(all =~= by_key);
}

proof fn lemma_keys_within(
    fns: Seq<ScopedFunction>,
    features: Seq<FunctionFeatures>,
    a: Seq<LineOwner>,
    b: Seq<LineOwner>,
    x: int,
)
    requires
        fns.len() <= usize::MAX,
        is_owner_list(fns, a),
        is_owner_list(fns, b),
    ensures
        a.len() <= b.len(),
        below(products(fns, features, a), x, a.len() as int) <= below(
            products(fns, features, b),
            x,
            b.len() as int,
        ),
        tied(products(fns, features, a), x, a.len() as int) <= tied(
            products(fns, features, b),
            x,
            b.len() as int,
        ),
{
    lemma_keys(fns, features, a);
    lemma_keys(fns, features, b);
    let ka = a.map_values(|o: LineOwner| line_key(o));
    let kb = b.map_values(|o: LineOwner| line_key(o));
    assert forall|i: int| 0 <= i < ka.len() implies kb.contains(#[trigger] ka[i]) by {
        lemma_listed_in_both(fns, a, b, i);
        let j = choose|j: int| 0 <= j < b.len() && #[trigger] line_key(b[j]) == line_key(a[i]);
        assert(kb[j] == ka[i]);
    }
    lemma_counts_of_part(
        ka,
        kb,
        |k: (Seq<char>, u32)| key_product(fns, features, k),
        x,
    );
}

/// The scores of the same functions are the same, line by line, whatever order
/// they come in: every line that one list scores, the other gives the same
/// score.
pub proof fn scores_are_determined(
    fns: Seq<ScopedFunction>,
    a: Seq<RankedLine>,
    b: Seq<RankedLine>,
    i: int,
)
    requires
        fns.len() <= usize::MAX,
        is_repo_scores(fns, a),
        is_repo_scores(fns, b),
        0 <= i < a.len(),
    ensures
        a.len() == b.len(),
        exists|j: int|
            0 <= j < b.len() && (#[trigger] b[j]).file@ == a[i].file@ && b[j].line == a[i].line
                && b[j].num == a[i].num && b[j].den == a[i].den,
{
    let (e, l, x, la) = choose|
        edges: Seq<Seq<usize>>,
        levels: Seq<u32>,
        features: Seq<FunctionFeatures>,
        list: Seq<LineOwner>,
    | #[trigger]
        is_features(fns, edges, levels, features) && is_owner_list(fns, list)
            && #[trigger] is_blend(fns, features, list, a);
    let (f, m, y, lb) = choose|
        edges: Seq<Seq<usize>>,
        levels: Seq<u32>,
        features: Seq<FunctionFeatures>,
        list: Seq<LineOwner>,
    | #[trigger]
        is_features(fns, edges, levels, features) && is_owner_list(fns, list)
            && #[trigger] is_blend(fns, features, list, b);
    lemma_features_same(fns, e, l, x, f, m, y);
    let pa = products(fns, x, la);
    let pb = products(fns, x, lb);
    lemma_keys_within(fns, x, la, lb, pa[i]);
    lemma_keys_within(fns, x, lb, la, pa[i]);
    lemma_listed_in_both(fns, la, lb, i);
    let j = choose|j: int| 0 <= j < lb.len() && #[trigger] line_key(lb[j]) == line_key(la[i]);
    assert(owner(fns, la[i].file@, la[i].line) == Some(la[i].owner));
    assert(owner(fns, lb[j].file@, lb[j].line) == Some(lb[j].owner));
    assert(pb[j] == pa[i]);
    assert(place(pa, pa[i]) == place(pb, pb[j]));
    assert(b[j].file@ == a[i].file@ && b[j].line == a[i].line);
}

/// Nothing is scored where there is no function, and both lists have the same
/// length.
pub proof fn no_function_scores_nothing(
    fns: Seq<ScopedFunction>,
    f: Seq<(u32, u128, u128)>,
    r: Seq<RankedLine>,
)
    requires
        fns.len() <= usize::MAX,
        is_file_scores(fns, f),
        is_repo_scores(fns, r),
    ensures
        f.len() == r.len(),
        fns.len() == 0 ==> f.len() == 0,
{
    let a = choose|a: Seq<RankedLine>| #[trigger]
        is_repo_scores(fns, a) && f == a.map_values(|l: RankedLine| (l.line, l.num, l.den));
    if a.len() > 0 {
        scores_are_determined(fns, a, r, 0);
    }
    if r.len() > 0 {
        scores_are_determined(fns, r, a, 0);
        let (e, l, x, list) = choose|
            edges: Seq<Seq<usize>>,
            levels: Seq<u32>,
            features: Seq<FunctionFeatures>,
            list: Seq<LineOwner>,
        | #[trigger]
            is_features(fns, edges, levels, features) && is_owner_list(fns, list)
                && #[trigger] is_blend(fns, features, list, r);
        owner_is_the_narrowest(fns, list[0].file@, list[0].line, fns.len() as int);
        assert(owner(fns, list[0].file@, list[0].line) is Some);
    }
}

/// Whether a line of a file has the given score in the list.
pub open spec fn scored_as(
    r: Seq<RankedLine>,
    file: Seq<char>,
    line: (u32, u128, u128),
) -> bool {
    exists|j: int|
        0 <= j < r.len() && (#[trigger] r[j]).file@ == file && (r[j].line, r[j].num, r[j].den)
            == line
}

/// Whether some function scores a line of a file.
pub open spec fn has_scorer(fns: Seq<ScopedFunction>, file: Seq<char>, line: u32) -> bool {
    exists|i: int| 0 <= i < fns.len() && #[trigger] scores_line(fns[i], file, line)
}

/// Whether a line is among those scored.
pub open spec fn is_scored(f: Seq<(u32, u128, u128)>, line: u32) -> bool {
    exists|k: int| 0 <= k < f.len() && (#[trigger] f[k]).0 == line
}

/// Where all functions share one file, its scores and those of the whole input
/// agree: the same lines with the same scores, each between zero and one. The
/// lines are those that some function scores, each once.
pub proof fn one_file_scores_as_a_whole(
    fns: Seq<ScopedFunction>,
    file: Seq<char>,
    f: Seq<(u32, u128, u128)>,
    r: Seq<RankedLine>,
)
    requires
        fns.len() <= usize::MAX,
        forall|i: int| 0 <= i < fns.len() ==> (#[trigger] fns[i]).ir@.id.file == file,
        is_file_scores(fns, f),
        is_repo_scores(fns, r),
    ensures
        f.len() == r.len(),
        forall|k: int| 0 <= k < f.len() ==> scored_as(r, file, #[trigger] f[k]),
        forall|j: int|
            0 <= j < r.len() ==> f.contains(((#[trigger] r[j]).line, r[j].num, r[j].den)),
        forall|k: int| 0 <= k < f.len() ==> (#[trigger] f[k]).1 <= f[k].2 && f[k].2 > 0,
        forall|j: int, k: int|
            0 <= j < k < f.len() ==> (#[trigger] f[j]).0 != (#[trigger] f[k]).0,
        forall|i: int, n: int|
            0 <= i < fns.len() && 0 <= n < fns[i].lines@.len() ==> is_scored(
                f,
                #[trigger] fns[i].lines@[n],
            ),
        forall|k: int| 0 <= k < f.len() ==> has_scorer(fns, file, (#[trigger] f[k]).0),
{
    no_function_scores_nothing(fns, f, r);
    let a = choose|a: Seq<RankedLine>| #[trigger]
        is_repo_scores(fns, a) && f == a.map_values(|l: RankedLine| (l.line, l.num, l.den));
    assert forall|k: int| 0 <= k < f.len() implies scored_as(r, file, #[trigger] f[k]) by {
        scores_are_determined(fns, a, r, k);
        lemma_scored_in_file(fns, file, a, k);
        let j = choose|j: int|
            0 <= j < r.len() && (#[trigger] r[j]).file@ == a[k].file@ && r[j].line == a[k].line
                && r[j].num == a[k].num && r[j].den == a[k].den;
        assert(r[j].file@ == file && (r[j].line, r[j].num, r[j].den) == f[k]);
    }
    assert forall|j: int| 0 <= j < r.len() implies f.contains(
        ((#[trigger] r[j]).line, r[j].num, r[j].den),
    ) by {
        scores_are_determined(fns, r, a, j);
        let k = choose|k: int|
            0 <= k < a.len() && (#[trigger] a[k]).file@ == r[j].file@ && a[k].line == r[j].line
                && a[k].num == r[j].num && a[k].den == r[j].den;
        assert(f[k] == (r[j].line, r[j].num, r[j].den));
    }
    assert forall|k: int| 0 <= k < f.len() implies (#[trigger] f[k]).1 <= f[k].2 && f[k].2 > 0 by {
        lemma_scored_in_file(fns, file, a, k);
    }
    let (e, l, x, list) = choose|
        edges: Seq<Seq<usize>>,
        levels: Seq<u32>,
        features: Seq<FunctionFeatures>,
        list: Seq<LineOwner>,
    | #[trigger]
        is_features(fns, edges, levels, features) && is_owner_list(fns, list)
            && #[trigger] is_blend(fns, features, list, a);
    assert forall|j: int, k: int| 0 <= j < k < f.len() implies (#[trigger] f[j]).0 != (
    #[trigger] f[k]).0 by {
        lemma_scored_in_file(fns, file, a, j);
        lemma_scored_in_file(fns, file, a, k);
        assert(a[j].line == list[j].line && a[k].line == list[k].line);
    }
    assert forall|i: int, n: int|
        0 <= i < fns.len() && 0 <= n < fns[i].lines@.len() implies is_scored(
        f,
        #[trigger] fns[i].lines@[n],
    ) by {
        assert(listed(list, fns[i].ir@.id.file, fns[i].lines@[n]));
        let k = choose|k: int|
            0 <= k < list.len() && (#[trigger] list[k]).file@ == fns[i].ir@.id.file && list[k].line
                == fns[i].lines@[n];
        assert(a[k].line == list[k].line);
        assert(f[k].0 == fns[i].lines@[n]);
    }
    assert forall|k: int| 0 <= k < f.len() implies has_scorer(fns, file, (#[trigger] f[k]).0) by {
        lemma_scored_in_file(fns, file, a, k);
        assert(a[k].file@ == list[k].file@ && a[k].line == list[k].line);
        owner_is_the_narrowest(fns, list[k].file@, list[k].line, fns.len() as int);
        assert(owner(fns, list[k].file@, list[k].line) == Some(list[k].owner));
        assert(scores_line(fns[list[k].owner as int], file, f[k].0));
    }
}

proof fn lemma_scored_in_file(
    fns: Seq<ScopedFunction>,
    file: Seq<char>,
    a: Seq<RankedLine>,
    k: int,
)
    requires
        fns.len() <= usize::MAX,
        forall|i: int| 0 <= i < fns.len() ==> (#[trigger] fns[i]).ir@.id.file == file,
        is_repo_scores(fns, a),
        0 <= k < a.len(),
    ensures
        a[k].file@ == file,
        a[k].num <= a[k].den,
        a[k].den > 0,
{
    let (e, l, x, list) = choose|
        edges: Seq<Seq<usize>>,
        levels: Seq<u32>,
        features: Seq<FunctionFeatures>,
        list: Seq<LineOwner>,
    | #[trigger]
        is_features(fns, edges, levels, features) && is_owner_list(fns, list)
            && #[trigger] is_blend(fns, features, list, a);
    owner_is_the_narrowest(fns, list[k].file@, list[k].line, fns.len() as int);
    assert(owner(fns, list[k].file@, list[k].line) == Some(list[k].owner));
    assert(fns[list[k].owner as int].ir@.id.file == file);
    let all = products(fns, x, list);
    places_lie_between_zero_and_one(all, k);
    assert((a[k].num as int, a[k].den as int) == place(all, all[k]));
}

} // verus!
