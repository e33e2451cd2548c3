//! Projects the tiers of nodes onto source lines.
//!
//! Per line: the strongest tier, the greatest score, and every reason.
//! Consecutive lines merge into a span only when tier and score agree, so the
//! gradient survives. Instructions without a source line project nowhere.

use vstd::prelude::*;

use crate::artifact::{all_lines, spans_ok};
use crate::ascending::{lemma_vars_listed, put_var, vars_ascend, vars_listed, with_var};
use crate::filescope::{line_tier, tier_of_line};
use crate::importance::{LineSpan, NodeImportance, Tier};
use crate::ir::{FunctionIr, FunctionView};
use crate::text::{
    chars_of, comes_before, decimal, decimal_text, joined, precedes, same, texts,
};
use crate::tiering::{
    every_node_carries_a_reason, is_importance_of, reasons_of, FunctionImportance, Reason,
};

verus! {

impl Reason {
    /// The reason in words.
    pub open spec fn text(self) -> Seq<char> {
        match self {
            Reason::Denylisted => "denylisted call"@,
            Reason::FeedsDenylisted => "builds arguments for a denylisted call only"@,
            Reason::DiscardsDenylisted => "discards the result of a denylisted call"@,
            Reason::Effect => "behavior leaves the body here"@,
            Reason::Governs { nodes } => "decides whether "@ + decimal(nodes as nat)
                + " instruction(s) run"@,
            Reason::LoopCarried { depth } => "loop-carried definition at nesting depth "@
                + decimal(depth as nat),
            Reason::ReachesEffect => "an effect rests on it"@,
            Reason::ReachesNothing => "no effect rests on it"@,
        }
    }

    /// The reason in words.
    #[must_use]
    pub fn words(&self) -> (r: String)
        ensures
            r@ == self.text(),
    {
        match self {
            Reason::Denylisted => "denylisted call".to_owned(),
            Reason::FeedsDenylisted => "builds arguments for a denylisted call only".to_owned(),
            Reason::DiscardsDenylisted => "discards the result of a denylisted call".to_owned(),
            Reason::Effect => "behavior leaves the body here".to_owned(),
            Reason::Governs { nodes } => {
                let a = joined("decides whether ", decimal_text(*nodes as u128).as_str());
                joined(a.as_str(), " instruction(s) run")
            },
            Reason::LoopCarried { depth } => joined(
                "loop-carried definition at nesting depth ",
                decimal_text(*depth as u128).as_str(),
            ),
            Reason::ReachesEffect => "an effect rests on it".to_owned(),
            Reason::ReachesNothing => "no effect rests on it".to_owned(),
        }
    }
}

/// Where a text belongs among the first `n` of an ordered list: behind the
/// last that does not come after it.
pub open spec fn text_place(list: Seq<Seq<char>>, t: Seq<char>, n: int) -> int
    decreases n,
{
    if n <= 0 || n > list.len() {
        0
    } else if precedes(t, list[n - 1]) {
        text_place(list, t, n - 1)
    } else {
        n
    }
}

/// An ordered list with a text put at its place, unless it is there.
pub open spec fn with_text(list: Seq<Seq<char>>, t: Seq<char>) -> Seq<Seq<char>> {
    let p = text_place(list, t, list.len() as int);
    if p > 0 && list[p - 1] == t {
        list
    } else {
        list.insert(p, t)
    }
}

/// An ordered list with the first `k` of some texts put in.
pub open spec fn with_texts(list: Seq<Seq<char>>, more: Seq<Seq<char>>, k: int) -> Seq<Seq<char>>
    decreases k,
{
    if k <= 0 || k > more.len() {
        list
    } else {
        with_text(with_texts(list, more, k - 1), more[k - 1])
    }
}

/// The words of some reasons.
pub open spec fn words_of(reasons: Seq<Reason>) -> Seq<Seq<char>> {
    reasons.map_values(|r: Reason| r.text())
}

/// Whether a node says something of a line: it comes from it and carries a
/// signal of its own.
pub open spec fn speaks_of(f: FunctionView, i: int, line: u32) -> bool {
    f.nodes[i].line == Some(line) && !f.nodes[i].structural()
}

/// The reasons of the first `k` nodes for a line, in order.
pub open spec fn reasons_for(
    f: FunctionView,
    reasons: Seq<Vec<Reason>>,
    line: u32,
    k: int,
) -> Seq<Seq<char>>
    decreases k,
{
    if k <= 0 || k > f.nodes.len() {
        Seq::empty()
    } else {
        let rest = reasons_for(f, reasons, line, k - 1);
        if speaks_of(f, k - 1, line) {
            let more = words_of(reasons[k - 1]@);
            with_texts(rest, more, more.len() as int)
        } else {
            rest
        }
    }
}

/// The greatest score that the first `k` nodes give a line.
pub open spec fn score_for(f: FunctionView, scores: Seq<i64>, line: u32, k: int) -> Option<i64>
    decreases k,
{
    if k <= 0 || k > f.nodes.len() {
        None
    } else {
        let rest = score_for(f, scores, line, k - 1);
        if speaks_of(f, k - 1, line) {
            match rest {
                Some(s) => if scores[k - 1] > s {
                    Some(scores[k - 1])
                } else {
                    rest
                },
                None => Some(scores[k - 1]),
            }
        } else {
            rest
        }
    }
}

/// The lines that the first `k` nodes speak of.
pub open spec fn lines_spoken(f: FunctionView, k: int) -> Set<u32>
    decreases k,
{
    if k <= 0 || k > f.nodes.len() {
        Set::empty()
    } else {
        let rest = lines_spoken(f, k - 1);
        match f.nodes[k - 1].line {
            Some(l) => if f.nodes[k - 1].structural() {
                rest
            } else {
                rest.insert(l)
            },
            None => rest,
        }
    }
}

/// The lines of a function that are mapped, ascending.
pub open spec fn mapped_lines(f: FunctionView) -> Seq<u32> {
    vars_listed(lines_spoken(f, f.nodes.len() as int))
}

/// What is known of a line.
#[verifier::ext_equal]
pub struct LineView {
    pub line: u32,
    pub tier: Tier,
    pub score: i64,
    pub reasons: Seq<Seq<char>>,
}

/// What is known of a mapped line.
pub open spec fn line_of(f: FunctionView, r: FunctionImportance, line: u32) -> LineView {
    let n = f.nodes.len() as int;
    LineView {
        line,
        tier: match tier_of_line(f, r.nodes@, line, n) {
            Some(t) => t,
            None => Tier::Plumbing,
        },
        score: match score_for(f, r.scores@, line, n) {
            Some(s) => s,
            None => 0,
        },
        reasons: reasons_for(f, r.reasons@, line, n),
    }
}

pub open spec fn all_lines_of(f: FunctionView, r: FunctionImportance) -> Seq<LineView> {
    mapped_lines(f).map_values(|l: u32| line_of(f, r, l))
}

/// How many of the first `k` lines score less.
pub open spec fn scoring_less(lines: Seq<LineView>, score: i64, k: int) -> nat
    decreases k,
{
    if k <= 0 || k > lines.len() {
        0
    } else {
        scoring_less(lines, score, k - 1) + if lines[k - 1].score < score {
            1nat
        } else {
            0nat
        }
    }
}

/// The quotient of two numbers, rounded to the nearest, upwards from the middle.
pub open spec fn rounded(a: nat, b: nat) -> nat {
    (2 * a + b) / (2 * b)
}

/// Where a score stands among those of the function's lines, in hundredths:
/// the share of the other lines that score less, rounded.
pub open spec fn rank_of(lines: Seq<LineView>, score: i64) -> i64 {
    if lines.len() <= 1 {
        100
    } else {
        rounded(100 * scoring_less(lines, score, lines.len() as int), (lines.len() - 1) as nat) as i64
    }
}

/// A run of lines as plain values.
#[verifier::ext_equal]
pub struct RunView {
    pub start: u32,
    pub end: u32,
    pub tier: Tier,
    pub score: i64,
    pub rank: i64,
    pub reasons: Seq<Seq<char>>,
}

/// A span as plain values.
pub open spec fn run_of(s: LineSpan) -> RunView {
    RunView {
        start: s.start,
        end: s.end,
        tier: s.tier,
        score: s.score,
        rank: s.rank,
        reasons: texts(s.reasons@),
    }
}

pub open spec fn runs_of(v: Seq<LineSpan>) -> Seq<RunView> {
    v.map_values(|s: LineSpan| run_of(s))
}

/// The runs of the first `k` lines: a line joins the run before it when it is
/// the next line and tier and score agree.
pub open spec fn runs_before(lines: Seq<LineView>, k: int) -> Seq<RunView>
    decreases k,
{
    if k <= 0 || k > lines.len() {
        Seq::empty()
    } else {
        let rest = runs_before(lines, k - 1);
        let l = lines[k - 1];
        if rest.len() > 0 && rest.last().end + 1 == l.line && rest.last().tier == l.tier
            && rest.last().score == l.score {
            rest.drop_last().push(
                RunView {
                    end: l.line,
                    reasons: with_texts(rest.last().reasons, l.reasons, l.reasons.len() as int),
                    ..rest.last()
                },
            )
        } else {
            rest.push(
                RunView {
                    start: l.line,
                    end: l.line,
                    tier: l.tier,
                    score: l.score,
                    rank: rank_of(lines, l.score),
                    reasons: l.reasons,
                },
            )
        }
    }
}

/// What an analysis is projected to.
pub open spec fn projected(f: FunctionView, r: FunctionImportance) -> Seq<RunView> {
    let lines = all_lines_of(f, r);
    runs_before(lines, lines.len() as int)
}

/// A line takes the strongest tier of the nodes that speak of it, so one that
/// holds both a denylisted call and real work reads as real work.
pub proof fn a_line_takes_the_strongest_tier(
    f: FunctionView,
    importance: Seq<NodeImportance>,
    line: u32,
    k: int,
    i: int,
)
    requires
        0 <= i < k <= importance.len(),
        speaks_of(f, importance[i].node as int, line),
    ensures
        tier_of_line(f, importance, line, k) matches Some(t) && t.strength()
            >= importance[i].tier.strength(),
    decreases k,
{
    if i < k - 1 {
        a_line_takes_the_strongest_tier(f, importance, line, k - 1, i);
    }
}

/// A line that no node speaks of is not mapped.
pub proof fn unspoken_lines_are_not_mapped(f: FunctionView, line: u32, k: int)
    requires
        0 <= k <= f.nodes.len(),
        forall|i: int| 0 <= i < k ==> !(#[trigger] speaks_of(f, i, line)),
    ensures
        !lines_spoken(f, k).contains(line),
    decreases k,
{
    if k > 0 {
        unspoken_lines_are_not_mapped(f, line, k - 1);
        assert(!speaks_of(f, k - 1, line));
    }
}

proof fn lemma_mapped(f: FunctionView, k: int) -> (q: Seq<u32>)
    requires
        0 <= k <= f.nodes.len(),
    ensures
        vars_ascend(q),
        q.to_set() == lines_spoken(f, k),
    decreases k,
{
    if k == 0 {
        let q = Seq::<u32>::empty();
        assert(q.to_set() =~= Set::<u32>::empty());
        q
    } else {
        let rest = lemma_mapped(f, k - 1);
        match f.nodes[k - 1].line {
            Some(l) => if f.nodes[k - 1].structural() {
                rest
            } else {
                with_var(rest, l)
            },
            None => rest,
        }
    }
}

/// The mapped lines ascend, and they are those that some node speaks of.
pub proof fn mapped_lines_are_those_spoken_of(f: FunctionView)
    ensures
        vars_ascend(mapped_lines(f)),
        mapped_lines(f).to_set() == lines_spoken(f, f.nodes.len() as int),
{
    let q = lemma_mapped(f, f.nodes.len() as int);
    assert(vars_ascend(q) && q.to_set() == lines_spoken(f, f.nodes.len() as int));
}

proof fn lemma_spoken(f: FunctionView, line: u32, k: int) -> (i: int)
    requires
        0 <= k <= f.nodes.len(),
        lines_spoken(f, k).contains(line),
    ensures
        0 <= i < k,
        speaks_of(f, i, line),
    decreases k,
{
    if speaks_of(f, k - 1, line) {
        k - 1
    } else {
        lemma_spoken(f, line, k - 1)
    }
}

proof fn lemma_with_texts_grows(list: Seq<Seq<char>>, more: Seq<Seq<char>>, k: int)
    requires
        0 <= k <= more.len(),
    ensures
        with_texts(list, more, k).len() >= list.len(),
        k > 0 ==> with_texts(list, more, k).len() > 0,
    decreases k,
{
    if k > 0 {
        lemma_with_texts_grows(list, more, k - 1);
        lemma_text_place(
            with_texts(list, more, k - 1),
            more[k - 1],
            with_texts(list, more, k - 1).len() as int,
        );
    }
}

proof fn lemma_reasons_for(f: FunctionView, reasons: Seq<Vec<Reason>>, line: u32, k: int, i: int)
    requires
        0 <= i < k <= f.nodes.len(),
        speaks_of(f, i, line),
        reasons[i]@.len() > 0,
    ensures
        reasons_for(f, reasons, line, k).len() > 0,
    decreases k,
{
    let rest = reasons_for(f, reasons, line, k - 1);
    let more = words_of(reasons[k - 1]@);
    lemma_with_texts_grows(rest, more, more.len() as int);
    if i < k - 1 {
        lemma_reasons_for(f, reasons, line, k - 1, i);
    }
}

proof fn lemma_runs_have_reasons(lines: Seq<LineView>, k: int, j: int)
    requires
        0 <= k <= lines.len(),
        forall|i: int| 0 <= i < lines.len() ==> (#[trigger] lines[i]).reasons.len() > 0,
        0 <= j < runs_before(lines, k).len(),
    ensures
        runs_before(lines, k)[j].reasons.len() > 0,
    decreases k,
{
    let rest = runs_before(lines, k - 1);
    let l = lines[k - 1];
    if j < rest.len() {
        lemma_runs_have_reasons(lines, k - 1, j);
    }
    if rest.len() > 0 {
        lemma_with_texts_grows(rest.last().reasons, l.reasons, l.reasons.len() as int);
    }
}

/// Every span carries its reason.
pub proof fn every_span_carries_its_reason(
    f: FunctionView,
    r: FunctionImportance,
    patterns: Seq<Seq<char>>,
    scores: Seq<i64>,
    j: int,
)
    requires
        is_importance_of(r, f, patterns, scores),
        0 <= j < projected(f, r).len(),
    ensures
        projected(f, r)[j].reasons.len() > 0,
{
    let lines = all_lines_of(f, r);
    mapped_lines_are_those_spoken_of(f);
    assert forall|i: int| 0 <= i < lines.len() implies (#[trigger] lines[i]).reasons.len() > 0 by {
        let line = mapped_lines(f)[i];
        assert(mapped_lines(f).to_set().contains(line));
        let n = lemma_spoken(f, line, f.nodes.len() as int);
        assert(r.reasons@[n]@ == reasons_of(f, patterns, n));
        every_node_carries_a_reason(f, patterns, n);
        lemma_reasons_for(f, r.reasons@, line, f.nodes.len() as int, n);
    }
    lemma_runs_have_reasons(lines, lines.len() as int, j);
}

/// Whether a run covers a line and says of it what is known.
pub open spec fn covers(run: RunView, l: LineView) -> bool {
    run.start <= l.line <= run.end && run.tier == l.tier && run.score == l.score
}

/// Whether some run covers a line.
pub open spec fn covered(runs: Seq<RunView>, l: LineView) -> bool {
    exists|j: int| 0 <= j < runs.len() && covers(#[trigger] runs[j], l)
}

proof fn lemma_runs(lines: Seq<LineView>, k: int)
    requires
        0 <= k <= lines.len(),
        forall|i: int, j: int|
            0 <= i < j < lines.len() ==> (#[trigger] lines[i]).line < (#[trigger] lines[j]).line,
    ensures
        k > 0 ==> runs_before(lines, k).len() > 0 && runs_before(lines, k).last().end == lines[k
            - 1].line,
        forall|i: int| 0 <= i < k ==> covered(runs_before(lines, k), #[trigger] lines[i]),
        forall|a: int, b: int|
            0 <= a < b < runs_before(lines, k).len() ==> (#[trigger] runs_before(
                lines,
                k,
            )[a]).end < (#[trigger] runs_before(lines, k)[b]).start,
        forall|a: int|
            0 <= a < runs_before(lines, k).len() ==> (#[trigger] runs_before(lines, k)[a]).start
                <= runs_before(lines, k)[a].end,
    decreases k,
{
    if k > 0 {
        lemma_runs(lines, k - 1);
        let rest = runs_before(lines, k - 1);
        let all = runs_before(lines, k);
        let l = lines[k - 1];
        assert forall|i: int| 0 <= i < k implies covered(all, #[trigger] lines[i]) by {
            if i < k - 1 {
                assert(covered(rest, lines[i]));
                let j = choose|j: int| 0 <= j < rest.len() && covers(#[trigger] rest[j], lines[i]);
                assert(covers(all[j], lines[i]));
            } else {
                assert(covers(all[all.len() - 1], l));
            }
        }
        assert forall|a: int, b: int| 0 <= a < b < all.len() implies (#[trigger] all[a]).end < (
        #[trigger] all[b]).start by {
            if b < rest.len() {
                assert(rest[a].end < rest[b].start);
            } else if a < rest.len() {
                assert(rest[a].end <= rest.last().end) by {
                    if a < rest.len() - 1 {
                        assert(rest[a].end < rest[rest.len() - 1].start);
                    }
                }
            }
        }
    }
}

/// Every mapped line lies in a span that has its tier and its score: lines are
/// joined only where both agree. Spans come in order and do not overlap.
pub proof fn joining_keeps_tier_and_score(f: FunctionView, r: FunctionImportance, i: int)
    requires
        0 <= i < mapped_lines(f).len(),
    ensures
        covered(projected(f, r), line_of(f, r, mapped_lines(f)[i])),
        forall|a: int, b: int|
            0 <= a < b < projected(f, r).len() ==> (#[trigger] projected(f, r)[a]).end < (
            #[trigger] projected(f, r)[b]).start,
{
    let lines = all_lines_of(f, r);
    mapped_lines_are_those_spoken_of(f);
    assert forall|x: int, y: int| 0 <= x < y < lines.len() implies (#[trigger] lines[x]).line < (
    #[trigger] lines[y]).line by {
        assert(mapped_lines(f)[x] < mapped_lines(f)[y]);
    }
    lemma_runs(lines, lines.len() as int);
    assert(lines[i] == line_of(f, r, mapped_lines(f)[i]));
}

fn earlier(a: &str, b: &str) -> (r: bool)
    ensures
        r == precedes(a@, b@),
{
    let x = chars_of(a);
    let y = chars_of(b);
    comes_before(x.as_slice(), y.as_slice())
}

proof fn lemma_text_place(list: Seq<Seq<char>>, t: Seq<char>, n: int)
    requires
        0 <= n <= list.len(),
    ensures
        0 <= text_place(list, t, n) <= n,
    decreases n,
{
    if n > 0 && precedes(t, list[n - 1]) {
        lemma_text_place(list, t, n - 1);
    }
}

/// Puts a text at its place in an ordered list, unless it is there.
fn put_text(list: &mut Vec<String>, t: String)
    ensures
        texts(final(list)@) == with_text(texts(old(list)@), t@),
{
    let ghost before = list@;
    let ghost v = texts(before);
    let mut p: usize = list.len();
    while p > 0 && earlier(t.as_str(), list[p - 1].as_str())
        invariant
            p <= list.len(),
            list@ == before,
            v == texts(before),
            text_place(v, t@, before.len() as int) == text_place(v, t@, p as int),
        decreases p,
    {
        assert(v[p - 1] == list@[p - 1]@);
        p -= 1;
    }
    proof {
        if p > 0 {
            assert(v[p - 1] == list@[p - 1]@);
        }
    }
    if p > 0 && same(list[p - 1].as_str(), t.as_str()) {
        return ;
    }
    let ghost tv = t@;
    list.insert(p, t);
    assert(texts(list@) =~= v.insert(p as int, tv));
}

fn put_texts(list: &mut Vec<String>, more: &Vec<String>)
    ensures
        texts(final(list)@) == with_texts(texts(old(list)@), texts(more@), more@.len() as int),
{
    let ghost v = texts(list@);
    let mut k: usize = 0;
    while k < more.len()
        invariant
            k <= more.len(),
            texts(list@) == with_texts(v, texts(more@), k as int),
        decreases more.len() - k,
    {
        assert(texts(more@)[k as int] == more@[k as int]@);
        put_text(list, more[k].clone());
        k += 1;
    }
}

fn put_words(list: &mut Vec<String>, reasons: &Vec<Reason>)
    ensures
        texts(final(list)@) == with_texts(
            texts(old(list)@),
            words_of(reasons@),
            reasons@.len() as int,
        ),
{
    let ghost v = texts(list@);
    let mut k: usize = 0;
    while k < reasons.len()
        invariant
            k <= reasons.len(),
            texts(list@) == with_texts(v, words_of(reasons@), k as int),
        decreases reasons.len() - k,
    {
        put_text(list, reasons[k].words());
        k += 1;
    }
}

/// Whether an analysis has one entry per node.
pub open spec fn fits(f: FunctionView, r: FunctionImportance) -> bool {
    let n = f.nodes.len();
    &&& r.nodes@.len() == n && r.scores@.len() == n && r.reasons@.len() == n
    &&& forall|i: int| 0 <= i < n ==> (#[trigger] r.nodes@[i]).node == i
}

/// An analysis of a function has one entry per node.
pub proof fn an_importance_fits(
    f: FunctionView,
    r: FunctionImportance,
    patterns: Seq<Seq<char>>,
    scores: Seq<i64>,
)
    requires
        is_importance_of(r, f, patterns, scores),
    ensures
        fits(f, r),
{
}

fn list_lines(ir: &FunctionIr) -> (r: Vec<u32>)
    ensures
        r@ == mapped_lines(ir@),
        vars_ascend(r@),
{
    let ghost f = ir@;
    let mut out: Vec<u32> = Vec::new();
    let mut k: usize = 0;
    assert(out@.to_set() =~= Set::empty());
    while k < ir.nodes.len()
        invariant
            k <= ir.nodes.len(),
            f == ir@,
            vars_ascend(out@),
            out@.to_set() == lines_spoken(f, k as int),
        decreases ir.nodes.len() - k,
    {
        assert(f.nodes[k as int] == ir.nodes@[k as int]@);
        if let Some(l) = ir.nodes[k].line {
            if !ir.nodes[k].is_structural() {
                put_var(&mut out, l);
            }
        }
        k += 1;
    }
    proof {
        lemma_vars_listed(out@);
    }
    out
}

fn line_says(node_line: Option<u32>, line: u32) -> (r: bool)
    ensures
        r == (node_line == Some(line)),
{
    match node_line {
        Some(l) => l == line,
        None => false,
    }
}

/// What is known of a line: a span of that line alone.
fn read_line(ir: &FunctionIr, importance: &FunctionImportance, line: u32) -> (r: LineSpan)
    requires
        fits(ir@, *importance),
    ensures
        r.start == line,
        r.end == line,
        r.tier == line_of(ir@, *importance, line).tier,
        r.score == line_of(ir@, *importance, line).score,
        texts(r.reasons@) == line_of(ir@, *importance, line).reasons,
{
    let ghost f = ir@;
    let ghost n = f.nodes.len() as int;
    let tier = match line_tier(ir, importance.nodes.as_slice(), line) {
        Some(t) => t,
        None => Tier::Plumbing,
    };
    let mut best: Option<i64> = None;
    let mut reasons: Vec<String> = Vec::new();
    let mut k: usize = 0;
    assert(texts(reasons@) =~= Seq::empty());
    while k < ir.nodes.len()
        invariant
            k <= ir.nodes.len(),
            f == ir@,
            fits(f, *importance),
            best == score_for(f, importance.scores@, line, k as int),
            texts(reasons@) == reasons_for(f, importance.reasons@, line, k as int),
        decreases ir.nodes.len() - k,
    {
        assert(f.nodes[k as int] == ir.nodes@[k as int]@);
        if line_says(ir.nodes[k].line, line) && !ir.nodes[k].is_structural() {
            let s: i64 = importance.scores[k];
            best = match best {
                Some(b) => if s > b {
                    Some(s)
                } else {
                    Some(b)
                },
                None => Some(s),
            };
            put_words(&mut reasons, &importance.reasons[k]);
            assert(words_of(importance.reasons@[k as int]@).len()
                == importance.reasons@[k as int]@.len());
        }
        k += 1;
    }
    let score = match best {
        Some(s) => s,
        None => 0,
    };
    LineSpan { start: line, end: line, tier, score, rank: 0, reasons }
}

/// What is known of every line, not yet ranked.
spec fn lines_read(v: Seq<LineSpan>, lines: Seq<LineView>) -> bool {
    v.len() == lines.len() && forall|i: int|
        0 <= i < v.len() ==> (#[trigger] v[i]).start == lines[i].line && v[i].end == lines[i].line
            && v[i].tier == lines[i].tier && v[i].score == lines[i].score && texts(v[i].reasons@)
            == lines[i].reasons
}

fn rank(v: &Vec<LineSpan>, score: i64, Ghost(lines): Ghost<Seq<LineView>>) -> (r: i64)
    requires
        lines_read(v@, lines),
    ensures
        r == rank_of(lines, score),
{
    let n: usize = v.len();
    if n <= 1 {
        return 100;
    }
    let mut less: usize = 0;
    let mut k: usize = 0;
    while k < n
        invariant
            k <= n,
            n == v.len(),
            lines_read(v@, lines),
            less == scoring_less(lines, score, k as int),
            less <= k,
        decreases n - k,
    {
        assert(v@[k as int].score == lines[k as int].score);
        if v[k].score < score {
            less += 1;
        }
        k += 1;
    }
    proof {
        lemma_scoring_less(lines, score);
        assert((2 * (100 * less) + (n - 1)) / (2 * (n - 1)) <= 201) by (nonlinear_arith)
            requires
                less <= n,
                n >= 2,
        ;
    }
    let d: u128 = (n - 1) as u128;
    let q: u128 = (200 * less as u128 + d) / (2 * d);
    q as i64
}

proof fn lemma_scoring_less(lines: Seq<LineView>, score: i64)
    ensures
        scoring_less(lines, score, lines.len() as int) <= lines.len(),
{
    lemma_scoring_less_before(lines, score, lines.len() as int);
}

proof fn lemma_scoring_less_before(lines: Seq<LineView>, score: i64, k: int)
    requires
        0 <= k <= lines.len(),
    ensures
        scoring_less(lines, score, k) <= k,
    decreases k,
{
    if k > 0 {
        lemma_scoring_less_before(lines, score, k - 1);
    }
}

/// Projects an analysis onto source lines.
pub fn project_to_lines(ir: &FunctionIr, importance: &FunctionImportance) -> (r: Vec<LineSpan>)
    requires
        fits(ir@, *importance),
    ensures
        runs_of(r@) == projected(ir@, *importance),
        spans_ok(runs_of(r@)),
{
    let ghost f = ir@;
    let mapped = list_lines(ir);
    let ghost lines = all_lines_of(f, *importance);
    let mut read: Vec<LineSpan> = Vec::new();
    let mut k: usize = 0;
    while k < mapped.len()
        invariant
            k <= mapped.len(),
            f == ir@,
            fits(f, *importance),
            mapped@ == mapped_lines(f),
            lines == all_lines_of(f, *importance),
            read.len() == k,
            lines_read(read@, lines.take(k as int)),
        decreases mapped.len() - k,
    {
        let one = read_line(ir, importance, mapped[k]);
        assert(lines[k as int] == line_of(f, *importance, mapped@[k as int]));
        let ghost before = read@;
        read.push(one);
        proof {
            let t = lines.take(k + 1);
            assert forall|i: int| 0 <= i < read@.len() implies (#[trigger] read@[i]).start
                == t[i].line && read@[i].end == t[i].line && read@[i].tier == t[i].tier
                && read@[i].score == t[i].score && texts(read@[i].reasons@) == t[i].reasons by {
                if i < k {
                    assert(read@[i] == before[i]);
                    assert(lines.take(k as int)[i] == t[i]);
                }
            }
        }
        k += 1;
    }
    assert(lines.take(k as int) =~= lines);
    let n: usize = read.len();
    let mut out: Vec<LineSpan> = Vec::new();
    let mut k: usize = 0;
    assert(runs_of(out@) =~= Seq::empty());
    while k < n
        invariant
            k <= n,
            n == read.len(),
            n == lines.len(),
            lines_read(read@, lines),
            mapped@.len() == n,
            vars_ascend(mapped@),
            forall|i: int| 0 <= i < n ==> (#[trigger] lines[i]).line == mapped@[i],
            runs_of(out@) == runs_before(lines, k as int),
            all_lines(runs_of(out@), out@.len() as int) == k,
            forall|i: int| 0 <= i < out@.len() ==> (#[trigger] out@[i]).start <= out@[i].end,
            k > 0 ==> out@.len() > 0 && out@.last().end == mapped@[k - 1],
        decreases n - k,
    {
        let ghost l = lines[k as int];
        assert(read@[k as int].start == l.line);
        let line: u32 = read[k].start;
        let ghost before = out@;
        let ghost rest = runs_of(out@);
        let m: usize = out.len();
        proof {
            if k > 0 {
                assert(mapped@[k - 1] < mapped@[k as int]);
                assert(rest[m - 1] == run_of(out@[m - 1]));
            }
        }
        if m > 0 && line - 1 == out[m - 1].end && out[m - 1].tier == read[k].tier && out[m - 1].score
            == read[k].score {
            let mut last = out.pop().unwrap();
            last.end = line;
            put_texts(&mut last.reasons, &read[k].reasons);
            out.push(last);
            proof {
                let joined = rest.drop_last().push(
                    RunView {
                        end: l.line,
                        reasons: with_texts(rest.last().reasons, l.reasons, l.reasons.len() as int),
                        ..rest.last()
                    },
                );
                assert(texts(read@[k as int].reasons@).len() == read@[k as int].reasons@.len());
                assert(run_of(out@[m - 1]) =~= joined[m - 1]);
                assert(runs_of(out@) =~= joined);
                lemma_all_lines_same(rest, runs_of(out@), m - 1);
            }
        } else {
            let mut one = LineSpan {
                start: line,
                end: line,
                tier: read[k].tier,
                score: read[k].score,
                rank: rank(&read, read[k].score, Ghost(lines)),
                reasons: Vec::new(),
            };
            copy_texts(&mut one.reasons, &read[k].reasons);
            out.push(one);
            proof {
                assert(runs_of(out@) =~= rest.push(run_of(one)));
                lemma_all_lines_same(rest, runs_of(out@), m as int);
            }
        }
        k += 1;
    }
    out
}

proof fn lemma_all_lines_same(a: Seq<RunView>, b: Seq<RunView>, k: int)
    requires
        0 <= k <= a.len(),
        k <= b.len(),
        forall|i: int| 0 <= i < k ==> #[trigger] a[i] == b[i],
    ensures
        all_lines(a, k) == all_lines(b, k),
    decreases k,
{
    if k > 0 {
        lemma_all_lines_same(a, b, k - 1);
        assert(a[k - 1] == b[k - 1]);
    }
}

fn copy_texts(out: &mut Vec<String>, from: &Vec<String>)
    requires
        old(out)@.len() == 0,
    ensures
        texts(final(out)@) == texts(from@),
{
    let mut k: usize = 0;
    while k < from.len()
        invariant
            k <= from.len(),
            texts(out@) =~= texts(from@).take(k as int),
        decreases from.len() - k,
    {
        let ghost before = out@;
        assert(texts(from@)[k as int] == from@[k as int]@);
        out.push(from[k].clone());
        assert(texts(out@) =~= texts(before).push(from@[k as int]@));
        k += 1;
    }
    assert(texts(out@) =~= texts(from@));
}

proof fn lemma_less_grows(lines: Seq<LineView>, low: i64, high: i64, k: int)
    requires
        low <= high,
    ensures
        scoring_less(lines, low, k) <= scoring_less(lines, high, k),
    decreases k,
{
    if 0 < k <= lines.len() {
        lemma_less_grows(lines, low, high, k - 1);
    }
}

proof fn lemma_all_less(lines: Seq<LineView>, top: int, k: int)
    requires
        0 <= top < lines.len(),
        0 <= k <= lines.len(),
        forall|j: int|
            0 <= j < lines.len() && j != top ==> (#[trigger] lines[j]).score < lines[top].score,
    ensures
        scoring_less(lines, lines[top].score, k) == k - if top < k {
            1int
        } else {
            0int
        },
    decreases k,
{
    if k > 0 {
        lemma_all_less(lines, top, k - 1);
        assert(k - 1 != top ==> lines[k - 1].score < lines[top].score);
    }
}

proof fn lemma_none_less(lines: Seq<LineView>, low: i64, k: int)
    requires
        0 <= k <= lines.len(),
        forall|j: int| 0 <= j < lines.len() ==> low <= (#[trigger] lines[j]).score,
    ensures
        scoring_less(lines, low, k) == 0,
    decreases k,
{
    if k > 0 {
        lemma_none_less(lines, low, k - 1);
        assert(low <= lines[k - 1].score);
    }
}

/// A line does not score less than itself, so at most all the others do.
proof fn lemma_less_bound(lines: Seq<LineView>, i: int, k: int)
    requires
        0 <= i < lines.len(),
        0 <= k <= lines.len(),
    ensures
        scoring_less(lines, lines[i].score, k) <= k - if i < k {
            1int
        } else {
            0int
        },
    decreases k,
{
    if k > 0 {
        lemma_less_bound(lines, i, k - 1);
    }
}

proof fn lemma_rounded(a: nat, d: nat)
    requires
        a <= d,
        d > 0,
    ensures
        rounded(100 * a, d) <= 100,
        -(d as int) <= 2 * (rounded(100 * a, d) * d - 100 * a) <= d,
{
    let t = (2 * (100 * a) + d) as int;
    let z = (2 * d) as int;
    let q = rounded(100 * a, d) as int;
    vstd::arithmetic::div_mod::lemma_fundamental_div_mod(t, z);
    assert(q == t / z);
    assert(0 <= t % z < z);
    assert(t == z * q + t % z);
    assert(z * q == 2 * (q * d)) by (nonlinear_arith)
        requires
            z == 2 * d,
    ;
    assert(q <= 100) by (nonlinear_arith)
        requires
            2 * (q * d) <= 200 * a + d,
            a <= d,
            d > 0,
    ;
}

proof fn lemma_rank_in_range(lines: Seq<LineView>, i: int)
    requires
        0 <= i < lines.len(),
        lines.len() > 1,
    ensures
        rank_of(lines, lines[i].score) == rounded(
            100 * scoring_less(lines, lines[i].score, lines.len() as int),
            (lines.len() - 1) as nat,
        ),
        0 <= rank_of(lines, lines[i].score) <= 100,
{
    let n = lines.len() as int;
    lemma_less_bound(lines, i, n);
    lemma_rounded(scoring_less(lines, lines[i].score, n), (n - 1) as nat);
}

/// A rank is a percentile: it lies between zero and a hundred.
pub proof fn a_rank_is_a_percentile(lines: Seq<LineView>, i: int)
    requires
        0 <= i < lines.len(),
    ensures
        0 <= rank_of(lines, lines[i].score) <= 100,
{
    if lines.len() > 1 {
        lemma_rank_in_range(lines, i);
    }
}

/// Of two lines of one function the one with the greater score has a rank that
/// is not less.
pub proof fn a_greater_score_has_no_lesser_rank(lines: Seq<LineView>, a: int, b: int)
    requires
        0 <= a < lines.len(),
        0 <= b < lines.len(),
        lines[a].score <= lines[b].score,
    ensures
        rank_of(lines, lines[a].score) <= rank_of(lines, lines[b].score),
{
    if lines.len() > 1 {
        let n = lines.len() as int;
        lemma_rank_in_range(lines, a);
        lemma_rank_in_range(lines, b);
        lemma_less_grows(lines, lines[a].score, lines[b].score, n);
        let x = 2 * (100 * scoring_less(lines, lines[a].score, n)) + (n - 1);
        let y = 2 * (100 * scoring_less(lines, lines[b].score, n)) + (n - 1);
        vstd::arithmetic::div_mod::lemma_div_is_ordered(x, y, 2 * (n - 1));
    }
}

/// The line that scores more than every other one of its function has the
/// highest rank there is.
pub proof fn the_greatest_score_ranks_a_hundred(lines: Seq<LineView>, top: int)
    requires
        0 <= top < lines.len(),
        forall|j: int|
            0 <= j < lines.len() && j != top ==> (#[trigger] lines[j]).score < lines[top].score,
    ensures
        rank_of(lines, lines[top].score) == 100,
{
    if lines.len() > 1 {
        let n = lines.len() as int;
        lemma_rank_in_range(lines, top);
        lemma_all_less(lines, top, n);
        let d = n - 1;
        let q = rank_of(lines, lines[top].score) as int;
        lemma_rounded(d as nat, d as nat);
        assert(q == 100) by (nonlinear_arith)
            requires
                -d <= 2 * (q * d - 100 * d),
                q <= 100,
                d > 0,
        ;
    }
}

/// A line that no other one of its function scores less than has rank zero.
pub proof fn the_least_score_ranks_zero(lines: Seq<LineView>, bottom: int)
    requires
        0 <= bottom < lines.len(),
        lines.len() > 1,
        forall|j: int|
            0 <= j < lines.len() ==> lines[bottom].score <= (#[trigger] lines[j]).score,
    ensures
        rank_of(lines, lines[bottom].score) == 0,
{
    let n = lines.len() as int;
    lemma_rank_in_range(lines, bottom);
    lemma_none_less(lines, lines[bottom].score, n);
    let d = n - 1;
    let q = rank_of(lines, lines[bottom].score) as int;
    lemma_rounded(0, d as nat);
    assert(q == 0) by (nonlinear_arith)
        requires
            2 * (q * d) <= d,
            0 <= q,
            d > 0,
    ;
}

proof fn lemma_less_counts(lines: Seq<LineView>, score: i64, k: int)
    requires
        0 <= k <= lines.len(),
    ensures
        ({
            let lower = Set::new(|j: int| 0 <= j < k && lines[j].score < score);
            lower.finite() && lower.len() == scoring_less(lines, score, k)
        }),
    decreases k,
{
    let lower = Set::new(|j: int| 0 <= j < k && lines[j].score < score);
    if k == 0 {
        assert(lower =~= Set::<int>::empty());
    } else {
        lemma_less_counts(lines, score, k - 1);
        let rest = Set::new(|j: int| 0 <= j < k - 1 && lines[j].score < score);
        if lines[k - 1].score < score {
            assert(lower =~= rest.insert(k - 1));
        } else {
            assert(lower =~= rest);
        }
    }
}

/// A rank is the share of the other lines that score less, in hundredths, to
/// the nearest one.
pub proof fn a_rank_is_the_share_of_lines_that_score_less(lines: Seq<LineView>, i: int)
    requires
        0 <= i < lines.len(),
        lines.len() > 1,
    ensures
        ({
            let others = lines.len() - 1;
            let less = Set::new(
                |j: int| 0 <= j < lines.len() && lines[j].score < lines[i].score,
            ).len();
            let rank = rank_of(lines, lines[i].score);
            -others <= 2 * (rank * others - 100 * less) <= others
        }),
{
    let n = lines.len() as int;
    lemma_rank_in_range(lines, i);
    lemma_less_bound(lines, i, n);
    lemma_less_counts(lines, lines[i].score, n);
    lemma_rounded(scoring_less(lines, lines[i].score, n), (n - 1) as nat);
    assert(Set::new(|j: int| 0 <= j < lines.len() && lines[j].score < lines[i].score) =~= Set::new(
        |j: int| 0 <= j < n && lines[j].score < lines[i].score,
    ));
}

proof fn lemma_runs_ranked(lines: Seq<LineView>, k: int, j: int)
    requires
        0 <= k <= lines.len(),
        0 <= j < runs_before(lines, k).len(),
    ensures
        ({
            let run = runs_before(lines, k)[j];
            &&& run.rank == rank_of(lines, run.score)
            &&& exists|i: int| 0 <= i < k && (#[trigger] lines[i]).score == run.score
        }),
    decreases k,
{
    let rest = runs_before(lines, k - 1);
    let all = runs_before(lines, k);
    if j < rest.len() {
        lemma_runs_ranked(lines, k - 1, j);
        let i = choose|i: int| 0 <= i < k - 1 && (#[trigger] lines[i]).score == rest[j].score;
        assert(lines[i].score == all[j].score);
    } else {
        assert(lines[k - 1].score == all[j].score);
    }
}

/// The spans of a function rank as they score: each rank is a percentile, and
/// a span that scores more than another does not rank below it.
pub proof fn spans_rank_as_they_score(f: FunctionView, r: FunctionImportance, a: int, b: int)
    requires
        0 <= a < projected(f, r).len(),
        0 <= b < projected(f, r).len(),
        projected(f, r)[a].score <= projected(f, r)[b].score,
    ensures
        0 <= projected(f, r)[a].rank <= projected(f, r)[b].rank <= 100,
{
    let lines = all_lines_of(f, r);
    let runs = projected(f, r);
    let n = lines.len() as int;
    lemma_runs_ranked(lines, n, a);
    lemma_runs_ranked(lines, n, b);
    let i = choose|i: int| 0 <= i < n && (#[trigger] lines[i]).score == runs[a].score;
    let j = choose|j: int| 0 <= j < n && (#[trigger] lines[j]).score == runs[b].score;
    a_rank_is_a_percentile(lines, i);
    a_rank_is_a_percentile(lines, j);
    a_greater_score_has_no_lesser_rank(lines, i, j);
}

/// A span whose score only one line has, and which no line scores more than,
/// ranks a hundred; one that no line scores less than ranks zero, unless its
/// line is the only one.
pub proof fn the_ends_of_the_scale_are_reached(f: FunctionView, r: FunctionImportance, a: int, i: int)
    requires
        0 <= a < projected(f, r).len(),
        0 <= i < all_lines_of(f, r).len(),
        projected(f, r)[a].score == all_lines_of(f, r)[i].score,
    ensures
        (forall|j: int|
            0 <= j < all_lines_of(f, r).len() && j != i ==> (#[trigger] all_lines_of(f, r)[j]).score
                < projected(f, r)[a].score) ==> projected(f, r)[a].rank == 100,
        all_lines_of(f, r).len() > 1 && (forall|j: int|
            0 <= j < all_lines_of(f, r).len() ==> projected(f, r)[a].score <= (
            #[trigger] all_lines_of(f, r)[j]).score) ==> projected(f, r)[a].rank == 0,
{
    let lines = all_lines_of(f, r);
    lemma_runs_ranked(lines, lines.len() as int, a);
    if forall|j: int|
        0 <= j < lines.len() && j != i ==> (#[trigger] lines[j]).score < lines[i].score {
        the_greatest_score_ranks_a_hundred(lines, i);
    }
    if lines.len() > 1 && forall|j: int|
        0 <= j < lines.len() ==> lines[i].score <= (#[trigger] lines[j]).score {
        the_least_score_ranks_zero(lines, i);
    }
}

proof fn lemma_score_for(f: FunctionView, scores: Seq<i64>, line: u32, k: int)
    requires
        0 <= k <= f.nodes.len(),
    ensures
        forall|i: int|
            0 <= i < k && #[trigger] speaks_of(f, i, line) ==> (score_for(
                f,
                scores,
                line,
                k,
            ) matches Some(s) && s >= scores[i]),
        score_for(f, scores, line, k) matches Some(s) ==> exists|i: int|
            0 <= i < k && #[trigger] speaks_of(f, i, line) && scores[i] == s,
    decreases k,
{
    if k > 0 {
        lemma_score_for(f, scores, line, k - 1);
        let rest = score_for(f, scores, line, k - 1);
        let all = score_for(f, scores, line, k);
        if all == rest {
            if let Some(s) = rest {
                let i = choose|i: int|
                    0 <= i < k - 1 && #[trigger] speaks_of(f, i, line) && scores[i] == s;
                assert(speaks_of(f, i, line));
            }
        } else {
            assert(speaks_of(f, k - 1, line));
        }
    }
}

/// A line scores as much as the best of its nodes: no node that speaks of it
/// scores more, and one scores just as much.
pub proof fn a_line_takes_the_greatest_score(
    f: FunctionView,
    r: FunctionImportance,
    line: u32,
    i: int,
)
    requires
        0 <= i < f.nodes.len(),
        speaks_of(f, i, line),
    ensures
        r.scores@[i] <= line_of(f, r, line).score,
        exists|j: int|
            0 <= j < f.nodes.len() && #[trigger] speaks_of(f, j, line) && r.scores@[j] == line_of(
                f,
                r,
                line,
            ).score,
{
    lemma_score_for(f, r.scores@, line, f.nodes.len() as int);
}

proof fn lemma_tier_attained(f: FunctionView, importance: Seq<NodeImportance>, line: u32, k: int)
    requires
        0 <= k <= importance.len(),
    ensures
        tier_of_line(f, importance, line, k) matches Some(t) ==> exists|i: int|
            0 <= i < k && #[trigger] speaks_of(f, importance[i].node as int, line)
                && importance[i].tier == t,
    decreases k,
{
    if k > 0 {
        lemma_tier_attained(f, importance, line, k - 1);
        let rest = tier_of_line(f, importance, line, k - 1);
        let all = tier_of_line(f, importance, line, k);
        if all == rest {
            if let Some(t) = rest {
                let i = choose|i: int|
                    0 <= i < k - 1 && #[trigger] speaks_of(f, importance[i].node as int, line)
                        && importance[i].tier == t;
                assert(speaks_of(f, importance[i].node as int, line));
            }
        } else {
            assert(speaks_of(f, importance[k - 1].node as int, line));
        }
    }
}

/// The tier of a line is that of one of the nodes that speak of it, and none of
/// them has a stronger one.
pub proof fn the_tier_of_a_line_is_the_strongest_of_its_nodes(
    f: FunctionView,
    r: FunctionImportance,
    line: u32,
    i: int,
)
    requires
        fits(f, r),
        0 <= i < f.nodes.len(),
        speaks_of(f, i, line),
    ensures
        r.nodes@[i].tier.strength() <= line_of(f, r, line).tier.strength(),
        exists|j: int|
            0 <= j < f.nodes.len() && #[trigger] speaks_of(f, j, line) && r.nodes@[j].tier
                == line_of(f, r, line).tier,
{
    let n = f.nodes.len() as int;
    assert(r.nodes@[i].node == i);
    a_line_takes_the_strongest_tier(f, r.nodes@, line, n, i);
    lemma_tier_attained(f, r.nodes@, line, n);
    let t = line_of(f, r, line).tier;
    let j = choose|j: int|
        0 <= j < n && #[trigger] speaks_of(f, r.nodes@[j].node as int, line) && r.nodes@[j].tier
            == t;
    assert(r.nodes@[j].node == j);
    assert(speaks_of(f, j, line));
}

proof fn lemma_with_text_holds(list: Seq<Seq<char>>, t: Seq<char>, x: Seq<char>)
    ensures
        with_text(list, t).contains(x) == (list.contains(x) || x == t),
{
    let p = text_place(list, t, list.len() as int);
    lemma_text_place(list, t, list.len() as int);
    if p > 0 && list[p - 1] == t {
        assert(list.contains(t));
    } else {
        let all = list.insert(p, t);
        assert(all[p] == t);
        if list.contains(x) {
            let i = choose|i: int| 0 <= i < list.len() && list[i] == x;
            if i < p {
                assert(all[i] == x);
            } else {
                assert(all[i + 1] == x);
            }
        }
        if all.contains(x) && x != t {
            let i = choose|i: int| 0 <= i < all.len() && all[i] == x;
            if i < p {
                assert(list[i] == x);
            } else {
                assert(list[i - 1] == x);
            }
        }
    }
}

proof fn lemma_with_texts_holds(list: Seq<Seq<char>>, more: Seq<Seq<char>>, k: int, x: Seq<char>)
    requires
        0 <= k <= more.len(),
    ensures
        with_texts(list, more, k).contains(x) <==> list.contains(x) || exists|i: int|
            0 <= i < k && #[trigger] more[i] == x,
    decreases k,
{
    if k > 0 {
        lemma_with_texts_holds(list, more, k - 1, x);
        lemma_with_text_holds(with_texts(list, more, k - 1), more[k - 1], x);
        assert(more[k - 1] == more[k - 1]);
    }
}

/// Whether one of the first `k` nodes that speak of a line gives a reason in
/// these words.
pub open spec fn says(
    f: FunctionView,
    reasons: Seq<Vec<Reason>>,
    line: u32,
    k: int,
    x: Seq<char>,
) -> bool {
    exists|i: int, j: int|
        0 <= i < k && #[trigger] speaks_of(f, i, line) && 0 <= j < reasons[i]@.len() && (
        #[trigger] reasons[i]@[j]).text() == x
}

proof fn lemma_reasons_hold(
    f: FunctionView,
    reasons: Seq<Vec<Reason>>,
    line: u32,
    k: int,
    x: Seq<char>,
)
    requires
        0 <= k <= f.nodes.len(),
    ensures
        reasons_for(f, reasons, line, k).contains(x) == says(f, reasons, line, k, x),
    decreases k,
{
    if k > 0 {
        lemma_reasons_hold(f, reasons, line, k - 1, x);
        let rest = reasons_for(f, reasons, line, k - 1);
        let more = words_of(reasons[k - 1]@);
        if speaks_of(f, k - 1, line) {
            lemma_with_texts_holds(rest, more, more.len() as int, x);
            if exists|i: int| 0 <= i < more.len() && #[trigger] more[i] == x {
                let j = choose|j: int| 0 <= j < more.len() && #[trigger] more[j] == x;
                assert(speaks_of(f, k - 1, line) && reasons[k - 1]@[j].text() == x);
            }
        }
        if says(f, reasons, line, k - 1, x) {
            let (i, j) = choose|i: int, j: int|
                0 <= i < k - 1 && #[trigger] speaks_of(f, i, line) && 0 <= j < reasons[i]@.len()
                    && (#[trigger] reasons[i]@[j]).text() == x;
            assert(speaks_of(f, i, line) && reasons[i]@[j].text() == x);
        }
        if says(f, reasons, line, k, x) && !says(f, reasons, line, k - 1, x) {
            let (i, j) = choose|i: int, j: int|
                0 <= i < k && #[trigger] speaks_of(f, i, line) && 0 <= j < reasons[i]@.len() && (
                #[trigger] reasons[i]@[j]).text() == x;
            if i < k - 1 {
                assert(speaks_of(f, i, line) && reasons[i]@[j].text() == x);
            }
            assert(more[j] == x);
        }
    }
}

/// A line carries the reasons of all the nodes that speak of it, and no others.
pub proof fn a_line_carries_the_reasons_of_its_nodes(
    f: FunctionView,
    r: FunctionImportance,
    line: u32,
    x: Seq<char>,
)
    ensures
        line_of(f, r, line).reasons.contains(x) == says(
            f,
            r.reasons@,
            line,
            f.nodes.len() as int,
            x,
        ),
{
    lemma_reasons_hold(f, r.reasons@, line, f.nodes.len() as int, x);
}

proof fn lemma_run_keeps_reasons(lines: Seq<LineView>, k: int, i: int, x: Seq<char>)
    requires
        0 <= i < k <= lines.len(),
        lines[i].reasons.contains(x),
        forall|a: int, b: int|
            0 <= a < b < lines.len() ==> (#[trigger] lines[a]).line < (#[trigger] lines[b]).line,
    ensures
        exists|j: int|
            0 <= j < runs_before(lines, k).len() && covers(
                #[trigger] runs_before(lines, k)[j],
                lines[i],
            ) && runs_before(lines, k)[j].reasons.contains(x),
    decreases k,
{
    let rest = runs_before(lines, k - 1);
    let all = runs_before(lines, k);
    let l = lines[k - 1];
    if i < k - 1 {
        lemma_run_keeps_reasons(lines, k - 1, i, x);
        let j = choose|j: int|
            0 <= j < rest.len() && covers(#[trigger] rest[j], lines[i]) && rest[j].reasons.contains(
                x,
            );
        lemma_with_texts_holds(rest.last().reasons, l.reasons, l.reasons.len() as int, x);
        assert(lines[i].line < l.line);
        assert(covers(all[j], lines[i]) && all[j].reasons.contains(x));
    } else {
        if rest.len() > 0 {
            lemma_with_texts_holds(rest.last().reasons, l.reasons, l.reasons.len() as int, x);
            let y = choose|y: int| 0 <= y < l.reasons.len() && l.reasons[y] == x;
            assert(l.reasons[y] == x);
        }
        lemma_runs(lines, k);
        lemma_runs(lines, k - 1);
        let j = all.len() - 1;
        assert(covers(all[j], l) && all[j].reasons.contains(x));
    }
}

/// Joining loses no reason: what a line is put down to, the span that covers it
/// says.
pub proof fn joining_keeps_the_reasons(f: FunctionView, r: FunctionImportance, i: int, x: Seq<char>)
    requires
        0 <= i < mapped_lines(f).len(),
        line_of(f, r, mapped_lines(f)[i]).reasons.contains(x),
    ensures
        exists|j: int|
            0 <= j < projected(f, r).len() && covers(
                #[trigger] projected(f, r)[j],
                line_of(f, r, mapped_lines(f)[i]),
            ) && projected(f, r)[j].reasons.contains(x),
{
    let lines = all_lines_of(f, r);
    mapped_lines_are_those_spoken_of(f);
    assert forall|a: int, b: int| 0 <= a < b < lines.len() implies (#[trigger] lines[a]).line < (
    #[trigger] lines[b]).line by {
        assert(mapped_lines(f)[a] < mapped_lines(f)[b]);
    }
    assert(lines[i] == line_of(f, r, mapped_lines(f)[i]));
    let n = lines.len() as int;
    lemma_run_keeps_reasons(lines, n, i, x);
    let j = choose|j: int|
        0 <= j < runs_before(lines, n).len() && covers(
            #[trigger] runs_before(lines, n)[j],
            lines[i],
        ) && runs_before(lines, n)[j].reasons.contains(x);
    assert(projected(f, r)[j] == runs_before(lines, n)[j]);
}

proof fn lemma_runs_hold_lines(lines: Seq<LineView>, k: int, j: int, line: u32)
    requires
        0 <= k <= lines.len(),
        0 <= j < runs_before(lines, k).len(),
        runs_before(lines, k)[j].start <= line <= runs_before(lines, k)[j].end,
    ensures
        exists|i: int| 0 <= i < k && (#[trigger] lines[i]).line == line,
    decreases k,
{
    let rest = runs_before(lines, k - 1);
    let all = runs_before(lines, k);
    if lines[k - 1].line != line {
        assert(j < rest.len());
        assert(rest[j].start == all[j].start);
        lemma_runs_hold_lines(lines, k - 1, j, line);
        let i = choose|i: int| 0 <= i < k - 1 && (#[trigger] lines[i]).line == line;
        assert(lines[i].line == line);
    } else {
        assert(lines[k - 1].line == line);
    }
}

/// A span covers mapped lines alone: some node speaks of every line in it.
pub proof fn spans_cover_nothing_else(f: FunctionView, r: FunctionImportance, j: int, line: u32) -> (
    i: int)
    requires
        0 <= j < projected(f, r).len(),
        projected(f, r)[j].start <= line <= projected(f, r)[j].end,
    ensures
        0 <= i < f.nodes.len(),
        speaks_of(f, i, line),
{
    let lines = all_lines_of(f, r);
    lemma_runs_hold_lines(lines, lines.len() as int, j, line);
    let x = choose|x: int| 0 <= x < lines.len() && (#[trigger] lines[x]).line == line;
    mapped_lines_are_those_spoken_of(f);
    assert(mapped_lines(f)[x] == line);
    assert(mapped_lines(f).to_set().contains(line));
    lemma_spoken(f, line, f.nodes.len() as int)
}

/// No two spans that could be one are two: where one span ends right before
/// the next starts, they differ in tier or in score.
pub proof fn neighbours_that_agree_are_joined(f: FunctionView, r: FunctionImportance, j: int)
    requires
        0 <= j,
        j + 1 < projected(f, r).len(),
        projected(f, r)[j].end + 1 == projected(f, r)[j + 1].start,
    ensures
        projected(f, r)[j].tier != projected(f, r)[j + 1].tier || projected(f, r)[j].score
            != projected(f, r)[j + 1].score,
{
    let lines = all_lines_of(f, r);
    lemma_neighbours(lines, lines.len() as int, j);
}

proof fn lemma_neighbours(lines: Seq<LineView>, k: int, j: int)
    requires
        0 <= k <= lines.len(),
        0 <= j,
        j + 1 < runs_before(lines, k).len(),
        runs_before(lines, k)[j].end + 1 == runs_before(lines, k)[j + 1].start,
    ensures
        runs_before(lines, k)[j].tier != runs_before(lines, k)[j + 1].tier || runs_before(
            lines,
            k,
        )[j].score != runs_before(lines, k)[j + 1].score,
    decreases k,
{
    let rest = runs_before(lines, k - 1);
    if j + 1 < rest.len() {
        lemma_neighbours(lines, k - 1, j);
    }
}

} // verus!
