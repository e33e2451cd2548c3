//! The sidecar artifact: line ranges to tier, with a reason for each.
//!
//! Nothing is removed: the artifact is metadata about source, never a
//! rewritten copy of it. Every span carries its reason. Scores are kept in
//! hundredths: they are ranking signals, and pretending to more precision
//! invites false differences between runs.

use vstd::prelude::*;

use crate::artifact::order::{
    comes_first, is_sorted_form, key_ints, key_of, lemma_inserted, record_before, record_key,
    records_are_ordered, sorted,
};
use crate::importance::{LineSpan, Tier};
use crate::ir::{FunctionIr, FunctionView, NodeView};
use crate::projection::{fits, project_to_lines, projected, run_of, runs_of, RunView};
use crate::text::{
    chars_of, join, joined_with, lines, same, split_lines, string_from_chars, texts, trim_end,
    trim_tail,
};
use crate::tiering::FunctionImportance;

pub mod laws;
pub mod order;

verus! {

/// Schema identifier, bumped on any breaking change to the shape below.
pub const SCHEMA: &'static str = "vikt-sidecar/v3";

/// One tiered run of source lines.
#[derive(Debug, Clone, PartialEq)]
pub struct SpanRecord {
    /// First line, inclusive, 1-based.
    pub start: u32,
    /// Last line, inclusive, 1-based.
    pub end: u32,
    /// `core`, `boundary`, `plumbing` or `inert`.
    pub tier: String,
    /// Importance against a fixed scale, in hundredths.
    pub function_score: i64,
    /// Percentile of that score within this function, in hundredths.
    pub rank: i64,
    /// File-scope score, in hundredths. Present only when the run asked for
    /// file scope.
    pub file_score: Option<i64>,
    /// Repo-scope score, in hundredths. Present only under repo scope.
    pub repo_score: Option<i64>,
    /// The source of the lines this span covers, each right-trimmed,
    /// newline-joined. Never fabricated when no source was at hand.
    pub text: Option<String>,
    /// Why this run got its tier.
    pub reasons: Vec<String>,
}

/// A span as plain values.
#[verifier::ext_equal]
pub struct SpanView {
    pub start: u32,
    pub end: u32,
    pub tier: Seq<char>,
    pub function_score: i64,
    pub rank: i64,
    pub file_score: Option<i64>,
    pub repo_score: Option<i64>,
    pub text: Option<Seq<char>>,
    pub reasons: Seq<Seq<char>>,
}

pub open spec fn text_view(t: Option<String>) -> Option<Seq<char>> {
    match t {
        Some(s) => Some(s@),
        None => None,
    }
}

impl View for SpanRecord {
    type V = SpanView;

    open spec fn view(&self) -> SpanView {
        SpanView {
            start: self.start,
            end: self.end,
            tier: self.tier@,
            function_score: self.function_score,
            rank: self.rank,
            file_score: self.file_score,
            repo_score: self.repo_score,
            text: text_view(self.text),
            reasons: texts(self.reasons@),
        }
    }
}

/// The views of a list of spans.
pub open spec fn span_views(v: Seq<SpanRecord>) -> Seq<SpanView> {
    v.map_values(|s: SpanRecord| s@)
}

/// How much of the body carried source positions at all.
#[derive(Debug, Clone, Copy, PartialEq, Eq, Structural)]
pub struct Coverage {
    /// Instructions lowered from this function.
    pub instructions: usize,
    /// How many carried a source line.
    pub with_line: usize,
}

/// Counts per tier, for quick filtering without walking every span.
#[derive(Debug, Clone, Copy, PartialEq, Eq, Structural)]
pub struct TierCounts {
    /// Lines tiered `core`.
    pub core: usize,
    /// Lines tiered `boundary`.
    pub boundary: usize,
    /// Lines tiered `plumbing`.
    pub plumbing: usize,
    /// Lines tiered `inert`.
    pub inert: usize,
}

impl Default for TierCounts {
    fn default() -> (r: Self)
        ensures
            r == (TierCounts { core: 0, boundary: 0, plumbing: 0, inert: 0 }),
    {
        TierCounts { core: 0, boundary: 0, plumbing: 0, inert: 0 }
    }
}

/// The importance map for one function.
#[derive(Debug, Clone, PartialEq)]
pub struct FunctionRecord {
    /// Source file this function's lines refer to.
    pub file: String,
    /// Fully-qualified name.
    pub name: String,
    /// Descriptor or signature, when the substrate has one.
    pub signature: String,
    /// First line of the body, when known.
    pub decl_line: Option<u32>,
    /// Position-mapping coverage.
    pub coverage: Coverage,
    /// Line counts per tier.
    pub summary: TierCounts,
    /// The map itself, ordered by start line.
    pub spans: Vec<SpanRecord>,
}

/// A function's record as plain values.
#[verifier::ext_equal]
pub struct RecordView {
    pub file: Seq<char>,
    pub name: Seq<char>,
    pub signature: Seq<char>,
    pub decl_line: Option<u32>,
    pub coverage: Coverage,
    pub summary: TierCounts,
    pub spans: Seq<SpanView>,
}

impl View for FunctionRecord {
    type V = RecordView;

    open spec fn view(&self) -> RecordView {
        RecordView {
            file: self.file@,
            name: self.name@,
            signature: self.signature@,
            decl_line: self.decl_line,
            coverage: self.coverage,
            summary: self.summary,
            spans: span_views(self.spans@),
        }
    }
}

/// The views of a list of records.
pub open spec fn record_views(v: Seq<FunctionRecord>) -> Seq<RecordView> {
    v.map_values(|f: FunctionRecord| f@)
}

/// The sidecar for one source file.
#[derive(Debug, Clone, PartialEq)]
pub struct Sidecar {
    /// Schema identifier.
    pub schema: String,
    /// What produced this, including the frontend name.
    pub generator: String,
    /// Source file the spans refer to.
    pub file: String,
    /// One entry per analyzed function, ordered by declaration line, then by
    /// name, then by everything else.
    pub functions: Vec<FunctionRecord>,
}

/// A sidecar as plain values.
#[verifier::ext_equal]
pub struct SidecarView {
    pub schema: Seq<char>,
    pub generator: Seq<char>,
    pub file: Seq<char>,
    pub functions: Seq<RecordView>,
}

impl View for Sidecar {
    type V = SidecarView;

    open spec fn view(&self) -> SidecarView {
        SidecarView {
            schema: self.schema@,
            generator: self.generator@,
            file: self.file@,
            functions: record_views(self.functions@),
        }
    }
}

/// The lines of a file without their trailing white space.
pub open spec fn right_trimmed(all: Seq<Seq<char>>) -> Seq<Seq<char>> {
    all.map_values(|l: Seq<char>| trim_end(l))
}

/// The text of the lines from `start` to `end`, counted from one: each
/// right-trimmed, with newlines between. None when a line does not exist.
pub open spec fn text_of_lines(all: Seq<Seq<char>>, start: u32, end: u32) -> Option<Seq<char>> {
    if start == 0 || end == 0 || start > end || end > all.len() {
        None
    } else {
        Some(joined_with(right_trimmed(all.subrange(start - 1, end as int)), "\n"@))
    }
}

fn trimmed_text(s: &str) -> (r: String)
    ensures
        r@ == trim_end(s@),
{
    let chars = chars_of(s);
    string_from_chars(trim_tail(chars.as_slice()))
}

/// The views of a list of lines.
pub open spec fn line_views(v: Seq<&str>) -> Seq<Seq<char>> {
    v.map_values(|l: &str| l@)
}

/// The verbatim text of the lines from `start` to `end` (1-based, inclusive),
/// each right-trimmed, newline-joined. `None` when they don't both land
/// inside `lines`: a source file that has drifted out of sync must not
/// fabricate text.
pub fn span_text(lines: &[&str], start: u32, end: u32) -> (r: Option<String>)
    ensures
        text_view(r) == text_of_lines(line_views(lines@), start, end),
{
    let ghost all = line_views(lines@);
    if start == 0 || end == 0 {
        return None;
    }
    let from: usize = (start - 1) as usize;
    let to: usize = end as usize;
    if start > end || to > lines.len() {
        return None;
    }
    let mut parts: Vec<String> = Vec::new();
    let mut k: usize = from;
    let ghost wanted = right_trimmed(all.subrange(from as int, to as int));
    while k < to
        invariant
            from <= k <= to <= lines.len(),
            all == line_views(lines@),
            wanted == right_trimmed(all.subrange(from as int, to as int)),
            texts(parts@) =~= wanted.take(k - from),
        decreases to - k,
    {
        let ghost before = parts@;
        let line = trimmed_text(lines[k]);
        assert(wanted[k - from] == trim_end(all[k as int]));
        parts.push(line);
        assert(texts(parts@) =~= texts(before).push(line@));
        k += 1;
    }
    assert(wanted.take(k - from) =~= wanted);
    Some(join(&parts, "\n"))
}

/// How many lines a span covers.
pub open spec fn span_lines(s: RunView) -> int {
    s.end - s.start + 1
}

/// How many lines the first `k` spans give a tier.
pub open spec fn tier_lines(spans: Seq<RunView>, tier: Tier, k: int) -> int
    decreases k,
{
    if k <= 0 || k > spans.len() {
        0
    } else {
        tier_lines(spans, tier, k - 1) + if spans[k - 1].tier == tier {
            span_lines(spans[k - 1])
        } else {
            0
        }
    }
}

/// How many lines the first `k` spans cover.
pub open spec fn all_lines(spans: Seq<RunView>, k: int) -> int
    decreases k,
{
    if k <= 0 || k > spans.len() {
        0
    } else {
        all_lines(spans, k - 1) + span_lines(spans[k - 1])
    }
}

/// The line counts per tier.
pub open spec fn summary_of(spans: Seq<RunView>) -> TierCounts {
    let n = spans.len() as int;
    TierCounts {
        core: tier_lines(spans, Tier::Core, n) as usize,
        boundary: tier_lines(spans, Tier::Boundary, n) as usize,
        plumbing: tier_lines(spans, Tier::Plumbing, n) as usize,
        inert: tier_lines(spans, Tier::Inert, n) as usize,
    }
}

/// How many of the first `k` nodes carry a source line.
pub open spec fn lines_known(nodes: Seq<NodeView>, k: int) -> nat
    decreases k,
{
    if k <= 0 || k > nodes.len() {
        0
    } else {
        lines_known(nodes, k - 1) + if nodes[k - 1].line is Some {
            1nat
        } else {
            0nat
        }
    }
}

/// The record of a span.
pub open spec fn span_record(s: RunView, source: Option<Seq<char>>) -> SpanView {
    SpanView {
        start: s.start,
        end: s.end,
        tier: s.tier.text(),
        function_score: s.score,
        rank: s.rank,
        file_score: None,
        repo_score: None,
        text: match source {
            Some(src) => text_of_lines(lines(src), s.start, s.end),
            None => None,
        },
        reasons: s.reasons,
    }
}

/// The record of a function.
pub open spec fn function_record(
    f: FunctionView,
    spans: Seq<RunView>,
    source: Option<Seq<char>>,
) -> RecordView {
    RecordView {
        file: f.id.file,
        name: f.id.name,
        signature: f.id.signature,
        decl_line: f.id.decl_line,
        coverage: Coverage {
            instructions: f.nodes.len() as usize,
            with_line: lines_known(f.nodes, f.nodes.len() as int) as usize,
        },
        summary: summary_of(spans),
        spans: spans.map_values(|s: RunView| span_record(s, source)),
    }
}

/// What the spans of a function are: no span ends before it starts, and their
/// lines can be counted.
pub open spec fn spans_ok(spans: Seq<RunView>) -> bool {
    &&& forall|k: int| 0 <= k < spans.len() ==> (#[trigger] spans[k]).start <= spans[k].end
    &&& all_lines(spans, spans.len() as int) <= usize::MAX
}

/// The scores of the lines of one file, in hundredths.
#[derive(Debug, Clone)]
pub struct FileScores {
    /// Which file.
    pub file: String,
    /// Lines with their scores.
    pub lines: Vec<(u32, i64)>,
}

/// The higher of two scores, where there are any.
pub open spec fn higher(a: Option<i64>, b: Option<i64>) -> Option<i64> {
    match (a, b) {
        (None, _) => b,
        (_, None) => a,
        (Some(x), Some(y)) => if x >= y {
            a
        } else {
            b
        },
    }
}

/// The highest score of a line from `start` to `end` among the first `k`.
pub open spec fn peak_of_lines(lines: Seq<(u32, i64)>, start: u32, end: u32, k: int) -> Option<i64>
    decreases k,
{
    if k <= 0 || k > lines.len() {
        None
    } else {
        higher(
            peak_of_lines(lines, start, end, k - 1),
            if start <= lines[k - 1].0 <= end {
                Some(lines[k - 1].1)
            } else {
                None
            },
        )
    }
}

/// Whether the first `k` entries hold one for a file.
pub open spec fn has_file(scores: Seq<FileScores>, file: Seq<char>) -> bool {
    exists|k: int| 0 <= k < scores.len() && (#[trigger] scores[k]).file@ == file
}

/// The highest score of a line from `start` to `end` in a file, among the
/// first `k` entries.
pub open spec fn peak(scores: Seq<FileScores>, file: Seq<char>, start: u32, end: u32, k: int) -> Option<
    i64,
>
    decreases k,
{
    if k <= 0 || k > scores.len() {
        None
    } else {
        higher(
            peak(scores, file, start, end, k - 1),
            if scores[k - 1].file@ == file {
                peak_of_lines(
                    scores[k - 1].lines@,
                    start,
                    end,
                    scores[k - 1].lines@.len() as int,
                )
            } else {
                None
            },
        )
    }
}

/// Which score a scope sets.
#[derive(Debug, Clone, Copy, PartialEq, Eq, Structural)]
pub enum Scope {
    File,
    Repo,
}

/// A span with its score of a scope set.
pub open spec fn span_scored(s: SpanView, scope: Scope, score: Option<i64>) -> SpanView {
    match scope {
        Scope::File => SpanView { file_score: score, ..s },
        Scope::Repo => SpanView { repo_score: score, ..s },
    }
}

/// The file that a record's lines refer to.
pub open spec fn owning_file(f: RecordView, sidecar_file: Seq<char>) -> Seq<char> {
    if f.file.len() == 0 {
        sidecar_file
    } else {
        f.file
    }
}

/// A record with the scores of a scope: left alone when its file has none.
pub open spec fn record_scored(
    f: RecordView,
    sidecar_file: Seq<char>,
    scope: Scope,
    scores: Seq<FileScores>,
) -> RecordView {
    let file = owning_file(f, sidecar_file);
    if has_file(scores, file) {
        RecordView {
            spans: f.spans.map_values(
                |s: SpanView|
                    span_scored(
                        s,
                        scope,
                        peak(scores, file, s.start, s.end, scores.len() as int),
                    ),
            ),
            ..f
        }
    } else {
        f
    }
}

/// A sidecar with the scores of a scope.
pub open spec fn scoped(s: SidecarView, scope: Scope, scores: Seq<FileScores>) -> SidecarView {
    SidecarView {
        functions: s.functions.map_values(
            |f: RecordView| record_scored(f, s.file, scope, scores),
        ),
        ..s
    }
}

/// The spans of the first `k` functions, in order.
pub open spec fn spans_before(fns: Seq<RecordView>, k: int) -> Seq<SpanView>
    decreases k,
{
    if k <= 0 || k > fns.len() {
        Seq::empty()
    } else {
        spans_before(fns, k - 1) + fns[k - 1].spans
    }
}

/// Every span of a sidecar, in order.
pub open spec fn all_spans(s: SidecarView) -> Seq<SpanView> {
    spans_before(s.functions, s.functions.len() as int)
}

/// The score that a scope gave a span.
pub open spec fn score_of(s: SpanView, scope: Scope) -> Option<i64> {
    match scope {
        Scope::File => s.file_score,
        Scope::Repo => s.repo_score,
    }
}

/// The highest score of a span, among the first `k`, that covers a line.
pub open spec fn score_at(spans: Seq<SpanView>, line: u32, scope: Scope, k: int) -> Option<i64>
    decreases k,
{
    if k <= 0 || k > spans.len() {
        None
    } else {
        higher(
            score_at(spans, line, scope, k - 1),
            if spans[k - 1].start <= line <= spans[k - 1].end {
                score_of(spans[k - 1], scope)
            } else {
                None
            },
        )
    }
}

/// The tier that a name stands for; an unknown name is inert.
pub open spec fn tier_of(name: Seq<char>) -> Tier {
    if name == "core"@ {
        Tier::Core
    } else if name == "boundary"@ {
        Tier::Boundary
    } else if name == "plumbing"@ {
        Tier::Plumbing
    } else {
        Tier::Inert
    }
}

/// The strongest tier of a span, among the first `k`, that covers a line; of
/// equally strong ones the first.
pub open spec fn tier_name_at(spans: Seq<SpanView>, line: u32, k: int) -> Option<Seq<char>>
    decreases k,
{
    if k <= 0 || k > spans.len() {
        None
    } else {
        let rest = tier_name_at(spans, line, k - 1);
        let s = spans[k - 1];
        if s.start <= line <= s.end {
            match rest {
                None => Some(s.tier),
                Some(best) => if tier_of(s.tier).strength() > tier_of(best).strength() {
                    Some(s.tier)
                } else {
                    rest
                },
            }
        } else {
            rest
        }
    }
}

/// A line has a tier exactly when a span covers it, and no span that covers
/// it has a stronger one.
pub proof fn tier_at_is_the_strongest(spans: Seq<SpanView>, line: u32, k: int)
    requires
        0 <= k <= spans.len(),
    ensures
        tier_name_at(spans, line, k) is Some <==> exists|i: int|
            0 <= i < k && (#[trigger] spans[i]).start <= line <= spans[i].end,
        forall|i: int|
            0 <= i < k && (#[trigger] spans[i]).start <= line <= spans[i].end ==> tier_of(
                spans[i].tier,
            ).strength() <= tier_of(tier_name_at(spans, line, k)->0).strength(),
    decreases k,
{
    if k > 0 {
        tier_at_is_the_strongest(spans, line, k - 1);
        assert(spans[k - 1] == spans[k - 1]);
    }
}

proof fn lemma_tier_lines(spans: Seq<RunView>, k: int)
    requires
        0 <= k <= spans.len(),
        forall|j: int| 0 <= j < spans.len() ==> (#[trigger] spans[j]).start <= spans[j].end,
    ensures
        tier_lines(spans, Tier::Core, k) >= 0,
        tier_lines(spans, Tier::Boundary, k) >= 0,
        tier_lines(spans, Tier::Plumbing, k) >= 0,
        tier_lines(spans, Tier::Inert, k) >= 0,
        tier_lines(spans, Tier::Core, k) + tier_lines(spans, Tier::Boundary, k) + tier_lines(
            spans,
            Tier::Plumbing,
            k,
        ) + tier_lines(spans, Tier::Inert, k) == all_lines(spans, k),
    decreases k,
{
    if k > 0 {
        lemma_tier_lines(spans, k - 1);
        assert(spans[k - 1].start <= spans[k - 1].end);
    }
}

/// The line counts per tier add up to the lines of all spans.
pub proof fn summary_adds_up(spans: Seq<RunView>)
    requires
        spans_ok(spans),
    ensures
        ({
            let s = summary_of(spans);
            s.core + s.boundary + s.plumbing + s.inert == all_lines(spans, spans.len() as int)
        }),
{
    lemma_tier_lines(spans, spans.len() as int);
}

proof fn lemma_lines_before(spans: Seq<RunView>, s: RunView, t: Tier, k: int)
    requires
        0 <= k <= spans.len(),
    ensures
        tier_lines(spans.push(s), t, k) == tier_lines(spans, t, k),
        all_lines(spans.push(s), k) == all_lines(spans, k),
    decreases k,
{
    if k > 0 {
        lemma_lines_before(spans, s, t, k - 1);
        assert(spans.push(s)[k - 1] == spans[k - 1]);
    }
}

/// A span more adds its lines, both ends among them, to the count of its tier
/// and to no other.
pub proof fn a_span_counts_for_its_tier(spans: Seq<RunView>, s: RunView)
    requires
        spans_ok(spans.push(s)),
    ensures
        ({
            let a = summary_of(spans);
            let b = summary_of(spans.push(s));
            let lines = s.end - s.start + 1;
            &&& b.core == a.core + if s.tier is Core { lines } else { 0 }
            &&& b.boundary == a.boundary + if s.tier is Boundary { lines } else { 0 }
            &&& b.plumbing == a.plumbing + if s.tier is Plumbing { lines } else { 0 }
            &&& b.inert == a.inert + if s.tier is Inert { lines } else { 0 }
        }),
{
    let all = spans.push(s);
    let n = spans.len() as int;
    assert forall|j: int| 0 <= j < n implies (#[trigger] spans[j]).start <= spans[j].end by {
        assert(all[j] == spans[j]);
    }
    assert(all[n] == s);
    assert(s.start <= s.end);
    lemma_lines_before(spans, s, Tier::Core, n);
    lemma_lines_before(spans, s, Tier::Boundary, n);
    lemma_lines_before(spans, s, Tier::Plumbing, n);
    lemma_lines_before(spans, s, Tier::Inert, n);
    lemma_tier_lines(spans, n);
    lemma_tier_lines(all, n + 1);
}

proof fn lemma_all_lines_grow(spans: Seq<RunView>, j: int, k: int)
    requires
        0 <= j <= k <= spans.len(),
        forall|i: int| 0 <= i < spans.len() ==> (#[trigger] spans[i]).start <= spans[i].end,
    ensures
        0 <= all_lines(spans, j) <= all_lines(spans, k),
    decreases k,
{
    if j < k {
        lemma_all_lines_grow(spans, j, k - 1);
        assert(spans[k - 1].start <= spans[k - 1].end);
    } else if k > 0 {
        lemma_all_lines_grow(spans, j - 1, k - 1);
        assert(spans[k - 1].start <= spans[k - 1].end);
    }
}

fn summarize(spans: &[LineSpan]) -> (r: TierCounts)
    requires
        spans_ok(runs_of(spans@)),
    ensures
        r == summary_of(runs_of(spans@)),
{
    let mut r = TierCounts::default();
    let mut k: usize = 0;
    while k < spans.len()
        invariant
            spans_ok(runs_of(spans@)),
            k <= spans.len(),
            r.core == tier_lines(runs_of(spans@), Tier::Core, k as int),
            r.boundary == tier_lines(runs_of(spans@), Tier::Boundary, k as int),
            r.plumbing == tier_lines(runs_of(spans@), Tier::Plumbing, k as int),
            r.inert == tier_lines(runs_of(spans@), Tier::Inert, k as int),
        decreases spans.len() - k,
    {
        let s = &spans[k];
        proof {
            lemma_tier_lines(runs_of(spans@), k + 1);
            lemma_tier_lines(runs_of(spans@), k as int);
            lemma_all_lines_grow(runs_of(spans@), k + 1, spans@.len() as int);
            assert(runs_of(spans@)[k as int] == run_of(*s));
        }
        let lines: usize = (s.end - s.start) as usize + 1;
        match s.tier {
            Tier::Core => {
                r.core = r.core + lines;
            },
            Tier::Boundary => {
                r.boundary = r.boundary + lines;
            },
            Tier::Plumbing => {
                r.plumbing = r.plumbing + lines;
            },
            Tier::Inert => {
                r.inert = r.inert + lines;
            },
        }
        k += 1;
    }
    r
}

fn copy_texts(v: &Vec<String>) -> (r: Vec<String>)
    ensures
        texts(r@) == texts(v@),
{
    let mut out: Vec<String> = Vec::new();
    let mut k: usize = 0;
    while k < v.len()
        invariant
            k <= v.len(),
            texts(out@) =~= texts(v@).take(k as int),
        decreases v.len() - k,
    {
        let ghost before = out@;
        out.push(v[k].clone());
        assert(texts(out@) =~= texts(before).push(v@[k as int]@));
        k += 1;
    }
    assert(texts(out@) =~= texts(v@));
    out
}

impl SpanRecord {
    /// The record of a span; `source_lines` is the owning function's file,
    /// split into lines.
    fn from_span(s: &LineSpan, source_lines: Option<&Vec<String>>, source: Ghost<Option<Seq<char>>>) -> (r:
        Self)
        requires
            match source_lines {
                Some(ls) => source@ matches Some(src) && right_trimmed(lines(src)) == texts(ls@),
                None => source@ is None,
            },
        ensures
            r@ == span_record(run_of(*s), source@),
    {
        let text = match source_lines {
            Some(ls) => text_between(ls, s.start, s.end),
            None => None,
        };
        proof {
            if let Some(ls) = source_lines {
                lemma_text_between(lines(source@->0), texts(ls@), s.start, s.end);
            }
        }
        SpanRecord {
            start: s.start,
            end: s.end,
            tier: s.tier.name().to_owned(),
            function_score: s.score,
            rank: s.rank,
            file_score: None,
            repo_score: None,
            text,
            reasons: copy_texts(&s.reasons),
        }
    }

    fn set_score(&mut self, scope: Scope, score: Option<i64>)
        ensures
            final(self)@ == span_scored(old(self)@, scope, score),
    {
        match scope {
            Scope::File => {
                self.file_score = score;
            },
            Scope::Repo => {
                self.repo_score = score;
            },
        }
    }
}

/// The lines from `start` to `end` of lines that are already right-trimmed.
spec fn between(all: Seq<Seq<char>>, start: u32, end: u32) -> Option<Seq<char>> {
    if start == 0 || end == 0 || start > end || end > all.len() {
        None
    } else {
        Some(joined_with(all.subrange(start - 1, end as int), "\n"@))
    }
}

proof fn lemma_text_between(all: Seq<Seq<char>>, cut: Seq<Seq<char>>, start: u32, end: u32)
    requires
        cut == right_trimmed(all),
    ensures
        between(cut, start, end) == text_of_lines(all, start, end),
{
    if !(start == 0 || end == 0 || start > end || end > all.len()) {
        assert(cut.subrange(start - 1, end as int) =~= right_trimmed(
            all.subrange(start - 1, end as int),
        ));
    }
}

fn text_between(all: &Vec<String>, start: u32, end: u32) -> (r: Option<String>)
    ensures
        text_view(r) == between(texts(all@), start, end),
{
    if start == 0 || end == 0 {
        return None;
    }
    let from: usize = (start - 1) as usize;
    let to: usize = end as usize;
    if start > end || to > all.len() {
        return None;
    }
    let ghost wanted = texts(all@).subrange(from as int, to as int);
    let mut parts: Vec<String> = Vec::new();
    let mut k: usize = from;
    while k < to
        invariant
            from <= k <= to <= all.len(),
            wanted == texts(all@).subrange(from as int, to as int),
            texts(parts@) =~= wanted.take(k - from),
        decreases to - k,
    {
        let ghost before = parts@;
        parts.push(all[k].clone());
        assert(texts(parts@) =~= texts(before).push(all@[k as int]@));
        k += 1;
    }
    assert(wanted.take(k - from) =~= wanted);
    Some(join(&parts, "\n"))
}

fn trimmed_lines(source: &str) -> (r: Vec<String>)
    ensures
        texts(r@) == right_trimmed(lines(source@)),
{
    let chars = chars_of(source);
    let all = split_lines(chars.as_slice());
    let ghost ls = lines(source@);
    assert(ls.len() == all@.len());
    let mut out: Vec<String> = Vec::new();
    let mut k: usize = 0;
    while k < all.len()
        invariant
            k <= all.len(),
            ls == all@.map_values(|l: &[char]| l@),
            texts(out@) =~= right_trimmed(ls).take(k as int),
        decreases all.len() - k,
    {
        let ghost before = out@;
        let line = string_from_chars(trim_tail(all[k]));
        assert(ls[k as int] == all@[k as int]@);
        out.push(line);
        assert(texts(out@) =~= texts(before).push(line@));
        k += 1;
    }
    assert(texts(out@) =~= right_trimmed(ls));
    out
}

fn count_lines_known(ir: &FunctionIr) -> (r: usize)
    ensures
        r == lines_known(ir@.nodes, ir@.nodes.len() as int),
{
    let mut n: usize = 0;
    let mut k: usize = 0;
    while k < ir.nodes.len()
        invariant
            n <= k <= ir.nodes.len(),
            n == lines_known(ir@.nodes, k as int),
        decreases ir.nodes.len() - k,
    {
        assert(ir@.nodes[k as int] == ir.nodes@[k as int]@);
        if ir.nodes[k].line.is_some() {
            n += 1;
        }
        k += 1;
    }
    n
}

fn higher_of(a: Option<i64>, b: Option<i64>) -> (r: Option<i64>)
    ensures
        r == higher(a, b),
{
    match (a, b) {
        (None, _) => b,
        (_, None) => a,
        (Some(x), Some(y)) => if x >= y {
            a
        } else {
            b
        },
    }
}

fn find_peak(scores: &[FileScores], file: &str, start: u32, end: u32) -> (r: Option<i64>)
    ensures
        r == peak(scores@, file@, start, end, scores@.len() as int),
{
    let mut best: Option<i64> = None;
    let mut k: usize = 0;
    while k < scores.len()
        invariant
            k <= scores.len(),
            best == peak(scores@, file@, start, end, k as int),
        decreases scores.len() - k,
    {
        let mut here: Option<i64> = None;
        if same(scores[k].file.as_str(), file) {
            let lines = &scores[k].lines;
            let mut j: usize = 0;
            while j < lines.len()
                invariant
                    j <= lines.len(),
                    here == peak_of_lines(lines@, start, end, j as int),
                decreases lines.len() - j,
            {
                let (line, score) = lines[j];
                let one: Option<i64> = if start <= line && line <= end {
                    Some(score)
                } else {
                    None
                };
                here = higher_of(here, one);
                j += 1;
            }
        }
        best = higher_of(best, here);
        k += 1;
    }
    best
}

fn knows_file(scores: &[FileScores], file: &str) -> (r: bool)
    ensures
        r == has_file(scores@, file@),
{
    let mut k: usize = 0;
    while k < scores.len()
        invariant
            k <= scores.len(),
            forall|j: int| 0 <= j < k ==> (#[trigger] scores@[j]).file@ != file@,
        decreases scores.len() - k,
    {
        if same(scores[k].file.as_str(), file) {
            return true;
        }
        k += 1;
    }
    false
}

impl FunctionRecord {
    fn apply_scope(&mut self, sidecar_file: &str, scope: Scope, scores: &[FileScores])
        ensures
            final(self)@ == record_scored(old(self)@, sidecar_file@, scope, scores@),
    {
        let ghost f = self@;
        let ghost file_v = owning_file(f, sidecar_file@);
        let file: String = if self.file.as_str().is_empty() {
            sidecar_file.to_owned()
        } else {
            self.file.clone()
        };
        if !knows_file(scores, file.as_str()) {
            return ;
        }
        let ghost target = record_scored(f, sidecar_file@, scope, scores@).spans;
        let n: usize = self.spans.len();
        let mut k: usize = 0;
        while k < n
            invariant
                n == self.spans.len(),
                n == f.spans.len(),
                k <= n,
                file@ == file_v,
                target.len() == n,
                forall|j: int|
                    0 <= j < n ==> #[trigger] target[j] == span_scored(
                        f.spans[j],
                        scope,
                        peak(
                            scores@,
                            file_v,
                            f.spans[j].start,
                            f.spans[j].end,
                            scores@.len() as int,
                        ),
                    ),
                self@ == (RecordView { spans: self@.spans, ..f }),
                forall|j: int| 0 <= j < k ==> #[trigger] self@.spans[j] == target[j],
                forall|j: int| k <= j < n ==> #[trigger] self@.spans[j] == f.spans[j],
            decreases n - k,
        {
            let ghost before = self.spans@;
            let ghost views = self@.spans;
            assert(self@.spans[k as int] == f.spans[k as int]);
            assert(self.spans@[k as int]@ == f.spans[k as int]);
            let start: u32 = self.spans[k].start;
            let end: u32 = self.spans[k].end;
            let score = find_peak(scores, file.as_str(), start, end);
            self.spans[k].set_score(scope, score);
            proof {
                assert(target[k as int] == self.spans@[k as int]@);
                assert forall|j: int| 0 <= j < n && j != k implies #[trigger] self@.spans[j]
                    == views[j] by {
                    assert(self.spans@[j] == before[j]);
                    assert(views[j] == before[j]@);
                }
            }
            k += 1;
        }
        assert(self@.spans =~= target);
    }
}

impl Sidecar {
    /// Creates an empty sidecar for `file`.
    #[must_use]
    pub fn new(file: &str, generator: &str) -> (r: Self)
        ensures
            r@ == (SidecarView {
                schema: "vikt-sidecar/v3"@,
                generator: generator@,
                file: file@,
                functions: Seq::empty(),
            }),
    {
        let r = Sidecar {
            schema: SCHEMA.to_owned(),
            generator: generator.to_owned(),
            file: file.to_owned(),
            functions: Vec::new(),
        };
        assert(r@.functions =~= Seq::empty());
        r
    }

    /// Appends the analysis of one function. Spans carry no text.
    pub fn push(&mut self, ir: &FunctionIr, importance: &FunctionImportance)
        requires
            fits(ir@, *importance),
        ensures
            final(self)@ == (SidecarView {
                functions: old(self)@.functions.push(
                    function_record(ir@, projected(ir@, *importance), None),
                ),
                ..old(self)@
            }),
    {
        self.push_with_source(ir, importance, None);
    }

    /// Appends the analysis of one function, embedding each span's text from
    /// `source`, the full text of the file the function was lowered from.
    /// Without source every span's text is `None`, never a fabricated empty
    /// string.
    pub fn push_with_source(
        &mut self,
        ir: &FunctionIr,
        importance: &FunctionImportance,
        source: Option<&str>,
    )
        requires
            fits(ir@, *importance),
        ensures
            final(self)@ == (SidecarView {
                functions: old(self)@.functions.push(
                    function_record(
                        ir@,
                        projected(ir@, *importance),
                        match source {
                            Some(s) => Some(s@),
                            None => None,
                        },
                    ),
                ),
                ..old(self)@
            }),
    {
        let spans = project_to_lines(ir, importance);
        let ghost runs = runs_of(spans@);
        let ghost sv: Option<Seq<char>> = match source {
            Some(s) => Some(s@),
            None => None,
        };
        let summary = summarize(spans.as_slice());
        let source_lines: Option<Vec<String>> = match source {
            Some(s) => Some(trimmed_lines(s)),
            None => None,
        };
        let mut records: Vec<SpanRecord> = Vec::new();
        let ghost wanted = runs.map_values(|s: RunView| span_record(s, sv));
        let mut k: usize = 0;
        while k < spans.len()
            invariant
                k <= spans.len(),
                runs == runs_of(spans@),
                wanted == runs.map_values(|s: RunView| span_record(s, sv)),
                match source_lines {
                    Some(ls) => sv matches Some(src) && right_trimmed(lines(src)) == texts(ls@),
                    None => sv is None,
                },
                span_views(records@) =~= wanted.take(k as int),
            decreases spans.len() - k,
        {
            let ghost before = records@;
            let ghost_source: Ghost<Option<Seq<char>>> = Ghost(sv);
            assert(runs[k as int] == run_of(spans@[k as int]));
            let record = SpanRecord::from_span(&spans[k], source_lines.as_ref(), ghost_source);
            records.push(record);
            assert(span_views(records@) =~= span_views(before).push(record@));
            k += 1;
        }
        assert(span_views(records@) =~= wanted);
        let record = FunctionRecord {
            file: ir.id.file.clone(),
            name: ir.id.name.clone(),
            signature: ir.id.signature.clone(),
            decl_line: ir.id.decl_line,
            coverage: Coverage {
                instructions: ir.nodes.len(),
                with_line: count_lines_known(ir),
            },
            summary,
            spans: records,
        };
        assert(record@ =~= function_record(ir@, runs, sv));
        let ghost before = self.functions@;
        self.functions.push(record);
        assert(record_views(self.functions@) =~= record_views(before).push(record@));
    }

    /// Sorts functions into a stable order, so that two runs over the same
    /// input produce the same artifact regardless of the order a frontend
    /// happened to walk the class or module.
    pub fn finish(&mut self)
        ensures
            is_sorted_form(old(self)@.functions, final(self)@.functions),
            final(self)@ == (SidecarView { functions: final(self)@.functions, ..old(self)@ }),
    {
        broadcast use vstd::seq_lib::group_to_multiset_ensures;

        let ghost start = self@;
        let ghost a = self@.functions;
        let n: usize = self.functions.len();
        let mut keys: Vec<Vec<i128>> = Vec::new();
        let mut i: usize = 0;
        while i < n
            invariant
                n == self.functions.len(),
                self@ == start,
                i <= n,
                keys.len() == i,
                forall|k: int|
                    0 <= k < i ==> key_ints((#[trigger] keys@[k])@) == record_key(
                        self.functions@[k]@,
                    ),
            decreases n - i,
        {
            keys.push(key_of(&self.functions[i]));
            i += 1;
        }
        i = 0;
        while i < n
            invariant
                n == self.functions.len(),
                n == keys.len(),
                i <= n,
                self@ == (SidecarView { functions: self@.functions, ..start }),
                sorted(self@.functions.take(i as int)),
                self@.functions.to_multiset() == a.to_multiset(),
                forall|k: int|
                    0 <= k < n ==> key_ints((#[trigger] keys@[k])@) == record_key(
                        self.functions@[k]@,
                    ),
            decreases n - i,
        {
            let ghost v = self@.functions;
            let ghost s = v.take(i as int);
            let ghost x = v[i as int];
            let mut p: usize = i;
            assert(x == self.functions@[i as int]@);
            while p > 0 && comes_first(&keys[i], &keys[p - 1])
                invariant
                    v == self@.functions,
                    n == self.functions.len(),
                    n == keys.len(),
                    i < n,
                    p <= i,
                    s == v.take(i as int),
                    x == self.functions@[i as int]@,
                    forall|k: int|
                        0 <= k < n ==> key_ints((#[trigger] keys@[k])@) == record_key(
                            self.functions@[k]@,
                        ),
                    forall|k: int| p <= k < i ==> record_before(x, #[trigger] s[k]),
                decreases p,
            {
                assert(s[p - 1] == self.functions@[p - 1]@);
                p -= 1;
            }
            proof {
                assert forall|k: int| 0 <= k < p implies !record_before(x, #[trigger] s[k]) by {
                    assert(s[p - 1] == self.functions@[p - 1]@);
                    assert(!record_before(x, s[p - 1]));
                    if k < p - 1 {
                        assert(!record_before(s[p - 1], s[k]));
                        records_are_ordered(s[k], s[p - 1], x);
                    }
                }
                lemma_inserted(s, p as int, x);
            }
            let ghost before = self.functions@;
            let ghost old_keys = keys@;
            let record = self.functions.remove(i);
            self.functions.insert(p, record);
            let key = keys.remove(i);
            keys.insert(p, key);
            proof {
                let w = self@.functions;
                assert(w =~= v.remove(i as int).insert(p as int, x));
                vstd::seq_lib::to_multiset_remove(v, i as int);
                vstd::seq_lib::to_multiset_insert(v.remove(i as int), p as int, x);
                vstd::seq_lib::to_multiset_contains(v, x);
                assert(v.contains(x));
                assert(w.to_multiset() =~= v.to_multiset());
                assert(w.take(i + 1) =~= s.insert(p as int, x));
                assert forall|k: int| 0 <= k < n implies key_ints((#[trigger] keys@[k])@)
                    == record_key(self.functions@[k]@) by {
                    let from = if k < p || k > i {
                        k
                    } else if k == p {
                        i as int
                    } else {
                        k - 1
                    };
                    assert(keys@[k] == old_keys[from]);
                    assert(self.functions@[k] == before[from]);
                }
            }
            i += 1;
        }
        proof {
            assert(self@.functions.take(n as int) =~= self@.functions);
        }
    }

    fn apply_scope(&mut self, scope: Scope, scores: &[FileScores])
        ensures
            final(self)@ == scoped(old(self)@, scope, scores@),
    {
        let ghost start = self@;
        let ghost target = scoped(start, scope, scores@).functions;
        let n: usize = self.functions.len();
        let sidecar_file = self.file.clone();
        let mut k: usize = 0;
        while k < n
            invariant
                n == self.functions.len(),
                n == start.functions.len(),
                k <= n,
                sidecar_file@ == start.file,
                target == scoped(start, scope, scores@).functions,
                self@ == (SidecarView { functions: self@.functions, ..start }),
                forall|j: int| 0 <= j < k ==> #[trigger] self@.functions[j] == target[j],
                forall|j: int| k <= j < n ==> #[trigger] self@.functions[j] == start.functions[j],
            decreases n - k,
        {
            let ghost before = self.functions@;
            let ghost views = self@.functions;
            assert(self@.functions[k as int] == start.functions[k as int]);
            assert(self.functions@[k as int]@ == start.functions[k as int]);
            self.functions[k].apply_scope(sidecar_file.as_str(), scope, scores);
            proof {
                assert forall|j: int| 0 <= j < n && j != k implies #[trigger] self@.functions[j]
                    == views[j] by {
                    assert(self.functions@[j] == before[j]);
                    assert(views[j] == before[j]@);
                }
            }
            k += 1;
        }
        assert(self@.functions =~= target);
    }

    /// Attaches a file-scope score to every span already pushed. A span whose
    /// file has no entry is left alone; one whose lines are absent gets none;
    /// one with several scored lines takes the highest.
    pub fn apply_file_scope(&mut self, by_file: &[FileScores])
        ensures
            final(self)@ == scoped(old(self)@, Scope::File, by_file@),
    {
        self.apply_scope(Scope::File, by_file);
    }

    /// Attaches a repo-scope score to every span already pushed, as
    /// [`Self::apply_file_scope`] does for file scope.
    pub fn apply_repo_scope(&mut self, by_file: &[FileScores])
        ensures
            final(self)@ == scoped(old(self)@, Scope::Repo, by_file@),
    {
        self.apply_scope(Scope::Repo, by_file);
    }

    fn score_covering(&self, line: u32, scope: Scope) -> (r: Option<i64>)
        ensures
            r == score_at(all_spans(self@), line, scope, all_spans(self@).len() as int),
    {
        let ghost fns = self@.functions;
        let ghost all = all_spans(self@);
        let mut best: Option<i64> = None;
        let mut i: usize = 0;
        while i < self.functions.len()
            invariant
                fns == self@.functions,
                all == spans_before(fns, fns.len() as int),
                i <= self.functions.len(),
                best == score_at(all, line, scope, spans_before(fns, i as int).len() as int),
            decreases self.functions.len() - i,
        {
            let f = &self.functions[i];
            assert(fns[i as int] == f@);
            let ghost done = spans_before(fns, i as int);
            proof {
                lemma_spans_prefix(fns, i + 1, fns.len() as int);
            }
            let mut j: usize = 0;
            while j < f.spans.len()
                invariant
                    fns == self@.functions,
                    fns[i as int] == f@,
                    i < fns.len(),
                    done == spans_before(fns, i as int),
                    all == spans_before(fns, fns.len() as int),
                    done + f@.spans == all.take((done + f@.spans).len() as int),
                    (done + f@.spans).len() <= all.len(),
                    j <= f.spans.len(),
                    best == score_at(all, line, scope, done.len() + j),
                decreases f.spans.len() - j,
            {
                let s = &f.spans[j];
                assert(all[done.len() + j] == s@) by {
                    assert((done + f@.spans)[done.len() + j] == f@.spans[j as int]);
                    assert(all.take((done + f@.spans).len() as int)[done.len() + j]
                        == all[done.len() + j]);
                }
                let here: Option<i64> = if s.start <= line && line <= s.end {
                    match scope {
                        Scope::File => s.file_score,
                        Scope::Repo => s.repo_score,
                    }
                } else {
                    None
                };
                best = higher_of(best, here);
                j += 1;
            }
            i += 1;
        }
        best
    }

    /// The file-scope score covering `line`: the highest among spans that
    /// claim the line.
    #[must_use]
    pub fn file_score_at(&self, line: u32) -> (r: Option<i64>)
        ensures
            r == score_at(all_spans(self@), line, Scope::File, all_spans(self@).len() as int),
    {
        self.score_covering(line, Scope::File)
    }

    /// The repo-scope score covering `line`: the highest among spans that
    /// claim the line.
    #[must_use]
    pub fn repo_score_at(&self, line: u32) -> (r: Option<i64>)
        ensures
            r == score_at(all_spans(self@), line, Scope::Repo, all_spans(self@).len() as int),
    {
        self.score_covering(line, Scope::Repo)
    }

    /// The tier covering `line`, if any function's map claims it.
    ///
    /// This is the query an edit-policy hook makes: given a line, how
    /// sensitive is it? Returns the strongest tier when functions overlap.
    #[must_use]
    pub fn tier_at(&self, line: u32) -> (r: Option<&str>)
        ensures
            match r {
                Some(t) => tier_name_at(
                    all_spans(self@),
                    line,
                    all_spans(self@).len() as int,
                ) == Some(t@),
                None => tier_name_at(
                    all_spans(self@),
                    line,
                    all_spans(self@).len() as int,
                ) is None,
            },
    {
        let ghost fns = self@.functions;
        let ghost all = all_spans(self@);
        let mut best: Option<&str> = None;
        let mut i: usize = 0;
        while i < self.functions.len()
            invariant
                fns == self@.functions,
                all == spans_before(fns, fns.len() as int),
                i <= self.functions.len(),
                str_view(best) == tier_name_at(
                    all,
                    line,
                    spans_before(fns, i as int).len() as int,
                ),
            decreases self.functions.len() - i,
        {
            let f = &self.functions[i];
            assert(fns[i as int] == f@);
            let ghost done = spans_before(fns, i as int);
            proof {
                lemma_spans_prefix(fns, i + 1, fns.len() as int);
            }
            let mut j: usize = 0;
            while j < f.spans.len()
                invariant
                    fns == self@.functions,
                    fns[i as int] == f@,
                    i < fns.len(),
                    done == spans_before(fns, i as int),
                    all == spans_before(fns, fns.len() as int),
                    done + f@.spans == all.take((done + f@.spans).len() as int),
                    (done + f@.spans).len() <= all.len(),
                    j <= f.spans.len(),
                    str_view(best) == tier_name_at(all, line, done.len() + j),
                decreases f.spans.len() - j,
            {
                let s = &f.spans[j];
                assert(all[done.len() + j] == s@) by {
                    assert((done + f@.spans)[done.len() + j] == f@.spans[j as int]);
                    assert(all.take((done + f@.spans).len() as int)[done.len() + j]
                        == all[done.len() + j]);
                }
                if s.start <= line && line <= s.end {
                    let wins: bool = match best {
                        None => true,
                        Some(b) => named_tier(s.tier.as_str()).stronger_than(named_tier(b)),
                    };
                    if wins {
                        best = Some(s.tier.as_str());
                    }
                }
                j += 1;
            }
            i += 1;
        }
        best
    }
}

spec fn str_view(s: Option<&str>) -> Option<Seq<char>> {
    match s {
        Some(t) => Some(t@),
        None => None,
    }
}

fn named_tier(name: &str) -> (r: Tier)
    ensures
        r == tier_of(name@),
{
    if same(name, "core") {
        Tier::Core
    } else if same(name, "boundary") {
        Tier::Boundary
    } else if same(name, "plumbing") {
        Tier::Plumbing
    } else {
        Tier::Inert
    }
}

proof fn lemma_spans_prefix(fns: Seq<RecordView>, i: int, k: int)
    requires
        0 <= i <= k <= fns.len(),
    ensures
        spans_before(fns, i).len() <= spans_before(fns, k).len(),
        spans_before(fns, i) == spans_before(fns, k).take(spans_before(fns, i).len() as int),
    decreases k - i,
{
    let a = spans_before(fns, i);
    let b = spans_before(fns, k);
    if i < k {
        lemma_spans_prefix(fns, i, k - 1);
        let c = spans_before(fns, k - 1);
        assert(b.take(a.len() as int) =~= c.take(a.len() as int));
    } else {
        assert(b.take(a.len() as int) =~= a);
    }
}

} // verus!
