//! What the records of a sidecar promise of the spans and scores they are made
//! from.

use vstd::prelude::*;

use crate::artifact::{
    function_record, has_file, higher, lines_known, owning_file, peak, peak_of_lines,
    record_scored, right_trimmed, score_at, score_of, text_of_lines, FileScores, RecordView, Scope,
    SpanView,
};
use crate::ir::{FunctionView, NodeView};
use crate::projection::RunView;
use crate::text::{joined_with, trim_end};

verus! {

/// A record holds one span for each span of its function, with the same lines,
/// tier, score, rank and reasons. Scores of wider scopes are set later, and there
/// is no text without a source.
pub proof fn a_record_tells_the_spans_of_its_function(
    f: FunctionView,
    spans: Seq<RunView>,
    source: Option<Seq<char>>,
    k: int,
)
    requires
        0 <= k < spans.len(),
    ensures
        ({
            let r = function_record(f, spans, source);
            let s = r.spans[k];
            &&& r.spans.len() == spans.len()
            &&& r.file == f.id.file && r.name == f.id.name && r.signature == f.id.signature
            &&& r.decl_line == f.id.decl_line
            &&& s.start == spans[k].start && s.end == spans[k].end
            &&& s.tier == spans[k].tier.text()
            &&& s.function_score == spans[k].score
            &&& s.rank == spans[k].rank
            &&& s.reasons == spans[k].reasons
            &&& s.file_score is None && s.repo_score is None
            &&& source is None ==> s.text is None
        }),
{
}

proof fn lemma_known_before(nodes: Seq<NodeView>, n: NodeView, k: int)
    requires
        0 <= k <= nodes.len(),
    ensures
        lines_known(nodes.push(n), k) == lines_known(nodes, k),
    decreases k,
{
    if k > 0 {
        lemma_known_before(nodes, n, k - 1);
        assert(nodes.push(n)[k - 1] == nodes[k - 1]);
    }
}

/// Coverage counts a node more for every node, and a line more for every node
/// that has one.
pub proof fn a_node_counts_for_coverage(nodes: Seq<NodeView>, n: NodeView)
    ensures
        lines_known(Seq::<NodeView>::empty(), 0) == 0,
        lines_known(nodes.push(n), nodes.len() as int + 1) == lines_known(
            nodes,
            nodes.len() as int,
        ) + if n.line is Some {
            1nat
        } else {
            0nat
        },
{
    lemma_known_before(nodes, n, nodes.len() as int);
    assert(nodes.push(n)[nodes.len() as int] == n);
}

/// A span has text exactly when both of its ends are lines of the source, the
/// first not behind the last.
pub proof fn text_is_there_for_lines_of_the_source(all: Seq<Seq<char>>, start: u32, end: u32)
    ensures
        text_of_lines(all, start, end) is Some <==> 1 <= start <= end <= all.len(),
{
}

/// The text of one line is the line without the white space at its end.
pub proof fn the_text_of_one_line_is_the_line(all: Seq<Seq<char>>, line: u32)
    requires
        1 <= line <= all.len(),
    ensures
        text_of_lines(all, line, line) == Some(trim_end(all[line - 1])),
{
    let one = right_trimmed(all.subrange(line - 1, line as int));
    assert(one.len() == 1);
    assert(one[0] == trim_end(all[line - 1]));
}

/// The text of a line more is the text so far, a line break and that line
/// without the white space at its end.
pub proof fn the_text_of_a_line_more_goes_on(all: Seq<Seq<char>>, start: u32, end: u32)
    requires
        1 <= start <= end < all.len(),
        end < u32::MAX,
    ensures
        text_of_lines(all, start, (end + 1) as u32) == Some(
            text_of_lines(all, start, end)->0 + "\n"@ + trim_end(all[end as int]),
        ),
{
    let long = right_trimmed(all.subrange(start - 1, end + 1));
    let short = right_trimmed(all.subrange(start - 1, end as int));
    assert(long.drop_last() =~= short);
    assert(long.last() == trim_end(all[end as int]));
    assert(long.len() > 1);
    assert(joined_with(long, "\n"@) == joined_with(short, "\n"@) + "\n"@ + long.last());
}

/// The score that a list gives to lines from `start` to `end` is the greatest of
/// theirs; there is none when it holds none of them.
pub proof fn the_peak_of_lines_is_the_greatest(
    lines: Seq<(u32, i64)>,
    start: u32,
    end: u32,
    k: int,
)
    requires
        0 <= k <= lines.len(),
    ensures
        match peak_of_lines(lines, start, end, k) {
            Some(x) => {
                &&& exists|j: int|
                    0 <= j < k && start <= (#[trigger] lines[j]).0 <= end && lines[j].1 == x
                &&& forall|j: int|
                    0 <= j < k && start <= (#[trigger] lines[j]).0 <= end ==> lines[j].1 <= x
            },
            None => forall|j: int|
                0 <= j < k ==> !(start <= (#[trigger] lines[j]).0 <= end),
        },
    decreases k,
{
    if k > 0 {
        the_peak_of_lines_is_the_greatest(lines, start, end, k - 1);
        let rest = peak_of_lines(lines, start, end, k - 1);
        let last = lines[k - 1];
        if start <= last.0 <= end {
            assert(peak_of_lines(lines, start, end, k) == higher(rest, Some(last.1)));
        } else {
            assert(peak_of_lines(lines, start, end, k) == higher(rest, None::<i64>));
            assert(peak_of_lines(lines, start, end, k) == rest);
        }
        if let Some(x) = rest {
            let j = choose|j: int|
                0 <= j < k - 1 && start <= (#[trigger] lines[j]).0 <= end && lines[j].1 == x;
            assert(start <= lines[j].0 <= end);
        }
    }
}

/// Whether a list of scores gives a line of a file a score.
pub open spec fn scores(list: Seq<FileScores>, file: Seq<char>, line: u32, score: i64, k: int) -> bool {
    exists|a: int, b: int|
        0 <= a < k && 0 <= b < list[a].lines@.len() && list[a].file@ == file
            && #[trigger] list[a].lines@[b] == (line, score)
}

/// The score that a span gets of a scope is the greatest that the lists give to
/// one of its lines in its file; it gets none when they give none.
pub proof fn a_peak_is_the_greatest_score(
    list: Seq<FileScores>,
    file: Seq<char>,
    start: u32,
    end: u32,
    k: int,
)
    requires
        0 <= k <= list.len(),
    ensures
        match peak(list, file, start, end, k) {
            Some(x) => {
                &&& exists|line: u32|
                    start <= line <= end && #[trigger] scores(list, file, line, x, k)
                &&& forall|line: u32, y: i64|
                    start <= line <= end && #[trigger] scores(list, file, line, y, k) ==> y <= x
            },
            None => forall|line: u32, y: i64|
                start <= line <= end ==> !#[trigger] scores(list, file, line, y, k),
        },
    decreases k,
{
    if k > 0 {
        a_peak_is_the_greatest_score(list, file, start, end, k - 1);
        let rest = peak(list, file, start, end, k - 1);
        let lines = list[k - 1].lines@;
        let n = lines.len() as int;
        the_peak_of_lines_is_the_greatest(lines, start, end, n);
        let here = if list[k - 1].file@ == file {
            peak_of_lines(lines, start, end, n)
        } else {
            None
        };
        let all = peak(list, file, start, end, k);
        assert(all == higher(rest, here));
        assert forall|line: u32, y: i64|
            start <= line <= end && #[trigger] scores(list, file, line, y, k) implies all is Some
            && y <= all->0 by {
            let (a, b) = choose|a: int, b: int|
                0 <= a < k && 0 <= b < list[a].lines@.len() && list[a].file@ == file
                    && #[trigger] list[a].lines@[b] == (line, y);
            if a == k - 1 {
                assert(lines[b] == (line, y));
                assert(start <= lines[b].0 <= end);
            } else {
                assert(list[a].lines@[b] == (line, y));
                assert(scores(list, file, line, y, k - 1));
            }
        }
        if all is Some {
            let x = all->0;
            if here == Some(x) {
                let j = choose|j: int|
                    0 <= j < n && start <= (#[trigger] lines[j]).0 <= end && lines[j].1 == x;
                let line = lines[j].0;
                assert(list[k - 1].lines@[j] == (line, x));
                assert(scores(list, file, line, x, k));
            } else {
                assert(rest == Some(x));
                let line = choose|line: u32|
                    start <= line <= end && #[trigger] scores(list, file, line, x, k - 1);
                let (a, b) = choose|a: int, b: int|
                    0 <= a < k - 1 && 0 <= b < list[a].lines@.len() && list[a].file@ == file
                        && #[trigger] list[a].lines@[b] == (line, x);
                assert(list[a].lines@[b] == (line, x));
                assert(scores(list, file, line, x, k));
            }
        }
    }
}

/// Scoring a record for a scope sets the score of that scope on each span and
/// changes nothing else. A record whose file has no scores is left as it is.
pub proof fn scoring_sets_one_score(
    f: RecordView,
    sidecar_file: Seq<char>,
    scope: Scope,
    list: Seq<FileScores>,
    k: int,
)
    requires
        0 <= k < f.spans.len(),
    ensures
        ({
            let r = record_scored(f, sidecar_file, scope, list);
            let file = if f.file.len() == 0 {
                sidecar_file
            } else {
                f.file
            };
            let a = f.spans[k];
            let b = r.spans[k];
            &&& r.spans.len() == f.spans.len()
            &&& r.file == f.file && r.name == f.name && r.summary == f.summary
            &&& b.start == a.start && b.end == a.end && b.tier == a.tier && b.text == a.text
            &&& b.function_score == a.function_score && b.rank == a.rank && b.reasons == a.reasons
            &&& scope is File ==> b.repo_score == a.repo_score
            &&& scope is Repo ==> b.file_score == a.file_score
            &&& has_file(list, file) ==> score_of(b, scope) == peak(
                list,
                file,
                a.start,
                a.end,
                list.len() as int,
            )
            &&& !has_file(list, file) ==> b == a
        }),
{
    assert(owning_file(f, sidecar_file) == if f.file.len() == 0 {
        sidecar_file
    } else {
        f.file
    });
}

/// The score of a line is the greatest of the spans that cover it; it has none
/// when none of them has.
pub proof fn the_score_of_a_line_is_the_greatest(
    spans: Seq<SpanView>,
    line: u32,
    scope: Scope,
    k: int,
)
    requires
        0 <= k <= spans.len(),
    ensures
        match score_at(spans, line, scope, k) {
            Some(x) => {
                &&& exists|j: int|
                    0 <= j < k && (#[trigger] spans[j]).start <= line <= spans[j].end && score_of(
                        spans[j],
                        scope,
                    ) == Some(x)
                &&& forall|j: int|
                    0 <= j < k && (#[trigger] spans[j]).start <= line <= spans[j].end ==> (score_of(
                        spans[j],
                        scope,
                    ) matches Some(y) ==> y <= x)
            },
            None => forall|j: int|
                0 <= j < k && (#[trigger] spans[j]).start <= line <= spans[j].end ==> score_of(
                    spans[j],
                    scope,
                ) is None,
        },
    decreases k,
{
    if k > 0 {
        the_score_of_a_line_is_the_greatest(spans, line, scope, k - 1);
        let rest = score_at(spans, line, scope, k - 1);
        let s = spans[k - 1];
        let here = if s.start <= line <= s.end {
            score_of(s, scope)
        } else {
            None
        };
        assert(score_at(spans, line, scope, k) == higher(rest, here));
        if let Some(x) = rest {
            let j = choose|j: int|
                0 <= j < k - 1 && (#[trigger] spans[j]).start <= line <= spans[j].end && score_of(
                    spans[j],
                    scope,
                ) == Some(x);
            assert(spans[j].start <= line <= spans[j].end);
        }
    }
}

} // verus!
