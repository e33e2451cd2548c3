//! Scope beyond one function: the call graph among scored functions, what it
//! says of each of them, and which function owns a scored line.
//!
//! A call resolves to a unique function or to none. Functions of the caller's
//! own file are preferred: only when none of them matches does the search
//! widen to every file. An exact name is tried before the trailing `.`- or
//! `:`-separated segment, and more than one match is no match.

use vstd::prelude::*;

pub use crate::blend::{file_scores, repo_scores, RankedLine};
use crate::calibration::{average_ranks, doubled_rank, ranks_are_positions};
use crate::confluence::{component_orders, is_orders};
use crate::graph::{list_marked, members, members_are_marked};
use crate::importance::{NodeImportance, Tier};
use crate::ir::{FunctionIr, FunctionView, KindView, NodeKind};
use crate::search::{edges_in_range, rows};
use crate::text::{chars_of, same, string_from_chars};

verus! {

/// One function's contribution to a wider pass.
#[derive(Debug, Clone, Copy)]
pub struct ScopedFunction<'a> {
    /// The function's lowered body, source of the call graph.
    pub ir: &'a FunctionIr,
    /// Its tiered analysis, source of boundary density.
    pub importance: &'a [NodeImportance],
    /// The lines that the function scores.
    pub lines: &'a [u32],
    /// The score of each of them within the function, in any unit that is the
    /// same for all functions passed in.
    pub scores: &'a [i64],
}

impl<'a> ScopedFunction<'a> {
    /// Whether the analysis speaks of the function's nodes, and every scored
    /// line has a score.
    pub open spec fn ok(self) -> bool {
        &&& forall|k: int|
            0 <= k < self.importance@.len() ==> (#[trigger] self.importance@[k]).node
                < self.ir@.nodes.len()
        &&& self.scores@.len() == self.lines@.len()
    }
}

/// What a search among names found.
#[derive(Debug, Clone, Copy, PartialEq, Eq, Structural)]
pub enum Found {
    Nothing,
    One(usize),
    Many,
}

/// What is found when the function `i` matches as well.
pub open spec fn found_also(f: Found, i: int) -> Found {
    match f {
        Found::Nothing => Found::One(i as usize),
        _ => Found::Many,
    }
}

pub open spec fn is_separator(c: char) -> bool {
    c == '.' || c == ':'
}

/// The trailing `::`- or `.`-separated segment of a qualified name.
pub open spec fn segment(s: Seq<char>) -> Seq<char>
    decreases s.len(),
{
    if s.len() == 0 || is_separator(s.last()) {
        Seq::empty()
    } else {
        segment(s.drop_last()).push(s.last())
    }
}

/// Whether a name is the wanted one: exactly, or by its trailing segment.
pub open spec fn name_matches(name: Seq<char>, callee: Seq<char>, loose: bool) -> bool {
    if loose {
        segment(callee).len() > 0 && segment(name) == segment(callee)
    } else {
        name == callee
    }
}

/// Whether a function is searched: all are, or those of one file.
pub open spec fn in_tier(files: Seq<Seq<char>>, tier: Option<Seq<char>>, i: int) -> bool {
    match tier {
        Some(file) => files[i] == file,
        None => true,
    }
}

/// What a search among the first `k` functions finds.
pub open spec fn found(
    callee: Seq<char>,
    names: Seq<Seq<char>>,
    files: Seq<Seq<char>>,
    tier: Option<Seq<char>>,
    loose: bool,
    k: int,
) -> Found
    decreases k,
{
    if k <= 0 || k > names.len() {
        Found::Nothing
    } else {
        let rest = found(callee, names, files, tier, loose, k - 1);
        if in_tier(files, tier, k - 1) && name_matches(names[k - 1], callee, loose) {
            found_also(rest, k - 1)
        } else {
            rest
        }
    }
}

/// What a search finds: by exact name, or else by trailing segment.
pub open spec fn found_in(
    callee: Seq<char>,
    names: Seq<Seq<char>>,
    files: Seq<Seq<char>>,
    tier: Option<Seq<char>>,
) -> Found {
    match found(callee, names, files, tier, false, names.len() as int) {
        Found::Nothing => found(callee, names, files, tier, true, names.len() as int),
        f => f,
    }
}

/// The function that a call resolves to.
pub open spec fn callee_of(
    callee: Seq<char>,
    caller_file: Seq<char>,
    names: Seq<Seq<char>>,
    files: Seq<Seq<char>>,
) -> Option<usize> {
    match found_in(callee, names, files, Some(caller_file)) {
        Found::One(i) => Some(i),
        Found::Many => None,
        Found::Nothing => match found_in(callee, names, files, None) {
            Found::One(i) => Some(i),
            _ => None,
        },
    }
}

/// Where a search finds one function, that function matches and no other one
/// does.
pub proof fn found_one_is_unique(
    callee: Seq<char>,
    names: Seq<Seq<char>>,
    files: Seq<Seq<char>>,
    tier: Option<Seq<char>>,
    loose: bool,
    k: int,
)
    requires
        0 <= k <= names.len() <= usize::MAX,
    ensures
        match found(callee, names, files, tier, loose, k) {
            Found::Nothing => forall|i: int|
                0 <= i < k ==> !(in_tier(files, tier, i) && #[trigger] name_matches(
                    names[i],
                    callee,
                    loose,
                )),
            Found::One(j) => j < k && in_tier(files, tier, j as int) && name_matches(
                names[j as int],
                callee,
                loose,
            ) && forall|i: int|
                0 <= i < k && in_tier(files, tier, i) && #[trigger] name_matches(
                    names[i],
                    callee,
                    loose,
                ) ==> i == j,
            Found::Many => exists|i: int, j: int|
                0 <= i < j < k && in_tier(files, tier, i) && in_tier(files, tier, j)
                    && #[trigger] name_matches(names[i], callee, loose)
                    && #[trigger] name_matches(names[j], callee, loose),
        },
    decreases k,
{
    if k > 0 {
        found_one_is_unique(callee, names, files, tier, loose, k - 1);
        let rest = found(callee, names, files, tier, loose, k - 1);
        if in_tier(files, tier, k - 1) && name_matches(names[k - 1], callee, loose) {
            match rest {
                Found::One(j) => {
                    assert(name_matches(names[j as int], callee, loose));
                    assert(name_matches(names[k - 1], callee, loose));
                },
                _ => {},
            }
        }
    }
}

/// What a search finds is a function.
pub proof fn found_is_a_function(
    callee: Seq<char>,
    caller_file: Seq<char>,
    names: Seq<Seq<char>>,
    files: Seq<Seq<char>>,
)
    requires
        names.len() <= usize::MAX,
    ensures
        callee_of(callee, caller_file, names, files) matches Some(i) ==> i < names.len(),
{
    let n = names.len() as int;
    found_one_is_unique(callee, names, files, Some(caller_file), false, n);
    found_one_is_unique(callee, names, files, Some(caller_file), true, n);
    found_one_is_unique(callee, names, files, None, false, n);
    found_one_is_unique(callee, names, files, None, true, n);
}

/// A callee that two functions of the caller's file match, by exact name or,
/// where none does so, by trailing segment, resolves to nothing.
pub proof fn ambiguous_callee_resolves_to_nothing(
    callee: Seq<char>,
    caller_file: Seq<char>,
    names: Seq<Seq<char>>,
    files: Seq<Seq<char>>,
)
    requires
        found_in(callee, names, files, Some(caller_file)) is Many,
    ensures
        callee_of(callee, caller_file, names, files) is None,
{
}

/// A function of the caller's own file is preferred over any namesake
/// elsewhere.
pub proof fn own_file_is_preferred(
    callee: Seq<char>,
    caller_file: Seq<char>,
    names: Seq<Seq<char>>,
    files: Seq<Seq<char>>,
)
    requires
        names.len() <= usize::MAX,
        callee_of(callee, caller_file, names, files) is Some,
        exists|i: int|
            0 <= i < names.len() && #[trigger] names[i] == callee && files[i] == caller_file,
    ensures
        files[callee_of(callee, caller_file, names, files)->0 as int] == caller_file,
{
    found_one_is_unique(
        callee,
        names,
        files,
        Some(caller_file),
        false,
        names.len() as int,
    );
    let i = choose|i: int|
        0 <= i < names.len() && #[trigger] names[i] == callee && files[i] == caller_file;
    assert(in_tier(files, Some(caller_file), i) && name_matches(names[i], callee, false));
}

/// The names of the functions.
pub open spec fn names_of(fns: Seq<ScopedFunction>) -> Seq<Seq<char>> {
    fns.map_values(|f: ScopedFunction| f.ir@.id.name)
}

/// The files of the functions.
pub open spec fn files_of(fns: Seq<ScopedFunction>) -> Seq<Seq<char>> {
    fns.map_values(|f: ScopedFunction| f.ir@.id.file)
}

/// Whether one of the first `k` nodes of a function calls `j`.
pub open spec fn calls_before(
    f: FunctionView,
    names: Seq<Seq<char>>,
    files: Seq<Seq<char>>,
    j: int,
    k: int,
) -> bool {
    exists|n: int|
        0 <= n < k && n < f.nodes.len() && #[trigger] node_calls(f, names, files, n) == Some(
            j as usize,
        )
}

/// The function that a node calls.
pub open spec fn node_calls(
    f: FunctionView,
    names: Seq<Seq<char>>,
    files: Seq<Seq<char>>,
    n: int,
) -> Option<usize> {
    match f.nodes[n].kind {
        KindView::Call { callee, .. } => callee_of(callee, f.id.file, names, files),
        _ => None,
    }
}

/// Marks on the functions that a function calls.
pub open spec fn called(fns: Seq<ScopedFunction>, i: int) -> Seq<bool> {
    Seq::new(
        fns.len(),
        |j: int|
            calls_before(
                fns[i].ir@,
                names_of(fns),
                files_of(fns),
                j,
                fns[i].ir@.nodes.len() as int,
            ),
    )
}

/// Marks on the other functions that call `u`.
pub open spec fn callers(edges: Seq<Seq<usize>>, u: int) -> Seq<bool> {
    Seq::new(edges.len(), |v: int| u != v && edges[v].contains(u as usize))
}

/// The other functions that call each function.
pub open spec fn caller_lists(edges: Seq<Seq<usize>>) -> Seq<Seq<usize>> {
    Seq::new(edges.len(), |u: int| members(callers(edges, u)))
}

/// How many of the first `k` functions are other functions that call `j`.
pub open spec fn callers_before(edges: Seq<Seq<usize>>, j: int, k: int) -> nat
    decreases k,
{
    if k <= 0 || k > edges.len() {
        0
    } else {
        callers_before(edges, j, k - 1) + if k - 1 != j && edges[k - 1].contains(j as usize) {
            1nat
        } else {
            0nat
        }
    }
}

/// The strongest tier that the first `k` entries of an analysis give a line,
/// nodes without importance of their own left out.
pub open spec fn tier_of_line(
    f: FunctionView,
    importance: Seq<NodeImportance>,
    line: u32,
    k: int,
) -> Option<Tier>
    decreases k,
{
    if k <= 0 || k > importance.len() {
        None
    } else {
        let rest = tier_of_line(f, importance, line, k - 1);
        let entry = importance[k - 1];
        let node = f.nodes[entry.node as int];
        if node.structural() || node.line != Some(line) {
            rest
        } else {
            match rest {
                None => Some(entry.tier),
                Some(t) => if entry.tier.strength() > t.strength() {
                    Some(entry.tier)
                } else {
                    rest
                },
            }
        }
    }
}

/// Whether a line's strongest tier is the boundary.
pub open spec fn on_boundary(f: ScopedFunction, line: u32) -> bool {
    tier_of_line(f.ir@, f.importance@, line, f.importance@.len() as int) == Some(Tier::Boundary)
}

/// How many of the first `k` scored lines have the boundary as their
/// strongest tier.
pub open spec fn boundary_lines(f: ScopedFunction, k: int) -> nat
    decreases k,
{
    if k <= 0 || k > f.lines@.len() {
        0
    } else {
        boundary_lines(f, k - 1) + if on_boundary(f, f.lines@[k - 1]) {
            1nat
        } else {
            0nat
        }
    }
}

/// The least of the first `k` lines.
pub open spec fn lowest(lines: Seq<u32>, k: int) -> u32
    decreases k,
{
    if k <= 1 || k > lines.len() {
        lines[0]
    } else {
        let rest = lowest(lines, k - 1);
        if lines[k - 1] < rest {
            lines[k - 1]
        } else {
            rest
        }
    }
}

/// The greatest of the first `k` lines.
pub open spec fn highest_line(lines: Seq<u32>, k: int) -> u32
    decreases k,
{
    if k <= 1 || k > lines.len() {
        lines[0]
    } else {
        let rest = highest_line(lines, k - 1);
        if lines[k - 1] > rest {
            lines[k - 1]
        } else {
            rest
        }
    }
}

/// How far apart the first and the last scored line are.
pub open spec fn extent(lines: Seq<u32>) -> int {
    highest_line(lines, lines.len() as int) - lowest(lines, lines.len() as int)
}

/// Whether a function scores a line of a file.
pub open spec fn scores_line(f: ScopedFunction, file: Seq<char>, line: u32) -> bool {
    f.ir@.id.file == file && f.lines@.contains(line)
}

/// Which of the first `k` functions owns a line: the one with the narrowest
/// extent of scored lines, the first of equally narrow ones.
pub open spec fn owner_before(fns: Seq<ScopedFunction>, file: Seq<char>, line: u32, k: int) -> Option<
    usize,
>
    decreases k,
{
    if k <= 0 || k > fns.len() {
        None
    } else {
        let rest = owner_before(fns, file, line, k - 1);
        if !scores_line(fns[k - 1], file, line) {
            rest
        } else {
            match rest {
                None => Some((k - 1) as usize),
                Some(o) => if extent(fns[k - 1].lines@) < extent(fns[o as int].lines@) {
                    Some((k - 1) as usize)
                } else {
                    rest
                },
            }
        }
    }
}

/// The function that owns a line.
pub open spec fn owner(fns: Seq<ScopedFunction>, file: Seq<char>, line: u32) -> Option<usize> {
    owner_before(fns, file, line, fns.len() as int)
}

/// A line has an owner exactly when a function scores it. The owner scores
/// it, no function that scores it is narrower, and none before the owner is
/// as narrow.
pub proof fn owner_is_the_narrowest(
    fns: Seq<ScopedFunction>,
    file: Seq<char>,
    line: u32,
    k: int,
)
    requires
        0 <= k <= fns.len() <= usize::MAX,
    ensures
        match owner_before(fns, file, line, k) {
            Some(o) => o < k && scores_line(fns[o as int], file, line) && forall|i: int|
                0 <= i < k && #[trigger] scores_line(fns[i], file, line) ==> extent(
                    fns[o as int].lines@,
                ) <= extent(fns[i].lines@) && (i < o ==> extent(fns[o as int].lines@) < extent(
                    fns[i].lines@,
                )),
            None => forall|i: int|
                0 <= i < k ==> !#[trigger] scores_line(fns[i], file, line),
        },
    decreases k,
{
    if k > 0 {
        owner_is_the_narrowest(fns, file, line, k - 1);
    }
}

/// A scored line with the function that owns it.
#[derive(Debug, Clone, PartialEq, Eq)]
pub struct LineOwner {
    pub file: String,
    pub line: u32,
    /// Index of the owning function.
    pub owner: usize,
}

/// Whether the list names the owner of every scored line, each line once.
pub open spec fn is_owner_list(fns: Seq<ScopedFunction>, list: Seq<LineOwner>) -> bool {
    &&& forall|k: int|
        0 <= k < list.len() ==> owner(fns, (#[trigger] list[k]).file@, list[k].line) == Some(
            list[k].owner,
        )
    &&& forall|j: int, k: int|
        0 <= j < k < list.len() ==> !((#[trigger] list[j]).file@ == (#[trigger] list[k]).file@
            && list[j].line == list[k].line)
    &&& forall|i: int, n: int|
        0 <= i < fns.len() && 0 <= n < fns[i].lines@.len() ==> listed(
            list,
            fns[i].ir@.id.file,
            #[trigger] fns[i].lines@[n],
        )
}

pub open spec fn listed(list: Seq<LineOwner>, file: Seq<char>, line: u32) -> bool {
    exists|k: int|
        0 <= k < list.len() && (#[trigger] list[k]).file@ == file && list[k].line == line
}

fn separator(c: char) -> (r: bool)
    ensures
        r == is_separator(c),
{
    c == '.' || c == ':'
}

/// The trailing `::`- or `.`-separated segment of a qualified name.
pub fn last_segment(name: &str) -> (r: String)
    ensures
        r@ == segment(name@),
{
    let chars = chars_of(name);
    let n: usize = chars.len();
    let mut a: usize = n;
    proof {
        assert(chars@.take(n as int) =~= chars@);
        assert(chars@.subrange(n as int, n as int) =~= Seq::empty());
        assert(segment(chars@.take(n as int)) + Seq::<char>::empty() =~= segment(chars@));
    }
    while a > 0 && !separator(chars[a - 1])
        invariant
            a <= n,
            n == chars.len(),
            segment(chars@) == segment(chars@.take(a as int)) + chars@.subrange(
                a as int,
                n as int,
            ),
        decreases a,
    {
        proof {
            let t = chars@.take(a as int);
            assert(t.drop_last() =~= chars@.take(a - 1));
            assert(t.last() == chars@[a - 1]);
            assert(chars@.subrange(a - 1, n as int) =~= seq![chars@[a - 1]] + chars@.subrange(
                a as int,
                n as int,
            ));
            assert(segment(t) + chars@.subrange(a as int, n as int) =~= segment(
                chars@.take(a - 1),
            ) + chars@.subrange(a - 1, n as int));
        }
        a -= 1;
    }
    let tail = vstd::slice::slice_subrange(chars.as_slice(), a, n);
    proof {
        if a > 0 {
            assert(chars@.take(a as int).last() == chars@[a - 1]);
        }
        assert(segment(chars@.take(a as int)) =~= Seq::empty());
        assert(tail@ =~= segment(chars@));
    }
    string_from_chars(tail)
}

/// The views of a list of texts.
pub open spec fn str_views(v: Seq<&str>) -> Seq<Seq<char>> {
    v.map_values(|s: &str| s@)
}

fn search_names(
    callee: &str,
    names: &[&str],
    files: &[&str],
    tier: Option<&str>,
    loose: bool,
) -> (r: Found)
    requires
        names.len() == files.len(),
    ensures
        r == found(
            callee@,
            str_views(names@),
            str_views(files@),
            match tier {
                Some(f) => Some(f@),
                None => None,
            },
            loose,
            names@.len() as int,
        ),
{
    let ghost nv = str_views(names@);
    let ghost fv = str_views(files@);
    let ghost tv: Option<Seq<char>> = match tier {
        Some(f) => Some(f@),
        None => None,
    };
    let suffix = last_segment(callee);
    let mut r = Found::Nothing;
    let mut k: usize = 0;
    while k < names.len()
        invariant
            names.len() == files.len(),
            nv == str_views(names@),
            fv == str_views(files@),
            tv == (match tier {
                Some(f) => Some(f@),
                None => None,
            }),
            suffix@ == segment(callee@),
            k <= names.len(),
            r == found(callee@, nv, fv, tv, loose, k as int),
        decreases names.len() - k,
    {
        assert(nv[k as int] == names@[k as int]@);
        assert(fv[k as int] == files@[k as int]@);
        let searched: bool = match tier {
            Some(f) => same(files[k], f),
            None => true,
        };
        let hit: bool = searched && if loose {
            !suffix.as_str().is_empty() && same(last_segment(names[k]).as_str(), suffix.as_str())
        } else {
            same(names[k], callee)
        };
        if hit {
            r = match r {
                Found::Nothing => Found::One(k),
                _ => Found::Many,
            };
        }
        k += 1;
    }
    r
}

/// Searches one tier: exact match, then trailing segment. `tier` is the file
/// whose functions are searched, or none for all.
pub fn resolve_in(callee: &str, tier: Option<&str>, names: &[&str], files: &[&str]) -> (r: Found)
    requires
        names.len() == files.len(),
    ensures
        r == found_in(
            callee@,
            str_views(names@),
            str_views(files@),
            match tier {
                Some(f) => Some(f@),
                None => None,
            },
        ),
{
    match search_names(callee, names, files, tier, false) {
        Found::Nothing => search_names(callee, names, files, tier, true),
        f => f,
    }
}

/// Resolves one callee to a unique function, or declines.
pub fn resolve_callee(callee: &str, caller_file: &str, names: &[&str], files: &[&str]) -> (r:
    Option<usize>)
    requires
        names.len() == files.len(),
    ensures
        r == callee_of(callee@, caller_file@, str_views(names@), str_views(files@)),
{
    match resolve_in(callee, Some(caller_file), names, files) {
        Found::One(i) => Some(i),
        Found::Many => None,
        Found::Nothing => match resolve_in(callee, None, names, files) {
            Found::One(i) => Some(i),
            _ => None,
        },
    }
}

/// Resolved call edges: for each function, the functions it calls, in order.
pub fn resolve_edges(functions: &[ScopedFunction]) -> (r: Vec<Vec<usize>>)
    ensures
        r.len() == functions.len(),
        forall|i: int|
            0 <= i < r.len() ==> (#[trigger] r@[i])@ == members(called(functions@, i)),
        edges_in_range(rows(r@)),
{
    let n: usize = functions.len();
    let ghost fs = functions@;
    let mut names: Vec<&str> = Vec::new();
    let mut files: Vec<&str> = Vec::new();
    let mut i: usize = 0;
    while i < n
        invariant
            n == functions.len(),
            fs == functions@,
            i <= n,
            str_views(names@) =~= names_of(fs).take(i as int),
            str_views(files@) =~= files_of(fs).take(i as int),
        decreases n - i,
    {
        let ghost nb = names@;
        let ghost fb = files@;
        names.push(functions[i].ir.id.name.as_str());
        files.push(functions[i].ir.id.file.as_str());
        assert(str_views(names@) =~= str_views(nb).push(fs[i as int].ir@.id.name));
        assert(str_views(files@) =~= str_views(fb).push(fs[i as int].ir@.id.file));
        i += 1;
    }
    assert(str_views(names@) =~= names_of(fs));
    assert(str_views(files@) =~= files_of(fs));
    let mut out: Vec<Vec<usize>> = Vec::new();
    let mut f: usize = 0;
    while f < n
        invariant
            n == functions.len(),
            fs == functions@,
            names.len() == n,
            files.len() == n,
            str_views(names@) == names_of(fs),
            str_views(files@) == files_of(fs),
            f <= n,
            out.len() == f,
            forall|x: int| 0 <= x < f ==> (#[trigger] out@[x])@ == members(called(fs, x)),
        decreases n - f,
    {
        let ir = functions[f].ir;
        let ghost fv = ir@;
        let mut marks: Vec<bool> = Vec::new();
        let mut j: usize = 0;
        while j < n
            invariant
                j <= n,
                marks.len() == j,
                forall|x: int| 0 <= x < j ==> !#[trigger] marks@[x],
            decreases n - j,
        {
            marks.push(false);
            j += 1;
        }
        let mut k: usize = 0;
        while k < ir.nodes.len()
            invariant
                n == functions.len(),
                fs == functions@,
                names.len() == n,
                files.len() == n,
                str_views(names@) == names_of(fs),
                str_views(files@) == files_of(fs),
                fv == ir@,
                marks.len() == n,
                k <= ir.nodes.len(),
                forall|x: int|
                    0 <= x < n ==> #[trigger] marks@[x] == calls_before(
                        fv,
                        names_of(fs),
                        files_of(fs),
                        x,
                        k as int,
                    ),
            decreases ir.nodes.len() - k,
        {
            assert(fv.nodes[k as int] == ir.nodes@[k as int]@);
            let ghost before = marks@;
            let target: Option<usize> = match &ir.nodes[k].kind {
                NodeKind::Call { callee, .. } => resolve_callee(
                    callee.as_str(),
                    ir.id.file.as_str(),
                    names.as_slice(),
                    files.as_slice(),
                ),
                _ => None,
            };
            assert(target == node_calls(fv, names_of(fs), files_of(fs), k as int));
            proof {
                if let KindView::Call { callee, .. } = fv.nodes[k as int].kind {
                    found_is_a_function(callee, fv.id.file, names_of(fs), files_of(fs));
                }
            }
            if let Some(t) = target {
                marks.set(t, true);
            }
            proof {
                assert forall|x: int| 0 <= x < n implies #[trigger] marks@[x] == calls_before(
                    fv,
                    names_of(fs),
                    files_of(fs),
                    x,
                    k + 1,
                ) by {
                    if before[x] {
                        let m = choose|m: int|
                            0 <= m < k && m < fv.nodes.len() && #[trigger] node_calls(
                                fv,
                                names_of(fs),
                                files_of(fs),
                                m,
                            ) == Some(x as usize);
                        assert(node_calls(fv, names_of(fs), files_of(fs), m) == Some(
                            x as usize,
                        ));
                    }
                    if target == Some(x as usize) {
                        assert(node_calls(fv, names_of(fs), files_of(fs), k as int) == Some(
                            x as usize,
                        ));
                    }
                    if calls_before(fv, names_of(fs), files_of(fs), x, k + 1) && !before[x] {
                        let m = choose|m: int|
                            0 <= m < k + 1 && m < fv.nodes.len() && #[trigger] node_calls(
                                fv,
                                names_of(fs),
                                files_of(fs),
                                m,
                            ) == Some(x as usize);
                        assert(m == k);
                    }
                }
            }
            k += 1;
        }
        assert(marks@ =~= called(fs, f as int));
        out.push(list_marked(&marks));
        f += 1;
    }
    proof {
        let s = rows(out@);
        assert forall|a: int, k: int| 0 <= a < s.len() && 0 <= k < s[a].len() implies
            #[trigger] s[a][k] < s.len() by {
            assert(s[a] == members(called(fs, a)));
            members_are_marked(called(fs, a), s[a][k]);
            assert(s[a].contains(s[a][k]));
        }
    }
    out
}

fn holds(list: &Vec<usize>, x: usize) -> (r: bool)
    ensures
        r == list@.contains(x),
{
    crate::ts::tree::has_index(list.as_slice(), x)
}

/// Distinct-caller count per function, self-calls excluded.
pub fn fan_in(edges: &Vec<Vec<usize>>) -> (r: Vec<usize>)
    ensures
        r.len() == edges.len(),
        forall|j: int|
            0 <= j < r.len() ==> #[trigger] r@[j] == callers_before(
                rows(edges@),
                j,
                edges.len() as int,
            ),
{
    let n: usize = edges.len();
    let ghost es = rows(edges@);
    let mut out: Vec<usize> = Vec::new();
    let mut j: usize = 0;
    while j < n
        invariant
            n == edges.len(),
            es == rows(edges@),
            j <= n,
            out.len() == j,
            forall|x: int| 0 <= x < j ==> #[trigger] out@[x] == callers_before(es, x, n as int),
        decreases n - j,
    {
        let mut count: usize = 0;
        let mut i: usize = 0;
        while i < n
            invariant
                n == edges.len(),
                es == rows(edges@),
                count <= i <= n,
                count == callers_before(es, j as int, i as int),
            decreases n - i,
        {
            assert(es[i as int] == edges@[i as int]@);
            if i != j && holds(&edges[i], j) {
                count += 1;
            }
            i += 1;
        }
        out.push(count);
        j += 1;
    }
    out
}

/// The other functions that call each function.
fn list_callers(edges: &Vec<Vec<usize>>) -> (r: Vec<Vec<usize>>)
    ensures
        rows(r@) == caller_lists(rows(edges@)),
        r.len() == edges.len(),
        edges_in_range(rows(r@)),
{
    let n: usize = edges.len();
    let ghost es = rows(edges@);
    let mut out: Vec<Vec<usize>> = Vec::new();
    let mut u: usize = 0;
    while u < n
        invariant
            n == edges.len(),
            es == rows(edges@),
            u <= n,
            out.len() == u,
            forall|x: int| 0 <= x < u ==> (#[trigger] out@[x])@ == members(callers(es, x)),
        decreases n - u,
    {
        let mut marks: Vec<bool> = Vec::new();
        let mut v: usize = 0;
        while v < n
            invariant
                n == edges.len(),
                es == rows(edges@),
                u < n,
                v <= n,
                marks.len() == v,
                forall|x: int|
                    0 <= x < v ==> #[trigger] marks@[x] == (u != x && es[x].contains(u)),
            decreases n - v,
        {
            assert(es[v as int] == edges@[v as int]@);
            marks.push(u != v && holds(&edges[v], u));
            v += 1;
        }
        assert(marks@ =~= callers(es, u as int));
        out.push(list_marked(&marks));
        u += 1;
    }
    proof {
        assert(rows(out@) =~= caller_lists(es));
        let s = rows(out@);
        assert forall|a: int, k: int| 0 <= a < s.len() && 0 <= k < s[a].len() implies
            #[trigger] s[a][k] < s.len() by {
            assert(s[a] == members(callers(es, a)));
            members_are_marked(callers(es, a), s[a][k]);
            assert(s[a].contains(s[a][k]));
        }
    }
    out
}

/// Call-graph depth per function: one for a function that calls nothing (or
/// only itself); otherwise one more than the deepest it calls. Mutually
/// recursive functions share one depth, from what they call outside
/// themselves.
pub fn trophic_levels(edges: &Vec<Vec<usize>>) -> (r: Vec<u32>)
    requires
        edges.len() < u32::MAX,
    ensures
        is_orders(caller_lists(rows(edges@)), true, r@),
{
    let succ = list_callers(edges);
    component_orders(edges.len(), &succ, true)
}

/// The strongest tier of a source line, over its nodes with importance of
/// their own.
pub fn line_tier(ir: &FunctionIr, importance: &[NodeImportance], line: u32) -> (r: Option<Tier>)
    requires
        forall|k: int|
            0 <= k < importance@.len() ==> (#[trigger] importance@[k]).node < ir@.nodes.len(),
    ensures
        r == tier_of_line(ir@, importance@, line, importance@.len() as int),
{
    let mut best: Option<Tier> = None;
    let mut k: usize = 0;
    while k < importance.len()
        invariant
            forall|k: int|
                0 <= k < importance@.len() ==> (#[trigger] importance@[k]).node < ir@.nodes.len(),
            k <= importance.len(),
            best == tier_of_line(ir@, importance@, line, k as int),
        decreases importance.len() - k,
    {
        let entry = importance[k];
        assert(importance@[k as int].node < ir@.nodes.len());
        let node = &ir.nodes[entry.node];
        assert(ir@.nodes[entry.node as int] == node@);
        let here: bool = match node.line {
            Some(l) => l == line,
            None => false,
        };
        if here && !node.is_structural() {
            best = match best {
                None => Some(entry.tier),
                Some(t) => if entry.tier.stronger_than(t) {
                    Some(entry.tier)
                } else {
                    Some(t)
                },
            };
        }
        k += 1;
    }
    best
}

/// How many of a function's scored lines have the boundary as their strongest
/// tier, and how many scored lines it has.
pub fn boundary_density(f: &ScopedFunction) -> (r: (usize, usize))
    requires
        f.ok(),
    ensures
        r.0 == boundary_lines(*f, f.lines@.len() as int),
        r.1 == f.lines@.len(),
        r.0 <= r.1,
{
    let mut count: usize = 0;
    let mut k: usize = 0;
    while k < f.lines.len()
        invariant
            f.ok(),
            count <= k <= f.lines.len(),
            count == boundary_lines(*f, k as int),
        decreases f.lines.len() - k,
    {
        let boundary: bool = match line_tier(f.ir, f.importance, f.lines[k]) {
            Some(Tier::Boundary) => true,
            _ => false,
        };
        if boundary {
            count += 1;
        }
        k += 1;
    }
    (count, f.lines.len())
}

fn line_extent(lines: &[u32]) -> (r: u32)
    requires
        lines.len() > 0,
    ensures
        r == extent(lines@),
{
    let mut lo: u32 = lines[0];
    let mut hi: u32 = lines[0];
    let mut k: usize = 1;
    while k < lines.len()
        invariant
            1 <= k <= lines.len(),
            lo == lowest(lines@, k as int),
            hi == highest_line(lines@, k as int),
            lo <= hi,
        decreases lines.len() - k,
    {
        if lines[k] < lo {
            lo = lines[k];
        }
        if lines[k] > hi {
            hi = lines[k];
        }
        k += 1;
    }
    hi - lo
}

fn has_line(lines: &[u32], line: u32) -> (r: bool)
    ensures
        r == lines@.contains(line),
{
    let mut k: usize = 0;
    while k < lines.len()
        invariant
            k <= lines.len(),
            forall|j: int| 0 <= j < k ==> lines@[j] != line,
        decreases lines.len() - k,
    {
        if lines[k] == line {
            return true;
        }
        k += 1;
    }
    false
}

/// The function that owns a line of a file: the one with the narrowest extent
/// of scored lines, the first of equally narrow ones.
pub fn line_owner(functions: &[ScopedFunction], file: &str, line: u32) -> (r: Option<usize>)
    ensures
        r == owner(functions@, file@, line),
        r matches Some(o) ==> o < functions.len(),
{
    let ghost fs = functions@;
    let mut best: Option<usize> = None;
    let mut width: u32 = 0;
    let mut k: usize = 0;
    while k < functions.len()
        invariant
            fs == functions@,
            k <= functions.len(),
            best == owner_before(fs, file@, line, k as int),
            best matches Some(o) ==> o < k && width == extent(fs[o as int].lines@),
        decreases functions.len() - k,
    {
        let f = &functions[k];
        if has_line(f.lines, line) && same(f.ir.id.file.as_str(), file) {
            assert(f.lines@.len() > 0);
            let w: u32 = line_extent(f.lines);
            if best.is_none() || w < width {
                best = Some(k);
                width = w;
            }
        }
        k += 1;
    }
    best
}

fn is_listed(list: &Vec<LineOwner>, file: &str, line: u32) -> (r: bool)
    ensures
        r == listed(list@, file@, line),
{
    let mut k: usize = 0;
    while k < list.len()
        invariant
            k <= list.len(),
            forall|j: int|
                0 <= j < k ==> !((#[trigger] list@[j]).file@ == file@ && list@[j].line == line),
        decreases list.len() - k,
    {
        if list[k].line == line && same(list[k].file.as_str(), file) {
            return true;
        }
        k += 1;
    }
    false
}

/// Every scored line with its owning function, keyed by file and line, each
/// once.
#[must_use]
pub fn line_owners_by_file(functions: &[ScopedFunction]) -> (r: Vec<LineOwner>)
    ensures
        is_owner_list(functions@, r@),
{
    let ghost fs = functions@;
    let mut out: Vec<LineOwner> = Vec::new();
    let mut i: usize = 0;
    while i < functions.len()
        invariant
            fs == functions@,
            i <= functions.len(),
            forall|k: int|
                0 <= k < out@.len() ==> owner(fs, (#[trigger] out@[k]).file@, out@[k].line)
                    == Some(out@[k].owner),
            forall|j: int, k: int|
                0 <= j < k < out@.len() ==> !((#[trigger] out@[j]).file@ == (
                #[trigger] out@[k]).file@ && out@[j].line == out@[k].line),
            forall|x: int, n: int|
                0 <= x < i && 0 <= n < fs[x].lines@.len() ==> listed(
                    out@,
                    fs[x].ir@.id.file,
                    #[trigger] fs[x].lines@[n],
                ),
        decreases functions.len() - i,
    {
        let f = &functions[i];
        let mut n: usize = 0;
        while n < f.lines.len()
            invariant
                fs == functions@,
                i < functions.len(),
                *f == fs[i as int],
                n <= f.lines.len(),
                forall|k: int|
                    0 <= k < out@.len() ==> owner(fs, (#[trigger] out@[k]).file@, out@[k].line)
                        == Some(out@[k].owner),
                forall|j: int, k: int|
                    0 <= j < k < out@.len() ==> !((#[trigger] out@[j]).file@ == (
                    #[trigger] out@[k]).file@ && out@[j].line == out@[k].line),
                forall|x: int, m: int|
                    0 <= x < i && 0 <= m < fs[x].lines@.len() ==> listed(
                        out@,
                        fs[x].ir@.id.file,
                        #[trigger] fs[x].lines@[m],
                    ),
                forall|m: int|
                    0 <= m < n ==> listed(out@, f.ir@.id.file, #[trigger] f.lines@[m]),
            decreases f.lines.len() - n,
        {
            let line: u32 = f.lines[n];
            let file = f.ir.id.file.as_str();
            if !is_listed(&out, file, line) {
                let ghost before = out@;
                let found_owner = line_owner(functions, file, line);
                proof {
                    owner_is_the_narrowest(fs, file@, line, fs.len() as int);
                    assert(f.lines@.contains(line));
                    assert(scores_line(fs[i as int], file@, line));
                }
                if let Some(o) = found_owner {
                    let entry = LineOwner { file: file.to_owned(), line, owner: o };
                    out.push(entry);
                    proof {
                        assert(out@[before.len() as int] == entry);
                        assert forall|a: Seq<char>, l: u32| listed(before, a, l) implies
                            #[trigger] listed(out@, a, l) by {
                            let k = choose|k: int|
                                0 <= k < before.len() && (#[trigger] before[k]).file@ == a
                                    && before[k].line == l;
                            assert(out@[k] == before[k]);
                        }
                        assert(listed(out@, file@, line));
                        assert forall|j: int, k: int| 0 <= j < k < out@.len() implies !((
                        #[trigger] out@[j]).file@ == (#[trigger] out@[k]).file@ && out@[j].line
                            == out@[k].line) by {
                            if k == before.len() {
                                assert(out@[j] == before[j]);
                            } else {
                                assert(out@[j] == before[j] && out@[k] == before[k]);
                            }
                        }
                    }
                }
            }
            n += 1;
        }
        i += 1;
    }
    out
}

/// Every scored line with its owning function, for functions of one file.
#[must_use]
pub fn line_owners(functions: &[ScopedFunction]) -> (r: Vec<(u32, usize)>)
    ensures
        exists|list: Seq<LineOwner>| #[trigger]
            is_owner_list(functions@, list) && r@ == list.map_values(
                |o: LineOwner| (o.line, o.owner),
            ),
{
    let list = line_owners_by_file(functions);
    let mut out: Vec<(u32, usize)> = Vec::new();
    let mut k: usize = 0;
    while k < list.len()
        invariant
            k <= list.len(),
            out@ =~= list@.map_values(|o: LineOwner| (o.line, o.owner)).take(k as int),
        decreases list.len() - k,
    {
        out.push((list[k].line, list[k].owner));
        k += 1;
    }
    assert(out@ =~= list@.map_values(|o: LineOwner| (o.line, o.owner)));
    out
}

/// A fraction with a positive denominator.
pub open spec fn less(a: (usize, usize), b: (usize, usize)) -> bool {
    a.0 * b.1 < b.0 * a.1
}

/// Whether two fractions are equal.
pub open spec fn equal(a: (usize, usize), b: (usize, usize)) -> bool {
    a.0 * b.1 == b.0 * a.1
}

/// How many of the first `k` fractions are less than `x`.
pub open spec fn lesser(v: Seq<(usize, usize)>, x: (usize, usize), k: int) -> nat
    decreases k,
{
    if k <= 0 || k > v.len() {
        0
    } else {
        lesser(v, x, k - 1) + if less(v[k - 1], x) {
            1nat
        } else {
            0nat
        }
    }
}

/// How many of the first `k` fractions equal `x`.
pub open spec fn equals(v: Seq<(usize, usize)>, x: (usize, usize), k: int) -> nat
    decreases k,
{
    if k <= 0 || k > v.len() {
        0
    } else {
        equals(v, x, k - 1) + if equal(v[k - 1], x) {
            1nat
        } else {
            0nat
        }
    }
}

/// Twice the rank of the fraction `x`, ties sharing the mean of their
/// positions.
pub open spec fn doubled_fraction_rank(v: Seq<(usize, usize)>, x: (usize, usize)) -> int {
    (2 * lesser(v, x, v.len() as int) + equals(v, x, v.len() as int) + 1) as int
}

/// The share of a function's scored lines on the boundary; none of one line
/// where it scores nothing.
pub open spec fn density(f: ScopedFunction) -> (usize, usize) {
    if f.lines@.len() == 0 {
        (0, 1)
    } else {
        (boundary_lines(f, f.lines@.len() as int) as usize, f.lines@.len() as usize)
    }
}

/// The shares of all functions.
pub open spec fn densities(fns: Seq<ScopedFunction>) -> Seq<(usize, usize)> {
    fns.map_values(|f: ScopedFunction| density(f))
}

/// The numbers of scored lines of all functions.
pub open spec fn sizes(fns: Seq<ScopedFunction>) -> Seq<i64> {
    fns.map_values(|f: ScopedFunction| f.lines@.len() as i64)
}

/// The numbers of distinct callers of all functions.
pub open spec fn caller_counts(edges: Seq<Seq<usize>>) -> Seq<i64> {
    Seq::new(edges.len(), |j: int| callers_before(edges, j, edges.len() as int) as i64)
}

/// A function's four call-graph signals. Each is twice the function's rank
/// among all functions passed in, ties sharing the mean of their positions.
#[derive(Debug, Clone, Copy, PartialEq, Eq, Structural)]
pub struct FunctionFeatures {
    /// Call-graph depth.
    pub trophic: u64,
    /// Distinct-caller count.
    pub fan_in: u64,
    /// Scored-line count.
    pub size_share: u64,
    /// Share of scored lines on the boundary.
    pub boundary_density: u64,
}

impl FunctionFeatures {
    /// The sum of the four signals, four times their mean.
    #[must_use]
    pub fn total(self) -> (r: u64)
        requires
            total_of(self) <= u64::MAX,
        ensures
            r == total_of(self),
    {
        self.trophic + self.fan_in + self.size_share + self.boundary_density
    }
}

/// The edges that are resolved among the functions.
pub open spec fn is_resolved(fns: Seq<ScopedFunction>, edges: Seq<Seq<usize>>) -> bool {
    &&& edges.len() == fns.len()
    &&& forall|i: int| 0 <= i < edges.len() ==> #[trigger] edges[i] == members(called(fns, i))
}

/// Whether the features are those of the functions, with the depths that the
/// resolved calls give.
pub open spec fn is_features(
    fns: Seq<ScopedFunction>,
    edges: Seq<Seq<usize>>,
    levels: Seq<u32>,
    r: Seq<FunctionFeatures>,
) -> bool {
    let depth = levels.map_values(|l: u32| l as i64);
    let callers = caller_counts(edges);
    &&& is_resolved(fns, edges)
    &&& is_orders(caller_lists(edges), true, levels)
    &&& r.len() == fns.len()
    &&& forall|i: int|
        0 <= i < fns.len() ==> {
            &&& (#[trigger] r[i]).trophic == doubled_rank(depth, depth[i])
            &&& r[i].fan_in == doubled_rank(callers, callers[i])
            &&& r[i].size_share == doubled_rank(sizes(fns), sizes(fns)[i])
            &&& r[i].boundary_density == doubled_fraction_rank(densities(fns), densities(fns)[i])
        }
}

proof fn lemma_small_product(a: usize, b: usize)
    requires
        a <= u32::MAX,
        b <= u32::MAX,
    ensures
        0 <= a * b <= u64::MAX,
{
    assert(0 <= a * b <= 0xffff_ffff * 0xffff_ffff) by (nonlinear_arith)
        requires
            0 <= a <= 0xffff_ffff,
            0 <= b <= 0xffff_ffff,
    ;
}

fn rank_fractions(v: &Vec<(usize, usize)>) -> (r: Vec<u64>)
    requires
        v.len() <= u32::MAX,
        forall|i: int|
            0 <= i < v@.len() ==> (#[trigger] v@[i]).0 <= u32::MAX && v@[i].1 <= u32::MAX,
    ensures
        r.len() == v.len(),
        forall|i: int| 0 <= i < v@.len() ==> #[trigger] r@[i] == doubled_fraction_rank(v@, v@[i]),
{
    let mut out: Vec<u64> = Vec::new();
    let mut i: usize = 0;
    while i < v.len()
        invariant
            v.len() <= u32::MAX,
            forall|i: int|
                0 <= i < v@.len() ==> (#[trigger] v@[i]).0 <= u32::MAX && v@[i].1 <= u32::MAX,
            i <= v.len(),
            out.len() == i,
            forall|x: int| 0 <= x < i ==> #[trigger] out@[x] == doubled_fraction_rank(v@, v@[x]),
        decreases v.len() - i,
    {
        let x: (usize, usize) = v[i];
        let mut below: u64 = 0;
        let mut tied: u64 = 0;
        let mut k: usize = 0;
        while k < v.len()
            invariant
                v.len() <= u32::MAX,
                forall|i: int|
                    0 <= i < v@.len() ==> (#[trigger] v@[i]).0 <= u32::MAX && v@[i].1
                        <= u32::MAX,
                x.0 <= u32::MAX,
                x.1 <= u32::MAX,
                k <= v.len(),
                below == lesser(v@, x, k as int),
                tied == equals(v@, x, k as int),
                below <= k,
                tied <= k,
            decreases v.len() - k,
        {
            let y: (usize, usize) = v[k];
            proof {
                assert(v@[k as int].0 <= u32::MAX && v@[k as int].1 <= u32::MAX);
                lemma_small_product(y.0, x.1);
                lemma_small_product(x.0, y.1);
            }
            let a: u64 = y.0 as u64 * x.1 as u64;
            let b: u64 = x.0 as u64 * y.1 as u64;
            if a < b {
                below += 1;
            } else if a == b {
                tied += 1;
            }
            k += 1;
        }
        out.push(2 * below + tied + 1);
        i += 1;
    }
    out
}

/// Per-function call-graph features: depth, fan-in, size share and boundary
/// density, each ranked among the functions.
#[must_use]
pub fn function_features(functions: &[ScopedFunction]) -> (r: Vec<FunctionFeatures>)
    requires
        functions.len() < u32::MAX,
        forall|i: int|
            0 <= i < functions@.len() ==> (#[trigger] functions@[i]).ok()
                && functions@[i].lines@.len() <= u32::MAX,
    ensures
        exists|edges: Seq<Seq<usize>>, levels: Seq<u32>| #[trigger]
            is_features(functions@, edges, levels, r@),
{
    let n: usize = functions.len();
    let ghost fs = functions@;
    let edges = resolve_edges(functions);
    let ghost es = rows(edges@);
    let levels = trophic_levels(&edges);
    let counts = fan_in(&edges);
    let ghost depth = levels@.map_values(|l: u32| l as i64);
    assert(levels@.len() == n) by {
        assert(caller_lists(es).len() == n);
    }
    let mut depth_keys: Vec<i64> = Vec::new();
    let mut caller_keys: Vec<i64> = Vec::new();
    let mut size_keys: Vec<i64> = Vec::new();
    let mut shares: Vec<(usize, usize)> = Vec::new();
    let mut i: usize = 0;
    while i < n
        invariant
            n == functions.len(),
            n < u32::MAX,
            fs == functions@,
            forall|i: int|
                0 <= i < fs.len() ==> (#[trigger] fs[i]).ok() && fs[i].lines@.len() <= u32::MAX,
            es == rows(edges@),
            es.len() == n,
            levels.len() == n,
            counts.len() == n,
            depth == levels@.map_values(|l: u32| l as i64),
            forall|j: int|
                0 <= j < n ==> #[trigger] counts@[j] == callers_before(es, j, n as int),
            i <= n,
            depth_keys@ =~= depth.take(i as int),
            caller_keys@ =~= caller_counts(es).take(i as int),
            size_keys@ =~= sizes(fs).take(i as int),
            shares@ =~= densities(fs).take(i as int),
        decreases n - i,
    {
        let f = &functions[i];
        assert(fs[i as int].ok());
        depth_keys.push(levels[i] as i64);
        proof {
            lemma_callers_bound(es, i as int, n as int);
            assert(counts@[i as int] == callers_before(es, i as int, n as int));
        }
        caller_keys.push(counts[i] as i64);
        size_keys.push(f.lines.len() as i64);
        let (boundary, total) = boundary_density(f);
        let share: (usize, usize) = if total == 0 {
            (0, 1)
        } else {
            (boundary, total)
        };
        shares.push(share);
        i += 1;
    }
    assert(depth_keys@ =~= depth);
    assert(caller_keys@ =~= caller_counts(es));
    assert(size_keys@ =~= sizes(fs));
    assert(shares@ =~= densities(fs));
    proof {
        assert forall|i: int| 0 <= i < shares@.len() implies (#[trigger] shares@[i]).0 <= u32::MAX
            && shares@[i].1 <= u32::MAX by {
            assert(densities(fs)[i] == density(fs[i]));
            assert(fs[i].ok());
            lemma_boundary_bound(fs[i], fs[i].lines@.len() as int);
        }
    }
    let trophic = average_ranks(depth_keys.as_slice());
    let callers = average_ranks(caller_keys.as_slice());
    let size_share = average_ranks(size_keys.as_slice());
    let boundary = rank_fractions(&shares);
    let mut out: Vec<FunctionFeatures> = Vec::new();
    let mut k: usize = 0;
    while k < n
        invariant
            trophic.len() == n,
            callers.len() == n,
            size_share.len() == n,
            boundary.len() == n,
            k <= n,
            out.len() == k,
            forall|x: int|
                0 <= x < k ==> #[trigger] out@[x] == (FunctionFeatures {
                    trophic: trophic@[x],
                    fan_in: callers@[x],
                    size_share: size_share@[x],
                    boundary_density: boundary@[x],
                }),
        decreases n - k,
    {
        out.push(
            FunctionFeatures {
                trophic: trophic[k],
                fan_in: callers[k],
                size_share: size_share[k],
                boundary_density: boundary[k],
            },
        );
        k += 1;
    }
    proof {
        assert(is_resolved(fs, es));
        assert(is_features(fs, es, levels@, out@));
    }
    out
}

proof fn lemma_callers_bound(edges: Seq<Seq<usize>>, j: int, k: int)
    requires
        0 <= k <= edges.len(),
    ensures
        callers_before(edges, j, k) <= k,
    decreases k,
{
    if k > 0 {
        lemma_callers_bound(edges, j, k - 1);
    }
}

proof fn lemma_boundary_bound(f: ScopedFunction, k: int)
    requires
        0 <= k <= f.lines@.len(),
    ensures
        boundary_lines(f, k) <= k,
    decreases k,
{
    if k > 0 {
        lemma_boundary_bound(f, k - 1);
    }
}

proof fn lemma_fraction_counts(v: Seq<(usize, usize)>, x: (usize, usize), k: int)
    requires
        0 <= k <= v.len(),
    ensures
        lesser(v, x, k) + equals(v, x, k) <= k,
    decreases k,
{
    if k > 0 {
        lemma_fraction_counts(v, x, k - 1);
    }
}

/// Every feature is at most twice the number of functions.
pub proof fn features_are_ranks(
    fns: Seq<ScopedFunction>,
    edges: Seq<Seq<usize>>,
    levels: Seq<u32>,
    r: Seq<FunctionFeatures>,
    i: int,
)
    requires
        is_features(fns, edges, levels, r),
        0 <= i < fns.len(),
    ensures
        r[i].trophic <= 2 * fns.len(),
        r[i].fan_in <= 2 * fns.len(),
        r[i].size_share <= 2 * fns.len(),
        r[i].boundary_density <= 2 * fns.len() + 1,
{
    let depth = levels.map_values(|l: u32| l as i64);
    assert(caller_lists(edges).len() == fns.len());
    ranks_are_positions(depth, i);
    ranks_are_positions(caller_counts(edges), i);
    ranks_are_positions(sizes(fns), i);
    lemma_fraction_counts(densities(fns), densities(fns)[i], fns.len() as int);
    assert(r[i].trophic == doubled_rank(depth, depth[i]));
}

/// Per-function call-graph weight: the sum of the four features.
#[must_use]
pub fn function_weights(functions: &[ScopedFunction]) -> (r: Vec<u64>)
    requires
        functions.len() < u32::MAX,
        forall|i: int|
            0 <= i < functions@.len() ==> (#[trigger] functions@[i]).ok()
                && functions@[i].lines@.len() <= u32::MAX,
    ensures
        exists|edges: Seq<Seq<usize>>, levels: Seq<u32>, features: Seq<FunctionFeatures>|
            #[trigger] is_features(functions@, edges, levels, features) && r@
                == features.map_values(|f: FunctionFeatures| total_of(f) as u64),
{
    let features = function_features(functions);
    let ghost (edges, levels) = choose|edges: Seq<Seq<usize>>, levels: Seq<u32>| #[trigger]
        is_features(functions@, edges, levels, features@);
    let mut out: Vec<u64> = Vec::new();
    let mut k: usize = 0;
    while k < features.len()
        invariant
            functions.len() < u32::MAX,
            features.len() == functions.len(),
            is_features(functions@, edges, levels, features@),
            k <= features.len(),
            out@ =~= features@.map_values(|f: FunctionFeatures| total_of(f) as u64).take(k as int),
        decreases features.len() - k,
    {
        proof {
            features_are_ranks(functions@, edges, levels, features@, k as int);
        }
        out.push(features[k].total());
        k += 1;
    }
    assert(out@ =~= features@.map_values(|f: FunctionFeatures| total_of(f) as u64));
    out
}

/// The sum of the four signals.
pub open spec fn total_of(f: FunctionFeatures) -> int {
    f.trophic + f.fan_in + f.size_share + f.boundary_density
}

} // verus!
