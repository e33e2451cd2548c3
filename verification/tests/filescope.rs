//! Scoring across functions and files, on hand-built functions.

use vikt::denylist::Denylist;
use vikt::filescope::{
    boundary_density, fan_in, file_scores, function_features, function_weights, last_segment,
    line_owner, line_owners, line_owners_by_file, line_tier, repo_scores, resolve_callee,
    resolve_edges, resolve_in, trophic_levels, Found, RankedLine, ScopedFunction,
};
use vikt::importance::Tier;
use vikt::ir::{CallOpacity, FunctionId, FunctionIr, Node, NodeKind};
use vikt::tiering::{analyze, FunctionImportance};

fn fid(name: &str) -> FunctionId {
    fid_in("File.py", name)
}

fn fid_in(file: &str, name: &str) -> FunctionId {
    FunctionId {
        file: file.into(),
        name: name.into(),
        signature: String::new(),
        decl_line: Some(1),
    }
}

fn function(id: FunctionId, nodes: Vec<Node>) -> FunctionIr {
    FunctionIr {
        id,
        nodes,
        entry: 0,
    }
}

fn call(line: u32, callee: &str) -> Node {
    Node {
        line: Some(line),
        kind: NodeKind::Call {
            callee: callee.into(),
            opacity: CallOpacity::Opaque,
        },
        defs: Vec::new(),
        uses: Vec::new(),
        succs: Vec::new(),
        label: String::new(),
    }
}

/// Three steps of work, a call to `helper`, and a return.
fn hub_nodes() -> Vec<Node> {
    vec![
        Node::pure(1)
            .with_dataflow(vec![1], vec![])
            .with_succs(vec![1]),
        Node::pure(2)
            .with_dataflow(vec![2], vec![1])
            .with_succs(vec![2]),
        Node::pure(3)
            .with_dataflow(vec![3], vec![2])
            .with_succs(vec![3]),
        call(4, "helper")
            .with_dataflow(vec![4], vec![3])
            .with_succs(vec![4]),
        Node::pure(5)
            .with_dataflow(vec![], vec![4])
            .with_kind(NodeKind::Return),
    ]
}

/// One step of work and a return, on two lines.
fn leaf_nodes(line: u32, var: u32) -> Vec<Node> {
    vec![
        Node::pure(line)
            .with_dataflow(vec![var], vec![])
            .with_succs(vec![1]),
        Node::pure(line + 1)
            .with_dataflow(vec![], vec![var])
            .with_kind(NodeKind::Return),
    ]
}

/// A hub with work of its own, among it a call to a private helper, called by
/// three thin wrappers, and two leaves that call nothing and that nothing
/// calls. Every function has its own lines.
fn hub_and_wrappers() -> Vec<FunctionIr> {
    vec![
        function(fid("hub"), hub_nodes()),
        function(fid("helper"), leaf_nodes(60, 1)),
        function(fid("wrapper_a"), vec![call(10, "hub")]),
        function(
            fid("wrapper_b"),
            vec![
                Node::pure(20)
                    .with_dataflow(vec![9], vec![])
                    .with_succs(vec![1]),
                call(21, "hub"),
            ],
        ),
        function(
            fid("wrapper_c"),
            vec![
                Node::pure(30)
                    .with_dataflow(vec![8], vec![])
                    .with_succs(vec![1]),
                call(31, "hub"),
            ],
        ),
        function(fid("leaf1"), leaf_nodes(40, 7)),
        function(fid("leaf2"), leaf_nodes(50, 6)),
    ]
}

/// A hub and its helper in one file, and two callers of the hub, each in a file
/// of its own.
fn hub_across_files() -> Vec<FunctionIr> {
    vec![
        function(fid_in("hub.py", "hub"), hub_nodes()),
        function(fid_in("hub.py", "helper"), leaf_nodes(6, 1)),
        function(fid_in("wrapper_a.py", "wrapper_a"), vec![call(1, "hub")]),
        function(fid_in("wrapper_b.py", "wrapper_b"), vec![call(1, "hub")]),
    ]
}

/// What a score of one is in the integer unit of these tests.
const ONE: i64 = 60;

/// Functions with their analyses, and line scores that grow evenly to one at a
/// function's last line.
struct Fixture {
    irs: Vec<FunctionIr>,
    sals: Vec<FunctionImportance>,
    lines: Vec<Vec<u32>>,
    scores: Vec<Vec<i64>>,
}

impl Fixture {
    fn of(irs: Vec<FunctionIr>) -> Self {
        let lines: Vec<Vec<u32>> = irs
            .iter()
            .map(|ir| ir.lines().into_iter().collect())
            .collect();
        let scores = lines
            .iter()
            .map(|ls| {
                let n = i64::try_from(ls.len()).expect("few lines");
                (1..=n).map(|i| i * ONE / n).collect()
            })
            .collect();
        Self::with_scores(irs, lines, scores)
    }

    fn with_scores(irs: Vec<FunctionIr>, lines: Vec<Vec<u32>>, scores: Vec<Vec<i64>>) -> Self {
        let sals = irs
            .iter()
            .map(|ir| analyze(ir, &Denylist::new(), &vec![0; ir.len()]))
            .collect();
        Self {
            irs,
            sals,
            lines,
            scores,
        }
    }

    fn scoped(&self) -> Vec<ScopedFunction<'_>> {
        (0..self.irs.len())
            .map(|i| ScopedFunction {
                ir: &self.irs[i],
                importance: &self.sals[i].nodes,
                lines: &self.lines[i],
                scores: &self.scores[i],
            })
            .collect()
    }
}

fn at(scored: &[(u32, u128, u128)], line: u32) -> f64 {
    let (_, num, den) = scored
        .iter()
        .find(|(l, _, _)| *l == line)
        .expect("a scored line");
    *num as f64 / *den as f64
}

fn in_repo(scored: &[RankedLine], file: &str, line: u32) -> f64 {
    let r = scored
        .iter()
        .find(|r| r.file == file && r.line == line)
        .expect("a scored line");
    r.num as f64 / r.den as f64
}

#[test]
fn hub_outranks_its_wrappers_under_file_scope() {
    let fx = Fixture::of(hub_and_wrappers());
    for s in &fx.scores {
        assert_eq!(s.iter().max(), Some(&ONE));
    }
    let functions = fx.scoped();
    let scored = file_scores(&functions);
    let hub_peak = at(&scored, 5);
    for &wrapper_peak_line in &[10u32, 21, 31] {
        let wrapper_peak = at(&scored, wrapper_peak_line);
        assert!(
            hub_peak > wrapper_peak,
            "hub's peak line {hub_peak} should outrank wrapper line {wrapper_peak_line}'s peak {wrapper_peak}"
        );
    }
}

#[test]
fn ambiguous_call_targets_add_no_edges() {
    let caller = function(fid("caller"), vec![call(1, "foo")]);
    let a = function(
        fid("a.foo"),
        vec![Node::pure(1).with_kind(NodeKind::Return)],
    );
    let b = function(
        fid("b.foo"),
        vec![Node::pure(1).with_kind(NodeKind::Return)],
    );
    let functions = [&caller, &a, &b];
    let names: Vec<&str> = functions.iter().map(|f| f.id.name.as_str()).collect();
    let files: Vec<&str> = functions.iter().map(|f| f.id.file.as_str()).collect();
    for node in &caller.nodes {
        if let NodeKind::Call { callee, .. } = &node.kind {
            assert_eq!(
                resolve_callee(callee, caller.id.file.as_str(), &names, &files),
                None
            );
        }
    }
}

#[test]
fn single_function_file_degrades_to_within_function_order() {
    let ir = function(fid("solo"), leaf_nodes(1, 1));
    let fx = Fixture::with_scores(vec![ir], vec![vec![1, 2]], vec![vec![2, 9]]);
    let scored = file_scores(&fx.scoped());
    assert!(
        at(&scored, 2) > at(&scored, 1),
        "order must be preserved: {scored:?}"
    );
    assert_eq!(scored, [(1, 0, 2), (2, 2, 2)]);
}

#[test]
fn deterministic() {
    let fx = Fixture::of(hub_and_wrappers());
    let functions = fx.scoped();
    assert_eq!(file_scores(&functions), file_scores(&functions));
    assert_eq!(function_weights(&functions), function_weights(&functions));
}

#[test]
fn empty_input_is_empty() {
    assert!(file_scores(&[]).is_empty());
    assert!(function_weights(&[]).is_empty());
}

#[test]
fn repo_scores_resolves_calls_across_file_boundaries() {
    let fx = Fixture::of(hub_across_files());
    let functions = fx.scoped();
    let scored = repo_scores(&functions);
    let hub_peak = in_repo(&scored, "hub.py", 5);
    let peak_a = in_repo(&scored, "wrapper_a.py", 1);
    let peak_b = in_repo(&scored, "wrapper_b.py", 1);
    assert!(
        hub_peak > peak_a && hub_peak > peak_b,
        "hub {hub_peak} should outrank its cross-file callers ({peak_a}, {peak_b})"
    );
    let features = function_features(&functions);
    assert!(
        features[0].fan_in > features[2].fan_in,
        "hub's fan-in must reflect both cross-file callers: {features:?}"
    );
}

#[test]
fn repo_scores_keys_same_numbered_lines_from_different_files_separately() {
    let a = function(
        fid_in("a.py", "solo_a"),
        vec![Node::pure(1).with_kind(NodeKind::Return)],
    );
    let b = function(
        fid_in("b.py", "solo_b"),
        vec![Node::pure(1).with_kind(NodeKind::Return)],
    );
    let fx = Fixture::with_scores(
        vec![a, b],
        vec![vec![1], vec![1]],
        vec![vec![3], vec![9]],
    );
    let scored = repo_scores(&fx.scoped());
    assert_eq!(
        scored.len(),
        2,
        "both files' line 1 must survive as distinct keys"
    );
    assert!(scored.iter().any(|r| r.file == "a.py" && r.line == 1));
    assert!(scored.iter().any(|r| r.file == "b.py" && r.line == 1));
}

#[test]
fn repo_scores_empty_input_is_empty() {
    assert!(repo_scores(&[]).is_empty());
}

/// A caller's own file wins over a function of the same name elsewhere.
#[test]
fn repo_scores_prefers_same_file_callee_over_a_repo_wide_namesake() {
    let fx = Fixture::of(vec![
        function(fid_in("caller.py", "caller"), vec![call(1, "helper")]),
        function(
            fid_in("caller.py", "helper"),
            vec![Node::pure(2).with_kind(NodeKind::Return)],
        ),
        function(
            fid_in("other.py", "helper"),
            vec![Node::pure(1).with_kind(NodeKind::Return)],
        ),
    ]);
    let features = function_features(&fx.scoped());
    assert!(
        features[1].fan_in > features[2].fan_in,
        "the same-file helper.py:helper must get the call's fan-in, not other.py's namesake: {features:?}"
    );
}

#[test]
fn trailing_segment_follows_the_last_separator() {
    assert_eq!(last_segment("a.b::c"), "c");
    assert_eq!(last_segment("plain"), "plain");
    assert_eq!(last_segment("a."), "");
    assert_eq!(last_segment("x:y.z"), "z");
}

#[test]
fn an_exact_name_is_tried_before_a_segment() {
    let names = ["pkg.run", "run", "other.go"];
    let files = ["f", "f", "f"];
    assert_eq!(resolve_in("run", None, &names, &files), Found::One(1));
    assert_eq!(resolve_in("x.go", None, &names, &files), Found::One(2));
    assert_eq!(resolve_in("absent", None, &names, &files), Found::Nothing);
    assert_eq!(resolve_in("q.run", None, &names, &files), Found::Many);
}

#[test]
fn an_ambiguous_match_in_the_own_file_is_no_match() {
    let names = ["a.foo", "b.foo", "foo"];
    let files = ["mine", "mine", "theirs"];
    assert_eq!(resolve_callee("foo", "mine", &names, &files), None);
    assert_eq!(resolve_callee("foo", "elsewhere", &names, &files), Some(2));
    assert_eq!(resolve_callee("foo", "theirs", &names, &files), Some(2));
}

#[test]
fn the_call_graph_of_the_hub() {
    let fx = Fixture::of(hub_and_wrappers());
    let functions = fx.scoped();
    let edges = resolve_edges(&functions);
    assert_eq!(
        edges,
        [vec![1], vec![], vec![0], vec![0], vec![0], vec![], vec![]]
    );
    assert_eq!(fan_in(&edges), [3, 1, 0, 0, 0, 0, 0]);
    let levels = trophic_levels(&edges);
    assert_eq!(levels.len(), 7);
    assert_eq!(levels[2], levels[3]);
    assert_eq!(levels[5], levels[6]);
}

#[test]
fn features_are_doubled_ranks() {
    let fx = Fixture::of(hub_across_files());
    let features = function_features(&fx.scoped());
    // Callers: two of the hub, one of the helper, none of the wrappers.
    let fan: Vec<u64> = features.iter().map(|f| f.fan_in).collect();
    assert_eq!(fan, [8, 6, 3, 3]);
    // Lines: five, two, one and one.
    let size: Vec<u64> = features.iter().map(|f| f.size_share).collect();
    assert_eq!(size, [8, 6, 3, 3]);
    let weights = function_weights(&fx.scoped());
    for (w, f) in weights.iter().zip(&features) {
        assert_eq!(
            *w,
            f.trophic + f.fan_in + f.size_share + f.boundary_density
        );
    }
}

#[test]
fn a_line_takes_its_strongest_tier() {
    let fx = Fixture::of(vec![function(fid("one"), leaf_nodes(1, 1))]);
    let functions = fx.scoped();
    let f = &functions[0];
    assert_eq!(line_tier(f.ir, f.importance, 2), Some(Tier::Boundary));
    assert_eq!(line_tier(f.ir, f.importance, 9), None);
    let (boundary, all) = boundary_density(f);
    assert_eq!(all, 2);
    assert!((1..=2).contains(&boundary));
}

/// A closure's lines lie within its parent's, and belong to the closure.
#[test]
fn the_narrowest_function_owns_a_line() {
    let outer = function(fid("outer"), leaf_nodes(1, 1));
    let inner = function(fid("inner"), leaf_nodes(3, 1));
    let fx = Fixture::with_scores(
        vec![outer, inner],
        vec![vec![1, 3, 4, 9], vec![3, 4]],
        vec![vec![1, 2, 3, 4], vec![5, 6]],
    );
    let functions = fx.scoped();
    assert_eq!(line_owner(&functions, "File.py", 1), Some(0));
    assert_eq!(line_owner(&functions, "File.py", 3), Some(1));
    assert_eq!(line_owner(&functions, "File.py", 4), Some(1));
    assert_eq!(line_owner(&functions, "File.py", 9), Some(0));
    assert_eq!(line_owner(&functions, "File.py", 2), None);
    assert_eq!(line_owner(&functions, "Other.py", 1), None);
    let mut owners = line_owners(&functions);
    owners.sort_unstable();
    assert_eq!(owners, [(1, 0), (3, 1), (4, 1), (9, 0)]);
    assert_eq!(line_owners_by_file(&functions).len(), 4);
    assert_eq!(file_scores(&functions).len(), 4);
}

/// Tied products share the mean of their places, and a lone line stands in the
/// middle.
#[test]
fn products_are_ranked_across_lines() {
    let solo = |scores: Vec<i64>| {
        let lines: Vec<u32> = (1..).take(scores.len()).collect();
        let ir = function(fid("solo"), leaf_nodes(1, 1));
        let fx = Fixture::with_scores(vec![ir], vec![lines], vec![scores]);
        file_scores(&fx.scoped())
    };
    assert_eq!(solo(vec![7]), [(1, 1, 2)]);
    assert_eq!(solo(vec![5, 5, 1]), [(1, 3, 4), (2, 3, 4), (3, 0, 4)]);
    assert_eq!(solo(vec![-4, 0]), [(1, 0, 2), (2, 2, 2)]);
}

/// One file alone gives the same lines the same scores as a whole input of that
/// one file, and every score lies between zero and one.
#[test]
fn one_file_scores_as_a_whole_input() {
    let fixture = Fixture::of(hub_and_wrappers());
    let functions = fixture.scoped();
    let mut file = file_scores(&functions);
    let mut repo: Vec<(u32, u128, u128)> = repo_scores(&functions)
        .iter()
        .map(|l| (l.line, l.num, l.den))
        .collect();
    file.sort();
    repo.sort();
    assert!(!file.is_empty());
    assert_eq!(file, repo);
    assert!(file.iter().all(|(_, num, den)| num <= den));
}
