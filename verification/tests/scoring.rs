//! Calibration, and what the scorers' numeric passes are laid out from.

use vikt::calibration::{
    average_ranks, spearman, verdict, Correlation, Standing, Verdict, MIN_EXECUTED_MUTANTS,
    MIN_SCORED_LINES,
};
use vikt::components::strongly_connected;
use vikt::graph::Graph;
use vikt::ir::{FunctionId, FunctionIr, Node, NodeKind};
use vikt::pivot::{entry_set, plan, sweep_count, SWEEPS};
use vikt::trophic::{component_equations, consumers, weighted_in_edges};

fn func(nodes: Vec<Node>) -> FunctionIr {
    FunctionIr {
        id: FunctionId {
            file: "Demo.java".into(),
            name: "test".into(),
            signature: String::new(),
            decl_line: Some(1),
        },
        nodes,
        entry: 0,
    }
}

/// A chain of three statements, each reading what the one before it made.
fn chain() -> FunctionIr {
    func(vec![
        Node::pure(1)
            .with_dataflow(vec![1], vec![])
            .with_succs(vec![1]),
        Node::pure(2)
            .with_dataflow(vec![2], vec![1])
            .with_succs(vec![2]),
        Node::pure(3)
            .with_dataflow(vec![], vec![2])
            .with_kind(NodeKind::Return),
    ])
}

/// A branch that a loop comes back to: `total` is read and written in the body.
fn accumulator() -> FunctionIr {
    func(vec![
        Node::pure(1)
            .with_dataflow(vec![1], vec![])
            .with_succs(vec![1]),
        Node::pure(2)
            .with_dataflow(vec![], vec![9])
            .with_kind(NodeKind::Branch)
            .with_succs(vec![2, 3]),
        Node::pure(3)
            .with_dataflow(vec![1], vec![1])
            .with_succs(vec![1]),
        Node::pure(4)
            .with_dataflow(vec![], vec![1])
            .with_kind(NodeKind::Return),
    ])
}

/// `x` is made outside; `y` and `z` feed each other around a loop.
fn fed_cycle() -> FunctionIr {
    func(vec![
        Node::pure(1)
            .with_dataflow(vec![1], vec![])
            .with_succs(vec![1]),
        Node::pure(2)
            .with_dataflow(vec![2], vec![1, 3])
            .with_succs(vec![2]),
        Node::pure(3)
            .with_dataflow(vec![3], vec![2])
            .with_succs(vec![1]),
    ])
}

#[test]
fn tied_values_share_the_mean_of_their_positions() {
    assert_eq!(average_ranks(&[30, 10, 20]), [6, 2, 4]);
    assert_eq!(average_ranks(&[5, 5, 1]), [5, 5, 2]);
    assert_eq!(average_ranks(&[7, 7]), [3, 3]);
    assert!(average_ranks(&[]).is_empty());
}

fn rho(c: &Correlation) -> f64 {
    c.num as f64 / ((c.dx as f64).sqrt() * (c.dy as f64).sqrt())
}

#[test]
fn correlation_of_ranks() {
    let up = spearman(&[1, 2, 3, 4], &[10, 20, 30, 40]).expect("variance");
    assert!((rho(&up) - 1.0).abs() < 1e-12);
    let down = spearman(&[1, 2, 3, 4], &[9, 7, 5, 3]).expect("variance");
    assert!((rho(&down) + 1.0).abs() < 1e-12);
    // Doubled deviations -2, 0, 2 against -2, 2, 0.
    let half = spearman(&[1, 2, 3], &[1, 3, 2]).expect("variance");
    assert_eq!((half.num, half.dx, half.dy), (4, 8, 8));
}

#[test]
fn a_constant_side_ranks_nothing() {
    assert!(spearman(&[1, 1, 1], &[1, 2, 3]).is_none());
    assert!(spearman(&[1, 2, 3], &[4, 4, 4]).is_none());
    assert!(spearman(&[1], &[2]).is_none());
    assert!(spearman(&[], &[]).is_none());
}

#[test]
fn verdicts() {
    let standing = |clears_margin, clears_floor, beats_null| Standing {
        clears_margin,
        clears_floor,
        beats_null,
    };
    let judge = |s| verdict(s, MIN_SCORED_LINES, MIN_EXECUTED_MUTANTS);
    assert_eq!(judge(standing(true, true, true)), Verdict::Calibrated);
    assert_eq!(judge(standing(true, false, true)), Verdict::Marginal);
    assert_eq!(judge(standing(false, true, true)), Verdict::Marginal);
    assert_eq!(judge(standing(false, true, false)), Verdict::Uncalibrated);
    let best = standing(true, true, true);
    assert_eq!(verdict(best, 19, 30), Verdict::InsufficientData);
    assert_eq!(verdict(best, 20, 29), Verdict::InsufficientData);
    assert_eq!(Verdict::Calibrated.name(), "calibrated");
    assert_eq!(Verdict::Marginal.name(), "marginal");
    assert_eq!(Verdict::Uncalibrated.name(), "uncalibrated");
    assert_eq!(Verdict::InsufficientData.name(), "insufficient data");
}

#[test]
fn components_come_with_sinks_first() {
    let succ = vec![vec![1], vec![2], vec![1, 3], vec![]];
    let (comp_of, comps) = strongly_connected(4, &succ);
    assert_eq!(comp_of, [2, 1, 1, 0]);
    assert_eq!(comps, [vec![3], vec![1, 2], vec![0]]);
}

#[test]
fn only_a_cycle_is_swept_again() {
    let adj = vec![vec![1], vec![0], vec![2], vec![0]];
    assert_eq!(sweep_count(&vec![0, 1], &adj), SWEEPS);
    assert_eq!(sweep_count(&vec![2], &adj), SWEEPS);
    assert_eq!(sweep_count(&vec![3], &adj), 1);
    assert_eq!(SWEEPS, 64);
}

/// A cycle that nothing feeds is entered at each of its members.
#[test]
fn where_the_graph_is_entered() {
    // 0 <-> 1, 2 -> 3.
    let pred = vec![vec![1], vec![0], vec![], vec![2]];
    let comp_of = vec![0, 0, 2, 1];
    assert_eq!(entry_set(&pred, &comp_of), [true, true, true, false]);
}

#[test]
fn the_plan_of_a_chain() {
    let ir = chain();
    let p = plan(&ir, &Graph::build(&ir));
    assert_eq!(p.succ, [vec![1], vec![2], vec![]]);
    assert_eq!(p.pred, [vec![], vec![0], vec![1]]);
    assert_eq!(p.outputs, [false, false, true]);
    assert_eq!(p.comps, [vec![2], vec![1], vec![0]]);
    assert_eq!(p.forward, [1, 1, 1]);
    assert_eq!(p.backward, [1, 1, 1]);
    assert_eq!(p.entries, [true, false, false]);
}

#[test]
fn an_accumulator_is_its_own_dependence_successor() {
    let ir = accumulator();
    let p = plan(&ir, &Graph::build(&ir));
    assert!(p.succ[2].contains(&2));
    let c = p.comp_of[2];
    assert_eq!(p.forward[c], SWEEPS);
    assert_eq!(p.backward[c], SWEEPS);
}

#[test]
fn in_edges_by_source() {
    let ir = accumulator();
    let graph = Graph::build(&ir);
    let edges = weighted_in_edges(&graph);
    assert!(edges[0].is_empty());
    // The body reads the first assignment, and the branch decides if it runs.
    let body: Vec<_> = edges[2].iter().map(|e| (e.source, e.data, e.ctrl)).collect();
    assert_eq!(body, [(0, 1, 0), (1, 0, 1)]);
    let weights: Vec<i128> = edges[2].iter().map(|e| e.weight()).collect();
    assert_eq!(weights, [10, 6]);
    assert!(consumers(&graph)[0].contains(&2));
    assert!(!consumers(&graph)[2].contains(&2));
}

/// `y` takes in from `x` and `z`, `z` from `y` alone.
#[test]
fn equations_of_a_cycle() {
    let ir = fed_cycle();
    let graph = Graph::build(&ir);
    let eqs = component_equations(&graph, &vec![1, 2]).expect("a fed component");
    assert_eq!(eqs[0].coefficients, [20, -10]);
    assert_eq!(eqs[0].total, 20);
    assert_eq!(eqs[0].outside, [(0, 10)]);
    assert_eq!(eqs[1].coefficients, [-10, 10]);
    assert_eq!(eqs[1].total, 10);
    assert!(eqs[1].outside.is_empty());
    for e in &eqs {
        let sum: i128 = e.coefficients.iter().sum();
        let outside: i128 = e.outside.iter().map(|(_, w)| w).sum();
        assert_eq!(sum, outside);
    }
    assert!(component_equations(&graph, &vec![0]).is_none());
    assert!(component_equations(&graph, &vec![0, 1, 2]).is_none());
}

/// `a` is made of `b` and `b` of `a`, and nothing else feeds them: the levels
/// are not determined.
#[test]
fn an_isolated_cycle_has_no_equations() {
    let ir = func(vec![
        Node::pure(1)
            .with_dataflow(vec![1], vec![2])
            .with_succs(vec![1]),
        Node::pure(2)
            .with_dataflow(vec![2], vec![1])
            .with_succs(vec![0]),
    ]);
    let graph = Graph::build(&ir);
    assert_eq!(graph.n, 2);
    assert!(component_equations(&graph, &vec![0, 1]).is_none());
    let p = plan(&ir, &graph);
    assert_eq!(p.entries, [true, true]);
}

#[test]
fn the_sides_of_a_correlation_can_change_places() {
    let xs = [3, 1, 4, 1, 5];
    let ys = [2, 7, 1, 8, 2];
    let there = spearman(&xs, &ys).expect("variance");
    let back = spearman(&ys, &xs).expect("variance");
    assert_eq!((there.num, there.dx, there.dy), (back.num, back.dy, back.dx));
}

#[test]
fn a_correlation_rests_on_order_alone() {
    let ys = [2, 7, 1, 8, 2];
    assert_eq!(
        spearman(&[3, 1, 4, 1, 5], &ys),
        spearman(&[30, -9, 41, -9, 5000], &ys)
    );
}

#[test]
fn a_correlation_lies_between_minus_one_and_one() {
    for ys in [[1, 2, 3, 4], [4, 3, 2, 1], [2, 1, 4, 3], [1, 1, 1, 2]] {
        let c = spearman(&[1, 2, 3, 4], &ys).expect("variance");
        assert!(c.dx > 0 && c.dy > 0);
        assert!(c.num * c.num <= c.dx * c.dy);
    }
}
