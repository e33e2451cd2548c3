//! Strahler orders of lowered functions.

use vikt::graph::Graph;
use vikt::ir::{FunctionId, FunctionIr, Node, NodeKind};
use vikt::strahler::{component_orders, data_edges};

/// The scores as floating-point numbers.
fn score(graph: &Graph) -> Vec<f64> {
    vikt::strahler::score(graph)
        .iter()
        .map(|s| f64::from(s.num) / f64::from(s.den))
        .collect()
}

fn fid(name: &str) -> FunctionId {
    FunctionId {
        file: "Test.py".into(),
        name: name.into(),
        signature: String::new(),
        decl_line: Some(1),
    }
}

fn orders_of(ir: &FunctionIr) -> Vec<u32> {
    let graph = Graph::build(ir);
    component_orders(graph.n, &data_edges(&graph))
}

/// `a = spring1; p = a; b = spring2; q = b; m = p + q; return m` — two
/// independent chains that only meet at `m`. Everything upstream of the
/// merge — both springs and both single-predecessor hops — stays order
/// `1`; the merge, fed by two distinct order-1 components, becomes order
/// `2` and stays `2` through the return that merely forwards it.
#[test]
fn confluence_of_two_independent_chains() {
    let ir = FunctionIr {
        id: fid("confluence"),
        nodes: vec![
            Node::pure(1).with_dataflow(vec![1], vec![]).with_succs(vec![1]), // 0: a = spring1
            Node::pure(2).with_dataflow(vec![3], vec![1]).with_succs(vec![2]), // 1: p = a
            Node::pure(3).with_dataflow(vec![2], vec![]).with_succs(vec![3]), // 2: b = spring2
            Node::pure(4).with_dataflow(vec![4], vec![2]).with_succs(vec![4]), // 3: q = b
            Node::pure(5).with_dataflow(vec![5], vec![3, 4]).with_succs(vec![5]), // 4: m = p + q
            Node::pure(6)
                .with_dataflow(vec![], vec![5])
                .with_kind(NodeKind::Return), // 5: return m
        ],
        entry: 0,
    };
    let orders = orders_of(&ir);
    assert_eq!(orders, vec![1, 1, 1, 1, 2, 2], "got {orders:?}");

    let graph = Graph::build(&ir);
    let scores = score(&graph);
    for &upstream in &[0, 1, 2, 3] {
        assert!((scores[upstream] - 0.0).abs() < 1e-9, "{scores:?}");
    }
    for &merge in &[4, 5] {
        assert!((scores[merge] - 1.0).abs() < 1e-9, "{scores:?}");
    }
}

/// `p = a1 + a2` (itself a confluence of two order-1 springs, so `p` is
/// order `2`) merges with an independent order-1 spring `q` at `r`. Since
/// `p`'s order-2 has no equal-order partner at that merge, `r` stays
/// order `2` rather than being promoted to `3` — a higher-order stream
/// absorbing a lower-order tributary keeps its order.
#[test]
fn unequal_merge_keeps_the_max() {
    let ir = FunctionIr {
        id: fid("unequal_merge"),
        nodes: vec![
            Node::pure(1).with_dataflow(vec![1], vec![]).with_succs(vec![1]), // 0: a1 = spring
            Node::pure(2).with_dataflow(vec![2], vec![]).with_succs(vec![2]), // 1: a2 = spring
            Node::pure(3).with_dataflow(vec![3], vec![1, 2]).with_succs(vec![3]), // 2: p = a1 + a2
            Node::pure(4).with_dataflow(vec![4], vec![]).with_succs(vec![4]), // 3: q = spring
            Node::pure(5).with_dataflow(vec![5], vec![3, 4]).with_succs(vec![5]), // 4: r = p + q
            Node::pure(6)
                .with_dataflow(vec![], vec![5])
                .with_kind(NodeKind::Return), // 5: return r
        ],
        entry: 0,
    };
    let orders = orders_of(&ir);
    assert_eq!(orders, vec![1, 1, 2, 1, 2, 2], "got {orders:?}");
}

/// `b = spring; y0 = spring; loop { x = y + b; y = x + 1 }; return y` —
/// `x` and `y` mutually redefine each other across the back edge, so
/// nodes 2 and 3 form one strongly connected component. That component
/// is fed by two distinct order-1 springs (`b` and the initial `y0`), so
/// the whole cycle — both members alike — condenses to order `2`, which
/// then carries straight through to the return. Exercises SCC handling
/// and confluence together: the confluence rule is being applied to the
/// condensation, not to individual nodes inside the loop.
#[test]
fn cycle_condenses_then_confluence_applies() {
    let ir = FunctionIr {
        id: fid("cycle_confluence"),
        nodes: vec![
            Node::pure(1).with_dataflow(vec![1], vec![]).with_succs(vec![1]), // 0: b = spring
            Node::pure(2).with_dataflow(vec![2], vec![]).with_succs(vec![2]), // 1: y0 = spring
            Node::pure(3).with_dataflow(vec![3], vec![2, 1]).with_succs(vec![3]), // 2: x = y + b
            Node::pure(4)
                .with_dataflow(vec![2], vec![3])
                .with_kind(NodeKind::Branch)
                .with_succs(vec![2, 4]), // 3: y = x + 1; loop or exit
            Node::pure(5)
                .with_dataflow(vec![], vec![2])
                .with_kind(NodeKind::Return), // 4: return y
        ],
        entry: 0,
    };
    let graph = Graph::build(&ir);
    assert!(
        graph
            .loops
            .iter()
            .any(|l| l.body.contains(&2) && l.body.contains(&3)),
        "fixture must actually loop"
    );
    let orders = orders_of(&ir);
    assert_eq!(orders, vec![1, 1, 2, 2, 2], "got {orders:?}");
}

/// Running the same lowered fixture twice, including through the public
/// [`score`] entry point, must produce byte-identical output: no hash-map
/// iteration, no floating point accumulation order sensitivity, nothing
/// time- or memory-address-dependent anywhere in the pipeline.
#[test]
fn deterministic_on_a_lowered_fixture() {
    // A function with fan-out, fan-in, a loop and a branch, so every code
    // path in `component_orders` runs at least once.
    let ir = FunctionIr {
        id: fid("determinism"),
        nodes: vec![
            Node::pure(1).with_dataflow(vec![1], vec![]).with_succs(vec![1]), // 0: a = input
            Node::pure(2).with_dataflow(vec![2], vec![1]).with_succs(vec![2]), // 1: b = a
            Node::pure(3).with_dataflow(vec![3], vec![1]).with_succs(vec![3]), // 2: c = a
            Node::pure(4).with_dataflow(vec![4], vec![2, 3]).with_succs(vec![4]), // 3: d = b + c
            Node::pure(5)
                .with_dataflow(vec![], vec![4])
                .with_kind(NodeKind::Branch)
                .with_succs(vec![5, 8]), // 4: branch on d
            Node::pure(6).with_dataflow(vec![5], vec![4]).with_succs(vec![6]), // 5: e = d
            Node::pure(7)
                .with_dataflow(vec![5], vec![5])
                .with_kind(NodeKind::Branch)
                .with_succs(vec![6, 7]), // 6: e = e + 1 (loop)
            Node::pure(8)
                .with_dataflow(vec![], vec![5])
                .with_kind(NodeKind::Return), // 7: return e
            Node::pure(9)
                .with_dataflow(vec![], vec![4])
                .with_kind(NodeKind::Return), // 8: return d
        ],
        entry: 0,
    };
    let graph_a = Graph::build(&ir);
    let graph_b = Graph::build(&ir);
    let first = score(&graph_a);
    let second = score(&graph_b);
    assert_eq!(first, second, "same input must score identically every run");

    let orders_first = orders_of(&ir);
    let orders_second = orders_of(&ir);
    assert_eq!(orders_first, orders_second);
}

/// Empty and single-node functions must not panic, and both count as
/// "all equal" for normalisation purposes.
#[test]
fn degenerate_sizes_do_not_panic() {
    let empty = FunctionIr {
        id: fid("empty"),
        nodes: vec![],
        entry: 0,
    };
    let graph = Graph::build(&empty);
    assert_eq!(score(&graph), Vec::<f64>::new());

    let single = FunctionIr {
        id: fid("single"),
        nodes: vec![Node::pure(1).with_kind(NodeKind::Return)],
        entry: 0,
    };
    let graph = Graph::build(&single);
    assert_eq!(score(&graph), vec![0.5]);
}
