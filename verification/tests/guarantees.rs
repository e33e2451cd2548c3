//! What is guaranteed of every function, on concrete ones.

use vikt::denylist::Denylist;
use vikt::graph::Graph;
use vikt::importance::Tier;
use vikt::ir::{CallOpacity, FunctionId, FunctionIr, Node, NodeKind};
use vikt::projection::project_to_lines;
use vikt::tiering::{analyze, Reason};
use vikt::ts::{language_of, lower_source, Language, TsError};

fn func(nodes: Vec<Node>) -> FunctionIr {
    FunctionIr {
        id: FunctionId {
            file: "Demo.java".into(),
            name: "test".into(),
            signature: String::new(),
            decl_line: Some(1),
        },
        nodes,
        entry: 0,
    }
}

fn log(line: u32, uses: Vec<u32>) -> Node {
    Node::pure(line)
        .with_dataflow(vec![], uses)
        .with_kind(NodeKind::Call {
            callee: "LOG.info".into(),
            opacity: CallOpacity::Opaque,
        })
}

/// A branch over a loop body, a log call, an unread value, and a return.
fn mixed() -> FunctionIr {
    func(vec![
        Node::pure(1)
            .with_dataflow(vec![1], vec![])
            .with_succs(vec![1]),
        Node::pure(2)
            .with_dataflow(vec![], vec![9])
            .with_kind(NodeKind::Branch)
            .with_succs(vec![2, 3]),
        Node::pure(3)
            .with_dataflow(vec![1], vec![1])
            .with_succs(vec![1]),
        log(4, vec![]).with_succs(vec![4]),
        Node::pure(5)
            .with_dataflow(vec![7], vec![])
            .with_succs(vec![5]),
        Node::pure(6)
            .with_dataflow(vec![], vec![1])
            .with_kind(NodeKind::Return),
    ])
}

#[test]
fn dominance_is_an_order() {
    let ir = mixed();
    let g = Graph::build(&ir);
    for a in 0..g.n {
        assert!(g.dominates(a, a));
        assert!(g.dominates(0, a));
        for b in 0..g.n {
            assert!(a == b || !(g.dominates(a, b) && g.dominates(b, a)));
            for c in 0..g.n {
                assert!(!(g.dominates(a, b) && g.dominates(b, c)) || g.dominates(a, c));
            }
        }
    }
    assert!(!g.dominates(2, 3));
}

#[test]
fn loops_are_entered_through_their_headers() {
    let g = Graph::build(&mixed());
    assert_eq!(g.loops.len(), 1);
    assert_eq!(g.loops[0].header, 1);
    assert_eq!(g.loops[0].body, [1, 2]);
    for &u in &g.loops[0].body {
        assert!(g.dominates(g.loops[0].header, u));
    }
}

#[test]
fn only_forks_decide() {
    let ir = mixed();
    let g = Graph::build(&ir);
    for y in 0..g.n {
        for &x in &g.ctrl_deps[y] {
            assert!(ir.nodes[x].succs.len() > 1);
        }
    }
    assert!(g.ctrl_deps[2].contains(&1));
}

#[test]
fn chains_agree() {
    let g = Graph::build(&mixed());
    for d in 0..g.defs.len() {
        for u in 0..g.n {
            assert_eq!(g.uses_defs[u].contains(&d), g.def_users[d].contains(&u));
        }
    }
}

#[test]
fn every_span_has_its_reason() {
    let ir = mixed();
    let sal = analyze(&ir, &Denylist::new(), &vec![50; ir.len()]);
    assert!(sal.reasons.iter().all(|r| !r.is_empty()));
    assert_eq!(sal.nodes[4].tier, Tier::Plumbing);
    assert_eq!(sal.reasons[4], [Reason::ReachesNothing]);
    assert_eq!(sal.nodes[3].tier, Tier::Inert);
    assert_eq!(sal.scores[3], 0);
    let spans = project_to_lines(&ir, &sal);
    assert!(spans.iter().all(|s| !s.reasons.is_empty()));
    for pair in spans.windows(2) {
        assert!(pair[0].end < pair[1].start);
    }
    for (i, n) in ir.nodes.iter().enumerate() {
        let line = n.line.expect("a line");
        let span = spans
            .iter()
            .find(|s| s.start <= line && line <= s.end)
            .expect("a span");
        assert_eq!(span.tier, sal.nodes[i].tier);
        assert_eq!(span.score, sal.scores[i]);
    }
}

/// A counter that only a log call reads is inert, cycle and all.
#[test]
fn what_only_feeds_the_log_is_inert() {
    let ir = func(vec![
        Node::pure(1)
            .with_dataflow(vec![1], vec![])
            .with_succs(vec![1]),
        Node::pure(2)
            .with_dataflow(vec![1], vec![1])
            .with_succs(vec![2]),
        log(3, vec![1]).with_succs(vec![3]),
        Node::pure(4).with_kind(NodeKind::Return),
    ]);
    let sal = analyze(&ir, &Denylist::new(), &vec![50; ir.len()]);
    for i in 0..3 {
        assert_eq!(sal.nodes[i].tier, Tier::Inert);
    }
    let bare = analyze(&ir, &Denylist::empty(), &vec![50; ir.len()]);
    assert!(bare.nodes.iter().all(|n| n.tier != Tier::Inert));
}

/// No edge leads into an `except` block, and control does not leave it.
#[test]
fn python_handlers_are_not_entered() {
    let src = "def f(x):\n    try:\n        y = g(x)\n    except ValueError as e:\n        h(e)\n        return 0\n    finally:\n        k()\n    return y\n";
    let m = lower_source(Language::Python, src, "f.py").expect("parses");
    let f = m
        .functions
        .iter()
        .find(|f| f.id.name == "f")
        .expect("lowered");
    let entry = f
        .nodes
        .iter()
        .position(|n| n.label == "<catch>")
        .expect("a handler");
    assert!(f.nodes.iter().all(|n| !n.succs.contains(&entry)));
    assert!(f.nodes.iter().any(|n| n.line == Some(5)));
    for n in &f.nodes {
        if n.kind == NodeKind::Return {
            assert!(n.succs.is_empty());
        }
    }
}

/// A name bound in a block is another variable, and the outer one is itself
/// again behind the block.
#[test]
fn a_block_ends_what_it_declares() {
    let src = "fn f(x: i32) -> i32 {\n    {\n        let x = 1;\n        g(x);\n    }\n    x\n}\n";
    let m = lower_source(Language::Rust, src, "f.rs").expect("parses");
    let f = m
        .functions
        .iter()
        .find(|f| f.id.name == "f")
        .expect("lowered");
    let outer = f.nodes[0].defs[0];
    let inner = f
        .nodes
        .iter()
        .find(|n| n.line == Some(3))
        .expect("the binding")
        .defs[0];
    assert_ne!(outer, inner);
    let last = f.nodes.last().expect("nodes");
    assert_eq!(last.line, Some(6));
    assert_eq!(last.uses, [outer]);
}

#[test]
fn an_unknown_extension_is_refused() {
    assert_eq!(language_of("a/b.kts", "kts").ok(), Some(Language::Kotlin));
    match language_of("a/b.swift", "swift") {
        Err(TsError::UnsupportedExtension { path, ext }) => {
            assert_eq!((path.as_str(), ext.as_str()), ("a/b.swift", "swift"));
        }
        other => panic!("{other:?}"),
    }
}
