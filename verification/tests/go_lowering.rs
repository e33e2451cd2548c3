//! What Go source is lowered to.

use vikt::ir::{FunctionIr, Node, NodeKind};
use vikt::ts::{lower_source, Language};

fn lower(src: &str) -> Vec<FunctionIr> {
    let m = lower_source(Language::Go, src, "main.go").expect("Go parses");
    assert_eq!(m.generator, "vikt-ts/tree-sitter-go");
    for f in &m.functions {
        f.validate().expect("a consistent graph");
    }
    m.functions
}

fn named<'a>(fs: &'a [FunctionIr], name: &str) -> &'a FunctionIr {
    let names: Vec<&str> = fs.iter().map(|f| f.id.name.as_str()).collect();
    fs.iter().find(|f| f.id.name == name).unwrap_or_else(|| panic!("{name} in {names:?}"))
}

fn at<'a>(f: &'a FunctionIr, label: &str) -> (usize, &'a Node) {
    let labels: Vec<&str> = f.nodes.iter().map(|n| n.label.as_str()).collect();
    let k = f
        .nodes
        .iter()
        .position(|n| n.label == label)
        .unwrap_or_else(|| panic!("{label} in {labels:?}"));
    (k, &f.nodes[k])
}

#[test]
fn the_extension_names_the_language() {
    assert_eq!(Language::from_extension("go"), Some(Language::Go));
}

/// Methods are named after their receiver's type, through a pointer or not.
#[test]
fn methods_are_named_after_their_receiver() {
    let fs = lower(
        "package main\n\nfunc (c *Counter) Add(n int) int {\n\tc.total = n\n\treturn n\n}\n\nfunc (c Counter) Get() int {\n\treturn c.total\n}\n\nfunc free() {}\n",
    );
    let f = named(&fs, "Counter::Add");
    assert!(f.nodes.iter().any(|n| matches!(n.kind, NodeKind::StateWrite { .. })));
    named(&fs, "Counter::Get");
    named(&fs, "free");
}

/// Each declaration form defines its names; a block of them stays visible
/// behind it.
#[test]
fn declarations_define_their_names() {
    let fs = lower(
        "package main\n\nfunc f(p int) int {\n\tx := g(p)\n\tvar y = x\n\tvar (\n\t\tz = y\n\t\tw = z\n\t)\n\tconst c = 1\n\treturn w + c\n}\n",
    );
    let f = named(&fs, "f");
    let (call, g) = at(f, "g");
    let (decl, x) = at(f, "x := g(p)");
    assert_eq!(f.nodes[call].succs, [decl]);
    assert!(g.uses.iter().all(|u| x.uses.contains(u)), "both read the argument");
    let y = at(f, "y = x").1;
    assert_eq!(y.uses, x.defs);
    let z = at(f, "z = y").1;
    assert_eq!(z.uses, y.defs);
    let w = at(f, "w = z").1;
    let c = at(f, "c = 1").1;
    let ret = f.nodes.iter().find(|n| n.kind == NodeKind::Return).expect("a return");
    assert!(ret.uses.contains(&w.defs[0]) && ret.uses.contains(&c.defs[0]));
}

/// The four loops that one kind covers.
#[test]
fn every_loop_has_its_shape() {
    let each = lower("package main\n\nfunc f(xs []int) {\n\tfor i, x := range xs {\n\t\tg(i, x)\n\t}\n}\n");
    let f = named(&each, "f");
    let head = f.nodes.iter().position(|n| n.kind == NodeKind::Branch).expect("a head");
    assert_eq!(f.nodes[head].defs.len(), 2);
    let g = at(f, "g").1;
    assert!(f.nodes[head].defs.iter().all(|d| g.uses.contains(d)));
    assert!(f.nodes[head + 1..].iter().any(|n| n.succs.contains(&head)), "the body leads back");

    let bare = lower("package main\n\nfunc f(xs chan int) {\n\tfor range xs {\n\t\tg()\n\t}\n}\n");
    let f = named(&bare, "f");
    let head = f.nodes.iter().find(|n| n.kind == NodeKind::Branch).expect("a head");
    assert!(head.defs.is_empty());

    let condition = lower("package main\n\nfunc f(n int) int {\n\tfor n > 0 {\n\t\tn = g(n)\n\t}\n\treturn n\n}\n");
    let f = named(&condition, "f");
    let (cond, c) = at(f, "n > 0");
    assert_eq!(c.kind, NodeKind::Branch);
    assert_eq!(c.succs.len(), 2, "into the body and behind the loop");
    let (back, _) = at(f, "n = g(n)");
    assert_eq!(f.nodes[back].succs, [cond]);

    let endless = lower("package main\n\nfunc f(n int) int {\n\tfor {\n\t\tif n > 3 {\n\t\t\tbreak\n\t\t}\n\t\tn = g(n)\n\t}\n\treturn n\n}\n");
    let f = named(&endless, "f");
    let head = f.nodes.iter().position(|n| n.label.starts_with("for {")).expect("a head");
    assert_eq!(f.nodes[head].kind, NodeKind::Branch);
    let (back, _) = at(f, "n = g(n)");
    assert_eq!(f.nodes[back].succs, [head]);

    let counted = lower("package main\n\nfunc f(n int) {\n\tfor i := 0; i < n; i++ {\n\t\tg(i)\n\t}\n}\n");
    let f = named(&counted, "f");
    at(f, "g");
    assert!(!f.nodes.iter().any(|n| n.kind == NodeKind::Branch), "one opaque unit");
}

/// A switch and a select branch to every arm.
#[test]
fn arms_are_alternatives() {
    let fs = lower(
        "package main\n\nfunc f(n int) int {\n\tswitch n {\n\tcase 1:\n\t\treturn a(n)\n\tdefault:\n\t\treturn b(n)\n\t}\n}\n",
    );
    let f = named(&fs, "f");
    let branch = f.nodes.iter().position(|n| n.kind == NodeKind::Branch).expect("a branch");
    let (a, b) = (at(f, "a").0, at(f, "b").0);
    assert!(f.nodes[a].succs.iter().all(|s| *s != b));
    assert!(f.nodes[branch].succs.len() >= 2);

    let fs = lower(
        "package main\n\nfunc f(ch chan int, done chan int) int {\n\tselect {\n\tcase v := <-ch:\n\t\treturn v\n\tcase <-done:\n\t\treturn 0\n\t}\n}\n",
    );
    let f = named(&fs, "f");
    let received = at(f, "v := <-ch").1;
    assert_eq!(received.defs.len(), 1, "the received value is defined");
    let returned = f.nodes.iter().filter(|n| n.kind == NodeKind::Return);
    assert!(returned.into_iter().any(|n| n.uses == received.defs));
}

/// Statements before a closing comment are lowered, and so is an empty body.
#[test]
fn comments_hide_nothing() {
    let fs = lower("package main\n\nfunc f(n int) {\n\tg(n)\n\t// the end\n}\n\nfunc e() {\n}\n");
    at(named(&fs, "f"), "g");
    assert!(!named(&fs, "e").nodes.is_empty());
}

/// A deferred and a launched call are calls like any other.
#[test]
fn deferred_and_launched_calls_are_calls() {
    let fs = lower("package main\n\nfunc f() {\n\tdefer mu.Unlock()\n\tgo work(1)\n}\n");
    let f = named(&fs, "f");
    at(f, "mu.Unlock");
    at(f, "work");
}
