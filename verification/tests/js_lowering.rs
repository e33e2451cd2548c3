//! What JavaScript functions are lowered to.

use vikt::ir::{CallOpacity, FunctionIr, Node, NodeKind};
use vikt::js::source::{JsNode, NodeTable, Parts};
use vikt::js::{lower_source, lower_table, JsError};

fn lower(source: &str) -> Vec<FunctionIr> {
    lower_source(source, "f.js").expect("fixture parses").functions
}

fn named<'a>(functions: &'a [FunctionIr], name: &str) -> &'a FunctionIr {
    functions
        .iter()
        .find(|f| f.id.name == name)
        .unwrap_or_else(|| panic!("no function named {name}"))
}

fn at<'a>(f: &'a FunctionIr, label: &str) -> (usize, &'a Node) {
    f.nodes
        .iter()
        .enumerate()
        .find(|(_, n)| n.label == label)
        .unwrap_or_else(|| panic!("no node labelled {label} in {:?}", f.nodes))
}

fn succs(f: &FunctionIr, label: &str) -> Vec<usize> {
    at(f, label).1.succs.clone()
}

/// Module body first, then every function in document order.
#[test]
fn module_body_comes_first() {
    let fs = lower("function a() {}\nconst b = () => 1;\n");
    let names: Vec<&str> = fs.iter().map(|f| f.id.name.as_str()).collect();
    assert_eq!(names, ["<module>", "a", "b"]);
    assert_eq!(fs[1].id.decl_line, Some(1));
    assert_eq!(fs[2].id.decl_line, Some(2));
    assert!(fs.iter().all(|f| f.validate().is_ok()));
}

/// What is bound before the body, the function's name and its parameters, is
/// defined at the entry, and a use refers to the same variable.
#[test]
fn parameters_are_defined_at_the_entry() {
    let fs = lower("function f(a, b) {\n  return a + b;\n}\n");
    let f = named(&fs, "f");
    assert_eq!(f.nodes.len(), 2);
    assert_eq!(f.nodes[0].label, "<params>");
    assert_eq!(f.nodes[0].defs, [0, 1, 2]);
    assert_eq!(f.nodes[1].kind, NodeKind::Return);
    assert_eq!(f.nodes[1].uses, [1, 2]);
    assert_eq!(f.nodes[1].line, Some(2));
    assert_eq!(f.nodes[0].succs, [1]);
    assert!(f.nodes[1].succs.is_empty());
}

/// A call is a node of its own ahead of the statement, and the statement reads
/// the call's result.
#[test]
fn a_call_is_extracted_ahead_of_its_statement() {
    let fs = lower("function f(x) {\n  const y = g(x);\n  return y;\n}\n");
    let f = named(&fs, "f");
    let (call, c) = at(f, "g");
    assert_eq!(
        c.kind,
        NodeKind::Call { callee: "g".to_owned(), opacity: CallOpacity::Opaque }
    );
    assert_eq!(c.defs.len(), 1);
    let (decl, d) = at(f, "y = g(x)");
    assert!(d.uses.contains(&c.defs[0]));
    assert_eq!(f.nodes[call].succs, [decl]);
    assert_eq!(f.nodes[0].succs, [call]);
}

/// Nested calls run inside out, and only the outer result reaches the unit.
#[test]
fn the_inner_call_feeds_the_outer_one() {
    let fs = lower("function f(x) {\n  return g(h(x));\n}\n");
    let f = named(&fs, "f");
    let (_, inner) = at(f, "h");
    let (_, outer) = at(f, "g");
    let ret = f.nodes.iter().find(|n| n.kind == NodeKind::Return).expect("a return");
    assert!(ret.uses.contains(&outer.defs[0]));
    assert!(!ret.uses.contains(&inner.defs[0]));
    let ((first, _), (second, _)) = (at(f, "h"), at(f, "g"));
    assert_eq!(f.nodes[0].succs, [first]);
    assert_eq!(f.nodes[first].succs, [second]);
    assert!(outer.uses.contains(&inner.defs[0]), "the outer call reads the inner one's result");
}

/// A chain of calls runs from its head on.
#[test]
fn a_chain_of_calls_runs_from_its_head() {
    let fs = lower("function f(x) {\n  return g(x).h(k());\n}\n");
    let f = named(&fs, "f");
    let calls: Vec<&str> = f
        .nodes
        .iter()
        .filter(|n| matches!(n.kind, NodeKind::Call { .. }))
        .map(|n| n.label.as_str())
        .collect();
    assert_eq!(calls.len(), 3);
    assert_eq!(&calls[..2], ["g", "k"]);
    let nodes: Vec<&Node> =
        f.nodes.iter().filter(|n| matches!(n.kind, NodeKind::Call { .. })).collect();
    assert!(nodes[..2].iter().all(|n| nodes[2].uses.contains(&n.defs[0])));
}

/// `continue` in a `for` without an update goes back to the condition, and one
/// in a `for` whose update calls something to that call.
#[test]
fn continue_goes_where_the_next_round_starts() {
    let src = "function f(xs) {\n  for (; xs > 0;) {\n    if (xs) continue;\n    g(xs);\n  }\n}\n";
    let fs = lower(src);
    let f = named(&fs, "f");
    let (cond, _) = at(f, "xs > 0");
    let (_, jump) = at(f, "continue");
    assert_eq!(jump.succs, [cond]);
    let src = "function f(xs) {\n  for (; xs > 0; xs = next(xs)) {\n    if (xs) continue;\n    g(xs);\n  }\n}\n";
    let fs = lower(src);
    let f = named(&fs, "f");
    let (update, _) = at(f, "next");
    let (_, jump) = at(f, "continue");
    assert_eq!(jump.succs, [update]);
}

/// A closure's captured parameter is a use of the statement that makes it.
#[test]
fn a_captured_parameter_is_used_by_the_statement_around_the_closure() {
    let fs = lower("function memo(func) {\n  const wrapped = (x) => func(x);\n  return wrapped;\n}\n");
    let f = named(&fs, "memo");
    let func = f.nodes[0].defs[1];
    let (_, decl) = at(f, "wrapped = (x) => func(x)");
    assert!(decl.uses.contains(&func), "{decl:?}");
    assert!(
        !f.nodes.iter().any(|n| matches!(&n.kind, NodeKind::Call { callee, .. } if callee == "func")),
        "the call belongs to the nested function"
    );
}

/// A hoisted declaration reads what its body captures.
#[test]
fn a_function_declaration_reads_its_captures() {
    let fs = lower("function outer(a) {\n  function inner() { return a; }\n  return inner;\n}\n");
    let f = named(&fs, "outer");
    let (_, decl) = at(f, "<fndecl>");
    assert_eq!(decl.uses, [f.nodes[0].defs[1]]);
    assert_eq!(decl.defs.len(), 1);
    let ret = f.nodes.iter().find(|n| n.kind == NodeKind::Return).expect("a return");
    assert_eq!(ret.uses, decl.defs);
}

/// A name that is shadowed in an inner block is another variable.
#[test]
fn shadowing_makes_another_variable() {
    let fs = lower("function f(x) {\n  { let x = 1; g(x); }\n  return x;\n}\n");
    let f = named(&fs, "f");
    let (_, inner) = at(f, "x = 1");
    let ret = f.nodes.iter().find(|n| n.kind == NodeKind::Return).expect("a return");
    assert_eq!(ret.uses, [f.nodes[0].defs[1]]);
    assert_ne!(inner.defs[0], f.nodes[0].defs[1]);
}

/// Both arms of an `if` lead on; without `else` the condition does too.
#[test]
fn if_without_else_falls_through_from_its_condition() {
    let fs = lower("function f(a) {\n  if (a) { p(); }\n  return 1;\n}\n");
    let f = named(&fs, "f");
    let (cond, c) = at(f, "a");
    assert_eq!(c.kind, NodeKind::Branch);
    let ret = f.nodes.iter().position(|n| n.kind == NodeKind::Return).expect("a return");
    assert!(f.nodes[cond].succs.contains(&ret));
    assert_eq!(f.nodes[cond].succs.len(), 2);
}

/// A `while` loop goes back to its condition; `break` leaves and `continue`
/// goes back.
#[test]
fn while_loop_has_a_back_edge() {
    let src = "function f(n) {\n  while (n > 0) {\n    if (n == 3) break;\n    if (n == 4) continue;\n    n = n - 1;\n  }\n  return n;\n}\n";
    let fs = lower(src);
    let f = named(&fs, "f");
    let (cond, _) = at(f, "n > 0");
    let ret = f.nodes.iter().position(|n| n.kind == NodeKind::Return).expect("a return");
    assert_eq!(succs(f, "n = n - 1;"), [cond]);
    assert_eq!(succs(f, "continue"), [cond]);
    assert_eq!(succs(f, "break"), [ret]);
    assert!(f.nodes[cond].succs.contains(&ret));
}

/// `continue` in a `for` goes to the update.
#[test]
fn continue_in_a_for_goes_to_the_update() {
    let src = "function f(xs) {\n  for (let i = 0; i < 9; i++) {\n    if (xs) continue;\n    g(i);\n  }\n}\n";
    let fs = lower(src);
    let f = named(&fs, "f");
    let (update, _) = at(f, "i++");
    let (cond, _) = at(f, "i < 9");
    assert_eq!(succs(f, "continue"), [update]);
    assert_eq!(f.nodes[update].succs, [cond]);
    assert_eq!(succs(f, "i = 0"), [cond]);
}

/// A labelled `break` leaves the loop that carries the label.
#[test]
fn labelled_break_leaves_the_outer_loop() {
    let src = "function f(a, b) {\n  outer: while (a) {\n    while (b) {\n      break outer;\n    }\n  }\n  return 1;\n}\n";
    let fs = lower(src);
    let f = named(&fs, "f");
    let ret = f.nodes.iter().position(|n| n.kind == NodeKind::Return).expect("a return");
    assert_eq!(succs(f, "break"), [ret]);
}

/// A `do` loop runs its body first.
#[test]
fn do_loop_runs_its_body_first() {
    let fs = lower("function f(n) {\n  do { n = g(n); } while (n);\n}\n");
    let f = named(&fs, "f");
    let (call, _) = at(f, "g");
    let (cond, _) = at(f, "n");
    assert_eq!(f.nodes[0].succs, [call]);
    assert_eq!(f.nodes[cond].succs, [call]);
}

/// Cases fall through, and a `switch` without a default may skip them all.
#[test]
fn switch_cases_fall_through() {
    let src = "function f(k) {\n  switch (k) {\n    case 1: a();\n    case 2: b(); break;\n  }\n  return 0;\n}\n";
    let fs = lower(src);
    let f = named(&fs, "f");
    let (disc, _) = at(f, "k");
    let (a, _) = at(f, "a");
    let (b, _) = at(f, "b");
    let ret = f.nodes.iter().position(|n| n.kind == NodeKind::Return).expect("a return");
    assert_eq!(f.nodes[disc].succs, [a, b, ret]);
    assert_eq!(f.nodes[f.nodes[a].succs[0]].succs, [b]);
    assert_eq!(succs(f, "break"), [ret]);
}

/// Nothing leads to a handler; `finally` follows the body.
#[test]
fn a_handler_is_lowered_but_unreachable() {
    let src = "function f() {\n  try { a(); } catch (e) { b(e); } finally { c(); }\n}\n";
    let fs = lower(src);
    let f = named(&fs, "f");
    let (catch, n) = at(f, "<catch>");
    assert_eq!(n.defs.len(), 1);
    assert!(f.nodes.iter().all(|n| !n.succs.contains(&catch)));
    let (a, _) = at(f, "a");
    let (c, _) = at(f, "c");
    assert_eq!(f.nodes[f.nodes[a].succs[0]].succs, [c]);
}

/// Writing a property or an ambient name is a write of state.
#[test]
fn writes_beyond_the_function_are_state_writes() {
    let fs = lower("function f(o, v) {\n  o.x = v;\n  total = v;\n  v = 1;\n}\n");
    let f = named(&fs, "f");
    assert_eq!(at(f, "o.x = v;").1.kind, NodeKind::StateWrite { target: "o.x".to_owned() });
    assert_eq!(at(f, "total = v;").1.kind, NodeKind::StateWrite { target: "total".to_owned() });
    assert_eq!(at(f, "v = 1;").1.kind, NodeKind::Pure);
}

/// `for`-`of` defines its binding at the head and reads what it walks.
#[test]
fn for_of_defines_its_binding() {
    let fs = lower("function f(xs) {\n  for (const x of xs) { g(x); }\n}\n");
    let f = named(&fs, "f");
    let (head, n) = at(f, "<for-each>");
    assert_eq!(n.kind, NodeKind::Branch);
    assert_eq!(n.uses, [f.nodes[0].defs[1]]);
    assert_eq!(n.defs.len(), 1);
    assert!(at(f, "g").1.uses.contains(&n.defs[0]));
    assert_eq!(succs(f, "<discard>"), [head]);
}

/// An arrow with an expression body returns it.
#[test]
fn expression_arrow_is_a_return() {
    let fs = lower("const inc = x => x + 1;\n");
    let f = named(&fs, "inc");
    assert_eq!(f.nodes.len(), 2);
    assert_eq!(f.nodes[1].kind, NodeKind::Return);
    assert_eq!(f.nodes[1].label, "x + 1");
}

/// TypeScript parses by the file's extension.
#[test]
fn the_extension_decides_the_dialect() {
    let src = "function f(a: number): number { return a; }\n";
    let m = lower_source(src, "f.ts").expect("TypeScript parses");
    assert_eq!(named(&m.functions, "f").nodes.len(), 2);
    assert!(matches!(lower_source(src, "f.js"), Err(JsError::Syntax { .. })));
}

/// A file whose extension names no dialect is read as a module.
#[test]
fn an_unknown_extension_is_read_as_a_module() {
    let m = lower_source("import x from \"y\";\nfunction f(a) { return a; }\n", "f.txt")
        .expect("a module parses");
    assert_eq!(named(&m.functions, "f").nodes.len(), 2);
    let typed = "function f(a: number): number { return a; }\n";
    assert!(matches!(lower_source(typed, "f.txt"), Err(JsError::Syntax { .. })));
}

/// A text that the parser gives up on is refused, with the path.
#[test]
fn broken_source_is_refused() {
    match lower_source("function (((", "bad.js") {
        Err(JsError::Syntax { path, first }) => {
            assert_eq!(path, "bad.js");
            assert!(!first.is_empty());
        }
        Ok(m) => panic!("lowered {} functions", m.functions.len()),
    }
}

/// A table written by hand: a program that holds one `return`-less statement.
#[test]
fn a_table_is_lowered_without_the_parser() {
    let node = |kind: &str, start, end, parent| JsNode {
        kind: kind.to_owned(),
        start,
        end,
        parent,
        name: None,
    };
    let none = Parts { init: false, test: false, update: false };
    let table = NodeTable {
        nodes: vec![node("Program", 0, 6, 0), node("ThrowStatement", 0, 6, 0)],
        bindings: vec![None, None],
        references: vec![None, None],
        keys: vec![None, None],
        parts: vec![none, none],
    };
    let m = lower_table(&table, "throw;", "t.js");
    assert_eq!(m.file, "t.js");
    assert_eq!(m.functions.len(), 1);
    let f = &m.functions[0];
    assert_eq!(f.id.name, "<module>");
    assert_eq!(f.nodes[1].kind, NodeKind::Throw);
    assert_eq!(f.nodes[1].label, "throw;");
    assert_eq!(f.nodes[0].succs, [1]);
}

/// The condition of a `do` leads back to where the body is entered, though a
/// handler stands before that.
#[test]
fn a_do_does_not_go_back_into_a_handler() {
    let fs = lower(
        "function f(c) {\n  do {\n    try {} catch (e) { g(e); }\n    c = h(c);\n  } while (c);\n}\n",
    );
    let f = named(&fs, "f");
    let (handler, _) = at(f, "<catch>");
    assert!(f.nodes.iter().all(|n| !n.succs.contains(&handler)));
    let (first, _) = at(f, "h");
    assert_eq!(f.nodes[0].succs, [first]);
    let cond = f
        .nodes
        .iter()
        .find(|n| n.kind == NodeKind::Branch)
        .expect("a condition");
    assert_eq!(cond.succs, [first]);
}

/// Control leaves the function at a `return` or a `throw`, and goes on from
/// neither.
#[test]
fn nothing_comes_behind_a_return() {
    let fs = lower(
        "function f(c) {\n  for (;;) { if (c) { return 1; } else { throw c; } }\n  g();\n}\n",
    );
    for f in &fs {
        for n in &f.nodes {
            if matches!(n.kind, NodeKind::Return | NodeKind::Throw) {
                assert!(n.succs.is_empty());
            }
        }
    }
    assert_eq!(
        named(&fs, "f")
            .nodes
            .iter()
            .filter(|n| matches!(n.kind, NodeKind::Return | NodeKind::Throw))
            .count(),
        2
    );
}
