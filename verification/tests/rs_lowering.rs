//! The Rust frontend on hand-built bodies and command lines.

use vikt::ir::{CallOpacity, NodeKind};
use vikt::rs::driver::{
    crate_name, edition, hash_args, hash_text, hex16_text, hex_text, is_lowered, is_wrapper,
    output_name,
};
use vikt::rs::mir::{
    has_targets, lower_body, lower_statement, lower_terminator, rvalue_uses, Block, MirBody,
    MirSpan, Operand, Place, Projection, Rvalue, Statement, StatementKind, Terminator,
    TerminatorKind,
};
use vikt::rs::package::{
    helper_candidates, matches_package, next_phase, next_step, out_dir_name, read_modules, Checked,
    Phase, RsError, Step, PINNED_TOOLCHAIN,
};
use vikt::rs::wire::{wire_to_module, WireFunction, WireKind, WireModule, WireNode};
use vikt::rs::{lower_file, HelperOutput};

fn local(l: usize) -> Place {
    Place {
        local: l,
        projection: Vec::new(),
    }
}

fn behind(l: usize) -> Place {
    Place {
        local: l,
        projection: vec![Projection::Other, Projection::Deref],
    }
}

fn copy(l: usize) -> Operand {
    Operand::Copy(local(l))
}

fn item(path: &str) -> Operand {
    Operand::Constant(Some(path.to_owned()))
}

fn span(line: usize) -> MirSpan {
    MirSpan {
        file: "src/main.rs".into(),
        start_line: line,
    }
}

fn elsewhere() -> MirSpan {
    MirSpan {
        file: "core/macros.rs".into(),
        start_line: 7,
    }
}

fn statement(kind: StatementKind, line: usize) -> Statement {
    Statement {
        kind,
        span: span(line),
    }
}

fn block(statements: Vec<Statement>, kind: TerminatorKind, line: usize) -> Block {
    Block {
        statements,
        terminator: Terminator {
            kind,
            span: span(line),
        },
    }
}

fn body(blocks: Vec<Block>) -> MirBody {
    MirBody {
        blocks,
        span: span(1),
    }
}

fn args(list: &[&str]) -> Vec<String> {
    list.iter().map(|a| (*a).to_owned()).collect()
}

fn succs(f: &WireFunction) -> Vec<Vec<usize>> {
    f.nodes.iter().map(|n| n.succs.clone()).collect()
}

fn labels(f: &WireFunction) -> Vec<&str> {
    f.nodes.iter().map(|n| n.label.as_str()).collect()
}

#[test]
fn reads_are_listed_once_and_in_order() {
    let sum = Rvalue::BinaryOp(copy(3), copy(3));
    assert_eq!(rvalue_uses(&sum), [3]);
    let checked = Rvalue::CheckedBinaryOp(copy(4), Operand::Move(local(2)));
    assert_eq!(rvalue_uses(&checked), [4, 2]);
    let all = Rvalue::Aggregate(vec![copy(5), item("x"), copy(1), copy(5)]);
    assert_eq!(rvalue_uses(&all), [5, 1]);
    assert_eq!(rvalue_uses(&Rvalue::Ref(behind(9))), [9]);
    assert_eq!(rvalue_uses(&Rvalue::Use(copy(6))), [6]);
    assert_eq!(rvalue_uses(&Rvalue::Discriminant(local(8))), [8]);
    assert!(rvalue_uses(&Rvalue::ThreadLocalRef).is_empty());
    assert!(rvalue_uses(&Rvalue::Use(Operand::RuntimeChecks)).is_empty());
    assert!(rvalue_uses(&Rvalue::Other).is_empty());
}

#[test]
fn an_assignment_defines_its_local() {
    let kind = StatementKind::Assign(local(1), Rvalue::Use(copy(2)));
    let node = lower_statement(&kind, Some(4), 9);
    assert!(matches!(node.kind, WireKind::Pure));
    assert_eq!(node.defs, [1]);
    assert_eq!(node.uses, [2]);
    assert_eq!(node.succs, [9]);
    assert_eq!(node.line, Some(4));
    assert_eq!(node.label, "assign");
}

#[test]
fn an_assignment_through_a_pointer_is_a_state_write() {
    let kind = StatementKind::Assign(behind(3), Rvalue::BinaryOp(copy(3), copy(4)));
    let node = lower_statement(&kind, None, 1);
    assert!(matches!(&node.kind, WireKind::StateWrite { target } if target == "*deref"));
    assert!(node.defs.is_empty());
    assert_eq!(node.uses, [3, 4]);
    assert_eq!(node.label, "assign-deref");
}

#[test]
fn other_statements() {
    let set = lower_statement(&StatementKind::SetDiscriminant(local(5)), None, 2);
    assert_eq!((set.defs.as_slice(), set.label.as_str()), (&[5][..], "set-discriminant"));
    let intrinsic = lower_statement(&StatementKind::Intrinsic, None, 2);
    assert_eq!(intrinsic.label, "intrinsic");
    assert!(intrinsic.defs.is_empty() && intrinsic.uses.is_empty());
}

#[test]
fn terminators() {
    let switch = lower_terminator(
        &TerminatorKind::SwitchInt {
            discr: copy(1),
            branches: vec![4, 2],
            otherwise: 3,
        },
        Some(8),
    );
    assert!(matches!(switch.kind, WireKind::Branch));
    assert_eq!(switch.succs, [4, 2, 3]);
    assert_eq!(switch.uses, [1]);

    let done = lower_terminator(&TerminatorKind::Return, None);
    assert!(matches!(done.kind, WireKind::Return));
    assert_eq!(done.uses, [0]);
    assert!(done.succs.is_empty());

    let call = lower_terminator(
        &TerminatorKind::Call {
            func: item("core::fmt::write"),
            args: vec![copy(2), copy(3)],
            destination: local(4),
            target: Some(6),
        },
        None,
    );
    assert!(matches!(
        &call.kind,
        WireKind::Call { callee, opacity } if callee == "core::fmt::write" && opacity == "opaque"
    ));
    assert_eq!((call.defs, call.uses, call.succs), (vec![4], vec![2, 3], vec![6]));
    assert_eq!(call.label, "core::fmt::write");

    let diverging = lower_terminator(
        &TerminatorKind::Call {
            func: copy(7),
            args: vec![],
            destination: local(0),
            target: None,
        },
        None,
    );
    assert_eq!(diverging.label, "<dynamic>");
    assert!(diverging.succs.is_empty());

    let dropped = lower_terminator(
        &TerminatorKind::Drop {
            place: local(3),
            target: 1,
        },
        None,
    );
    assert!(matches!(&dropped.kind, WireKind::Call { callee, .. } if callee == "drop"));
    assert_eq!((dropped.uses, dropped.succs), (vec![3], vec![1]));

    let checked = lower_terminator(
        &TerminatorKind::Assert {
            cond: copy(5),
            target: 2,
        },
        None,
    );
    assert!(matches!(checked.kind, WireKind::Branch));
    assert_eq!((checked.uses, checked.succs), (vec![5], vec![2]));

    for (kind, label) in [
        (TerminatorKind::Unreachable, "unreachable"),
        (TerminatorKind::Abort, "unreachable"),
        (TerminatorKind::Resume, "resume"),
        (TerminatorKind::InlineAsm, "asm"),
    ] {
        let node = lower_terminator(&kind, None);
        assert_eq!(node.label, label);
        assert!(node.succs.is_empty());
    }
    assert_eq!(lower_terminator(&TerminatorKind::Goto { target: 3 }, None).succs, [3]);
}

/// Statements lead to the next node of their block, terminators to the first
/// node of a block, and bookkeeping becomes no node.
#[test]
fn a_body_is_lowered_block_by_block() {
    let b = body(vec![
        block(
            vec![
                statement(StatementKind::Other, 2),
                statement(StatementKind::Assign(local(1), Rvalue::Use(copy(2))), 3),
            ],
            TerminatorKind::SwitchInt {
                discr: copy(1),
                branches: vec![2],
                otherwise: 1,
            },
            4,
        ),
        block(vec![], TerminatorKind::Goto { target: 2 }, 5),
        block(
            vec![statement(
                StatementKind::Assign(local(0), Rvalue::Use(copy(1))),
                6,
            )],
            TerminatorKind::Return,
            7,
        ),
    ]);
    assert!(has_targets(&b));
    let f = lower_body("demo::run", &b);
    assert_eq!(labels(&f), ["assign", "switch", "goto", "assign", "return"]);
    assert_eq!(succs(&f), [vec![1], vec![3, 2], vec![3], vec![4], vec![]]);
    assert_eq!(f.decl_line, Some(3));
    assert_eq!(f.file, "src/main.rs");
    assert_eq!(f.name, "demo::run");
    assert_eq!(f.signature, "");
    assert_eq!(f.entry, 0);
    let lines: Vec<_> = f.nodes.iter().map(|n| n.line).collect();
    assert_eq!(lines, [Some(3), Some(4), Some(5), Some(6), Some(7)]);
    let n = f.nodes.len();
    assert!(f.nodes.iter().all(|x| x.succs.iter().all(|&s| s < n)));
}

#[test]
fn a_target_that_is_no_block_is_noticed() {
    let b = body(vec![block(vec![], TerminatorKind::Goto { target: 1 }, 1)]);
    assert!(!has_targets(&b));
    assert!(has_targets(&body(vec![])));
}

/// A span that lies in another file has no line here.
#[test]
fn lines_of_other_files_are_dropped() {
    let mut b = body(vec![block(
        vec![statement(
            StatementKind::Assign(local(1), Rvalue::Other),
            2,
        )],
        TerminatorKind::Return,
        3,
    )]);
    b.blocks[0].statements[0].span = elsewhere();
    let f = lower_body("m", &b);
    assert_eq!(f.nodes[0].line, None);
    assert_eq!(f.nodes[1].line, Some(3));
    b.blocks[0].terminator.span = elsewhere();
    let f = lower_body("m", &b);
    assert_eq!(f.decl_line, Some(1));
}

fn wire_node(kind: WireKind) -> WireNode {
    WireNode {
        line: Some(1),
        kind,
        defs: vec![1],
        uses: vec![2],
        succs: vec![],
        label: "n".into(),
    }
}

fn wire_function(file: &str, kinds: Vec<WireKind>) -> WireFunction {
    WireFunction {
        file: file.into(),
        name: "f".into(),
        signature: "()".into(),
        decl_line: Some(3),
        entry: 0,
        nodes: kinds.into_iter().map(wire_node).collect(),
    }
}

fn wire_call(opacity: &str) -> WireKind {
    WireKind::Call {
        callee: "g".into(),
        opacity: opacity.into(),
    }
}

#[test]
fn a_module_is_read_off_the_wire() {
    let m = wire_to_module(WireModule {
        file: "lib.rs".into(),
        functions: vec![
            wire_function(
                "",
                vec![
                    WireKind::Pure,
                    WireKind::Branch,
                    WireKind::Return,
                    WireKind::Throw,
                    WireKind::StateWrite { target: "t".into() },
                ],
            ),
            wire_function(
                "other.rs",
                vec![
                    wire_call("opaque"),
                    wire_call("inert"),
                    wire_call("whatever"),
                ],
            ),
        ],
    });
    assert_eq!(m.file, "lib.rs");
    assert_eq!(m.functions[0].id.file, "lib.rs");
    assert_eq!(m.functions[1].id.file, "other.rs");
    let kinds: Vec<&NodeKind> = m.functions[0].nodes.iter().map(|n| &n.kind).collect();
    assert!(matches!(kinds[0], NodeKind::Pure));
    assert!(matches!(kinds[1], NodeKind::Branch));
    assert!(matches!(kinds[2], NodeKind::Return));
    assert!(matches!(kinds[3], NodeKind::Throw));
    assert!(matches!(kinds[4], NodeKind::StateWrite { target } if target == "t"));
    let opacities: Vec<CallOpacity> = m.functions[1]
        .nodes
        .iter()
        .map(|n| match &n.kind {
            NodeKind::Call { opacity, .. } => *opacity,
            _ => panic!("a call"),
        })
        .collect();
    assert_eq!(
        opacities,
        [CallOpacity::Opaque, CallOpacity::Inert, CallOpacity::Opaque]
    );
}

/// The published test vectors of the 64-bit hash.
#[test]
fn hashes_of_known_texts() {
    assert_eq!(hash_text(""), 0xcbf2_9ce4_8422_2325);
    assert_eq!(hash_text("a"), 0xaf63_dc4c_8601_ec8c);
    assert_eq!(hash_text("foobar"), 0x8594_4171_f739_67e8);
    assert_eq!(hash_args(&args(&["foo", "bar"])), hash_text("foobar"));
    assert_eq!(hash_args(&[].to_vec()), hash_text(""));
}

#[test]
fn hexadecimal_texts() {
    assert_eq!(hex_text(0), "0");
    assert_eq!(hex_text(0x1f), "1f");
    assert_eq!(hex_text(u64::MAX), "ffffffffffffffff");
    assert_eq!(hex16_text(0x1f), "000000000000001f");
}

#[test]
fn command_lines() {
    let a = args(&["--crate-name", "demo", "--edition", "2024", "src/lib.rs"]);
    assert_eq!(crate_name(&a), "demo");
    assert_eq!(edition(&a), "2024");
    assert_eq!(crate_name(&args(&["--crate-name"])), "");
    assert_eq!(edition(&args(&["x.rs"])), "2021");
    assert_eq!(
        output_name(&a),
        format!("demo-{:016x}.json", hash_args(&a))
    );
    assert!(is_wrapper("/usr/bin/rustc"));
    assert!(is_wrapper("C:\\bin\\rustc.exe"));
    assert!(!is_wrapper("src/main.rs"));
}

#[test]
fn which_units_are_lowered() {
    let lib = args(&["--crate-name", "demo"]);
    assert!(is_lowered(true, true, &lib));
    assert!(!is_lowered(false, true, &lib));
    assert!(!is_lowered(true, false, &lib));
    assert!(!is_lowered(
        true,
        true,
        &args(&["--crate-name", "build_script_build"])
    ));
    assert!(!is_lowered(
        true,
        true,
        &args(&["--crate-name", "m", "--crate-type", "proc-macro"])
    ));
    assert!(!is_lowered(
        true,
        true,
        &args(&["--crate-name", "m", "--crate-type=proc-macro"])
    ));
    assert!(is_lowered(
        true,
        true,
        &args(&["--crate-name", "m", "--crate-type", "lib"])
    ));
}

#[test]
fn where_the_helper_is_looked_for() {
    let built = [
        "tools/rust-lower/target/release/vikt-rust-lower",
        "tools/rust-lower/target/debug/vikt-rust-lower",
    ];
    assert_eq!(helper_candidates(None, &vec![]), built);
    assert_eq!(
        helper_candidates(Some("/opt/h"), &args(&["/bin/vikt-rust-lower"])),
        ["/opt/h", "/bin/vikt-rust-lower", built[0], built[1]]
    );
}

#[test]
fn output_directories_differ_by_package() {
    assert_eq!(
        out_dir_name(42, "/work/demo"),
        format!("vikt-lower-42-{:x}", hash_text("/work/demo"))
    );
    assert_ne!(out_dir_name(42, "/work/a"), out_dir_name(42, "/work/b"));
}

#[test]
fn fingerprints_of_a_package() {
    assert!(matches_package(None, "anything-1234"));
    assert!(matches_package(Some("my-crate"), "my-crate-1234"));
    assert!(matches_package(Some("my-crate"), "my_crate-1234"));
    assert!(!matches_package(Some("my-crate"), "other-1234"));
    assert_eq!(PINNED_TOOLCHAIN, "nightly-2026-08-13");
}

fn checked(success: bool, produced: bool) -> Checked {
    Checked {
        success,
        status: "exit status: 101".into(),
        stderr: "error: oops".into(),
        produced,
    }
}

/// A fresh package is cleared and checked once more, and never a third time.
#[test]
fn a_run_step_by_step() {
    assert!(matches!(next_step(Phase::First, &checked(true, true)), Step::Read));
    assert!(matches!(next_step(Phase::First, &checked(true, false)), Step::Clear));
    assert_eq!(next_phase(Phase::First), Phase::Clearing);
    assert!(matches!(next_step(Phase::Clearing, &checked(true, false)), Step::Check));
    assert_eq!(next_phase(Phase::Clearing), Phase::Again);
    assert!(matches!(next_step(Phase::Again, &checked(true, false)), Step::Read));
    for phase in [Phase::First, Phase::Again] {
        match next_step(phase, &checked(false, true)) {
            Step::Fail(e) => assert_eq!(
                e.message(),
                "vikt-rust-lower exited with exit status: 101: error: oops"
            ),
            other => panic!("{other:?}"),
        }
    }
}

#[test]
fn a_run_that_left_nothing_is_a_failure() {
    match read_modules(vec![]) {
        Err(RsError::Failed { status, stderr }) => {
            assert_eq!(status, "0");
            assert!(stderr.starts_with("cargo check succeeded but produced no lowering"));
        }
        other => panic!("{other:?}"),
    }
    let one = WireModule {
        file: "a.rs".into(),
        functions: vec![],
    };
    let read = read_modules(vec![one]).expect("one module");
    assert_eq!(read.len(), 1);
    assert_eq!(read[0].file, "a.rs");
}

#[test]
fn messages_of_the_errors() {
    assert!(RsError::HelperMissing
        .message()
        .starts_with("vikt-rust-lower not found."));
    assert_eq!(
        RsError::Spawn("no such file".into()).message(),
        "could not run the MIR lowering: no such file"
    );
    assert_eq!(
        RsError::Decode("eof".into()).message(),
        "could not parse the lowering output: eof"
    );
}

#[test]
fn what_the_helper_printed_counts_only_when_it_succeeded() {
    let module = || WireModule {
        file: "a.rs".into(),
        functions: vec![wire_function("", vec![WireKind::Return])],
    };
    let output = |success: bool, module: Result<WireModule, String>| HelperOutput {
        success,
        status: "exit status: 1".into(),
        stderr: "bad".into(),
        module,
    };
    let read = lower_file(output(true, Ok(module()))).expect("a module");
    assert_eq!(read.functions.len(), 1);
    assert_eq!(read.functions[0].id.file, "a.rs");
    assert!(matches!(
        lower_file(output(false, Ok(module()))),
        Err(RsError::Failed { .. })
    ));
    assert!(matches!(
        lower_file(output(true, Err("eof".into()))),
        Err(RsError::Decode(text)) if text == "eof"
    ));
}
