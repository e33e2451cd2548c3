//! What class files are lowered to.

use vikt::ir::{CallOpacity, NodeKind};
use vikt::jvm::code::{ArrayOp, ClassHead, Code, Expr, FieldOp, Ident, Insn, MethodHead, Op};
use vikt::jvm::lower::{classify, classify_expr, line_for};
use vikt::jvm::stack::{agree, Handler, RawBody, RawInsn, TypeShape, WideShape};
use vikt::jvm::{lines_fit, lower_class, lower_methods, JvmError};

/// Garbage in must not panic.
#[test]
fn rejects_non_class_bytes() {
    assert!(lower_class(b"not a class file at all").is_err());
    assert!(lower_class(&[]).is_err());
    assert!(matches!(
        lower_class(b"not a class file at all"),
        Err(JvmError::Parse(_))
    ));
    assert!(matches!(lower_class(&[]), Err(JvmError::Parse(_))));
}

fn u2(out: &mut Vec<u8>, x: u16) {
    out.extend_from_slice(&x.to_be_bytes());
}

fn u4(out: &mut Vec<u8>, x: usize) {
    out.extend_from_slice(&u32::try_from(x).expect("fits").to_be_bytes());
}

/// A constant pool under construction.
struct Pool {
    bytes: Vec<u8>,
    next: u16,
}

impl Pool {
    fn entry(&mut self, tag: u8, body: &[u8]) -> u16 {
        self.bytes.push(tag);
        self.bytes.extend_from_slice(body);
        self.next += 1;
        self.next - 1
    }

    fn utf8(&mut self, text: &str) -> u16 {
        let mut body = Vec::new();
        u2(&mut body, u16::try_from(text.len()).expect("short"));
        body.extend_from_slice(text.as_bytes());
        self.entry(1, &body)
    }

    fn pair(&mut self, tag: u8, a: u16, b: u16) -> u16 {
        let mut body = Vec::new();
        u2(&mut body, a);
        u2(&mut body, b);
        self.entry(tag, &body)
    }

    fn class(&mut self, name: &str) -> u16 {
        let name = self.utf8(name);
        self.entry(7, &name.to_be_bytes())
    }

    /// A field (tag 9) or a method (tag 10).
    fn member(&mut self, tag: u8, owner: u16, name: &str, descriptor: &str) -> u16 {
        let name = self.utf8(name);
        let descriptor = self.utf8(descriptor);
        let both = self.pair(12, name, descriptor);
        self.pair(tag, owner, both)
    }
}

struct Names {
    code: u16,
    lines: u16,
}

fn method(
    names: &Names,
    flags: u16,
    name: u16,
    descriptor: u16,
    code: &[u8],
    lines: &[(u16, u16)],
) -> Vec<u8> {
    guarded(names, flags, name, descriptor, code, lines, &[])
}

/// A method with exception handlers: where each covers from and to, and where it
/// starts.
fn guarded(
    names: &Names,
    flags: u16,
    name: u16,
    descriptor: u16,
    code: &[u8],
    lines: &[(u16, u16)],
    handlers: &[(u16, u16, u16)],
) -> Vec<u8> {
    let mut out = Vec::new();
    for x in [flags, name, descriptor, 1, names.code] {
        u2(&mut out, x);
    }
    let table = if lines.is_empty() { 0 } else { 8 + 4 * lines.len() };
    u4(&mut out, 12 + code.len() + 8 * handlers.len() + table);
    u2(&mut out, 3);
    u2(&mut out, 3);
    u4(&mut out, code.len());
    out.extend_from_slice(code);
    u2(&mut out, u16::try_from(handlers.len()).expect("short"));
    for &(start, end, pc) in handlers {
        for x in [start, end, pc, 0] {
            u2(&mut out, x);
        }
    }
    if lines.is_empty() {
        u2(&mut out, 0);
    } else {
        u2(&mut out, 1);
        u2(&mut out, names.lines);
        u4(&mut out, 2 + 4 * lines.len());
        u2(&mut out, u16::try_from(lines.len()).expect("short"));
        for &(pc, line) in lines {
            u2(&mut out, pc);
            u2(&mut out, line);
        }
    }
    out
}

/// ```java
/// class Demo {
///     int total;
///     int run(int[] a, int n) {
///         this.total = n;
///         a[0] = n;
///         Logger.log(n);
///         if (n != 0)
///             return n;
///         return 1;
///     }
/// }
/// ```
/// with a synthetic copy of the method beside it.
fn demo_class() -> Vec<u8> {
    let mut pool = Pool { bytes: Vec::new(), next: 1 };
    let this = pool.class("Demo");
    let object = pool.class("java/lang/Object");
    let logger = pool.class("demo/Logger");
    let total = pool.member(9, this, "total", "I");
    let log = pool.member(10, logger, "log", "(I)V");
    let names = Names { code: pool.utf8("Code"), lines: pool.utf8("LineNumberTable") };
    let source = pool.utf8("SourceFile");
    let file = pool.utf8("Demo.java");
    let run = pool.utf8("run");
    let generated = pool.utf8("run$default");
    let descriptor = pool.utf8("([II)I");
    let mut code = vec![0x2a, 0x1c, 0xb5];
    u2(&mut code, total);
    code.extend_from_slice(&[0x2b, 0x03, 0x1c, 0x4f, 0x1c, 0xb8]);
    u2(&mut code, log);
    code.extend_from_slice(&[0x1c, 0x99, 0x00, 0x05, 0x1c, 0xac, 0x04, 0xac]);
    let lines = [(0, 10), (5, 11), (9, 12), (13, 13), (17, 14), (19, 15)];
    let methods = [
        method(&names, 0x0000, run, descriptor, &code, &lines),
        method(&names, 0x1000, generated, descriptor, &code, &lines),
    ];

    let mut out = vec![0xca, 0xfe, 0xba, 0xbe, 0x00, 0x00, 0x00, 0x31];
    u2(&mut out, pool.next);
    out.extend_from_slice(&pool.bytes);
    for x in [0x0020, this, object, 0, 0, 2] {
        u2(&mut out, x);
    }
    for m in &methods {
        out.extend_from_slice(m);
    }
    u2(&mut out, 1);
    u2(&mut out, source);
    u4(&mut out, 2);
    u2(&mut out, file);
    out
}

/// A class file from its bytes to its function.
#[test]
fn a_class_file_is_lowered() {
    let lowered = lower_class(&demo_class()).expect("class parses");
    assert_eq!(lowered.source_file.as_deref(), Some("Demo.java"));
    assert_eq!(lowered.binary_name, "Demo");
    assert_eq!(lowered.smap_stratum, None);
    assert_eq!(lowered.foreign_lines_dropped, 0);
    assert_eq!(lowered.functions.len(), 1, "the generated copy is left out");
    let f = &lowered.functions[0];
    assert_eq!(f.id.name, "Demo::run");
    assert_eq!(f.id.file, "Demo.java");
    assert_eq!(f.id.decl_line, Some(10));
    assert!(f.id.signature.contains("int"), "{}", f.id.signature);
    f.validate().expect("a consistent graph");
    assert_eq!(f.nodes.len(), 15);

    let write = &f.nodes[2];
    assert_eq!(write.kind, NodeKind::StateWrite { target: "Demo#total".to_owned() });
    assert_eq!(write.line, Some(10));
    assert_eq!(write.uses, [0, 2], "the receiver and the second argument");
    let element = &f.nodes[6];
    assert_eq!(element.kind, NodeKind::StateWrite { target: "<array element>".to_owned() });
    assert_eq!(element.uses, [1, 2, f.nodes[4].defs[0]]);
    let call = &f.nodes[8];
    assert_eq!(
        call.kind,
        NodeKind::Call { callee: "demo.Logger::log".to_owned(), opacity: CallOpacity::Opaque }
    );
    assert_eq!(call.line, Some(12));
    let branch = &f.nodes[10];
    assert_eq!(branch.kind, NodeKind::Branch);
    assert_eq!(branch.succs, [11, 13]);
    assert_eq!(f.nodes[12].kind, NodeKind::Return);
    assert_eq!(f.nodes[12].line, Some(14));
    assert!(f.nodes[12].succs.is_empty());
    assert_eq!(f.nodes[14].line, Some(15));
    assert!(f.nodes[14].label.starts_with("#0014: return"), "{}", f.nodes[14].label);
}

/// Lowering the same bytes twice gives the same functions.
#[test]
fn a_class_file_is_lowered_the_same_way_twice() {
    let bytes = demo_class();
    let first = lower_class(&bytes).expect("class parses");
    let second = lower_class(&bytes).expect("class parses");
    assert_eq!(format!("{first:?}"), format!("{second:?}"));
}

fn insn(pc: u16, op: Op) -> Insn {
    Insn { pc, op, def: None, uses: Vec::new(), label: String::new() }
}

fn head(name: &str, lines: Vec<(u16, u16)>) -> MethodHead {
    MethodHead {
        name: name.to_owned(),
        descriptor: "() -> void".to_owned(),
        synthetic: false,
        bridge: false,
        has_body: true,
        lines: Some(lines),
    }
}

fn class_of(methods: Vec<MethodHead>, smap: Option<&str>) -> ClassHead {
    ClassHead {
        source_file: None,
        binary_name: "demo/Fixture".to_owned(),
        debug_extension: smap.map(|s| s.as_bytes().to_vec()),
        methods,
    }
}

/// The line of the nearest entry at or before the program counter; the table
/// need not be sorted.
#[test]
fn the_nearest_line_entry_counts() {
    let table = vec![(8, 3), (0, 1), (4, 2)];
    assert_eq!(line_for(&table, 0), Some(1));
    assert_eq!(line_for(&table, 5), Some(2));
    assert_eq!(line_for(&table, 9), Some(3));
    assert_eq!(line_for(&vec![(4, 2)], 3), None);
    assert_eq!(line_for(&vec![(4, 2), (4, 7)], 4), Some(7));
}

#[test]
fn instructions_are_classified() {
    assert_eq!(classify(&Op::Nop).0, NodeKind::Pure);
    assert_eq!(classify(&Op::SubroutineRet).0, NodeKind::Pure);
    assert_eq!(classify(&Op::Return).0, NodeKind::Return);
    assert_eq!(classify(&Op::Switch).0, NodeKind::Branch);
    assert_eq!(classify(&Op::Jump { conditional: true }).0, NodeKind::Branch);
    assert_eq!(classify(&Op::Jump { conditional: false }).0, NodeKind::Pure);
    assert_eq!(classify(&Op::Definition(Expr::Throw)).0, NodeKind::Throw);
}

#[test]
fn expressions_are_classified() {
    let call = Expr::Call { owner: "java/util/List".to_owned(), name: "size".to_owned() };
    assert_eq!(
        classify_expr(&call).0,
        NodeKind::Call { callee: "java.util.List::size".to_owned(), opacity: CallOpacity::Opaque }
    );
    let closure = Expr::Closure { name: "apply".to_owned() };
    assert_eq!(
        classify_expr(&closure).0,
        NodeKind::Call { callee: "<closure apply>".to_owned(), opacity: CallOpacity::Opaque }
    );
    let write = Expr::Field(FieldOp::WriteStatic { owner: "a/B".to_owned(), name: "c".to_owned() });
    assert_eq!(classify_expr(&write).0, NodeKind::StateWrite { target: "a.B#c".to_owned() });
    let write = Expr::Field(FieldOp::WriteInstance {
        owner: "a/B".to_owned(),
        name: "c".to_owned(),
        object: vec![Ident::Arg(3)],
    });
    assert_eq!(classify_expr(&write).1, [Ident::Arg(3)]);
    let write = Expr::Array(ArrayOp::Write { array: vec![Ident::This], index: vec![Ident::Local(1)] });
    assert_eq!(classify_expr(&write).1, [Ident::This, Ident::Local(1)]);
    let monitor = classify_expr(&Expr::Synchronization).0;
    assert_eq!(monitor, NodeKind::StateWrite { target: "<monitor>".to_owned() });
    for pure in [
        Expr::Const,
        Expr::Math,
        Expr::Conversion,
        Expr::New,
        Expr::Subroutine,
        Expr::Field(FieldOp::ReadStatic),
        Expr::Field(FieldOp::ReadInstance),
        Expr::Array(ArrayOp::Read),
        Expr::Array(ArrayOp::Length),
    ] {
        assert_eq!(classify_expr(&pure).0, NodeKind::Pure);
    }
}

/// Uses come sorted and once each, whatever order they were found in.
#[test]
fn uses_are_sorted_and_distinct() {
    let mut one = insn(0, Op::Return);
    one.def = Some(7);
    one.uses = vec![Ident::CaughtException(2), Ident::Local(4), Ident::Arg(0), Ident::This, Ident::Arg(0)];
    let code = vec![Some(Code { insns: vec![one], edges: vec![] })];
    let lowered = lower_methods(&class_of(vec![head("m", vec![])], None), &code);
    let node = &lowered.functions[0].nodes[0];
    assert_eq!(node.uses, [0, 1, 0x0100_0004, 0x0200_0002]);
    assert_eq!(node.defs, [0x0100_0007]);
    assert_eq!(lowered.functions[0].id.file, "<unknown>");
    assert_eq!(lowered.functions[0].id.name, "demo/Fixture::m");
}

/// Edges become sorted, distinct successors; an edge to nowhere is dropped.
#[test]
fn edges_become_successors() {
    let insns = vec![insn(0, Op::Switch), insn(3, Op::Nop), insn(5, Op::Return)];
    let edges = [(0, 5), (0, 3), (0, 5), (3, 9), (3, 5), (7, 0)];
    let edges = edges.iter().map(|&(a, b)| (a, b, false)).collect();
    let code = vec![Some(Code { insns, edges })];
    let lowered = lower_methods(&class_of(vec![head("m", vec![])], None), &code);
    let f = &lowered.functions[0];
    assert_eq!(f.nodes[0].succs, [1, 2]);
    assert_eq!(f.nodes[1].succs, [2]);
    assert!(f.nodes[2].succs.is_empty());
}

/// An exception leads nowhere: its handler is lowered, but not entered.
#[test]
fn exceptions_lead_nowhere() {
    let insns = vec![insn(0, Op::Nop), insn(1, Op::Return), insn(2, Op::Return)];
    let edges = vec![(0, 2, true), (0, 1, false)];
    let code = vec![Some(Code { insns, edges })];
    let lowered = lower_methods(&class_of(vec![head("m", vec![])], None), &code);
    let f = &lowered.functions[0];
    assert_eq!(f.nodes.len(), 3);
    assert_eq!(f.nodes[0].succs, [1]);
}

/// A count of constants that no table can have is refused.
#[test]
fn too_many_constants_are_refused() {
    let mut bytes = demo_class();
    bytes[8] = 0xff;
    bytes[9] = 0xff;
    match lower_class(&bytes) {
        Err(JvmError::Parse(text)) => assert_eq!(text, "too many constants"),
        other => panic!("{other:?}"),
    }
    // Behind another number, the same two bytes count nothing.
    bytes[0] = 0;
    match lower_class(&bytes) {
        Err(JvmError::Parse(text)) => assert_ne!(text, "too many constants"),
        other => panic!("{other:?}"),
    }
}

fn raw(pc: u16, opcode: u8) -> RawInsn {
    RawInsn {
        pc,
        opcode,
        wide: None,
        params: vec![],
        member: None,
        closure: None,
        field: None,
        returned: None,
        dims: None,
        jump: None,
        cases: vec![],
    }
}

/// Two paths that meet with stacks of different shapes, and with the same one.
#[test]
fn stacks_must_agree_where_paths_meet() {
    // iconst_0, ifeq 5, iconst_1, return
    let branch = RawInsn { jump: Some(5), ..raw(1, 0x99) };
    let insns = vec![raw(0, 0x03), branch.clone(), raw(4, 0x04), raw(5, 0xb1)];
    assert!(!agree(&RawBody { insns, handlers: vec![] }));
    // iconst_0, ifeq 5, nop, return
    let insns = vec![raw(0, 0x03), branch.clone(), raw(4, 0x00), raw(5, 0xb1)];
    assert!(agree(&RawBody { insns: insns.clone(), handlers: vec![] }));
    // The handler starts with the exception, the branch leads there with nothing.
    let over = |start, end| vec![Handler { start, end, pc: 5 }];
    assert!(!agree(&RawBody { insns: insns.clone(), handlers: over(0, 1) }));
    // Nothing is thrown where the handler covers a `nop` or a jump, or nothing.
    assert!(agree(&RawBody { insns: insns.clone(), handlers: over(1, 5) }));
    assert!(agree(&RawBody { insns, handlers: over(0, 0) }));
    // A wide value is as deep as two narrow ones, and of another shape.
    let mut insns = vec![raw(0, 0x03), RawInsn { jump: Some(7), ..raw(1, 0x99) }];
    insns.extend([raw(4, 0x09), RawInsn { jump: Some(9), ..raw(5, 0xa7) }]);
    insns.extend([raw(7, 0x03), raw(8, 0x03), raw(9, 0xb1)]);
    assert!(!agree(&RawBody { insns, handlers: vec![] }));
}

/// What calls, fields and moves leave on the stack.
#[test]
fn calls_fields_and_moves_change_the_stack() {
    // Each body jumps back to its start behind what it does: the stacks agree
    // only where it leaves the stack as it was.
    let again = |mut insns: Vec<RawInsn>| {
        insns.push(RawInsn { jump: Some(0), ..raw(90, 0xa7) });
        agree(&RawBody { insns, handlers: vec![] })
    };
    let call = RawInsn {
        params: vec![TypeShape::Other, TypeShape::Long],
        returned: Some(TypeShape::Double),
        ..raw(9, 0xb8)
    };
    assert!(again(vec![raw(0, 0x03), raw(1, 0x09), call.clone(), raw(12, 0x58)]));
    assert!(!again(vec![raw(0, 0x03), raw(1, 0x09), call, raw(12, 0x57)]));
    let field = RawInsn { field: Some(TypeShape::Long), ..raw(3, 0xb2) };
    assert!(again(vec![raw(0, 0x00), field.clone(), raw(6, 0x58)]));
    assert!(!again(vec![raw(0, 0x00), field, raw(6, 0x00)]));
    // dup2_x1 over three narrow values leaves five.
    let mut moves = vec![raw(0, 0x03), raw(1, 0x03), raw(2, 0x03), raw(3, 0x5d)];
    moves.extend([raw(4, 0x58), raw(5, 0x58), raw(6, 0x57)]);
    assert!(again(moves));
    let wide = RawInsn { wide: Some(WideShape::LLoad), ..raw(0, 0xc4) };
    assert!(again(vec![wide, raw(4, 0x58)]));
    let array = RawInsn { dims: Some(2), ..raw(2, 0xc5) };
    assert!(again(vec![raw(0, 0x03), raw(1, 0x03), array, raw(6, 0x57)]));
}

/// A class file with a constant pool and methods, and no attributes.
fn class_file(pool: &Pool, this: u16, object: u16, methods: &[Vec<u8>]) -> Vec<u8> {
    let mut out = vec![0xca, 0xfe, 0xba, 0xbe, 0x00, 0x00, 0x00, 0x31];
    u2(&mut out, pool.next);
    out.extend_from_slice(&pool.bytes);
    let count = u16::try_from(methods.len()).expect("few");
    for x in [0x0020, this, object, 0, 0, count] {
        u2(&mut out, x);
    }
    for m in methods {
        out.extend_from_slice(m);
    }
    u2(&mut out, 0);
    out
}

/// A subroutine returns behind the calls that led to it, not behind those of
/// another.
#[test]
fn a_subroutine_returns_along_its_path() {
    let call = |pc, to| RawInsn { jump: Some(to), ..raw(pc, 0xa8) };
    // jsr 9, iconst_0, jsr 12, pop, return; 9: astore_1, ret; 12: astore_2, ret
    let mut insns = vec![call(0, 9), raw(3, 0x03), call(4, 12), raw(7, 0x57), raw(8, 0xb1)];
    insns.extend([raw(9, 0x4c), raw(10, 0xa9), raw(12, 0x4d), raw(13, 0xa9)]);
    assert!(agree(&RawBody { insns: insns.clone(), handlers: vec![] }));
    // One subroutine that is called with stacks of different shapes.
    insns[2] = call(4, 9);
    assert!(!agree(&RawBody { insns, handlers: vec![] }));
}

/// A method with two subroutines that are called with different stacks.
#[test]
fn a_method_with_subroutines_is_lowered() {
    let mut pool = Pool { bytes: Vec::new(), next: 1 };
    let this = pool.class("Demo");
    let object = pool.class("java/lang/Object");
    let names = Names { code: pool.utf8("Code"), lines: pool.utf8("LineNumberTable") };
    let (name, descriptor) = (pool.utf8("run"), pool.utf8("()V"));
    let mut code = vec![0xa8, 0x00, 0x09, 0x03, 0xa8, 0x00, 0x08, 0x57, 0xb1];
    code.extend_from_slice(&[0x4c, 0xa9, 0x01, 0x4d, 0xa9, 0x02]);
    let methods = [method(&names, 0, name, descriptor, &code, &[])];
    let lowered = lower_class(&class_file(&pool, this, object, &methods)).expect("class parses");
    let f = &lowered.functions[0];
    assert_eq!(f.nodes.len(), 9);
    assert_eq!(f.nodes[0].succs, [5], "into the first subroutine");
    assert_eq!(f.nodes[6].succs, [1], "back behind its call");
    assert_eq!(f.nodes[2].succs, [7], "into the second");
    assert_eq!(f.nodes[8].succs, [3], "back behind its call");
    assert_eq!(f.nodes[4].kind, NodeKind::Return);
}

/// What a handler catches reaches it, and nothing leads into it in the lowered
/// function.
#[test]
fn a_handler_is_lowered_but_not_entered() {
    let mut pool = Pool { bytes: Vec::new(), next: 1 };
    let this = pool.class("Demo");
    let object = pool.class("java/lang/Object");
    let names = Names { code: pool.utf8("Code"), lines: pool.utf8("LineNumberTable") };
    let (name, descriptor) = (pool.utf8("run"), pool.utf8("()V"));
    // aconst_null, athrow; 2: athrow; nop is never reached
    let code = [0x01, 0xbf, 0xbf, 0x00, 0xb1];
    let methods = [guarded(&names, 0, name, descriptor, &code, &[], &[(0, 2, 2)])];
    let lowered = lower_class(&class_file(&pool, this, object, &methods)).expect("class parses");
    let f = &lowered.functions[0];
    assert_eq!(f.nodes.len(), 3, "only what control reaches");
    assert_eq!(f.nodes[0].succs, [1]);
    assert_eq!(f.nodes[1].kind, NodeKind::Throw);
    assert!(f.nodes[1].succs.is_empty());
    assert_eq!(f.nodes[1].uses, f.nodes[0].defs);
    assert_eq!(f.nodes[2].kind, NodeKind::Throw);
    assert_eq!(f.nodes[2].uses.len(), 1, "the caught exception");
    assert_ne!(f.nodes[2].uses, f.nodes[0].defs);
}

/// A class whose method's stacks disagree keeps its other methods.
#[test]
fn a_method_whose_stacks_disagree_is_skipped() {
    let mut pool = Pool { bytes: Vec::new(), next: 1 };
    let this = pool.class("Demo");
    let object = pool.class("java/lang/Object");
    let names = Names { code: pool.utf8("Code"), lines: pool.utf8("LineNumberTable") };
    let (bad, good) = (pool.utf8("bad"), pool.utf8("good"));
    let descriptor = pool.utf8("()V");
    let methods = [
        method(&names, 0, bad, descriptor, &[0x03, 0x99, 0x00, 0x04, 0x04, 0xb1], &[]),
        method(&names, 0, good, descriptor, &[0x03, 0x99, 0x00, 0x04, 0x00, 0xb1], &[]),
    ];
    let out = class_file(&pool, this, object, &methods);
    let lowered = lower_class(&out).expect("class parses");
    let found: Vec<&str> = lowered.functions.iter().map(|f| f.id.name.as_str()).collect();
    assert_eq!(found, ["Demo::good"]);
}

/// Functions come by line, then by name; no line comes first. Bridges, methods
/// without a body and bodies that were not lifted are left out.
#[test]
fn functions_come_in_a_stable_order() {
    let body = || Some(Code { insns: vec![insn(0, Op::Return)], edges: vec![] });
    let mut bridge = head("bridge", vec![(0, 1)]);
    bridge.bridge = true;
    let mut empty = head("empty", vec![(0, 1)]);
    empty.has_body = false;
    let methods = vec![
        head("late", vec![(0, 9)]),
        head("b", vec![(0, 4)]),
        bridge,
        head("a", vec![(0, 4)]),
        empty,
        head("nowhere", vec![]),
        head("unlifted", vec![(0, 2)]),
    ];
    let code = vec![body(), body(), body(), body(), None, body(), None];
    let lowered = lower_methods(&class_of(methods, None), &code);
    let names: Vec<&str> = lowered.functions.iter().map(|f| f.id.name.as_str()).collect();
    assert_eq!(
        names,
        ["demo/Fixture::nowhere", "demo/Fixture::a", "demo/Fixture::b", "demo/Fixture::late"]
    );
}

const SMAP: &str = "SMAP\nFixture.kt\nKotlin\n*S KotlinDebug\n*F\n+ 1 Fixture.kt\ndemo/Fixture\n+ 2 Other.kt\ndemo/Other\n*L\n7#1,1:30\n1#2,5:40\n*E\n";

/// A line of an inlined body means its call site; a line of another file is
/// dropped and counted.
#[test]
fn lines_go_through_the_source_map() {
    let insns = vec![insn(0, Op::Nop), insn(1, Op::Nop), insn(2, Op::Return)];
    let code = vec![Some(Code { insns, edges: vec![] })];
    let class = class_of(vec![head("m", vec![(0, 3), (1, 30), (2, 41)])], Some(SMAP));
    assert!(lines_fit(&class, &code));
    let lowered = lower_methods(&class, &code);
    assert_eq!(lowered.smap_stratum.as_deref(), Some("KotlinDebug"));
    let f = &lowered.functions[0];
    assert_eq!(f.nodes[0].line, Some(3));
    assert_eq!(f.nodes[1].line, Some(7));
    assert_eq!(f.nodes[2].line, None);
    assert_eq!(lowered.foreign_lines_dropped, 1);
    assert_eq!(f.id.decl_line, Some(3));
}

/// Bytes that are no text carry no source map.
#[test]
fn an_undecodable_extension_is_no_source_map() {
    let code = vec![Some(Code { insns: vec![insn(0, Op::Return)], edges: vec![] })];
    let mut class = class_of(vec![head("m", vec![(0, 30)])], None);
    class.debug_extension = Some(vec![0xff, 0xfe]);
    let lowered = lower_methods(&class, &code);
    assert_eq!(lowered.smap_stratum, None);
    assert_eq!(lowered.functions[0].nodes[0].line, Some(30));
}

/// A map whose line lies beyond the largest line number is found out.
#[test]
fn a_line_beyond_the_largest_number_is_found_out() {
    let map = SMAP.replace("7#1,1:30", "4294967295#1,9:30");
    let code = vec![Some(Code { insns: vec![insn(0, Op::Return)], edges: vec![] })];
    let inside = class_of(vec![head("m", vec![(0, 30)])], Some(&map));
    assert!(lines_fit(&inside, &code));
    let beyond = class_of(vec![head("m", vec![(0, 31)])], Some(&map));
    assert!(!lines_fit(&beyond, &code));
}
