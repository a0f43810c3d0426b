use call_stack::analyze::analyze;
use call_stack::builder::Builder;
use call_stack::ir::{Item, Stmt};
use call_stack::metrics::{Local, Max};
use call_stack::parse::parse_ir;
use call_stack::sig::{sig_eq, FnSig, Type};
use call_stack::symbols::ExeSymbol;

fn text_of(lines: &[&str]) -> String {
    lines.join("\n")
}

#[test]
fn items_follow_the_lines() {
    let text = text_of(&[
        "; ModuleID = 'demo'",
        "define i32 @alpha(i32 %x) {",
        "  %1 = add i32 %x, 1",
        "  call void @beta()",
        "  ret i32 %1",
        "}",
        "define void @beta() {",
        "  ret void",
        "}",
        "declare void @gamma(i32)",
        "!7 = !{i32 1}",
    ]);
    let items = parse_ir(&text).unwrap();
    let mut defines = Vec::new();
    let mut declares = Vec::new();
    let mut metas = Vec::new();
    for item in items {
        match item {
            Item::Define(d) => defines.push(d),
            Item::Declare(d) => declares.push(d.name),
            Item::Metadata { id, .. } => metas.push(id),
            Item::Other => {}
        }
    }
    assert_eq!(defines.len(), 2);
    assert_eq!(defines[0].name, "alpha");
    assert_eq!(defines[1].name, "beta");
    assert_eq!(declares, vec!["gamma".to_string()]);
    assert_eq!(metas, vec![7]);
    // alpha's body: an uninteresting line, a direct call, another
    assert_eq!(defines[0].stmts.len(), 3);
    assert!(matches!(&defines[0].stmts[1], Stmt::DirectCall(n) if n == "beta"));
    // alpha's signature: one i32 in, i32 out
    let expect = FnSig {
        inputs: vec![Type::Integer(32)],
        output: Some(Box::new(Type::Integer(32))),
    };
    assert!(sig_eq(&defines[0].sig, &expect));
    assert!(defines[1].sig.output.is_none());
}

#[test]
fn quoted_names_and_statement_kinds() {
    let text = text_of(&[
        "define void @\"odd name\"() !rust !3 {",
        "  call void asm \"wfi\", \"\"()",
        "  %f = load i32 (i32)*, i32 (i32)** %slot",
        "  call i32 %f(i32 5) !rust !3",
        "  call void bitcast (i8* @target to void ()*)()",
        "}",
    ]);
    let items = parse_ir(&text).unwrap();
    let d = match &items[0] {
        Item::Define(d) => d,
        _ => panic!("a definition"),
    };
    assert_eq!(d.name, "odd name");
    assert_eq!(d.meta.len(), 1);
    assert_eq!(d.meta[0].kind, "rust");
    assert_eq!(d.meta[0].id, 3);
    assert!(matches!(&d.stmts[0], Stmt::Asm(a) if a == "wfi"));
    match &d.stmts[2] {
        Stmt::IndirectCall(sig, meta) => {
            assert!(sig_eq(sig, &FnSig {
                inputs: vec![Type::Integer(32)],
                output: Some(Box::new(Type::Integer(32))),
            }));
            assert_eq!(meta.len(), 1);
            assert_eq!(meta[0].id, 3);
        }
        other => panic!("an indirect call, not {:?}", std::mem::discriminant(other)),
    }
    assert!(matches!(&d.stmts[3], Stmt::BitcastCall(Some(n)) if n == "target"));
}

#[test]
fn malformed_headers_are_refused() {
    assert!(parse_ir("define void broken {").is_err());
    let e = parse_ir("declare void nothing").unwrap_err();
    assert_eq!(e.position, 0);
}

#[test]
fn parsed_ir_drives_the_whole_pipeline() {
    let text = text_of(&[
        "define void @alpha() {",
        "  call void @beta()",
        "  ret void",
        "}",
        "define void @beta() {",
        "  ret void",
        "}",
    ]);
    let items = parse_ir(&text).unwrap();
    let mut defines = Vec::new();
    for item in items {
        if let Item::Define(d) = item {
            defines.push(d);
        }
    }
    let defined = vec![
        ExeSymbol { address: 2, names: vec!["alpha".to_string()], size: 2 },
        ExeSymbol { address: 4, names: vec!["beta".to_string()], size: 2 },
    ];
    let stack_sizes = vec![("alpha".to_string(), 8u64), ("beta".to_string(), 24u64)];
    let mut b = Builder::new();
    b.materialize_nodes(
        &defined,
        &stack_sizes,
        &Vec::new(),
        false,
        &defines,
        &Vec::new(),
        true,
        &Vec::new(),
    );
    let mut meta_callers = Vec::new();
    let mut formatter_callers = Vec::new();
    b.discover_edges(
        &defines,
        &Vec::new(),
        false,
        true,
        &Vec::new(),
        &mut meta_callers,
        &mut formatter_callers,
    )
    .unwrap();
    let mut g = b.graph;
    analyze(&mut g);
    let a = g.nodes.iter().position(|n| n.name == "alpha").unwrap();
    assert_eq!(g.nodes[a].max, Some(Max::Exact(32)));
    assert_eq!(g.nodes[a].local, Local::Exact(8));
}
