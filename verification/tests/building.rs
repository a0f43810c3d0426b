use call_stack::analyze::analyze;
use call_stack::builder::{Builder, StartLookup};
use call_stack::builder::MachineRecord;
use call_stack::ir::{Define, MetaRef, MetadataKind, Stmt};
use call_stack::machine::{classify_mode_tags, code_range, symbol_size_fallback, MachineSummary, Tag};

use call_stack::metrics::{Local, Max};
use call_stack::render::{dot, Escaper};
use call_stack::sig::{
    push_sig_name, sig_is_any_formatter_result, sig_is_void_formatter_result, FnSig, Type,
};
use call_stack::symbols::{normalize_symbols, ExeSymbol, ExeSymbols};

fn int_sig() -> FnSig {
    FnSig {
        inputs: vec![Type::Integer(32)],
        output: Some(Box::new(Type::Integer(32))),
    }
}

fn symbol(addr: u64, name: &str) -> ExeSymbol {
    ExeSymbol {
        address: addr,
        names: vec![name.to_string()],
        size: 2,
    }
}

fn define(name: &str, sig: FnSig, stmts: Vec<Stmt>) -> Define {
    Define {
        name: name.to_string(),
        sig,
        stmts,
        meta: Vec::new(),
    }
}

#[test]
fn indirect_call_expands_through_synthetic_node() {
    // A performs one indirect call of signature fn(i32) -> i32; B and C
    // both have that signature, with locals 10 and 20.
    let defines = vec![
        define(
            "A",
            FnSig { inputs: Vec::new(), output: None },
            vec![Stmt::IndirectCall(int_sig(), Vec::new())],
        ),
        define("B", int_sig(), Vec::new()),
        define("C", int_sig(), Vec::new()),
    ];
    let defined = vec![symbol(2, "A"), symbol(4, "B"), symbol(6, "C")];
    let stack_sizes = vec![
        ("A".to_string(), 5u64),
        ("B".to_string(), 10u64),
        ("C".to_string(), 20u64),
    ];
    let mut b = Builder::new();
    b.materialize_nodes(
        &defined,
        &stack_sizes,
        &Vec::new(),
        false,
        &defines,
        &Vec::new(),
        false,
        &Vec::new(),
    );
    let mut meta_callers = Vec::new();
    let mut formatter_callers = Vec::new();
    b.discover_edges(
        &defines,
        &Vec::new(),
        false,
        false,
        &Vec::new(),
        &mut meta_callers,
        &mut formatter_callers,
    )
    .unwrap();
    b.expand_signature_buckets();
    // the synthetic node: dashed, zero frame, named by the signature
    let mut g = b.graph;
    let synth = g
        .nodes
        .iter()
        .position(|n| n.dashed)
        .expect("synthetic dispatch node");
    assert_eq!(g.nodes[synth].local, Local::Exact(0));
    assert_eq!(g.nodes[synth].name, "fn(i32) -> i32*");
    let a = g.nodes.iter().position(|n| n.name == "A").unwrap();
    let bb = g.nodes.iter().position(|n| n.name == "B").unwrap();
    let c = g.nodes.iter().position(|n| n.name == "C").unwrap();
    assert!(g.has_edge(a, synth));
    assert!(g.has_edge(synth, bb));
    assert!(g.has_edge(synth, c));
    analyze(&mut g);
    assert_eq!(g.nodes[a].max, Some(Max::Exact(25)));
}

#[test]
fn direct_calls_build_edges() {
    let defines = vec![
        define(
            "A",
            FnSig { inputs: Vec::new(), output: None },
            vec![Stmt::DirectCall("B".to_string())],
        ),
        define("B", FnSig { inputs: Vec::new(), output: None }, Vec::new()),
    ];
    let defined = vec![symbol(2, "A"), symbol(4, "B")];
    let stack_sizes = vec![("A".to_string(), 4u64), ("B".to_string(), 8u64)];
    let mut b = Builder::new();
    b.materialize_nodes(
        &defined,
        &stack_sizes,
        &Vec::new(),
        false,
        &defines,
        &Vec::new(),
        true,
        &Vec::new(),
    );
    let mut meta_callers = Vec::new();
    let mut formatter_callers = Vec::new();
    b.discover_edges(
        &defines,
        &Vec::new(),
        false,
        true,
        &Vec::new(),
        &mut meta_callers,
        &mut formatter_callers,
    )
    .unwrap();
    let a = b.graph.nodes.iter().position(|n| n.name == "A").unwrap();
    let bb = b.graph.nodes.iter().position(|n| n.name == "B").unwrap();
    assert!(b.graph.has_edge(a, bb));
    // every real node is solid; synthetic nodes alone are dashed
    assert!(b.graph.nodes.iter().all(|n| !n.dashed));
}

#[test]
fn unresolved_direct_call_is_fatal() {
    let defines = vec![define(
        "A",
        FnSig { inputs: Vec::new(), output: None },
        vec![Stmt::DirectCall("missing".to_string())],
    )];
    let defined = vec![symbol(2, "A")];
    let stack_sizes = vec![("A".to_string(), 4u64)];
    let mut b = Builder::new();
    b.materialize_nodes(
        &defined,
        &stack_sizes,
        &Vec::new(),
        false,
        &defines,
        &Vec::new(),
        true,
        &Vec::new(),
    );
    let mut meta_callers = Vec::new();
    let mut formatter_callers = Vec::new();
    let r = b.discover_edges(
        &defines,
        &Vec::new(),
        false,
        true,
        &Vec::new(),
        &mut meta_callers,
        &mut formatter_callers,
    );
    assert!(r.is_err());
}

#[test]
fn undefined_callee_gets_dangling_node() {
    let defines = vec![define(
        "A",
        FnSig { inputs: Vec::new(), output: None },
        vec![Stmt::DirectCall("extern_fn".to_string())],
    )];
    let defined = vec![symbol(2, "A")];
    let stack_sizes = vec![("A".to_string(), 4u64)];
    let undefined = vec!["extern_fn".to_string()];
    let mut b = Builder::new();
    b.materialize_nodes(
        &defined,
        &stack_sizes,
        &Vec::new(),
        false,
        &defines,
        &Vec::new(),
        true,
        &Vec::new(),
    );
    let mut meta_callers = Vec::new();
    let mut formatter_callers = Vec::new();
    b.discover_edges(
        &defines,
        &undefined,
        false,
        true,
        &Vec::new(),
        &mut meta_callers,
        &mut formatter_callers,
    )
    .unwrap();
    let dangling = b
        .graph
        .nodes
        .iter()
        .position(|n| n.name == "extern_fn")
        .unwrap();
    assert_eq!(b.graph.nodes[dangling].local, Local::Unknown);
}

#[test]
fn formatter_signatures_are_recognized() {
    let formatter = |receiver: Type| FnSig {
        inputs: vec![
            Type::Pointer(Box::new(receiver)),
            Type::Pointer(Box::new(Type::Alias("core::fmt::Formatter".to_string()))),
        ],
        output: Some(Box::new(Type::Integer(1))),
    };
    let any = formatter(Type::Alias("my::Struct".to_string()));
    assert!(sig_is_any_formatter_result(&any));
    assert!(!sig_is_void_formatter_result(&any));
    let void = formatter(Type::Alias("core::fmt::Void.12".to_string()));
    assert!(sig_is_any_formatter_result(&void));
    assert!(sig_is_void_formatter_result(&void));
    assert!(!sig_is_any_formatter_result(&int_sig()));
}

#[test]
fn signature_names_render() {
    let mut out = Vec::new();
    push_sig_name(&int_sig(), &mut out);
    let name: String = out.iter().collect();
    assert_eq!(name, "fn(i32) -> i32");
    let mut out = Vec::new();
    push_sig_name(
        &FnSig {
            inputs: vec![
                Type::Pointer(Box::new(Type::Integer(8))),
                Type::Float(32),
                Type::Erased,
            ],
            output: None,
        },
        &mut out,
    );
    let name: String = out.iter().collect();
    assert_eq!(name, "fn(*i8, f32, _)");
}

#[test]
fn escaper_escapes_quotes() {
    let mut e = Escaper::new();
    e.write_str("say \"hi\"");
    assert_eq!(e.into_string(), "say \\\"hi\\\"");
}

#[test]
fn dot_renders_nodes_edges_and_clusters() {
    let mut g = call_stack::graph::Graph::new();
    let a = g.add_node(call_stack::node::Node("A".to_string(), Some(8), false));
    let b = g.add_node(call_stack::node::Node("B".to_string(), Some(4), false));
    g.add_edge(a, b);
    g.add_edge(b, a);
    let cycles = analyze(&mut g);
    let text = dot(&g, &cycles);
    assert!(text.starts_with("digraph {\n"));
    assert!(text.ends_with("}\n"));
    assert!(text.contains("0 [label=\"A\\nmax >= 8\\nlocal = 8\"]"));
    assert!(text.contains("    0 -> 1\n"));
    assert!(text.contains("subgraph cluster_0"));
    assert!(text.contains("        fontname=monospace\n        label=\"SCC0\""));
}

#[test]
fn dot_marks_synthetic_nodes_dashed() {
    let mut g = call_stack::graph::Graph::new();
    g.add_node(call_stack::node::Node("fn()*".to_string(), Some(0), true));
    let text = dot(&g, &Vec::new());
    assert!(text.contains("style=dashed"));
}

#[test]
fn normalization_clears_mode_bits_and_versions() {
    let syms = ExeSymbols {
        defined: vec![ExeSymbol { address: 0x101, names: vec!["f".to_string()], size: 2 }],
        undefined: vec!["malloc@@GLIBC_2.2.5".to_string(), "plain".to_string()],
    };
    let out = normalize_symbols(syms, true);
    assert_eq!(out.defined[0].address, 0x100);
    assert_eq!(out.undefined, vec!["malloc".to_string(), "plain".to_string()]);
    // off a Thumb target the addresses pass through untouched
    let syms = ExeSymbols {
        defined: vec![ExeSymbol { address: 0x101, names: vec!["f".to_string()], size: 2 }],
        undefined: Vec::new(),
    };
    let out = normalize_symbols(syms, false);
    assert_eq!(out.defined[0].address, 0x101);
}

#[test]
fn ambiguous_names_keep_their_hash() {
    // two symbols that de-hash to the same name stay hashed
    let defined = vec![
        symbol(2, "_ZN3foo3bar17h0123456789abcdefE"),
        symbol(4, "_ZN3foo3bar17hfedcba9876543210E"),
    ];
    let stack_sizes = vec![
        ("_ZN3foo3bar17h0123456789abcdefE".to_string(), 4u64),
        ("_ZN3foo3bar17hfedcba9876543210E".to_string(), 8u64),
    ];
    let mut b = Builder::new();
    b.materialize_nodes(
        &defined,
        &stack_sizes,
        &Vec::new(),
        false,
        &Vec::new(),
        &Vec::new(),
        true,
        &Vec::new(),
    );
    b.shorten_names();
    // both show their demangled form with the hash kept
    let mut names: Vec<String> = b.graph.nodes.iter().map(|n| n.name.clone()).collect();
    names.sort();
    assert_eq!(
        names,
        vec![
            "foo::bar::h0123456789abcdef".to_string(),
            "foo::bar::hfedcba9876543210".to_string(),
        ]
    );
}

#[test]
fn compiler_probe_listing_is_searched() {
    assert!(call_stack::builder::mentions_call_metadata(
        "    -Z call-metadata  -- emit call metadata"
    ));
    assert!(!call_stack::builder::mentions_call_metadata("    -Z help"));
}

#[test]
fn start_lookup_reports_ambiguity() {
    let defined = vec![
        symbol(2, "_ZN3foo3bar17h0123456789abcdefE"),
        symbol(4, "_ZN3foo3bar17hfedcba9876543210E"),
    ];
    let stack_sizes = vec![
        ("_ZN3foo3bar17h0123456789abcdefE".to_string(), 4u64),
        ("_ZN3foo3bar17hfedcba9876543210E".to_string(), 8u64),
    ];
    let mut b = Builder::new();
    b.materialize_nodes(
        &defined,
        &stack_sizes,
        &Vec::new(),
        false,
        &Vec::new(),
        &Vec::new(),
        true,
        &Vec::new(),
    );
    // an exact symbol name is found directly
    assert!(matches!(
        b.find_start("_ZN3foo3bar17h0123456789abcdefE"),
        StartLookup::Found(_)
    ));
    // the de-hashed form matches both symbols
    assert!(matches!(b.find_start("foo::bar"), StartLookup::Ambiguous));
    // an unrelated root matches nothing
    assert!(matches!(b.find_start("baz"), StartLookup::NotFound));
}

#[test]
fn unique_names_lose_their_hash() {
    let defined = vec![symbol(2, "_ZN3foo3bar17h0123456789abcdefE")];
    let stack_sizes = vec![("_ZN3foo3bar17h0123456789abcdefE".to_string(), 4u64)];
    let mut b = Builder::new();
    b.materialize_nodes(
        &defined,
        &stack_sizes,
        &Vec::new(),
        false,
        &Vec::new(),
        &Vec::new(),
        true,
        &Vec::new(),
    );
    b.shorten_names();
    assert_eq!(b.graph.nodes[0].name, "foo::bar");
}

#[test]
fn machine_evidence_refines_frames() {
    // one symbol whose compiler record is missing: the disassembler's
    // answer is adopted
    let defined = vec![symbol(2, "A"), symbol(6, "B")];
    let stack_sizes = vec![("B".to_string(), 8u64)];
    let mut b = Builder::new();
    b.materialize_nodes(
        &defined,
        &stack_sizes,
        &Vec::new(),
        true,
        &Vec::new(),
        &Vec::new(),
        true,
        &Vec::new(),
    );
    let records = vec![
        MachineRecord {
            address: 2,
            size: 4,
            summary: MachineSummary {
                bl_offsets: vec![4],
                b_offsets: Vec::new(),
                indirect: false,
                modifies_sp: true,
                local: Some(24),
            },
        },
    ];
    let ir_defined = Vec::new();
    b.refine_with_machine_code(&records, &ir_defined).unwrap();
    let a = b.graph.nodes.iter().position(|n| n.name == "A").unwrap();
    let bb = b.graph.nodes.iter().position(|n| n.name == "B").unwrap();
    assert_eq!(b.graph.nodes[a].local, Local::Exact(24));
    // the branch-and-link offset resolved to B's address
    assert!(b.graph.has_edge(a, bb));
}

#[test]
fn contradictory_measurements_are_fatal() {
    let defined = vec![symbol(2, "A")];
    let stack_sizes = vec![("A".to_string(), 8u64)];
    let mut b = Builder::new();
    b.materialize_nodes(
        &defined,
        &stack_sizes,
        &Vec::new(),
        true,
        &Vec::new(),
        &Vec::new(),
        true,
        &Vec::new(),
    );
    let records = vec![
        MachineRecord {
            address: 2,
            size: 4,
            summary: MachineSummary {
                bl_offsets: Vec::new(),
                b_offsets: Vec::new(),
                indirect: false,
                modifies_sp: true,
                local: Some(16),
            },
        },
    ];
    assert!(b.refine_with_machine_code(&records, &Vec::new()).is_err());
}

#[test]
fn branch_to_nowhere_is_fatal() {
    let defined = vec![symbol(2, "A")];
    let stack_sizes = vec![("A".to_string(), 8u64)];
    let mut b = Builder::new();
    b.materialize_nodes(
        &defined,
        &stack_sizes,
        &Vec::new(),
        true,
        &Vec::new(),
        &Vec::new(),
        true,
        &Vec::new(),
    );
    let records = vec![
        MachineRecord {
            address: 2,
            size: 4,
            summary: MachineSummary {
                bl_offsets: vec![100],
                b_offsets: Vec::new(),
                indirect: false,
                modifies_sp: true,
                local: Some(8),
            },
        },
    ];
    assert!(b.refine_with_machine_code(&records, &Vec::new()).is_err());
}

#[test]
fn unknown_indirect_branch_gets_sentinel() {
    let defined = vec![symbol(2, "asm_blob")];
    let stack_sizes = vec![("asm_blob".to_string(), 8u64)];
    let mut b = Builder::new();
    b.materialize_nodes(
        &defined,
        &stack_sizes,
        &Vec::new(),
        true,
        &Vec::new(),
        &Vec::new(),
        true,
        &Vec::new(),
    );
    let records = vec![
        MachineRecord {
            address: 2,
            size: 4,
            summary: MachineSummary {
                bl_offsets: Vec::new(),
                b_offsets: Vec::new(),
                indirect: true,
                modifies_sp: true,
                local: Some(8),
            },
        },
    ];
    // the body is not in the IR, so the indirect branch becomes a call
    // to the unknown sentinel
    b.refine_with_machine_code(&records, &Vec::new()).unwrap();
    let q = b.graph.nodes.iter().position(|n| n.name == "?").unwrap();
    let a = b.graph.nodes.iter().position(|n| n.name == "asm_blob").unwrap();
    assert!(b.graph.has_edge(a, q));
    assert_eq!(b.graph.nodes[q].local, Local::Unknown);
}

#[test]
fn metadata_mode_expands_dispatch_nodes() {
    let defined = vec![symbol(2, "caller_fn"), symbol(4, "impl_fn")];
    let stack_sizes = vec![
        ("caller_fn".to_string(), 4u64),
        ("impl_fn".to_string(), 8u64),
    ];
    let defines = vec![
        Define {
            name: "caller_fn".to_string(),
            sig: FnSig { inputs: Vec::new(), output: None },
            stmts: vec![Stmt::IndirectCall(
                int_sig(),
                vec![MetaRef { kind: "rust".to_string(), id: 7 }],
            )],
            meta: Vec::new(),
        },
        Define {
            name: "impl_fn".to_string(),
            sig: int_sig(),
            stmts: Vec::new(),
            meta: vec![MetaRef { kind: "rust".to_string(), id: 7 }],
        },
    ];
    let meta_defs = vec![(
        7u64,
        MetadataKind::Dyn { trait_name: "core::ops::FnOnce".to_string(), method: "call_once".to_string() },
    )];
    let mut b = Builder::new();
    b.materialize_nodes(
        &defined,
        &stack_sizes,
        &Vec::new(),
        false,
        &defines,
        &Vec::new(),
        true,
        &Vec::new(),
    );
    let mut meta_callers = Vec::new();
    let mut formatter_callers = Vec::new();
    b.discover_edges(
        &defines,
        &Vec::new(),
        false,
        true,
        &meta_defs,
        &mut meta_callers,
        &mut formatter_callers,
    )
    .unwrap();
    let (formatter_names, groups) =
        call_stack::builder::collect_meta_groups(&defines, &meta_defs).unwrap();
    assert!(formatter_names.is_empty());
    b.expand_with_metadata(
        &meta_defs,
        &groups,
        &meta_callers,
        &formatter_callers,
        &formatter_names,
        false,
    );
    let synth = b
        .graph
        .nodes
        .iter()
        .position(|n| n.name == "(dyn core::ops::FnOnce).call_once")
        .expect("dispatch node");
    assert!(b.graph.nodes[synth].dashed);
    assert_eq!(b.graph.nodes[synth].local, Local::Exact(0));
    let caller = b.graph.nodes.iter().position(|n| n.name == "caller_fn").unwrap();
    let callee = b.graph.nodes.iter().position(|n| n.name == "impl_fn").unwrap();
    assert!(b.graph.has_edge(caller, synth));
    assert!(b.graph.has_edge(synth, callee));
}

#[test]
fn missing_call_metadata_is_fatal() {
    let meta_defs: Vec<(u64, MetadataKind)> = Vec::new();
    let defines = vec![Define {
        name: "caller_fn".to_string(),
        sig: FnSig { inputs: Vec::new(), output: None },
        stmts: Vec::new(),
        meta: vec![call_stack::ir::MetaRef { kind: "rust".to_string(), id: 9 }],
    }];
    assert!(call_stack::builder::collect_meta_groups(&defines, &meta_defs).is_err());
}

#[test]
fn mode_tags_classify_and_span() {
    let syms = vec![
        (0x100u64, "$t".to_string()),
        (0x104u64, "$d.1".to_string()),
        (0x108u64, "$t.2".to_string()),
        (0x10cu64, "real_fn".to_string()),
    ];
    let tags = classify_mode_tags(&syms);
    assert_eq!(
        tags,
        vec![(0x100, Tag::Thumb), (0x104, Tag::Data), (0x108, Tag::Thumb)]
    );
    // a nonzero size passes through
    assert_eq!(symbol_size_fallback(0x100, 6, &tags), 6);
    // a zero-sized Thumb symbol spans to the next tag when it is data:
    // no span
    assert_eq!(symbol_size_fallback(0x100, 0, &tags), 0);
    // a zero-sized Thumb symbol whose next tag is Thumb spans to it
    let tags2 = vec![(0x100, Tag::Thumb), (0x108, Tag::Thumb)];
    assert_eq!(symbol_size_fallback(0x100, 0, &tags2), 8);
    // no tag at the address: nothing to span
    assert_eq!(symbol_size_fallback(0x200, 0, &tags2), 0);
    // byte windows stay inside the text section
    assert_eq!(code_range(0x108, 4, 0x100, 16), Some((8, 12)));
    assert_eq!(code_range(0x0ff, 4, 0x100, 16), None);
    assert_eq!(code_range(0x108, 100, 0x100, 16), None);
}
