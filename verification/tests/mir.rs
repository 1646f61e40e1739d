use crabmap::mir::{
    add_edge, enrich, ingest_mir, mir_call_name, mir_function_name, normalize_symbol, should_skip_call, target_args,
    EdgeResult, SymbolIndex, TargetRun,
};
use crabmap::model::{
    CodeGraph, Edge, EdgeCertainty, EdgeKind, EdgeSource, Node, NodeKind, Project, Target,
};

fn chars(s: &str) -> Vec<char> {
    s.chars().collect()
}

fn text(v: &[char]) -> String {
    v.iter().collect()
}

fn node(id: &str, name: &str, qname: &str) -> Node {
    Node {
        id: id.to_string(),
        kind: NodeKind::Function,
        name: name.to_string(),
        qualified_name: qname.to_string(),
        file: Some("src/main.rs".to_string()),
        range: None,
        visibility: None,
        signature: None,
        docs: None,
        metrics: Vec::new(),
    }
}

fn calls(from: &str, to: &str) -> Edge {
    Edge {
        from: from.to_string(),
        to: to.to_string(),
        kind: EdgeKind::Calls,
        label: None,
        evidence: None,
        weight: 1,
        source: EdgeSource::Ast,
        certainty: EdgeCertainty::Definite,
        call_style: None,
        profiles: vec![],
    }
}

fn graph() -> CodeGraph {
    CodeGraph {
        schema_version: 2,
        project: Project { root: "/tmp/s".to_string(), workspace_root: "/tmp/s".to_string(), packages: vec![] },
        nodes: vec![
            node("function:sample::main", "main", "sample::main"),
            node("function:sample::run_app", "run_app", "sample::run_app"),
            node("function:sample::config::load_config", "load_config", "sample::config::load_config"),
            node("function:sample::a::helper", "helper", "sample::a::helper"),
            node("function:sample::b::helper", "helper", "sample::b::helper"),
        ],
        edges: vec![calls("function:sample::main", "function:sample::run_app")],
        warnings: vec![],
        semantic: None,
        mir: None,
        profiles: vec![],
        generated_at_ms: 0,
    }
}

const LISTING: &str = "fn sample::main() -> () {\n    bb0: {\n        _1 = sample::run_app() -> [return: bb1, unwind continue];\n    }\n}\n\nfn sample::run_app() -> () {\n        _2 = sample::config::load_config() -> [return: bb1, unwind continue];\n        _3 = std::mem::drop::<u8>(move _2) -> bb2;\n        _4 = helper() -> bb3;\n}\n";

#[test]
fn normalize_symbol_keeps_the_last_path_piece() {
    assert_eq!(text(&normalize_symbol(&chars(" <sample::Foo as Bar>::baz "))), "baz");
    assert_eq!(text(&normalize_symbol(&chars("sample::config::load_config"))), "load_config");
    assert_eq!(text(&normalize_symbol(&chars("<Foo>"))), "Foo");
    assert_eq!(text(&normalize_symbol(&chars("plain"))), "plain");
}

#[test]
fn function_lines_name_the_function() {
    assert_eq!(mir_function_name(&chars("fn sample::config::load_config() -> u8 {")).map(|v| text(&v)), Some("load_config".to_string()));
    assert_eq!(mir_function_name(&chars("    fn main() -> () {")).map(|v| text(&v)), Some("main".to_string()));
    assert_eq!(mir_function_name(&chars("fn {{closure}}() -> () {")), None);
    assert_eq!(mir_function_name(&chars("fn <impl as FnOnce>::call_once() -> () {")), None);
    assert_eq!(mir_function_name(&chars("let x = 1;")), None);
}

#[test]
fn call_lines_name_the_callee() {
    assert_eq!(
        mir_call_name(&chars("        _3 = sample::config::load_config() -> [return: bb1, unwind: bb2];")).map(|v| text(&v)),
        Some("load_config".to_string())
    );
    assert_eq!(mir_call_name(&chars("    bb0: {")), None);
    assert_eq!(mir_call_name(&chars("goto -> bb1;")), None);
}

#[test]
fn trivial_calls_are_skipped() {
    assert!(should_skip_call("clone"));
    assert!(should_skip_call("drop"));
    assert!(should_skip_call("std::mem::take"));
    assert!(should_skip_call("core::ptr::read"));
    assert!(!should_skip_call("load_config"));
}

#[test]
fn symbol_index_resolves_qualified_then_unique_short_names() {
    let g = graph();
    let index = SymbolIndex::new(&g);
    assert_eq!(index.resolve(&g, &chars("sample::run_app")), Some("function:sample::run_app".to_string()));
    assert_eq!(index.resolve(&g, &chars("crate::load_config")), Some("function:sample::config::load_config".to_string()));
    assert_eq!(index.resolve(&g, &chars("helper")), None);
    assert_eq!(index.resolve(&g, &chars("nothing")), None);
}

#[test]
fn add_edge_inserts_then_confirms() {
    let mut edges = graph().edges;
    assert!(matches!(add_edge(&mut edges, "a", "a", "x", "default"), EdgeResult::Skipped));
    assert_eq!(edges.len(), 1);
    assert!(matches!(add_edge(&mut edges, "a", "b", "b", "default"), EdgeResult::Inserted));
    assert_eq!(edges.len(), 2);
    assert_eq!(edges[1].source, EdgeSource::Mir);
    assert_eq!(edges[1].certainty, EdgeCertainty::Confirmed);
    assert_eq!(edges[1].weight, 1);
    assert_eq!(edges[1].label.as_deref(), Some("b"));
    assert_eq!(edges[1].evidence.as_ref().map(|l| l.file.as_str()), Some("mir"));
    assert!(matches!(add_edge(&mut edges, "a", "b", "b2", "release"), EdgeResult::Confirmed));
    assert_eq!(edges.len(), 2);
    assert_eq!(edges[1].weight, 2);
    assert_eq!(edges[1].profiles, vec!["default".to_string(), "release".to_string()]);
    assert!(matches!(add_edge(&mut edges, "a", "b", "b", "release"), EdgeResult::Confirmed));
    assert_eq!(edges[1].profiles.len(), 2);
}

#[test]
fn ingest_reads_functions_and_calls() {
    let mut g = graph();
    let index = SymbolIndex::new(&g);
    let mut remaining = 10;
    let stats = ingest_mir(&mut g, &index, LISTING, &mut remaining, "default");
    assert_eq!(stats.scanned_functions, 2);
    assert_eq!(remaining, 8);
    assert_eq!(stats.confirmed_edges, 1);
    assert_eq!(stats.enriched_edges, 1);
    assert_eq!(stats.unresolved_items, 2);
    assert_eq!(g.edges.len(), 2);
    assert_eq!(g.edges[0].certainty, EdgeCertainty::Confirmed);
    assert_eq!(g.edges[1].from, "function:sample::run_app");
    assert_eq!(g.edges[1].to, "function:sample::config::load_config");
}

#[test]
fn ingest_stops_when_no_function_is_left() {
    let mut g = graph();
    let index = SymbolIndex::new(&g);
    let mut remaining = 1;
    let stats = ingest_mir(&mut g, &index, LISTING, &mut remaining, "default");
    assert_eq!(stats.scanned_functions, 1);
    assert_eq!(remaining, 0);
    assert_eq!(stats.confirmed_edges, 0);
    assert_eq!(g.edges.len(), 1);
    assert_eq!(g.edges[0].certainty, EdgeCertainty::Definite);
}

#[test]
fn enrich_records_what_was_read() {
    let mut g = graph();
    let packages = vec![
        vec![TargetRun { name: "sample".to_string(), output: Ok(LISTING.to_string()) }],
        vec![TargetRun { name: "broken".to_string(), output: Err("boom".to_string()) }],
    ];
    enrich(&mut g, &packages, 100);
    let info = g.mir.expect("mir info");
    assert_eq!(info.provider, "rustc -Z unpretty=mir");
    assert!(info.enabled);
    assert_eq!(info.scanned_targets, 2);
    assert_eq!(info.scanned_functions, 2);
    assert_eq!(info.enriched_edges, 1);
    assert_eq!(info.confirmed_edges, 1);
    assert_eq!(info.unresolved_items, 2);
    assert_eq!(info.warnings, vec!["broken: boom".to_string()]);
    assert_eq!(g.edges[1].profiles, vec!["default".to_string()]);
}

#[test]
fn enrich_with_no_packages_scans_nothing() {
    let mut g = graph();
    enrich(&mut g, &vec![], 100);
    let info = g.mir.expect("mir info");
    assert_eq!(info.scanned_targets, 0);
    assert!(info.warnings.is_empty());
    assert_eq!(g.edges.len(), 1);
}

#[test]
fn target_args_select_libraries_and_binaries() {
    let t = |kinds: &[&str]| Target {
        name: "tool".to_string(),
        kind: kinds.iter().map(|k| k.to_string()).collect(),
        src_path: "src/main.rs".to_string(),
    };
    assert_eq!(target_args(&t(&["lib"])), Some(vec!["--lib".to_string()]));
    assert_eq!(target_args(&t(&["proc-macro"])), Some(vec!["--lib".to_string()]));
    assert_eq!(target_args(&t(&["bin"])), Some(vec!["--bin".to_string(), "tool".to_string()]));
    assert_eq!(target_args(&t(&["test"])), None);
}
