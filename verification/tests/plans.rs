use crabmap::builder::Builder;
use crabmap::commands::symbols;
use crabmap::test_impact::all_targets;
use crabmap::facts::symbol_facts;
use crabmap::filter::SymbolFilter;
use crabmap::semantic::{apply_call_hierarchy, apply_document_symbols, semantic_files, semantic_targets, CallItem, DocSymbol};
use crabmap::health::health;
use crabmap::mir::{enrich, TargetRun};
use crabmap::model::{
    BuildProfile, CodeGraph, Edge, EdgeCertainty, EdgeKind, EdgeSource, Node, NodeKind, Package,
    Project, Range, Target,
};
use crabmap::ranking::split_terms;
use crabmap::refactor::refactor_order;
use crabmap::risk::impact;
use crabmap::test_impact::{tests, TestsReport};
use crabmap::traversal::path;

fn project() -> Project {
    Project {
        root: "/tmp/demo".to_string(),
        workspace_root: "/tmp/demo".to_string(),
        packages: vec![Package {
            name: "demo".to_string(),
            manifest_path: "/tmp/demo/Cargo.toml".to_string(),
            targets: vec![Target {
                name: "demo".to_string(),
                kind: vec!["lib".to_string()],
                src_path: "src/lib.rs".to_string(),
            }],
        }],
    }
}

fn profile() -> BuildProfile {
    BuildProfile {
        name: "default".to_string(),
        features: vec![],
        all_features: false,
        no_default_features: false,
        target: None,
    }
}

fn node(id: &str, kind: NodeKind, name: &str, qualified_name: &str, file: &str) -> Node {
    Node {
        id: id.to_string(),
        kind,
        name: name.to_string(),
        qualified_name: qualified_name.to_string(),
        file: Some(file.to_string()),
        range: Some(Range { start_line: 1, end_line: 1 }),
        visibility: Some("pub".to_string()),
        signature: Some(format!("fn {name}()")),
        docs: None,
        metrics: Vec::new(),
    }
}

fn edge(from: &str, to: &str, kind: EdgeKind) -> Edge {
    Edge {
        from: from.to_string(),
        to: to.to_string(),
        kind,
        label: None,
        evidence: None,
        weight: 1,
        source: EdgeSource::Ast,
        certainty: EdgeCertainty::Definite,
        call_style: None,
        profiles: vec![],
    }
}

fn graph(nodes: Vec<Node>, edges: Vec<Edge>) -> CodeGraph {
    CodeGraph {
        schema_version: 1,
        project: project(),
        nodes,
        edges,
        warnings: vec![],
        semantic: None,
        mir: None,
        profiles: vec![profile()],
        generated_at_ms: 0,
    }
}

fn two_functions() -> CodeGraph {
    graph(
        vec![
            node("function:t::a", NodeKind::Function, "a", "t::a", "src/lib.rs"),
            node("function:t::b", NodeKind::Function, "b", "t::b", "src/lib.rs"),
        ],
        vec![edge("function:t::a", "function:t::b", EdgeKind::Calls)],
    )
}

#[test]
fn refactor_order_keys_steps_by_input_names() {
    let g = two_functions();
    let names = vec!["t::a".to_string(), "t::b".to_string()];
    let plan = refactor_order(&g, &names, 10);
    assert_eq!(plan.input_count, 2);
    assert_eq!(plan.resolved_count, 2);
    assert!(plan.unresolved.is_empty());
    assert_eq!(plan.order.len(), 2);
    assert_eq!(plan.order[0].symbol, "t::b");
    assert_eq!(plan.order[1].symbol, "t::a");
    assert_eq!(plan.order[1].depends_on, vec!["t::b".to_string()]);
    assert!(!plan.has_cycles);
}

#[test]
fn refactor_order_counts_unresolved_names() {
    let g = two_functions();
    let names = vec!["a".to_string(), "missing".to_string()];
    let plan = refactor_order(&g, &names, 10);
    assert_eq!(plan.resolved_count + plan.unresolved.len(), plan.input_count);
    assert_eq!(plan.unresolved, vec!["missing".to_string()]);
    assert_eq!(plan.order.len(), 1);
    assert_eq!(plan.order[0].symbol, "a");
}

#[test]
fn refactor_order_reports_mutual_calls_as_a_cycle() {
    let g = graph(
        vec![
            node("function:t::a", NodeKind::Function, "a", "t::a", "src/lib.rs"),
            node("function:t::b", NodeKind::Function, "b", "t::b", "src/lib.rs"),
        ],
        vec![
            edge("function:t::a", "function:t::b", EdgeKind::Calls),
            edge("function:t::b", "function:t::a", EdgeKind::Calls),
        ],
    );
    let names = vec!["a".to_string(), "b".to_string()];
    let plan = refactor_order(&g, &names, 10);
    assert!(plan.order.is_empty());
    assert!(plan.has_cycles);
    assert_eq!(plan.cycles.len(), 1);
    let mut symbols = plan.cycles[0].symbols.clone();
    symbols.sort();
    assert_eq!(symbols, vec!["a".to_string(), "b".to_string()]);
}

#[test]
fn unique_id_keeps_every_claimed_id_taken() {
    let mut b = Builder::new("/w".to_string(), "default".to_string());
    assert_eq!(b.unique_id("x#2".to_string()), "x#2");
    assert_eq!(b.unique_id("x".to_string()), "x");
    assert_eq!(b.unique_id("x".to_string()), "x#3");
}

fn test_chain() -> CodeGraph {
    graph(
        vec![
            node("function:m::t", NodeKind::Function, "t", "m::t", "src/lib.rs"),
            node("function:m::h", NodeKind::Function, "h", "m::h", "src/lib.rs"),
            node("function:m::test_x", NodeKind::Function, "test_x", "m::test_x", "tests/it.rs"),
        ],
        vec![
            edge("function:m::h", "function:m::t", EdgeKind::Calls),
            edge("function:m::test_x", "function:m::h", EdgeKind::Calls),
        ],
    )
}

#[test]
fn tests_lists_test_callers_within_four_calls() {
    let g = test_chain();
    match tests(&g, Some("t"), 10) {
        TestsReport::Impact { target, tests } => {
            assert_eq!(target, 0);
            assert_eq!(tests.len(), 1);
            assert_eq!(tests[0].node, 2);
            assert_eq!(tests[0].depth, 2);
            assert_eq!(tests[0].path, vec!["t".to_string(), "h".to_string(), "test_x".to_string()]);
        }
        TestsReport::Static { .. } => panic!("expected an impact report"),
    }
}

#[test]
fn tests_stops_at_the_limit() {
    let g = test_chain();
    match tests(&g, Some("t"), 0) {
        TestsReport::Impact { tests, .. } => assert!(tests.is_empty()),
        TestsReport::Static { .. } => panic!("expected an impact report"),
    }
}

#[test]
fn impact_lists_every_caller_when_under_the_limit() {
    let g = test_chain();
    let report = match impact(&g, "t", 2, 10) {
        Ok(r) => r,
        Err(e) => panic!("{e}"),
    };
    let callers: Vec<usize> = report.callers.iter().map(|c| c.2).collect();
    assert_eq!(callers, vec![1, 2]);
    assert!(report.dependencies.is_empty());
}

#[test]
fn path_follows_call_edges_only() {
    let g = graph(
        vec![
            node("function:m::a", NodeKind::Function, "a", "m::a", "src/lib.rs"),
            node("function:m::b", NodeKind::Function, "b", "m::b", "src/lib.rs"),
        ],
        vec![edge("function:m::a", "function:m::b", EdgeKind::UsesType)],
    );
    let report = match path(&g, "a", "b", 3) {
        Ok(r) => r,
        Err(e) => panic!("{e}"),
    };
    assert!(report.nodes.is_empty());
}

#[test]
fn split_terms_keeps_word_runs() {
    let terms = split_terms("index_project::Walk-2 x");
    let words: Vec<String> = terms.iter().map(|t| t.iter().collect()).collect();
    assert_eq!(words, vec!["index_project", "Walk", "2", "x"]);
}

#[test]
fn enrich_warns_once_per_failed_target() {
    let mut g = two_functions();
    let packages = vec![vec![
        TargetRun { name: "demo".to_string(), output: Err("no rustc".to_string()) },
        TargetRun { name: "tool".to_string(), output: Ok(String::new()) },
    ]];
    enrich(&mut g, &packages, 100);
    let info = match &g.mir {
        Some(info) => info,
        None => panic!("expected MIR info"),
    };
    assert_eq!(info.warnings, vec!["demo: no rustc".to_string()]);
    assert_eq!(info.scanned_functions, 0);
    assert_eq!(info.scanned_targets, 2);
    assert_eq!(g.edges.len(), 1);
}

#[test]
fn health_counts_each_module_on_a_cycle() {
    let mut nodes = Vec::new();
    let mut edges = Vec::new();
    for m in ["a", "b", "c"] {
        let file = format!("src/{m}.rs");
        let module_id = format!("module:demo::{m}");
        nodes.push(node(&module_id, NodeKind::Module, m, &format!("demo::{m}"), &file));
        nodes.push(node(&format!("function:demo::{m}::f"), NodeKind::Function, "f", &format!("demo::{m}::f"), &file));
    }
    edges.push(edge("function:demo::a::f", "function:demo::b::f", EdgeKind::Calls));
    edges.push(edge("function:demo::b::f", "function:demo::c::f", EdgeKind::Calls));
    edges.push(edge("function:demo::c::f", "function:demo::a::f", EdgeKind::Calls));
    let g = graph(nodes, edges);
    let report = health(&g, 10);
    assert_eq!(report.cycle_count, 3);
    assert_eq!(report.cycles.len(), 3);
}

#[test]
fn semantic_targets_take_located_functions_in_order() {
    let mut g = test_chain();
    g.nodes[1].range = None;
    g.nodes.push(node("struct:m::S", NodeKind::Struct, "S", "m::S", "src/lib.rs"));
    assert_eq!(semantic_targets(&g, 10), vec![0, 2]);
    assert_eq!(semantic_targets(&g, 1), vec![0]);
}

#[test]
fn symbol_facts_list_matching_nodes_with_their_parts() {
    let g = graph(
        vec![
            node("module:m", NodeKind::Module, "m", "m", "src/lib.rs"),
            node("struct:m::Runtime", NodeKind::Struct, "Runtime", "m::Runtime", "src/lib.rs"),
            node("field:m::Runtime::x", NodeKind::Field, "x", "m::Runtime::x", "src/lib.rs"),
        ],
        vec![
            edge("module:m", "struct:m::Runtime", EdgeKind::Declares),
            edge("struct:m::Runtime", "field:m::Runtime::x", EdgeKind::Declares),
        ],
    );
    let facts = symbol_facts(&g, "What is Runtime?", 16);
    assert_eq!(facts.len(), 2);
    assert_eq!(facts[0], (1, vec![2]));
    assert_eq!(facts[1], (2, vec![]));
}

#[test]
fn symbol_facts_fall_back_to_signed_nodes() {
    let g = two_functions();
    let facts = symbol_facts(&g, "ok?", 1);
    assert_eq!(facts, vec![(0, vec![])]);
}

#[test]
fn symbol_filter_keeps_dead_symbols_only() {
    let g = test_chain();
    let mut filter = SymbolFilter::default();
    filter.dead = true;
    assert_eq!(filter.keep(&g, &vec![0, 1, 2]), vec![2]);
}

#[test]
fn query_symbols_lists_all_and_filters_by_kind() {
    let mut g = test_chain();
    g.nodes.push(node("struct:m::S", NodeKind::Struct, "S", "m::S", "src/lib.rs"));
    let all = symbols(&g, None, None, 50);
    assert!(!all.is_empty());
    for &i in &all {
        assert!(!g.nodes[i].id.is_empty());
        assert!(!g.nodes[i].name.is_empty());
    }
    let fns = symbols(&g, None, Some("function"), 50);
    assert!(!fns.is_empty());
    for &i in &fns {
        assert!(matches!(g.nodes[i].kind, NodeKind::Function));
    }
}

#[test]
fn analyze_tests_finds_test_candidates() {
    let g = test_chain();
    match tests(&g, None, 50) {
        TestsReport::Static { tests } => assert_eq!(tests, vec![2]),
        TestsReport::Impact { .. } => panic!("expected a static listing"),
    }
    assert_eq!(all_targets(&g), vec![(0, 0)]);
}

fn call_item(name: &str, inside: bool, file: Option<&str>, detail: Option<&str>) -> CallItem {
    CallItem {
        name: name.to_string(),
        inside,
        file: file.map(|f| f.to_string()),
        detail: detail.map(|d| d.to_string()),
        kind: NodeKind::Function,
        range: Some(Range { start_line: 3, end_line: 4 }),
        evidence: None,
    }
}

#[test]
fn apply_call_hierarchy_confirms_inserts_and_counts_unresolved() {
    let mut g = two_functions();
    let outgoing = vec![
        Some(call_item("b", true, Some("src/lib.rs"), None)),
        Some(call_item("c", true, Some("src/c.rs"), Some("m"))),
        None,
        Some(call_item("d", false, None, None)),
    ];
    let stats = apply_call_hierarchy(&mut g, 0, &outgoing);
    assert_eq!(stats.enriched, 1);
    assert_eq!(stats.confirmed, 1);
    assert_eq!(stats.unresolved, 2);
    assert_eq!(g.nodes.len(), 3);
    assert_eq!(g.nodes[2].id, "function:m::c");
    assert_eq!(g.nodes[2].qualified_name, "m::c");
    assert_eq!(g.edges.len(), 2);
    assert_eq!(g.edges[0].weight, 2);
    assert!(matches!(g.edges[0].source, EdgeSource::RustAnalyzer));
    assert!(matches!(g.edges[0].certainty, EdgeCertainty::Confirmed));
    assert_eq!(g.edges[1].from, "function:t::a");
    assert_eq!(g.edges[1].to, "function:m::c");
    assert_eq!(g.edges[1].profiles, vec!["default".to_string()]);
}

#[test]
fn apply_call_hierarchy_skips_calls_to_itself() {
    let mut g = two_functions();
    let outgoing = vec![Some(call_item("a", true, Some("src/lib.rs"), None))];
    let stats = apply_call_hierarchy(&mut g, 0, &outgoing);
    assert_eq!((stats.enriched, stats.confirmed, stats.unresolved), (0, 0, 0));
    assert_eq!(g.edges.len(), 1);
}

fn styled(from: &str, to: &str, style: &str) -> Edge {
    let mut e = edge(from, to, EdgeKind::Calls);
    e.call_style = Some(style.to_string());
    e
}

fn risk_graph() -> CodeGraph {
    graph(
        vec![
            node("function:test::target_fn", NodeKind::Function, "target_fn", "test::target_fn", "src/target.rs"),
            node("function:test::caller_a", NodeKind::Function, "caller_a", "test::caller_a", "src/a.rs"),
            node("function:test::caller_b", NodeKind::Function, "caller_b", "test::caller_b", "src/b.rs"),
            node("function:test::caller_c", NodeKind::Function, "caller_c", "test::caller_c", "src/c.rs"),
            node("function:test::dep1", NodeKind::Function, "dep1", "test::dep1", "src/dep.rs"),
            node("function:test::dep2", NodeKind::Function, "dep2", "test::dep2", "src/dep.rs"),
        ],
        vec![
            styled("function:test::caller_a", "function:test::target_fn", "direct"),
            styled("function:test::caller_b", "function:test::target_fn", "direct"),
            styled("function:test::caller_c", "function:test::target_fn", "method"),
            edge("function:test::target_fn", "function:test::dep1", EdgeKind::Calls),
            edge("function:test::target_fn", "function:test::dep2", EdgeKind::Calls),
        ],
    )
}

#[test]
fn impact_includes_risk_scoring() {
    let g = risk_graph();
    let result = match impact(&g, "target_fn", 2, 100) {
        Ok(r) => r,
        Err(e) => panic!("{e}"),
    };
    let risk = &result.risk;
    assert_eq!(risk.level, "critical", "3 files + method caller + pub should be critical");
    assert!(risk.score >= 15, "risk score should be >= 15");
    assert_eq!(risk.files_affected, 3);
    assert_eq!(risk.direct_callers, 3);
    assert_eq!(risk.is_public, true);
    assert_eq!(risk.has_method_callers, true);
}

#[test]
fn impact_risk_level_low_for_no_callers() {
    let g = graph(
        vec![node("function:test::orphan", NodeKind::Function, "orphan", "test::orphan", "src/orphan.rs")],
        vec![],
    );
    let result = match impact(&g, "orphan", 2, 100) {
        Ok(r) => r,
        Err(e) => panic!("{e}"),
    };
    assert_eq!(result.risk.level, "low");
    assert_eq!(result.risk.score, 0);
    assert_eq!(result.risk.files_affected, 0);
    assert_eq!(result.risk.direct_callers, 0);
}

#[test]
fn impact_change_hints_contain_actionable_recommendations() {
    let g = risk_graph();
    let result = match impact(&g, "target_fn", 2, 100) {
        Ok(r) => r,
        Err(e) => panic!("{e}"),
    };
    let hints = &result.change_hints;
    assert!(!hints.is_empty(), "should have change hints");
    assert!(hints.iter().any(|h| h.contains("file")), "should mention file spread");
}

#[test]
fn refactor_steps_carry_the_impact_risk() {
    let g = risk_graph();
    let names = vec!["target_fn".to_string(), "caller_c".to_string()];
    let plan = refactor_order(&g, &names, 10);
    assert_eq!(plan.order.len(), 2);
    assert_eq!(plan.order[0].symbol, "target_fn");
    assert_eq!(plan.order[0].risk_level, "critical");
    assert_eq!(plan.order[0].risk_score, 17);
    assert_eq!(plan.order[0].files_affected, 3);
    assert_eq!(plan.order[1].risk_level, "low");
    assert_eq!(plan.max_risk_score, 17);
}

#[test]
fn risk_report_uses_the_impact_risk() {
    let g = risk_graph();
    let report = match crabmap::risk::risk(&g, "target_fn", 2, 100) {
        Ok(r) => r,
        Err(e) => panic!("{e}"),
    };
    assert_eq!(report.level, "critical");
    assert_eq!(report.score, 17);
    assert_eq!(report.files_affected, 3);
    assert_eq!(report.direct_callers, 3);
    assert!(report.recommendation.starts_with("Critical risk"));
    assert!(report.commands.contains(&"cargo test".to_string()));
}

fn doc_symbol(name: &str, file: &str, line: usize) -> DocSymbol {
    DocSymbol { symbol: call_item(name, true, Some(file), None), line }
}

#[test]
fn document_symbols_confirm_known_nodes_and_add_new_ones() {
    let mut g = two_functions();
    let symbols = vec![doc_symbol("a", "src/lib.rs", 1), doc_symbol("zed", "src/lib.rs", 9)];
    let stats = apply_document_symbols(&mut g, &symbols);
    assert_eq!(stats.confirmed, 1);
    assert_eq!(stats.enriched, 1);
    assert_eq!(g.nodes[0].metrics, vec![("rust_analyzer_document_symbol".to_string(), 1)]);
    assert_eq!(g.nodes.len(), 3);
    assert_eq!(g.nodes[2].name, "zed");
    assert_eq!(g.nodes[2].qualified_name, "src/lib.rs::zed");
}

#[test]
fn document_symbol_metric_keeps_names_sorted() {
    let mut g = two_functions();
    g.nodes[1].metrics = vec![("lines".to_string(), 4), ("zz".to_string(), 1)];
    let stats = apply_document_symbols(&mut g, &vec![doc_symbol("b", "src/lib.rs", 0)]);
    assert_eq!(stats.confirmed, 1);
    let keys: Vec<&str> = g.nodes[1].metrics.iter().map(|m| m.0.as_str()).collect();
    assert_eq!(keys, vec!["lines", "rust_analyzer_document_symbol", "zz"]);
}

#[test]
fn semantic_files_are_the_file_node_names() {
    let mut g = test_chain();
    g.nodes.push(node("file:src/lib.rs", NodeKind::File, "src/lib.rs", "src/lib.rs", "src/lib.rs"));
    assert_eq!(semantic_files(&g), vec!["src/lib.rs".to_string()]);
}
