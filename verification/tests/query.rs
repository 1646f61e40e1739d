use crabmap::index::QueryIndex;
use crabmap::model::{
    BuildProfile, CodeGraph, Edge, EdgeCertainty, EdgeKind, EdgeSource, Node, NodeKind, Package,
    Project, Range, Target,
};
use crabmap::query::{require_unique_node, symbol, SymbolLookup};

fn project() -> Project {
    Project {
        root: "/tmp/demo".to_string(),
        workspace_root: "/tmp/demo".to_string(),
        packages: vec![Package {
            name: "codegraph".to_string(),
            manifest_path: "/tmp/demo/Cargo.toml".to_string(),
            targets: vec![Target {
                name: "codegraph".to_string(),
                kind: vec!["bin".to_string()],
                src_path: "src/main.rs".to_string(),
            }],
        }],
    }
}

fn profile() -> BuildProfile {
    BuildProfile {
        name: "default".to_string(),
        features: vec![],
        all_features: false,
        no_default_features: false,
        target: None,
    }
}

fn node(id: &str, kind: NodeKind, name: &str, qualified_name: &str, file: &str, line: usize) -> Node {
    Node {
        id: id.to_string(),
        kind,
        name: name.to_string(),
        qualified_name: qualified_name.to_string(),
        file: Some(file.to_string()),
        range: Some(Range { start_line: line, end_line: line }),
        visibility: Some("pub".to_string()),
        signature: Some(format!("fn {name}()")),
        docs: None,
        metrics: Vec::new(),
    }
}

fn calls(from: &str, to: &str) -> Edge {
    Edge {
        from: from.to_string(),
        to: to.to_string(),
        kind: EdgeKind::Calls,
        label: None,
        evidence: None,
        weight: 1,
        source: EdgeSource::Ast,
        certainty: EdgeCertainty::Definite,
        call_style: None,
        profiles: vec![],
    }
}

fn ambiguous_graph(prefix: &str) -> CodeGraph {
    CodeGraph {
        schema_version: 1,
        project: project(),
        nodes: vec![
            node(
                &format!("function:{prefix}::index_project"),
                NodeKind::Function,
                "index_project",
                &format!("{prefix}::index_project"),
                "src/main.rs",
                10,
            ),
            node(
                &format!("function:{prefix}::analyzer::index_project"),
                NodeKind::Function,
                "index_project",
                &format!("{prefix}::analyzer::index_project"),
                "src/analyzer.rs",
                30,
            ),
            node(
                &format!("function:{prefix}::helper"),
                NodeKind::Function,
                "helper",
                &format!("{prefix}::helper"),
                "src/main.rs",
                50,
            ),
        ],
        edges: vec![calls(
            &format!("function:{prefix}::index_project"),
            &format!("function:{prefix}::helper"),
        )],
        warnings: vec![],
        semantic: None,
        mir: None,
        profiles: vec![profile()],
        generated_at_ms: 0,
    }
}

fn check_ambiguous(prefix: &str) {
    let graph = ambiguous_graph(prefix);
    let index = QueryIndex::new(&graph);
    let result = symbol(&index, &graph, "index_project").unwrap();
    assert_eq!(result.kind(), "ambiguous");
    let matches = match result {
        SymbolLookup::Ambiguous { matches } => matches,
        SymbolLookup::Found { .. } => panic!("expected several matches"),
    };
    assert_eq!(matches.len(), 2);
    let qnames: Vec<&str> = matches.iter().map(|i| graph.nodes[*i].qualified_name.as_str()).collect();
    assert!(qnames.iter().any(|q| *q == format!("{prefix}::index_project")));
    assert!(qnames.iter().any(|q| *q == format!("{prefix}::analyzer::index_project")));
}

fn check_exact(prefix: &str) {
    let graph = ambiguous_graph(prefix);
    let index = QueryIndex::new(&graph);
    let result = symbol(&index, &graph, &format!("{prefix}::index_project")).unwrap();
    assert_eq!(result.kind(), "symbol");
    match result {
        SymbolLookup::Found { node, .. } => {
            assert_eq!(graph.nodes[node].qualified_name, format!("{prefix}::index_project"));
        }
        SymbolLookup::Ambiguous { .. } => panic!("expected one match"),
    }
}

#[test]
fn query_symbol_reports_ambiguous_short_names() {
    check_ambiguous("ferrimind");
}

#[test]
fn tests_symbol_reports_ambiguous_short_names() {
    check_ambiguous("crabmap");
}

#[test]
fn query_symbol_prefers_exact_qualified_name_match() {
    check_exact("ferrimind");
}

#[test]
fn tests_symbol_prefers_exact_qualified_name_match() {
    check_exact("crabmap");
}

#[test]
fn require_unique_node_reports_ambiguity_with_label() {
    let graph = ambiguous_graph("ferrimind");
    let error = require_unique_node(&graph, "index_project", "target").unwrap_err();
    assert_eq!(
        error,
        "target `index_project` is ambiguous, matches: ferrimind::index_project, ferrimind::analyzer::index_project"
    );
    assert_eq!(require_unique_node(&graph, "helper", "target"), Ok(2));
}

#[test]
fn symbol_not_found_suggests_alternatives() {
    let graph = ambiguous_graph("sample");
    let index = QueryIndex::new(&graph);
    let error = match symbol(&index, &graph, "helpr") {
        Err(e) => e,
        Ok(_) => panic!("expected an error"),
    };
    assert_eq!(error, "symbol `helpr` not found\nDid you mean?\n  \u{2022} helper");
}

#[test]
fn symbol_found_lists_neighbours() {
    let graph = ambiguous_graph("sample");
    let index = QueryIndex::new(&graph);
    match symbol(&index, &graph, "helper").unwrap() {
        SymbolLookup::Found { node, incoming, outgoing } => {
            assert_eq!(node, 2);
            assert_eq!(incoming, vec![(0, 0)]);
            assert!(outgoing.is_empty());
        }
        SymbolLookup::Ambiguous { .. } => panic!("expected one match"),
    }
}

#[test]
fn levenshtein_measures_edits() {
    let c = |s: &str| s.chars().collect::<Vec<char>>();
    assert_eq!(crabmap::query::levenshtein(&c("helper"), &c("helper")), 0);
    assert_eq!(crabmap::query::levenshtein(&c("helpr"), &c("helper")), 1);
    assert_eq!(crabmap::query::levenshtein(&c("kitten"), &c("sitting")), 3);
    assert_eq!(crabmap::query::levenshtein(&c(""), &c("abc")), 3);
}
