use crabmap::deps::cluster_key;
use crabmap::export::{dot, escape, id, label, mermaid};
use crabmap::health::{module_of_file, score};
use crabmap::helpers::compact;
use crabmap::model::{CodeGraph, Edge, EdgeCertainty, EdgeKind, EdgeSource, Node, NodeKind, Project};
use crabmap::paths::relative_path;
use crabmap::similar::signature_similarity;

fn node(id: &str, name: &str) -> Node {
    Node {
        id: id.to_string(),
        kind: NodeKind::Function,
        name: name.to_string(),
        qualified_name: format!("x::{name}"),
        file: Some("src/lib.rs".to_string()),
        range: None,
        visibility: None,
        signature: None,
        docs: None,
        metrics: Vec::new(),
    }
}

fn tiny() -> CodeGraph {
    CodeGraph {
        schema_version: 2,
        project: Project { root: ".".to_string(), workspace_root: ".".to_string(), packages: vec![] },
        nodes: vec![node("function:x::a", "a"), node("function:x::b", "b")],
        edges: vec![Edge {
            from: "function:x::a".to_string(),
            to: "function:x::b".to_string(),
            kind: EdgeKind::Calls,
            label: None,
            evidence: None,
            weight: 1,
            source: EdgeSource::Ast,
            certainty: EdgeCertainty::Definite,
            call_style: None,
            profiles: vec![],
        }],
        warnings: vec![],
        semantic: None,
        mir: None,
        profiles: vec![],
        generated_at_ms: 0,
    }
}

#[test]
fn escape_doubles_backslashes_and_quotes() {
    assert_eq!(escape("a\"b\\c"), "a\\\"b\\\\c");
    assert_eq!(escape("plain text"), "plain text");
}

#[test]
fn mermaid_ids_keep_only_ascii_alphanumerics() {
    assert_eq!(id("function:x::a"), "function_x__a");
    assert_eq!(id("über-1"), "_ber_1");
}

#[test]
fn labels_use_node_names_or_the_id() {
    let g = tiny();
    assert_eq!(label(&g, "function:x::b"), "b");
    assert_eq!(label(&g, "missing\"id"), "missing\\\"id");
}

#[test]
fn dot_lists_nodes_then_edges() {
    let g = tiny();
    assert_eq!(
        dot(&g),
        "digraph codegraph {\n  rankdir=LR;\n  \"function:x::a\" [label=\"a\\nfunction\"]\n  \"function:x::b\" [label=\"b\\nfunction\"]\n  \"function:x::a\" -> \"function:x::b\" [label=\"calls\"]\n}"
    );
}

#[test]
fn mermaid_lists_edges() {
    let g = tiny();
    assert_eq!(mermaid(&g), "graph LR\n  function_x__a[\"a\"] -->|calls| function_x__b[\"b\"]");
}

#[test]
fn health_score_subtracts_capped_penalties() {
    assert_eq!(score(0, 0, 0, 0), 100);
    assert_eq!(score(1, 1, 1, 1), 89);
    assert_eq!(score(20, 20, 20, 20), 0);
    assert_eq!(score(10, 0, 0, 0), score(50, 0, 0, 0));
    assert!(score(3, 2, 1, 0) <= score(2, 2, 1, 0));
}

#[test]
fn health_labels_follow_score_bands() {
    assert_eq!(crabmap::health::label(100), "high");
    assert_eq!(crabmap::health::label(85), "high");
    assert_eq!(crabmap::health::label(84), "medium");
    assert_eq!(crabmap::health::label(64), "low");
    assert_eq!(crabmap::health::label(0), "critical");
}

#[test]
fn module_of_file_collapses_to_the_directory() {
    assert_eq!(module_of_file("src/main.rs"), "src/main.rs");
    assert_eq!(module_of_file("src/query/mod.rs"), "src/query");
    assert_eq!(module_of_file("build.rs"), "build.rs");
    assert_eq!(module_of_file("./lib.rs"), "./lib.rs");
}

#[test]
fn cluster_keys_name_areas_of_the_source_tree() {
    assert_eq!(cluster_key("src/main.rs"), "main");
    assert_eq!(cluster_key("src/query/commands.rs"), "query/commands.rs");
    assert_eq!(cluster_key("src/bin/tool.rs"), "bin/tool.rs");
    assert_eq!(cluster_key("tests/cli.rs"), "tests/cli.rs");
    assert_eq!(cluster_key("src"), "root");
    assert_eq!(cluster_key("build.rs"), "build");
}

#[test]
fn compact_collapses_whitespace_runs() {
    assert_eq!(compact("  fn  main ( )\n {  ".to_string()), "fn main ( ) {");
    assert_eq!(compact(String::new()), "");
}

#[test]
fn relative_paths_drop_the_root() {
    assert_eq!(relative_path("/tmp/demo", "/tmp/demo/src/main.rs"), "src/main.rs");
    assert_eq!(relative_path("/tmp/demo", "/tmp/demo"), ".");
    assert_eq!(relative_path("/tmp/demo", "/other/file.rs"), "/other/file.rs");
}

#[test]
fn signature_similarity_counts_agreeing_keywords() {
    let a = "pub fn load(path: &str) -> Result<String>";
    let b = "fn parse(s: &str) -> Option<u32>";
    assert_eq!(signature_similarity(a, a), 20);
    assert_eq!(signature_similarity(a, b), signature_similarity(b, a));
    assert_eq!(signature_similarity(a, ""), 0);
    assert_eq!(signature_similarity(a, b), 15);
}

fn ring() -> crabmap::namegraph::NameGraph {
    let pairs: Vec<(String, String)> = [("a", "b"), ("b", "c"), ("c", "a"), ("d", "d")]
        .iter()
        .map(|(x, y)| (x.to_string(), y.to_string()))
        .collect();
    crabmap::namegraph::graph_from_pairs(&vec![], &pairs)
}

#[test]
fn path_to_finds_shortest_paths_within_depth() {
    let g = ring();
    assert_eq!(crabmap::health::path_to(&g, 0, 2, 6), Some(vec![0, 1, 2]));
    assert_eq!(crabmap::health::path_to(&g, 0, 2, 2), None);
    assert_eq!(crabmap::health::path_to(&g, 3, 0, 6), None);
    assert_eq!(crabmap::health::path_to(&g, 0, 0, 1), Some(vec![0]));
    assert_eq!(crabmap::health::path_to(&g, 0, 0, 0), None);
}

#[test]
fn cycles_list_each_start_with_a_short_cycle() {
    let g = ring();
    assert_eq!(
        crabmap::health::cycles(&g, 10),
        vec![vec![0, 1, 2, 0], vec![1, 2, 0, 1], vec![2, 0, 1, 2]]
    );
    assert_eq!(crabmap::health::cycles(&g, 1), vec![vec![0, 1, 2, 0]]);
}
