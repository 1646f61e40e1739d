use crabmap::commands;
use crabmap::commands::neighbors;
use crabmap::model::{
    BuildProfile, CodeGraph, Edge, EdgeCertainty, EdgeKind, EdgeSource, Node, NodeKind, Package,
    Project, Range, Target,
};
use crabmap::traversal::path;

fn project() -> Project {
    Project {
        root: "/tmp/demo".to_string(),
        workspace_root: "/tmp/demo".to_string(),
        packages: vec![Package {
            name: "codegraph".to_string(),
            manifest_path: "/tmp/demo/Cargo.toml".to_string(),
            targets: vec![Target {
                name: "codegraph".to_string(),
                kind: vec!["bin".to_string()],
                src_path: "src/main.rs".to_string(),
            }],
        }],
    }
}

fn profile() -> BuildProfile {
    BuildProfile {
        name: "default".to_string(),
        features: vec![],
        all_features: false,
        no_default_features: false,
        target: None,
    }
}

fn node(id: &str, kind: NodeKind, name: &str, qualified_name: &str, file: &str, line: usize) -> Node {
    Node {
        id: id.to_string(),
        kind,
        name: name.to_string(),
        qualified_name: qualified_name.to_string(),
        file: Some(file.to_string()),
        range: Some(Range { start_line: line, end_line: line }),
        visibility: Some("pub".to_string()),
        signature: Some(format!("fn {name}()")),
        docs: None,
        metrics: Vec::new(),
    }
}

fn edge(from: &str, to: &str, kind: EdgeKind) -> Edge {
    Edge {
        from: from.to_string(),
        to: to.to_string(),
        kind,
        label: None,
        evidence: None,
        weight: 1,
        source: EdgeSource::Ast,
        certainty: EdgeCertainty::Definite,
        call_style: None,
        profiles: vec![],
    }
}

fn graph(nodes: Vec<Node>, edges: Vec<Edge>) -> CodeGraph {
    CodeGraph {
        schema_version: 1,
        project: project(),
        nodes,
        edges,
        warnings: vec![],
        semantic: None,
        mir: None,
        profiles: vec![profile()],
        generated_at_ms: 0,
    }
}

fn ambiguous_graph(prefix: &str) -> CodeGraph {
    graph(
        vec![
            node(
                &format!("function:{prefix}::index_project"),
                NodeKind::Function,
                "index_project",
                &format!("{prefix}::index_project"),
                "src/main.rs",
                10,
            ),
            node(
                &format!("function:{prefix}::analyzer::index_project"),
                NodeKind::Function,
                "index_project",
                &format!("{prefix}::analyzer::index_project"),
                "src/analyzer.rs",
                30,
            ),
            node(
                &format!("function:{prefix}::helper"),
                NodeKind::Function,
                "helper",
                &format!("{prefix}::helper"),
                "src/main.rs",
                50,
            ),
        ],
        vec![edge(
            &format!("function:{prefix}::index_project"),
            &format!("function:{prefix}::helper"),
            EdgeKind::Calls,
        )],
    )
}

fn file_and_module_graph(prefix: &str) -> CodeGraph {
    graph(
        vec![
            node("file:src/main.rs", NodeKind::File, "src/main.rs", "src/main.rs", "src/main.rs", 1),
            node("module:codegraph", NodeKind::Module, "codegraph", "codegraph", "src/main.rs", 1),
            node(
                &format!("module:{prefix}::model"),
                NodeKind::Module,
                "model",
                &format!("{prefix}::model"),
                "src/main.rs",
                12,
            ),
            node(
                &format!("module:{prefix}::model#2"),
                NodeKind::Module,
                &format!("{prefix}::model"),
                &format!("{prefix}::model"),
                "src/model.rs",
                1,
            ),
            node(
                &format!("function:{prefix}::main_fn"),
                NodeKind::Function,
                "main_fn",
                &format!("{prefix}::main_fn"),
                "src/main.rs",
                20,
            ),
            node(
                &format!("struct:{prefix}::App"),
                NodeKind::Struct,
                "App",
                &format!("{prefix}::App"),
                "src/main.rs",
                30,
            ),
            node(
                &format!("struct:{prefix}::model::Node"),
                NodeKind::Struct,
                "Node",
                &format!("{prefix}::model::Node"),
                "src/model.rs",
                5,
            ),
        ],
        vec![
            edge("file:src/main.rs", "module:codegraph", EdgeKind::ModuleFile),
            edge("module:codegraph", &format!("module:{prefix}::model"), EdgeKind::Declares),
            edge("module:codegraph", &format!("function:{prefix}::main_fn"), EdgeKind::Declares),
            edge("module:codegraph", &format!("struct:{prefix}::App"), EdgeKind::Declares),
            edge(
                &format!("module:{prefix}::model#2"),
                &format!("struct:{prefix}::model::Node"),
                EdgeKind::Declares,
            ),
        ],
    )
}

fn check_neighbors_ambiguous(prefix: &str) {
    let graph = ambiguous_graph(prefix);
    let error = match neighbors(&graph, "index_project", "calls", true, 1, 10) {
        Err(e) => e,
        Ok(_) => panic!("expected an error"),
    };
    assert_eq!(
        error,
        format!("symbol `index_project` is ambiguous, matches: {prefix}::index_project, {prefix}::analyzer::index_project")
    );
}

fn check_path_ambiguous(prefix: &str) {
    let graph = ambiguous_graph(prefix);
    let error = match path(&graph, "index_project", "helper", 3) {
        Err(e) => e,
        Ok(_) => panic!("expected an error"),
    };
    assert_eq!(
        error,
        format!("source `index_project` is ambiguous, matches: {prefix}::index_project, {prefix}::analyzer::index_project")
    );
}

fn check_file_declares(prefix: &str) {
    let graph = file_and_module_graph(prefix);
    let result = match commands::file(&graph, "src/main.rs") {
        Ok(r) => r,
        Err(e) => panic!("{e}"),
    };
    let declares: Vec<&str> = result
        .declares
        .iter()
        .map(|(_, n)| graph.nodes[*n].qualified_name.as_str())
        .collect();
    assert_eq!(declares.len(), 3);
    assert!(declares.iter().any(|q| *q == format!("{prefix}::model")));
    assert!(declares.iter().any(|q| *q == format!("{prefix}::main_fn")));
    assert!(declares.iter().any(|q| *q == format!("{prefix}::App")));
}

fn check_module_prefers_declaring(prefix: &str) {
    let graph = file_and_module_graph(prefix);
    let result = match commands::module(&graph, &format!("{prefix}::model")) {
        Ok(r) => r,
        Err(e) => panic!("{e}"),
    };
    assert_eq!(graph.nodes[result.node].id, format!("module:{prefix}::model#2"));
    assert_eq!(result.declares.len(), 1);
    assert_eq!(
        graph.nodes[result.declares[0].1].qualified_name,
        format!("{prefix}::model::Node")
    );
}

#[test]
fn query_neighbors_fail_on_ambiguous_short_names() {
    check_neighbors_ambiguous("ferrimind");
}

#[test]
fn tests_neighbors_fail_on_ambiguous_short_names() {
    check_neighbors_ambiguous("crabmap");
}

#[test]
fn query_path_fails_when_source_symbol_is_ambiguous() {
    check_path_ambiguous("ferrimind");
}

#[test]
fn tests_path_fails_when_source_symbol_is_ambiguous() {
    check_path_ambiguous("crabmap");
}

#[test]
fn query_file_lists_symbols_declared_in_matching_path() {
    check_file_declares("ferrimind");
}

#[test]
fn tests_file_lists_symbols_declared_in_matching_path() {
    check_file_declares("crabmap");
}

#[test]
fn query_module_prefers_declaring_module_node_with_matching_qualified_name() {
    check_module_prefers_declaring("ferrimind");
}

#[test]
fn tests_module_prefers_declaring_module_node_with_matching_qualified_name() {
    check_module_prefers_declaring("crabmap");
}

#[test]
fn neighbors_walks_callees_of_a_unique_symbol() {
    let graph = ambiguous_graph("crabmap");
    let report = match neighbors(&graph, "crabmap::index_project", "calls", true, 1, 10) {
        Ok(r) => r,
        Err(e) => panic!("{e}"),
    };
    assert_eq!(report.root, 0);
    assert_eq!(report.items.len(), 1);
    assert_eq!(report.items[0].2, 2);
    let none = match neighbors(&graph, "crabmap::index_project", "no_such_kind", true, 1, 10) {
        Ok(r) => r,
        Err(e) => panic!("{e}"),
    };
    assert!(none.items.is_empty());
}

#[test]
fn path_finds_the_direct_call() {
    let graph = ambiguous_graph("crabmap");
    let report = match path(&graph, "crabmap::index_project", "helper", 3) {
        Ok(r) => r,
        Err(e) => panic!("{e}"),
    };
    assert_eq!(report.from, 0);
    assert_eq!(report.to, 2);
    assert_eq!(report.nodes, vec![0, 2]);
}

#[test]
fn path_is_empty_when_target_is_unreachable() {
    let graph = ambiguous_graph("crabmap");
    let report = match path(&graph, "helper", "crabmap::index_project", 3) {
        Ok(r) => r,
        Err(e) => panic!("{e}"),
    };
    assert!(report.nodes.is_empty());
}

#[test]
fn file_reports_missing_path() {
    let graph = file_and_module_graph("crabmap");
    assert!(commands::file(&graph, "src/nowhere.rs").is_err());
}

#[test]
fn module_reports_missing_name() {
    let graph = file_and_module_graph("crabmap");
    assert!(commands::module(&graph, "crabmap::nowhere").is_err());
}
