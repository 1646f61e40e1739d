use crabmap::ai::{
    clusters, guide, guide_with_root_ids, is_readable_node, quality, quality_label, read_order, search_nodes,
};
use crabmap::index::QueryIndex;
use crabmap::model::{
    BuildProfile, CodeGraph, Edge, EdgeCertainty, EdgeKind, EdgeSource, Node, NodeKind, Package, Project, Range,
    Target,
};

fn node(id: &str, kind: NodeKind, name: &str, qname: &str, file: Option<&str>, line: usize, public: bool) -> Node {
    Node {
        id: id.to_string(),
        kind,
        name: name.to_string(),
        qualified_name: qname.to_string(),
        file: file.map(|f| f.to_string()),
        range: Some(Range { start_line: line, end_line: line + 2 }),
        visibility: if public { Some("pub".to_string()) } else { None },
        signature: None,
        docs: None,
        metrics: Vec::new(),
    }
}

fn edge(from: &str, to: &str, kind: EdgeKind) -> Edge {
    Edge {
        from: from.to_string(),
        to: to.to_string(),
        kind,
        label: None,
        evidence: None,
        weight: 1,
        source: EdgeSource::Ast,
        certainty: EdgeCertainty::Definite,
        call_style: None,
        profiles: vec![],
    }
}

fn sample() -> CodeGraph {
    CodeGraph {
        schema_version: 2,
        project: Project {
            root: "/tmp/sample".to_string(),
            workspace_root: "/tmp/sample".to_string(),
            packages: vec![Package {
                name: "sample".to_string(),
                manifest_path: "/tmp/sample/Cargo.toml".to_string(),
                targets: vec![Target {
                    name: "sample".to_string(),
                    kind: vec!["bin".to_string()],
                    src_path: "src/main.rs".to_string(),
                }],
            }],
        },
        nodes: vec![
            node("project:sample", NodeKind::Project, "sample", "sample", None, 0, false),
            node("file:src/main.rs", NodeKind::File, "src/main.rs", "src/main.rs", Some("src/main.rs"), 1, false),
            node("module:sample", NodeKind::Module, "sample", "sample", Some("src/main.rs"), 1, false),
            node("function:sample::main", NodeKind::Function, "main", "sample::main", Some("src/main.rs"), 3, true),
            node("function:sample::run_app", NodeKind::Function, "run_app", "sample::run_app", Some("src/main.rs"), 10, true),
            node(
                "function:sample::config::load_config",
                NodeKind::Function,
                "load_config",
                "sample::config::load_config",
                Some("src/config.rs"),
                2,
                true,
            ),
            node("struct:sample::config::Config", NodeKind::Struct, "Config", "sample::config::Config", Some("src/config.rs"), 1, true),
            node("function:sample::config::parse", NodeKind::Function, "parse", "sample::config::parse", Some("src/config.rs"), 20, false),
        ],
        edges: vec![
            edge("function:sample::main", "function:sample::run_app", EdgeKind::Calls),
            edge("function:sample::run_app", "function:sample::config::load_config", EdgeKind::Calls),
            edge("function:sample::config::load_config", "function:sample::config::parse", EdgeKind::Calls),
            edge("file:src/main.rs", "module:sample", EdgeKind::ModuleFile),
            edge("module:sample", "function:sample::main", EdgeKind::Declares),
            edge("module:sample", "function:sample::run_app", EdgeKind::Declares),
            edge("function:sample::config::load_config", "struct:sample::config::Config", EdgeKind::UsesType),
        ],
        warnings: vec![],
        semantic: None,
        mir: None,
        profiles: vec![BuildProfile {
            name: "default".to_string(),
            features: vec![],
            all_features: false,
            no_default_features: false,
            target: None,
        }],
        generated_at_ms: 0,
    }
}

#[test]
fn clusters_group_nodes_by_file_area() {
    let graph = sample();
    let items = clusters(&graph, 10);
    assert_eq!(items.len(), 2);
    assert_eq!(items[0].name, "main");
    assert_eq!(items[0].files, 1);
    assert_eq!(items[0].nodes, 4);
    assert_eq!(items[0].symbols, 2);
    assert_eq!(items[0].degree, 9);
    assert_eq!(items[0].hot, vec![4, 3]);
    assert_eq!(items[1].name, "config");
    assert_eq!(items[1].nodes, 3);
    assert_eq!(items[1].symbols, 3);
    assert_eq!(items[1].degree, 5);
    assert_eq!(items[1].hot, vec![5, 6, 7]);
}

#[test]
fn clusters_respect_the_limit() {
    let graph = sample();
    let items = clusters(&graph, 1);
    assert_eq!(items.len(), 1);
    assert_eq!(items[0].name, "main");
    assert!(clusters(&graph, 0).is_empty());
}

#[test]
fn readable_nodes_are_files_modules_and_items() {
    let graph = sample();
    assert!(!is_readable_node(&graph.nodes[0]));
    assert!(is_readable_node(&graph.nodes[1]));
    assert!(is_readable_node(&graph.nodes[3]));
    assert!(is_readable_node(&graph.nodes[6]));
}

#[test]
fn read_order_starts_at_root_then_direct_dependencies() {
    let graph = sample();
    let index = QueryIndex::new(&graph);
    let items = read_order(&graph, &index, &vec![4], 10);
    let got: Vec<(&str, usize)> = items.iter().map(|i| (i.reason.as_str(), i.node)).collect();
    assert_eq!(got, vec![("root", 4), ("direct dependency", 5)]);
}

#[test]
fn read_order_stops_at_the_limit_and_skips_repeated_places() {
    let graph = sample();
    let index = QueryIndex::new(&graph);
    let items = read_order(&graph, &index, &vec![3, 4], 2);
    let got: Vec<(&str, usize)> = items.iter().map(|i| (i.reason.as_str(), i.node)).collect();
    assert_eq!(got, vec![("root", 3), ("direct dependency", 4)]);
    let twice = read_order(&graph, &index, &vec![4, 4], 10);
    assert_eq!(twice.len(), 2);
}

#[test]
fn search_nodes_ranks_text_matches_by_score_then_name() {
    let graph = sample();
    let index = QueryIndex::new(&graph);
    assert_eq!(search_nodes(&graph, &index, "config", 6), vec![5, 6, 7]);
    assert_eq!(search_nodes(&graph, &index, "config", 1), vec![5]);
    assert!(search_nodes(&graph, &index, "zzz", 6).is_empty());
    assert!(search_nodes(&graph, &index, "", 6).is_empty());
}

#[test]
fn guide_for_a_query_walks_callers_and_callees() {
    let graph = sample();
    let g = guide(&graph, Some("config"), 2, 10);
    assert_eq!(g.root_source, "lexical");
    assert_eq!(g.roots, vec![5, 6, 7]);
    assert_eq!(g.callers.len(), 3);
    let callers: Vec<usize> = g.callers[0].iter().map(|e| e.2).collect();
    assert_eq!(callers, vec![4, 3]);
    let callees: Vec<usize> = g.callees[0].iter().map(|e| e.2).collect();
    assert_eq!(callees, vec![7]);
    assert_eq!(g.quality.score, 100);
}

#[test]
fn guide_without_query_starts_from_entry_points() {
    let graph = sample();
    let g = guide(&graph, None, 1, 10);
    assert!(!g.roots.is_empty());
    assert_eq!(g.roots[0], 3);
    let blank = guide(&graph, Some("   "), 1, 10);
    assert_eq!(blank.roots, g.roots);
}

#[test]
fn guide_with_root_ids_uses_known_ids() {
    let graph = sample();
    let g = guide_with_root_ids(
        &graph,
        None,
        &vec!["missing".to_string(), "function:sample::config::parse".to_string()],
        1,
        10,
        "semantic",
    );
    assert_eq!(g.root_source, "semantic");
    assert_eq!(g.roots, vec![7]);
    let fallback = guide_with_root_ids(&graph, Some("config"), &vec!["missing".to_string()], 1, 10, "semantic");
    assert_eq!(fallback.root_source, "lexical");
    assert_eq!(fallback.roots, vec![5, 6, 7]);
}

#[test]
fn quality_of_a_fully_definite_graph_is_high() {
    let graph = sample();
    let q = quality(&graph);
    assert_eq!(q.score, 100);
    assert_eq!(q.interpretation, "high");
    assert_eq!(q.trusted_edges, 7);
    assert_eq!(q.uncertain_edges, 0);
    assert_eq!(quality_label(84), "medium");
    assert_eq!(quality_label(1), "low");
    assert_eq!(quality_label(0), "empty");
}

#[test]
fn quality_weights_uncertain_edges_less() {
    let mut graph = sample();
    for e in graph.edges.iter_mut() {
        e.certainty = EdgeCertainty::Possible;
    }
    assert_eq!(quality(&graph).score, 25);
    graph.edges[0].certainty = EdgeCertainty::Inferred;
    let q = quality(&graph);
    assert_eq!(q.score, (55 + 6 * 25) / 7);
    assert_eq!(q.uncertain_edges, 7);
    graph.edges.clear();
    assert_eq!(quality(&graph).score, 0);
    assert_eq!(quality(&graph).interpretation, "empty");
}
