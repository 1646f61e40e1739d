use crabmap::config::{default_config, graph_filename, redact_key, update, ConfigUpdate};
use crabmap::model::{
    BuildProfile, CodeGraph, Edge, EdgeCertainty, EdgeKind, EdgeSource, Node, NodeKind, Package,
    Project, Range, Target,
};
use crabmap::retrieval::{document, lexical_candidates};

fn project() -> Project {
    Project {
        root: "/tmp/demo".to_string(),
        workspace_root: "/tmp/demo".to_string(),
        packages: vec![Package {
            name: "codegraph".to_string(),
            manifest_path: "/tmp/demo/Cargo.toml".to_string(),
            targets: vec![Target {
                name: "codegraph".to_string(),
                kind: vec!["bin".to_string()],
                src_path: "src/main.rs".to_string(),
            }],
        }],
    }
}

fn profile() -> BuildProfile {
    BuildProfile {
        name: "default".to_string(),
        features: vec![],
        all_features: false,
        no_default_features: false,
        target: None,
    }
}

fn node(id: &str, kind: NodeKind, name: &str, qualified_name: &str, file: &str, line: usize) -> Node {
    Node {
        id: id.to_string(),
        kind,
        name: name.to_string(),
        qualified_name: qualified_name.to_string(),
        file: Some(file.to_string()),
        range: Some(Range { start_line: line, end_line: line }),
        visibility: Some("pub".to_string()),
        signature: Some(format!("fn {name}()")),
        docs: None,
        metrics: Vec::new(),
    }
}

fn calls(from: &str, to: &str) -> Edge {
    Edge {
        from: from.to_string(),
        to: to.to_string(),
        kind: EdgeKind::Calls,
        label: None,
        evidence: None,
        weight: 1,
        source: EdgeSource::Ast,
        certainty: EdgeCertainty::Definite,
        call_style: None,
        profiles: vec![],
    }
}

fn ambiguous_graph(prefix: &str) -> CodeGraph {
    CodeGraph {
        schema_version: 1,
        project: project(),
        nodes: vec![
            node(
                &format!("function:{prefix}::index_project"),
                NodeKind::Function,
                "index_project",
                &format!("{prefix}::index_project"),
                "src/main.rs",
                10,
            ),
            node(
                &format!("function:{prefix}::analyzer::index_project"),
                NodeKind::Function,
                "index_project",
                &format!("{prefix}::analyzer::index_project"),
                "src/analyzer.rs",
                30,
            ),
            node(
                &format!("function:{prefix}::helper"),
                NodeKind::Function,
                "helper",
                &format!("{prefix}::helper"),
                "src/main.rs",
                50,
            ),
        ],
        edges: vec![calls(
            &format!("function:{prefix}::index_project"),
            &format!("function:{prefix}::helper"),
        )],
        warnings: vec![],
        semantic: None,
        mir: None,
        profiles: vec![profile()],
        generated_at_ms: 0,
    }
}


fn no_update() -> ConfigUpdate {
    ConfigUpdate {
        api_key: None,
        model: None,
        api_url: None,
        embedding_key: None,
        embedding_model: None,
        embedding_url: None,
        rerank_key: None,
        rerank_model: None,
        rerank_url: None,
    }
}

#[test]
fn redact_key_hides_all_but_the_ends() {
    assert_eq!(redact_key("short"), "***");
    assert_eq!(redact_key("0123456789"), "***");
    assert_eq!(redact_key("sk-abcdefghijklmnop"), "sk-abc...mnop");
}

#[test]
fn graph_filename_keeps_safe_characters() {
    assert_eq!(graph_filename(Some("my crate.v2")), "my_crate_v2");
    assert_eq!(graph_filename(Some("a-b_c")), "a-b_c");
    assert_eq!(graph_filename(None), "crabmap");
}

#[test]
fn config_update_sets_only_the_given_options() {
    let c = default_config();
    assert!(!no_update().any());
    let u = ConfigUpdate { model: Some("m2".to_string()), rerank_key: Some("rk".to_string()), ..no_update() };
    assert!(u.any());
    let mut c = c;
    c.rerank = None;
    let r = update(c, u);
    assert_eq!(r.model, "m2");
    assert_eq!(r.api_url, "https://api.minimaxi.com/anthropic/v1/messages");
    let rerank = r.rerank.unwrap();
    assert_eq!(rerank.api_key.as_deref(), Some("rk"));
    assert_eq!(rerank.model, "Qwen/Qwen3-Reranker-8B");
    assert_eq!(r.embedding.unwrap().model, "Qwen/Qwen3-Embedding-8B");
}

#[test]
fn document_lists_the_fields_of_a_node() {
    let g = ambiguous_graph("crabmap");
    assert_eq!(
        document(&g.nodes[2]),
        "kind: function\nname: helper\nqualified_name: crabmap::helper\nfile: src/main.rs\nrange: 50-50\nsignature: fn helper()\ndocs: "
    );
}

#[test]
fn lexical_candidates_rank_by_terms_then_name() {
    let g = ambiguous_graph("crabmap");
    let r = lexical_candidates(&g, "helper", 10);
    assert_eq!(r[0], (2, 34));
    assert_eq!(r[1], (1, 9));
    assert_eq!(r[2], (0, 9));
    assert_eq!(lexical_candidates(&g, "index project", 1), vec![(1, 59)]);
}

#[test]
fn map_lists_counts_scores_and_hot_symbols() {
    let g = ambiguous_graph("crabmap");
    let m = crabmap::repo_map::map(&g, 8000, false).unwrap();
    assert!(m.starts_with("# Codegraph Map\n\nProject: `/tmp/demo`\nNodes: 3 Edges: 1 Files: 0 Symbols: 3\n"));
    assert!(m.ends_with("## Hot Symbols\n\n\n\n"));
    let full = crabmap::repo_map::map(&g, 8000, true).unwrap();
    assert!(full.contains("## Entry Points\n\n"));
    assert!(full.contains("## Feature Clusters\n\n"));
}

#[test]
fn map_is_cut_to_its_budget() {
    let g = ambiguous_graph("crabmap");
    let m = crabmap::repo_map::map(&g, 40, false).unwrap();
    assert_eq!(m.len(), 40);
    assert!(m.ends_with("\n...[truncated]\n"));
    assert_eq!(&m[..24], &crabmap::repo_map::map(&g, 8000, false).unwrap()[..24]);
}
