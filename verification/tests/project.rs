use crabmap::builder::IndexOptions;
use crabmap::items::{CallSite, CallStyle, FnBody, ItemEntry, ItemInfo};
use crabmap::model::{EdgeKind, NodeKind, Target};
use crabmap::project::{index_project, merge, project_name, PackageInput, ProjectInput, SourceFile};

fn options() -> IndexOptions {
    IndexOptions {
        include_tests: true,
        features: vec!["extra".to_string()],
        all_features: false,
        no_default_features: true,
        target: None,
        profile: "default".to_string(),
    }
}

fn function(name: &str, calls: &[&str]) -> ItemEntry {
    ItemEntry {
        parent: None,
        item: ItemInfo::Function {
            name: name.to_string(),
            signature: format!("fn {name} ()"),
            visibility: Some("pub".to_string()),
            docs: vec![],
            body: FnBody {
                params: vec![],
                returns: vec![],
                calls: calls.iter().map(|c| CallSite { target: c.to_string(), style: CallStyle::Direct }).collect(),
            },
        },
    }
}

fn input() -> ProjectInput {
    ProjectInput {
        root: "/work/sample".to_string(),
        workspace_root: "/work/sample".to_string(),
        packages: vec![PackageInput {
            name: "sample".to_string(),
            manifest_path: "/work/sample/Cargo.toml".to_string(),
            description: Some("A sample".to_string()),
            targets: vec![Target {
                name: "sample".to_string(),
                kind: vec!["bin".to_string()],
                src_path: "/work/sample/src/main.rs".to_string(),
            }],
            files: vec![
                SourceFile {
                    path: "/work/sample/src/main.rs".to_string(),
                    target_root: "/work/sample/src/main.rs".to_string(),
                    parsed: Ok((
                        "fn main() { run(); }\nfn run() {}\n".to_string(),
                        vec![function("main", &["run"]), function("run", &[])],
                    )),
                },
                SourceFile {
                    path: "/work/sample/src/main.rs".to_string(),
                    target_root: "/work/sample/src/main.rs".to_string(),
                    parsed: Ok((String::new(), vec![])),
                },
                SourceFile {
                    path: "/work/sample/src/broken.rs".to_string(),
                    target_root: "/work/sample/src/main.rs".to_string(),
                    parsed: Err("failed to parse".to_string()),
                },
            ],
        }],
    }
}

#[test]
fn project_names_come_from_the_last_path_piece() {
    assert_eq!(project_name("/work/sample"), "sample");
    assert_eq!(project_name("/"), "project");
    assert_eq!(project_name(""), "project");
}

#[test]
fn index_project_builds_project_crate_file_and_items() {
    let g = index_project(&input(), &options(), 42);
    assert_eq!(g.schema_version, 2);
    assert_eq!(g.generated_at_ms, 42);
    assert_eq!(g.nodes[0].kind, NodeKind::Project);
    assert_eq!(g.nodes[0].name, "sample");
    assert_eq!(g.nodes[1].kind, NodeKind::Crate);
    assert_eq!(g.nodes[1].file.as_deref(), Some("Cargo.toml"));
    assert_eq!(g.nodes[1].docs.as_deref(), Some("A sample"));
    assert_eq!(g.project.root, ".");
    assert_eq!(g.project.packages[0].targets[0].src_path, "src/main.rs");
    let files: Vec<&str> =
        g.nodes.iter().filter(|n| n.kind == NodeKind::File).map(|n| n.name.as_str()).collect();
    assert_eq!(files, vec!["src/main.rs"]);
    assert_eq!(g.warnings, vec!["/work/sample/src/broken.rs: failed to parse".to_string()]);
    let main = g.nodes.iter().position(|n| n.qualified_name == "sample::main").expect("main");
    let run = g.nodes.iter().position(|n| n.qualified_name == "sample::run").expect("run");
    assert!(g.edges.iter().any(|e| e.kind == EdgeKind::Calls && e.from == g.nodes[main].id && e.to == g.nodes[run].id));
    let mut ids: Vec<&str> = g.nodes.iter().map(|n| n.id.as_str()).collect();
    ids.sort();
    ids.dedup();
    assert_eq!(ids.len(), g.nodes.len());
    assert_eq!(g.profiles[0].features, vec!["extra".to_string()]);
    assert!(g.profiles[0].no_default_features);
}

#[test]
fn merging_graphs_concatenates_their_contents() {
    let a = index_project(&input(), &options(), 1);
    let b = index_project(&input(), &options(), 2);
    let (na, nb) = (a.nodes.len(), b.nodes.len());
    let m = merge(a, b);
    assert_eq!(m.nodes.len(), na + nb);
    assert_eq!(m.generated_at_ms, 1);
    assert_eq!(m.project.packages.len(), 2);
    assert_eq!(m.warnings.len(), 2);
}

#[test]
fn index_file_names_inline_module_items_after_the_module() {
    let mut b = crabmap::builder::Builder::new("/w".to_string(), "default".to_string());
    let src = "mod inner {\n    fn f() {}\n}\n";
    let entries = vec![
        ItemEntry {
            parent: None,
            item: ItemInfo::Mod { name: "inner".to_string(), visibility: None, docs: vec!["Inner.".to_string()] },
        },
        ItemEntry {
            parent: Some(0),
            item: ItemInfo::Function {
                name: "f".to_string(),
                signature: "fn f()".to_string(),
                visibility: None,
                docs: vec![],
                body: FnBody { params: vec![], returns: vec![], calls: vec![] },
            },
        },
    ];
    crabmap::items::index_file(&mut b, "crate:demo", "demo", "/w/src/lib.rs", "/w/src/m.rs", src, &entries);
    assert_eq!(b.nodes.len(), 4);
    let m = b.nodes[1].name.clone();
    assert_eq!(b.nodes[2].id, format!("module:{m}::inner"));
    assert_eq!(b.nodes[2].qualified_name, format!("{m}::inner"));
    assert_eq!(b.nodes[2].signature.as_deref(), Some("mod inner"));
    assert_eq!(b.nodes[2].docs.as_deref(), Some("Inner."));
    assert_eq!(b.nodes[3].id, format!("function:{m}::inner::f"));
    assert_eq!(b.nodes[3].range.map(|r| r.start_line), Some(2));
    assert!(b.nodes.iter().all(|n| n.qualified_name != format!("{m}::f")));
    let declares: Vec<(String, String)> = b
        .edges
        .iter()
        .filter(|e| matches!(e.kind, EdgeKind::Declares))
        .map(|e| (e.from.clone(), e.to.clone()))
        .collect();
    assert_eq!(
        declares,
        vec![
            (b.nodes[1].id.clone(), format!("module:{m}::inner")),
            (format!("module:{m}::inner"), format!("function:{m}::inner::f")),
        ]
    );
}
