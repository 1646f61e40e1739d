use vstd::prelude::*;
use crate::builder::{distinct_ids, lemma_frame, lemma_wf_distinct, Builder, IndexOptions, NodeInput};
use crate::items::{entries_size, file_indexed, index_file, item_size, ItemEntry, ItemInfo};
use crate::model::{BuildProfile, CodeGraph, EdgeKind, NodeKind, Package, Project, Target};
use crate::paths::relative_spec;
use crate::seqs::strings_view;
use crate::strs::{cat, clone_strings, contains_string, owned};

verus! {

// ---------------------------------------------------------------------------
// A project as read from disk
// ---------------------------------------------------------------------------

/// A Rust source file of a target: its path, the root file of its target,
/// and its text with its items, or why it could not be read or parsed.
pub struct SourceFile {
    pub path: String,
    pub target_root: String,
    pub parsed: Result<(String, Vec<ItemEntry>), String>,
}

/// A workspace member: its name, manifest path, description, the targets
/// whose root file exists (paths as found) and the files of those targets.
pub struct PackageInput {
    pub name: String,
    pub manifest_path: String,
    pub description: Option<String>,
    pub targets: Vec<Target>,
    pub files: Vec<SourceFile>,
}

/// What indexing a project reads: the project's root, its workspace root and
/// the workspace members.
pub struct ProjectInput {
    pub root: String,
    pub workspace_root: String,
    pub packages: Vec<PackageInput>,
}

/// The last `/`-separated piece of `path`, or `project` when it is empty.
pub open spec fn last_piece_from(path: Seq<char>, k: int) -> int
    decreases k,
{
    if k <= 0 {
        0
    } else if path[k - 1] == '/' {
        k
    } else {
        last_piece_from(path, k - 1)
    }
}

/// The name of a project: the last piece of its workspace root, or `project`.
pub open spec fn project_name_spec(root: Seq<char>) -> Seq<char> {
    let start = last_piece_from(root, root.len() as int);
    if start >= root.len() {
        "project"@
    } else {
        root.skip(start)
    }
}

proof fn lemma_last_piece_bounds(path: Seq<char>, k: int)
    requires
        0 <= k <= path.len(),
    ensures
        0 <= last_piece_from(path, k) <= k,
    decreases k,
{
    if k > 0 && path[k - 1] != '/' {
        lemma_last_piece_bounds(path, k - 1);
    }
}

/// The name of a project (see [`project_name_spec`]).
pub fn project_name(root: &str) -> (r: String)
    ensures
        r@ == project_name_spec(root@),
{
    let v = crate::strs::chars_of(root);
    let mut k: usize = v.len();
    while k > 0 && v[k - 1] != '/'
        invariant
            k <= v.len(),
            v@ == root@,
            last_piece_from(root@, root@.len() as int) == last_piece_from(root@, k as int),
        decreases k,
    {
        k = k - 1;
    }
    proof {
        reveal_strlit("project");
        lemma_last_piece_bounds(root@, root@.len() as int);
    }
    if k >= v.len() {
        owned("project")
    } else {
        let r = crate::strs::string_from_range(&v, k, v.len());
        assert(r@ =~= root@.skip(k as int));
        r
    }
}

/// A path relative to the builder's root; an empty path stays empty.
fn rel(b: &Builder, path: &str) -> (r: String)
    requires
        b.root@.len() >= 1,
    ensures
        path@.len() >= 1 ==> r@ == relative_spec(b.root@, path@),
        path@.len() == 0 ==> r@.len() == 0,
{
    if crate::strs::chars_of(path).len() == 0 {
        owned(path)
    } else {
        b.relative(path)
    }
}

fn item_size_exec(item: &ItemInfo) -> (n: usize)
    ensures
        n == item_size(*item) || (n == usize::MAX && item_size(*item) >= usize::MAX),
{
    match item {
        ItemInfo::Struct { fields, .. } => fields.len().saturating_add(1),
        ItemInfo::Enum { variants, .. } => variants.len().saturating_add(1),
        ItemInfo::Trait { methods, .. } => methods.len().saturating_add(1),
        ItemInfo::Impl { functions, .. } => functions.len().saturating_add(1),
        _ => 1,
    }
}

/// The room a file's entries may take among the ids, saturating.
fn entries_size_exec(entries: &Vec<ItemEntry>) -> (n: usize)
    ensures
        n < usize::MAX ==> n == entries_size(entries@),
        n == usize::MAX ==> entries_size(entries@) >= usize::MAX,
{
    let mut acc: usize = 0;
    let mut k: usize = 0;
    while k < entries.len()
        invariant
            k <= entries.len(),
            acc < usize::MAX ==> acc == entries_size(entries@.take(k as int)),
            acc == usize::MAX ==> entries_size(entries@.take(k as int)) >= usize::MAX,
        decreases entries.len() - k,
    {
        proof {
            assert(entries@.take(k + 1).drop_last() =~= entries@.take(k as int));
            assert(entries@.take(k + 1).last() == entries@[k as int]);
        }
        let s = item_size_exec(&entries[k].item);
        acc = acc.saturating_add(s);
        k = k + 1;
    }
    assert(entries@.take(entries.len() as int) =~= entries@);
    acc
}

/// `after` is `before` with the warning `w` added and nothing else changed.
pub open spec fn warned(before: Builder, after: Builder, w: Seq<char>) -> bool {
    &&& after.nodes == before.nodes
    &&& after.edges == before.edges
    &&& after.pending == before.pending
    &&& after.ids == before.ids
    &&& after.root == before.root
    &&& after.profile == before.profile
    &&& strings_view(after.warnings@) == strings_view(before.warnings@).push(w)
}

/// Some file before position `f` of `files` has the path of file `f`.
pub open spec fn earlier_path(files: Seq<SourceFile>, f: int) -> bool {
    exists|j: int| 0 <= j < f && #[trigger] files[j].path@ == files[f].path@
}

/// A parsed file can be indexed: its path and root file are known and its
/// symbols fit among the ids left after `used`.
pub open spec fn file_fits(file: SourceFile, entries: Seq<ItemEntry>, used: nat) -> bool {
    file.path@.len() >= 1 && file.target_root@.len() >= 1 && used + entries_size(entries) + 4 < usize::MAX
}

/// What the `f`-th file of a package does to the builder: nothing when an
/// earlier file had its path; a warning `path: reason` when it could not be
/// read or parsed; a warning `path: too many symbols to index` when it does
/// not fit; else it is indexed into the crate `crate_name` (see
/// [`file_indexed`]).
pub open spec fn file_step(before: Builder, after: Builder, crate_name: Seq<char>, files: Seq<SourceFile>, f: int) -> bool {
    let file = files[f];
    if earlier_path(files, f) {
        after == before
    } else {
        match file.parsed {
            Err(e) => warned(before, after, file.path@ + ": "@ + e@),
            Ok(parsed) => if file_fits(file, parsed.1@, before.claimed()) {
                exists|fid: Seq<char>|
                    #[trigger] file_indexed(before, after, crate_name, file.target_root@, file.path@, parsed.0@, parsed.1@, fid)
            } else {
                warned(before, after, file.path@ + ": too many symbols to index"@)
            },
        }
    }
}

/// The crate node of package `pkg` appended to `before`, contained in the
/// project node `project_id`.
pub open spec fn crate_added(before: Builder, after: Builder, project_id: Seq<char>, pkg: PackageInput) -> bool {
    let n0 = before.nodes@.len() as int;
    let c = after.nodes@[n0];
    &&& after.wf()
    &&& after.nodes@.len() == n0 + 1
    &&& after.nodes@.take(n0) == before.nodes@
    &&& c.kind == NodeKind::Crate
    &&& c.name@ == pkg.name@
    &&& c.qualified_name@ == pkg.name@
    &&& after.pending == before.pending
    &&& after.warnings == before.warnings
    &&& after.root == before.root
    &&& after.profile == before.profile
    &&& crate::builder::edge_recorded(
        before.edges@,
        after.edges@,
        project_id,
        c.id@,
        EdgeKind::Contains,
        None,
        None,
        crate::model::EdgeSource::Ast,
        crate::model::EdgeCertainty::Definite,
        None,
        before.profile@,
    )
}

/// What package `pkg` does to the builder: a warning `name: too many symbols
/// to index` when the ids are nearly used up; else its crate node, then each
/// of its files in turn (see [`file_step`]).
pub open spec fn package_step(before: Builder, after: Builder, project_id: Seq<char>, pkg: PackageInput) -> bool {
    if before.claimed() >= usize::MAX - 3 {
        warned(before, after, pkg.name@ + ": too many symbols to index"@)
    } else {
        exists|fs: Seq<Builder>|
            #![trigger fs.len()]
            fs.len() == pkg.files@.len() + 1 && crate_added(before, fs[0], project_id, pkg) && fs.last() == after
                && forall|f: int| 0 <= f < pkg.files@.len() ==> #[trigger] file_step(fs[f], fs[f + 1], pkg.name@, pkg.files@, f)
    }
}

/// The edges of `pre` with its pending references resolved, then the trait
/// dispatch edges added.
pub open spec fn resolved_then_dispatched(pre: Builder, edges: Seq<crate::model::Edge>) -> bool {
    exists|mid: Seq<crate::model::Edge>|
        #[trigger] crate::builder::records_all(pre.edges@, crate::builder::pending_requests(pre.nodes@, pre.pending@), mid, pre.profile@)
            && crate::builder::records_all(
            mid,
            crate::dispatch::dispatch_links(pre.nodes@, mid).map_values(
                |t: (Seq<char>, Seq<char>, Seq<char>)| crate::builder::dispatch_request(t),
            ),
            edges,
            pre.profile@,
        )
}

/// Indexes a project: a project node named after the workspace root; for each
/// member package a crate node the project contains, and its source files, each
/// once (see [`index_file`]); a file that could not be read or parsed, or whose
/// symbols would not fit among the ids, leaves a warning `path: reason`
/// instead (see [`package_step`], [`file_step`]). Then call targets are resolved
/// and trait dispatch edges added (see [`resolved_then_dispatched`]). The
/// graph records paths relative to the workspace root, the build profile of
/// `options` and the time `now_ms`.
pub fn index_project(input: &ProjectInput, options: &IndexOptions, now_ms: u128) -> (g: CodeGraph)
    requires
        input.workspace_root@.len() >= 1,
    ensures
        g.schema_version == 2,
        distinct_ids(g.nodes@),
        g.nodes.len() >= 1,
        g.nodes@[0].kind == NodeKind::Project,
        g.nodes@[0].name@ == project_name_spec(input.workspace_root@),
        g.nodes@[0].qualified_name@ == input.workspace_root@,
        input.root@.len() >= 1 ==> g.project.root@ == relative_spec(input.workspace_root@, input.root@),
        g.project.workspace_root@ == relative_spec(input.workspace_root@, input.workspace_root@),
        g.project.packages.len() == input.packages.len(),
        forall|i: int|
            0 <= i < input.packages.len() ==> (#[trigger] g.project.packages@[i]).name@ == input.packages@[i].name@
                && g.project.packages@[i].targets.len() == input.packages@[i].targets.len(),
        g.profiles.len() == 1,
        g.profiles@[0].name@ == options.profile@,
        strings_view(g.profiles@[0].features@) == strings_view(options.features@),
        g.profiles@[0].all_features == options.all_features,
        g.profiles@[0].no_default_features == options.no_default_features,
        g.semantic is None,
        g.mir is None,
        g.generated_at_ms == now_ms,
        exists|states: Seq<Builder>|
            #![trigger states.len()]
            states.len() == input.packages@.len() + 1 && states[0].nodes@ == seq![g.nodes@[0]] && states[0].edges@.len() == 0
                && states[0].pending@.len() == 0 && states[0].warnings@.len() == 0 && (forall|p: int|
                0 <= p < input.packages@.len() ==> #[trigger] package_step(states[p], states[p + 1], g.nodes@[0].id@, input.packages@[p]))
                && g.nodes@ == states.last().nodes@ && g.warnings@ == states.last().warnings@ && resolved_then_dispatched(states.last(), g.edges@),
{
    let mut b = Builder::new(owned(input.workspace_root.as_str()), owned(options.profile.as_str()));
    let project_id = b.add_node(NodeInput {
        kind: NodeKind::Project,
        name: project_name(input.workspace_root.as_str()),
        qualified_name: owned(input.workspace_root.as_str()),
        file: None,
        range: None,
        visibility: None,
        signature: None,
        docs: Vec::new(),
        metrics: Vec::new(),
    });
    let ghost first = b.nodes@[0];
    let ghost mut states: Seq<Builder> = seq![b];
    assert(b.nodes@ =~= seq![first]);
    let mut packages: Vec<Package> = Vec::new();
    let mut p: usize = 0;
    while p < input.packages.len()
        invariant
            states.len() == p + 1,
            states[0].nodes@ == seq![first],
            states[0].edges@.len() == 0,
            states[0].pending@.len() == 0,
            states[0].warnings@.len() == 0,
            states[p as int] == b,
            project_id@ == first.id@,
            forall|q: int| 0 <= q < p ==> #[trigger] package_step(states[q], states[q + 1], first.id@, input.packages@[q]),
            b.wf(),
            b.root@ == input.workspace_root@,
            input.workspace_root@.len() >= 1,
            b.profile@ == options.profile@,
            b.nodes@.len() >= 1,
            b.nodes@[0] == first,
            p <= input.packages.len(),
            packages.len() == p,
            forall|i: int|
                0 <= i < p ==> (#[trigger] packages@[i]).name@ == input.packages@[i].name@ && packages@[i].targets.len()
                    == input.packages@[i].targets.len(),
        decreases input.packages.len() - p,
    {
        let pkg = &input.packages[p];
        let manifest = rel(&b, pkg.manifest_path.as_str());
        let mut docs: Vec<String> = Vec::new();
        match &pkg.description {
            Some(d) => docs.push(owned(d.as_str())),
            None => {},
        }
        let mut targets: Vec<Target> = Vec::new();
        let mut t: usize = 0;
        while t < pkg.targets.len()
            invariant
                b.root@ == input.workspace_root@,
                b.root@.len() >= 1,
                t <= pkg.targets.len(),
                targets.len() == t,
            decreases pkg.targets.len() - t,
        {
            let tg = &pkg.targets[t];
            targets.push(Target {
                name: owned(tg.name.as_str()),
                kind: clone_strings(&tg.kind),
                src_path: rel(&b, tg.src_path.as_str()),
            });
            t = t + 1;
        }
        if b.claimed_count() >= usize::MAX - 3 {
            let ghost before = b;
            b.warnings.push(cat(pkg.name.as_str(), ": too many symbols to index"));
            proof {
                lemma_frame(b, before);
                reveal_strlit(": too many symbols to index");
                assert(strings_view(b.warnings@) =~= strings_view(before.warnings@).push(pkg.name@ + ": too many symbols to index"@));
                assert(package_step(before, b, first.id@, *pkg));
                let sb = states;
                states = states.push(b);
                assert forall|q: int| 0 <= q < p + 1 implies #[trigger] package_step(states[q], states[q + 1], first.id@, input.packages@[q]) by {
                    if q < p {
                        assert(states[q] == sb[q] && states[q + 1] == sb[q + 1]);
                    }
                }
            }
            packages.push(Package { name: owned(pkg.name.as_str()), manifest_path: manifest, targets });
            p = p + 1;
            continue;
        }
        let ghost before_pkg = b;
        let crate_id = b.add_node(NodeInput {
            kind: NodeKind::Crate,
            name: owned(pkg.name.as_str()),
            qualified_name: owned(pkg.name.as_str()),
            file: Some(owned(manifest.as_str())),
            range: None,
            visibility: None,
            signature: None,
            docs,
            metrics: Vec::new(),
        });
        let ghost before_edge = b;
        b.edge(project_id.as_str(), crate_id.as_str(), EdgeKind::Contains, None, None, None);
        proof {
            lemma_frame(b, before_edge);
            assert(before_edge.nodes@.drop_last() == before_pkg.nodes@);
            assert(before_edge.nodes@.take(before_pkg.nodes@.len() as int) =~= before_pkg.nodes@);
            assert(crate_added(before_pkg, b, first.id@, *pkg));
        }
        let ghost mut fs: Seq<Builder> = seq![b];
        let mut seen: Vec<String> = Vec::new();
        let mut f: usize = 0;
        while f < pkg.files.len()
            invariant
                fs.len() == f + 1,
                crate_added(before_pkg, fs[0], first.id@, *pkg),
                fs[f as int] == b,
                pkg == input.packages@[p as int],
                forall|x: Seq<char>| strings_view(seen@).contains(x) <==> exists|j: int| 0 <= j < f && #[trigger] pkg.files@[j].path@ == x,
                forall|q: int| 0 <= q < f ==> #[trigger] file_step(fs[q], fs[q + 1], pkg.name@, pkg.files@, q),
                b.wf(),
                b.root@ == input.workspace_root@,
                input.workspace_root@.len() >= 1,
                b.profile@ == options.profile@,
                b.nodes@.len() >= 1,
                b.nodes@[0] == first,
                f <= pkg.files.len(),
            decreases pkg.files.len() - f,
        {
            let file = &pkg.files[f];
            let ghost before_file = b;
            if contains_string(&seen, file.path.as_str()) {
                proof {
                    let j = choose|j: int| 0 <= j < f && #[trigger] pkg.files@[j].path@ == file.path@;
                    assert(earlier_path(pkg.files@, f as int));
                    let sb = fs;
                    fs = fs.push(b);
                    assert forall|q: int| 0 <= q < f + 1 implies #[trigger] file_step(fs[q], fs[q + 1], pkg.name@, pkg.files@, q) by {
                        if q < f {
                            assert(fs[q] == sb[q] && fs[q + 1] == sb[q + 1]);
                        }
                    }
                    assert forall|x: Seq<char>| strings_view(seen@).contains(x) <==> exists|j: int| 0 <= j < f + 1 && #[trigger] pkg.files@[j].path@ == x by {
                        if exists|j: int| 0 <= j < f + 1 && #[trigger] pkg.files@[j].path@ == x {
                            let j = choose|j: int| 0 <= j < f + 1 && #[trigger] pkg.files@[j].path@ == x;
                            if j == f {
                                let j2 = choose|j2: int| 0 <= j2 < f && #[trigger] pkg.files@[j2].path@ == file.path@;
                                assert(pkg.files@[j2].path@ == x);
                            }
                        }
                    }
                }
                f = f + 1;
                continue;
            }
            proof {
                assert(!earlier_path(pkg.files@, f as int)) by {
                    if earlier_path(pkg.files@, f as int) {
                        let j = choose|j: int| 0 <= j < f && #[trigger] pkg.files@[j].path@ == pkg.files@[f as int].path@;
                        assert(strings_view(seen@).contains(file.path@));
                    }
                }
            }
            let ghost seen_before = seen@;
            seen.push(owned(file.path.as_str()));
            proof {
                assert(strings_view(seen@) =~= strings_view(seen_before).push(file.path@));
                assert forall|x: Seq<char>| strings_view(seen@).contains(x) <==> exists|j: int| 0 <= j < f + 1 && #[trigger] pkg.files@[j].path@ == x by {
                    if strings_view(seen@).contains(x) {
                        let q = choose|q: int| 0 <= q < strings_view(seen@).len() && strings_view(seen@)[q] == x;
                        if q < seen_before.len() {
                            assert(strings_view(seen_before)[q] == x);
                            assert(strings_view(seen_before).contains(x));
                        } else {
                            assert(pkg.files@[f as int].path@ == x);
                        }
                    }
                    if exists|j: int| 0 <= j < f + 1 && #[trigger] pkg.files@[j].path@ == x {
                        let j = choose|j: int| 0 <= j < f + 1 && #[trigger] pkg.files@[j].path@ == x;
                        if j < f {
                            assert(strings_view(seen_before).contains(x));
                            let q = choose|q: int| 0 <= q < strings_view(seen_before).len() && strings_view(seen_before)[q] == x;
                            assert(strings_view(seen@)[q] == x);
                        } else {
                            assert(strings_view(seen@)[seen_before.len() as int] == x);
                        }
                    }
                }
            }
            match &file.parsed {
                Err(e) => {
                    let head = cat(file.path.as_str(), ": ");
                    let ghost before = b;
                    b.warnings.push(cat(head.as_str(), e.as_str()));
                    proof {
                        lemma_frame(b, before);
                        assert(strings_view(b.warnings@) =~= strings_view(before.warnings@).push(file.path@ + ": "@ + e@));
                    }
                },
                Ok((source, entries)) => {
                    let size = entries_size_exec(entries);
                    let used = b.claimed_count();
                    if crate::strs::chars_of(file.path.as_str()).len() == 0 || crate::strs::chars_of(file.target_root.as_str()).len() == 0 || size >= usize::MAX - 4 || used
                        >= usize::MAX - 4 - size {
                        let head = cat(file.path.as_str(), ": ");
                        let ghost before = b;
                        b.warnings.push(cat(head.as_str(), "too many symbols to index"));
                        proof {
                            lemma_frame(b, before);
                            reveal_strlit(": ");
                            reveal_strlit("too many symbols to index");
                            reveal_strlit(": too many symbols to index");
                            assert(file.path@ + ": "@ + "too many symbols to index"@ =~= file.path@ + ": too many symbols to index"@);
                            assert(strings_view(b.warnings@) =~= strings_view(before.warnings@).push(file.path@ + ": too many symbols to index"@));
                            assert(!file_fits(*file, entries@, before.claimed()));
                        }
                    } else {
                        let ghost before = b.nodes@;
                        let ghost bb = b;
                        let fid = index_file(
                            &mut b,
                            crate_id.as_str(),
                            pkg.name.as_str(),
                            file.target_root.as_str(),
                            file.path.as_str(),
                            source.as_str(),
                            entries,
                        );
                        proof {
                            assert(b.nodes@.take(before.len() as int) == before);
                            assert(b.nodes@[0] == b.nodes@.take(before.len() as int)[0]);
                            assert(file_fits(*file, entries@, bb.claimed()));
                            assert(file_indexed(bb, b, pkg.name@, file.target_root@, file.path@, source@, entries@, fid@));
                        }
                    }
                },
            }
            proof {
                assert(file_step(before_file, b, pkg.name@, pkg.files@, f as int));
                let sb = fs;
                fs = fs.push(b);
                assert forall|q: int| 0 <= q < f + 1 implies #[trigger] file_step(fs[q], fs[q + 1], pkg.name@, pkg.files@, q) by {
                    if q < f {
                        assert(fs[q] == sb[q] && fs[q + 1] == sb[q + 1]);
                    }
                }
            }
            f = f + 1;
        }
        proof {
            assert(fs.last() == b);
            assert(package_step(before_pkg, b, first.id@, *pkg));
            let sb = states;
            states = states.push(b);
            assert forall|q: int| 0 <= q < p + 1 implies #[trigger] package_step(states[q], states[q + 1], first.id@, input.packages@[q]) by {
                if q < p {
                    assert(states[q] == sb[q] && states[q + 1] == sb[q + 1]);
                }
            }
        }
        packages.push(Package { name: owned(pkg.name.as_str()), manifest_path: manifest, targets });
        p = p + 1;
    }
    let ghost pre = b;
    let ghost before_resolve = b;
    b.resolve_pending();
    b.add_trait_dispatch_edges();
    proof {
        lemma_frame(b, before_resolve);
        lemma_wf_distinct(b);
        assert(states.last() == pre);
    }
    let root_rel = rel(&b, input.root.as_str());
    let ws_rel = rel(&b, input.workspace_root.as_str());
    let mut profiles: Vec<BuildProfile> = Vec::new();
    let target = match &options.target {
        Some(t) => Some(owned(t.as_str())),
        None => None,
    };
    profiles.push(BuildProfile {
        name: owned(options.profile.as_str()),
        features: clone_strings(&options.features),
        all_features: options.all_features,
        no_default_features: options.no_default_features,
        target,
    });
    CodeGraph {
        schema_version: 2,
        project: Project { root: root_rel, workspace_root: ws_rel, packages },
        nodes: b.nodes,
        edges: b.edges,
        warnings: b.warnings,
        semantic: None,
        mir: None,
        profiles,
        generated_at_ms: now_ms,
    }
}

/// Several graphs read as one: the first graph's schema, roots, enrichment
/// records and time, with the nodes, edges, warnings, packages and profiles
/// of the first followed by those of the second.
pub fn merge(first: CodeGraph, second: CodeGraph) -> (g: CodeGraph)
    ensures
        g.schema_version == first.schema_version,
        g.project.root == first.project.root,
        g.project.workspace_root == first.project.workspace_root,
        g.project.packages@ == first.project.packages@ + second.project.packages@,
        g.nodes@ == first.nodes@ + second.nodes@,
        g.edges@ == first.edges@ + second.edges@,
        g.warnings@ == first.warnings@ + second.warnings@,
        g.profiles@ == first.profiles@ + second.profiles@,
        g.semantic == first.semantic,
        g.mir == first.mir,
        g.generated_at_ms == first.generated_at_ms,
{
    let mut a = first;
    let mut b = second;
    a.nodes.append(&mut b.nodes);
    a.edges.append(&mut b.edges);
    a.warnings.append(&mut b.warnings);
    a.profiles.append(&mut b.profiles);
    a.project.packages.append(&mut b.project.packages);
    a
}

} // verus!
