use vstd::prelude::*;
use crate::index::{edges_at, has_id, is_last_with_id, last_with_id, lemma_last_with_id, QueryIndex};
use crate::model::{CodeGraph, Edge, EdgeKind, Node, NodeKind};
use crate::query::{adjacent, adjacent_spec, find_nodes, find_nodes_spec, is_suggestion, names_view, require_unique_node, suggest};
use crate::seqs::select;
use crate::strs::{chars_of, ends_with_seq, owned, str_ends_with, str_eq};
use crate::text::append_str;
use crate::traversal::walk;

verus! {

// ---------------------------------------------------------------------------
// Edge kinds by name
// ---------------------------------------------------------------------------

/// The edge kind whose name is `s`, if any.
pub open spec fn edge_kind_named(s: Seq<char>) -> Option<EdgeKind> {
    if s == EdgeKind::Contains.name_spec() {
        Some(EdgeKind::Contains)
    } else if s == EdgeKind::Declares.name_spec() {
        Some(EdgeKind::Declares)
    } else if s == EdgeKind::Imports.name_spec() {
        Some(EdgeKind::Imports)
    } else if s == EdgeKind::Calls.name_spec() {
        Some(EdgeKind::Calls)
    } else if s == EdgeKind::Implements.name_spec() {
        Some(EdgeKind::Implements)
    } else if s == EdgeKind::HasMethod.name_spec() {
        Some(EdgeKind::HasMethod)
    } else if s == EdgeKind::UsesType.name_spec() {
        Some(EdgeKind::UsesType)
    } else if s == EdgeKind::Returns.name_spec() {
        Some(EdgeKind::Returns)
    } else if s == EdgeKind::ModuleFile.name_spec() {
        Some(EdgeKind::ModuleFile)
    } else if s == EdgeKind::PossibleDispatch.name_spec() {
        Some(EdgeKind::PossibleDispatch)
    } else {
        None
    }
}

/// The edge kind named `s` (see [`edge_kind_named`]).
pub fn parse_edge_kind(s: &str) -> (r: Option<EdgeKind>)
    ensures
        r == edge_kind_named(s@),
{
    if str_eq(s, EdgeKind::Contains.as_str()) {
        Some(EdgeKind::Contains)
    } else if str_eq(s, EdgeKind::Declares.as_str()) {
        Some(EdgeKind::Declares)
    } else if str_eq(s, EdgeKind::Imports.as_str()) {
        Some(EdgeKind::Imports)
    } else if str_eq(s, EdgeKind::Calls.as_str()) {
        Some(EdgeKind::Calls)
    } else if str_eq(s, EdgeKind::Implements.as_str()) {
        Some(EdgeKind::Implements)
    } else if str_eq(s, EdgeKind::HasMethod.as_str()) {
        Some(EdgeKind::HasMethod)
    } else if str_eq(s, EdgeKind::UsesType.as_str()) {
        Some(EdgeKind::UsesType)
    } else if str_eq(s, EdgeKind::Returns.as_str()) {
        Some(EdgeKind::Returns)
    } else if str_eq(s, EdgeKind::ModuleFile.as_str()) {
        Some(EdgeKind::ModuleFile)
    } else if str_eq(s, EdgeKind::PossibleDispatch.as_str()) {
        Some(EdgeKind::PossibleDispatch)
    } else {
        None
    }
}

// ---------------------------------------------------------------------------
// Neighbours
// ---------------------------------------------------------------------------

/// A walk from a symbol.
pub struct NeighborsReport {
    pub root: usize,
    pub items: Vec<(usize, usize, usize)>,
}

/// The walk from the node `name` designates along edges named `edge_kind`
/// (none when no kind has that name), outward or inward, `depth` levels deep;
/// when it lists fewer than `limit` nodes it lists all of them. Fails as
/// [`require_unique_node`] does.
pub fn neighbors(graph: &CodeGraph, name: &str, edge_kind: &str, outbound: bool, depth: usize, limit: usize) -> (r: Result<NeighborsReport, String>)
    requires
        crate::index::weights_fit(graph.edges@),
    ensures
        r is Ok <==> find_nodes_spec(graph.nodes@, name@).len() == 1,
        r matches Ok(rep) ==> rep.root == find_nodes_spec(graph.nodes@, name@)[0] && rep.root < graph.nodes.len() && match edge_kind_named(edge_kind@) {
            Some(k) => (forall|i: int| 0 <= i < rep.items.len() ==> crate::traversal::walk_entry(*graph, rep.root, outbound, Some(k), depth as nat, rep.items@, i))
                && crate::traversal::walked_nodes(rep.items@).no_duplicates()
                && (rep.items.len() < limit ==> crate::traversal::walk_complete(*graph, rep.root, outbound, Some(k), depth as nat, rep.items@)),
            None => rep.items@.len() == 0,
        },
        r matches Err(msg) ==> crate::query::lookup_failed(graph.nodes@, "symbol"@, name@, name.len() as nat, msg@),
{
    let index = QueryIndex::new(graph);
    let root = match require_unique_node(graph, name, "symbol") {
        Ok(p) => p,
        Err(e) => return Err(e),
    };
    let items = match parse_edge_kind(edge_kind) {
        Some(k) => walk(&index, graph, root, outbound, Some(k), depth, limit, false),
        None => Vec::new(),
    };
    Ok(NeighborsReport { root, items })
}

// ---------------------------------------------------------------------------
// Files
// ---------------------------------------------------------------------------

/// A file node whose name is `path`, or whose name or qualified name ends with it.
pub open spec fn file_pick(path: Seq<char>) -> spec_fn(Node) -> bool {
    |n: Node| n.kind == NodeKind::File && (n.name@ == path || ends_with_seq(n.name@, path) || ends_with_seq(n.qualified_name@, path))
}

/// The first of `es` (edge positions) whose edge has kind `k`.
pub open spec fn first_of_kind(edges: Seq<Edge>, es: Seq<usize>, k: EdgeKind) -> Option<usize>
    decreases es.len(),
{
    if es.len() == 0 {
        None
    } else if edges[es[0] as int].kind == k {
        Some(es[0])
    } else {
        first_of_kind(edges, es.drop_first(), k)
    }
}

/// The names of the nodes of kind `k`, in order.
pub open spec fn names_of_kind(nodes: Seq<Node>, k: NodeKind) -> Seq<Seq<char>>
    decreases nodes.len(),
{
    if nodes.len() == 0 {
        Seq::empty()
    } else if nodes.last().kind == k {
        names_of_kind(nodes.drop_last(), k).push(nodes.last().name@)
    } else {
        names_of_kind(nodes.drop_last(), k)
    }
}

fn kind_names(graph: &CodeGraph, k: NodeKind) -> (v: Vec<String>)
    ensures
        names_view(v@) == names_of_kind(graph.nodes@, k),
{
    let mut v: Vec<String> = Vec::new();
    let mut i: usize = 0;
    while i < graph.nodes.len()
        invariant
            i <= graph.nodes.len(),
            names_view(v@) == names_of_kind(graph.nodes@.take(i as int), k),
        decreases graph.nodes.len() - i,
    {
        assert(graph.nodes@.take(i + 1).drop_last() =~= graph.nodes@.take(i as int));
        if graph.nodes[i].kind == k {
            let ghost prev = v@;
            v.push(owned(graph.nodes[i].name.as_str()));
            assert(names_view(v@) =~= names_view(prev).push(graph.nodes@[i as int].name@));
        }
        i = i + 1;
    }
    assert(graph.nodes@.take(graph.nodes.len() as int) =~= graph.nodes@);
    v
}

/// `msg` reports that `what` `name` was not found, with a hint among `names`.
pub open spec fn missing_message(what: Seq<char>, name: Seq<char>, name_bytes: nat, names: Seq<Seq<char>>, msg: Seq<char>) -> bool {
    exists|hint: Seq<char>|
        #![trigger is_suggestion(name, name_bytes, names, 3, hint)]
        is_suggestion(name, name_bytes, names, 3, hint) && msg == what + " `"@ + name + "` not found"@ + hint
}

fn missing(what: &str, name: &str, names: &Vec<String>) -> (m: String)
    ensures
        missing_message(what@, name@, name.len() as nat, names_view(names@), m@),
{
    let hint = suggest(name, names, 3);
    let mut m = owned(what);
    append_str(&mut m, " `");
    append_str(&mut m, name);
    append_str(&mut m, "` not found");
    append_str(&mut m, hint.as_str());
    m
}

/// What a file query reports: the file node, the symbols its module declares,
/// its module edges and its incoming and outgoing neighbours.
pub struct FileReport {
    pub node: usize,
    pub declares: Vec<(usize, usize)>,
    pub module: Vec<(usize, usize)>,
    pub incoming: Vec<(usize, usize)>,
    pub outgoing: Vec<(usize, usize)>,
}

/// The symbols declared by the module that the first module edge of file
/// node `p` leads to (none without such an edge or module node).
pub open spec fn file_declares(graph: CodeGraph, p: int) -> Seq<(usize, usize)> {
    match first_of_kind(graph.edges@, edges_at(graph.edges@, graph.nodes@[p].id@, true), EdgeKind::ModuleFile) {
        Some(e) => if has_id(graph.nodes@, graph.edges@[e as int].to@) {
            adjacent_spec(graph, last_with_id(graph.nodes@, graph.edges@[e as int].to@), true, Some(EdgeKind::Declares), 500)
        } else {
            Seq::empty()
        },
        None => Seq::empty(),
    }
}

/// The first file node matching `path` (see [`file_pick`]) with what its module
/// declares (up to 500), its module edges (20) and its neighbours (100 each
/// way); an error with a hint among the file names when none matches.
pub fn file(graph: &CodeGraph, path: &str) -> (r: Result<FileReport, String>)
    requires
        crate::index::weights_fit(graph.edges@),
    ensures
        ({
            let all = select(graph.nodes@, graph.nodes@.len() as int, file_pick(path@));
            &&& r is Err <==> all.len() == 0
            &&& r matches Err(msg) ==> missing_message("file"@, path@, path.len() as nat, names_of_kind(graph.nodes@, NodeKind::File), msg@)
            &&& r matches Ok(rep) ==> rep.node == all[0] && rep.node < graph.nodes.len()
                && rep.declares@ == file_declares(*graph, rep.node as int)
                && rep.module@ == adjacent_spec(*graph, rep.node as int, true, Some(EdgeKind::ModuleFile), 20)
                && rep.incoming@ == adjacent_spec(*graph, rep.node as int, false, None, 100)
                && rep.outgoing@ == adjacent_spec(*graph, rep.node as int, true, None, 100)
        }),
{
    let ghost nodes = graph.nodes@;
    let ghost pick = file_pick(path@);
    let index = QueryIndex::new(graph);
    let mut k: usize = 0;
    let mut found: Option<usize> = None;
    while k < graph.nodes.len()
        invariant
            k <= graph.nodes.len(),
            nodes == graph.nodes@,
            pick == file_pick(path@),
            found is None ==> select(nodes, k as int, pick).len() == 0,
            found matches Some(p) ==> select(nodes, k as int, pick).len() > 0 && select(nodes, k as int, pick)[0] == p,
        decreases graph.nodes.len() - k,
    {
        let n = &graph.nodes[k];
        let hit = n.kind == NodeKind::File && (str_eq(n.name.as_str(), path) || str_ends_with(n.name.as_str(), path)
            || str_ends_with(n.qualified_name.as_str(), path));
        assert(pick(nodes[k as int]) == hit);
        if found.is_none() && hit {
            found = Some(k);
        }
        proof {
            let s = select(nodes, k as int, pick);
            let s2 = select(nodes, k + 1, pick);
            if hit {
                assert(s2 == s.push(k as usize));
                if s.len() > 0 {
                    assert(s2[0] == s[0]);
                }
            }
        }
        k = k + 1;
    }
    let p = match found {
        Some(p) => p,
        None => {
            let names = kind_names(graph, NodeKind::File);
            return Err(missing("file", path, &names));
        },
    };
    proof {
        crate::seqs::lemma_select_members(nodes, nodes.len() as int, pick);
    }
    let es = index.edges_of(graph, p, true);
    let mut first: Option<usize> = None;
    let mut i: usize = 0;
    assert(es@.skip(0) =~= es@);
    while i < es.len()
        invariant
            i <= es.len(),
            forall|t: int| 0 <= t < es.len() ==> es@[t] < graph.edges.len(),
            first is None ==> first_of_kind(graph.edges@, es@, EdgeKind::ModuleFile) == first_of_kind(graph.edges@, es@.skip(i as int), EdgeKind::ModuleFile),
            first matches Some(e) ==> first_of_kind(graph.edges@, es@, EdgeKind::ModuleFile) == Some(e) && e < graph.edges.len(),
        decreases es.len() - i,
    {
        if first.is_none() {
            let ghost tail = es@.skip(i as int);
            assert(tail[0] == es@[i as int]);
            assert(tail.drop_first() =~= es@.skip(i + 1));
            if graph.edges[es[i]].kind == EdgeKind::ModuleFile {
                first = Some(es[i]);
            }
        }
        i = i + 1;
    }
    proof {
        if first is None {
            assert(es@.skip(es.len() as int) =~= Seq::<usize>::empty());
        }
    }
    let declares = match first {
        Some(e) => {
            let to = chars_of(graph.edges[e].to.as_str());
            match index.lookup(graph, &to) {
                Some(m) => {
                    proof {
                        lemma_last_with_id(nodes, to@, m as int);
                    }
                    adjacent(&index, graph, m, true, Some(EdgeKind::Declares), 500)
                },
                None => Vec::new(),
            }
        },
        None => Vec::new(),
    };
    let module = adjacent(&index, graph, p, true, Some(EdgeKind::ModuleFile), 20);
    let incoming = adjacent(&index, graph, p, false, None, 100);
    let outgoing = adjacent(&index, graph, p, true, None, 100);
    Ok(FileReport { node: p, declares, module, incoming, outgoing })
}

// ---------------------------------------------------------------------------
// Modules
// ---------------------------------------------------------------------------

/// What a module query reports.
pub struct ModuleReport {
    pub node: usize,
    pub declares: Vec<(usize, usize)>,
    pub imports: Vec<(usize, usize)>,
    pub incoming: Vec<(usize, usize)>,
}

/// The positions among `s` of module nodes, in order.
pub open spec fn modules_among(nodes: Seq<Node>, s: Seq<usize>) -> Seq<usize>
    decreases s.len(),
{
    if s.len() == 0 {
        Seq::empty()
    } else if nodes[s.last() as int].kind == NodeKind::Module {
        modules_among(nodes, s.drop_last()).push(s.last())
    } else {
        modules_among(nodes, s.drop_last())
    }
}

proof fn lemma_modules_among(nodes: Seq<Node>, s: Seq<usize>)
    ensures
        forall|t: int| 0 <= t < modules_among(nodes, s).len() ==> s.contains(#[trigger] modules_among(nodes, s)[t]),
    decreases s.len(),
{
    if s.len() > 0 {
        lemma_modules_among(nodes, s.drop_last());
        let prev = modules_among(nodes, s.drop_last());
        assert forall|t: int| 0 <= t < modules_among(nodes, s).len() implies s.contains(#[trigger] modules_among(nodes, s)[t]) by {
            if t < prev.len() {
                assert(modules_among(nodes, s)[t] == prev[t]);
                let w = choose|w: int| 0 <= w < s.drop_last().len() && s.drop_last()[w] == prev[t];
                assert(s[w] == prev[t]);
            } else {
                assert(s[s.len() - 1] == s.last());
            }
        }
    }
}

/// The module nodes among the nodes `name` designates, in order.
pub open spec fn module_matches(nodes: Seq<Node>, name: Seq<char>) -> Seq<usize> {
    modules_among(nodes, find_nodes_spec(nodes, name))
}

/// The first module among `ms` that declares something.
pub open spec fn first_declaring(graph: CodeGraph, ms: Seq<usize>) -> Option<usize>
    decreases ms.len(),
{
    if ms.len() == 0 {
        None
    } else if adjacent_spec(graph, ms[0] as int, true, Some(EdgeKind::Declares), 1).len() > 0 {
        Some(ms[0])
    } else {
        first_declaring(graph, ms.drop_first())
    }
}

/// The module node `name` designates: among the designated module nodes, the
/// first that declares something, else the first; with its declarations (up
/// to 500), imports (200) and incoming neighbours (100). An error with a hint
/// among the module names when no module node matches.
pub fn module(graph: &CodeGraph, name: &str) -> (r: Result<ModuleReport, String>)
    requires
        crate::index::weights_fit(graph.edges@),
    ensures
        ({
            let ms = module_matches(graph.nodes@, name@);
            &&& r is Err <==> ms.len() == 0
            &&& r matches Err(msg) ==> missing_message("module"@, name@, name.len() as nat, names_of_kind(graph.nodes@, NodeKind::Module), msg@)
            &&& r matches Ok(rep) ==> rep.node < graph.nodes.len() && rep.node == match first_declaring(*graph, ms) {
                Some(p) => p,
                None => ms[0],
            } && rep.declares@ == adjacent_spec(*graph, rep.node as int, true, Some(EdgeKind::Declares), 500)
                && rep.imports@ == adjacent_spec(*graph, rep.node as int, true, Some(EdgeKind::Imports), 200)
                && rep.incoming@ == adjacent_spec(*graph, rep.node as int, false, None, 100)
        }),
{
    let index = QueryIndex::new(graph);
    let all = find_nodes(graph, name);
    let ghost fa = all@;
    let mut ms: Vec<usize> = Vec::new();
    let mut i: usize = 0;
    while i < all.len()
        invariant
            i <= all.len(),
            fa == all@,
            forall|t: int| 0 <= t < all.len() ==> all@[t] < graph.nodes.len(),
            ms@ == modules_among(graph.nodes@, fa.take(i as int)),
        decreases all.len() - i,
    {
        assert(fa.take(i + 1).drop_last() =~= fa.take(i as int));
        assert(fa.take(i + 1).last() == fa[i as int]);
        if graph.nodes[all[i]].kind == NodeKind::Module {
            ms.push(all[i]);
        }
        i = i + 1;
    }
    assert(fa.take(all.len() as int) =~= fa);
    let ghost msv = ms@;
    assert(msv == module_matches(graph.nodes@, name@));
    if ms.len() == 0 {
        let names = kind_names(graph, NodeKind::Module);
        return Err(missing("module", name, &names));
    }
    proof {
        lemma_modules_among(graph.nodes@, fa);
        assert forall|t: int| 0 <= t < msv.len() implies msv[t] < graph.nodes.len() by {
            assert(fa.contains(msv[t]));
        }
    }
    let mut chosen: Option<usize> = None;
    let mut j: usize = 0;
    assert(msv.skip(0) =~= msv);
    while j < ms.len()
        invariant
            j <= ms.len(),
            msv == ms@,
            index.describes(graph),
            forall|t: int| 0 <= t < msv.len() ==> msv[t] < graph.nodes.len(),
            chosen is None ==> first_declaring(*graph, msv) == first_declaring(*graph, msv.skip(j as int)),
            chosen matches Some(c) ==> first_declaring(*graph, msv) == Some(c) && c < graph.nodes.len(),
        decreases ms.len() - j,
    {
        if chosen.is_none() {
            let ghost tail = msv.skip(j as int);
            assert(tail[0] == msv[j as int]);
            assert(tail.drop_first() =~= msv.skip(j + 1));
            let probe = adjacent(&index, graph, ms[j], true, Some(EdgeKind::Declares), 1);
            if probe.len() > 0 {
                chosen = Some(ms[j]);
            }
        }
        j = j + 1;
    }
    proof {
        if chosen is None {
            assert(msv.skip(ms.len() as int) =~= Seq::<usize>::empty());
        }
    }
    assert(msv[0] < graph.nodes.len());
    let node = match chosen {
        Some(c) => c,
        None => ms[0],
    };
    let declares = adjacent(&index, graph, node, true, Some(EdgeKind::Declares), 500);
    let imports = adjacent(&index, graph, node, true, Some(EdgeKind::Imports), 200);
    let incoming = adjacent(&index, graph, node, false, None, 100);
    Ok(ModuleReport { node, declares, imports, incoming })
}


// ---------------------------------------------------------------------------
// Search and symbol lists
// ---------------------------------------------------------------------------

/// The nodes that best match `query` (see [`crate::ranking::ranked_nodes`]).
pub fn search(graph: &CodeGraph, query: &str, limit: usize) -> (r: Vec<usize>)
    requires
        crate::index::weights_fit(graph.edges@),
    ensures
        crate::ranking::search_listing(*graph, crate::ranking::word_runs(crate::strs::lowercase(query@)), limit as nat, r@),
{
    let index = QueryIndex::new(graph);
    crate::ranking::ranked_nodes(graph, &index, query, limit)
}

/// The entries of `s` whose node's kind is named `kind` (all when `None`).
pub open spec fn of_kind(nodes: Seq<Node>, s: Seq<usize>, kind: Option<Seq<char>>) -> Seq<usize>
    decreases s.len(),
{
    if s.len() == 0 {
        Seq::empty()
    } else {
        let prev = of_kind(nodes, s.drop_last(), kind);
        match kind {
            Some(k) => if nodes[s.last() as int].kind.name_spec() == k {
                prev.push(s.last())
            } else {
                prev
            },
            None => prev.push(s.last()),
        }
    }
}

pub open spec fn opt_str(o: Option<&str>) -> Option<Seq<char>> {
    match o {
        Some(s) => Some(s@),
        None => None,
    }
}

/// The best `limit` matches of `query` (all nodes when there is none), then
/// those of kind `kind`, if given.
pub fn symbols(graph: &CodeGraph, query: Option<&str>, kind: Option<&str>, limit: usize) -> (r: Vec<usize>)
    requires
        crate::index::weights_fit(graph.edges@),
    ensures
        exists|s: Seq<usize>|
            crate::ranking::search_listing(
                *graph,
                crate::ranking::word_runs(crate::strs::lowercase(match query {
                    Some(q) => q@,
                    None => ""@,
                })),
                limit as nat,
                s,
            ) && r@ == of_kind(graph.nodes@, s, opt_str(kind)),
{
    let q = match query {
        Some(q) => q,
        None => "",
    };
    let ranked = search(graph, q, limit);
    let ghost rs = ranked@;
    let mut r: Vec<usize> = Vec::new();
    let mut i: usize = 0;
    while i < ranked.len()
        invariant
            i <= ranked.len(),
            rs == ranked@,
            forall|t: int| 0 <= t < ranked.len() ==> ranked@[t] < graph.nodes.len(),
            r@ == of_kind(graph.nodes@, rs.take(i as int), opt_str(kind)),
        decreases ranked.len() - i,
    {
        assert(rs.take(i + 1).drop_last() =~= rs.take(i as int));
        assert(rs.take(i + 1).last() == rs[i as int]);
        let keep = match kind {
            Some(k) => str_eq(graph.nodes[ranked[i]].kind.as_str(), k),
            None => true,
        };
        if keep {
            r.push(ranked[i]);
        }
        i = i + 1;
    }
    assert(rs.take(ranked.len() as int) =~= rs);
    r
}

// ---------------------------------------------------------------------------
// Summary
// ---------------------------------------------------------------------------

/// Line and edge counts of a file node.
pub struct FileStat {
    pub node: usize,
    pub lines: usize,
    pub outbound: usize,
    pub inbound: usize,
    pub symbols: usize,
}

/// Number of edges of `es` (edge positions) whose kind is `k`.
pub open spec fn count_kind(edges: Seq<Edge>, es: Seq<usize>, k: EdgeKind) -> nat
    decreases es.len(),
{
    if es.len() == 0 {
        0
    } else {
        count_kind(edges, es.drop_last(), k) + if edges[es.last() as int].kind == k {
            1nat
        } else {
            0nat
        }
    }
}

/// The edges at file node `p`, in and out (saturating).
pub open spec fn file_traffic(graph: CodeGraph, p: int) -> nat {
    crate::ranking::cap(
        edges_at(graph.edges@, graph.nodes@[p].id@, true).len() + edges_at(graph.edges@, graph.nodes@[p].id@, false).len(),
    )
}

/// `s` describes file node `s.node`.
pub open spec fn file_stat_ok(graph: CodeGraph, s: FileStat) -> bool {
    let id = graph.nodes@[s.node as int].id@;
    &&& s.node < graph.nodes.len()
    &&& graph.nodes@[s.node as int].kind == NodeKind::File
    &&& s.lines == match crate::health::metric_spec(graph.nodes@[s.node as int].metrics@, "lines"@) {
        Some(v) => v,
        None => 0,
    }
    &&& s.outbound == edges_at(graph.edges@, id, true).len()
    &&& s.inbound == edges_at(graph.edges@, id, false).len()
    &&& s.symbols == count_kind(graph.edges@, edges_at(graph.edges@, id, true), EdgeKind::ModuleFile)
}

/// Among files, `p` comes before `q`: more edges, then position.
pub open spec fn busier_file(graph: CodeGraph, p: int, q: int) -> bool {
    crate::ranking::ranked_before(file_traffic(graph, p), Seq::empty(), Seq::empty(), p, file_traffic(graph, q), Seq::empty(), Seq::empty(), q)
}

fn file_stat(index: &QueryIndex, graph: &CodeGraph, p: usize) -> (s: FileStat)
    requires
        index.describes(graph),
        p < graph.nodes.len(),
        graph.nodes@[p as int].kind == NodeKind::File,
    ensures
        file_stat_ok(*graph, s),
        s.node == p,
{
    let out = index.edges_of(graph, p, true);
    let inc = index.edges_of(graph, p, false);
    let mut symbols: usize = 0;
    let mut i: usize = 0;
    let ghost ov = out@;
    while i < out.len()
        invariant
            i <= out.len(),
            ov == out@,
            forall|t: int| 0 <= t < out.len() ==> out@[t] < graph.edges.len(),
            symbols == count_kind(graph.edges@, ov.take(i as int), EdgeKind::ModuleFile),
            symbols <= i,
        decreases out.len() - i,
    {
        assert(ov.take(i + 1).drop_last() =~= ov.take(i as int));
        assert(ov.take(i + 1).last() == ov[i as int]);
        if graph.edges[out[i]].kind == EdgeKind::ModuleFile {
            symbols = symbols + 1;
        }
        i = i + 1;
    }
    assert(ov.take(out.len() as int) =~= ov);
    proof {
        reveal_strlit("lines");
    }
    let lines = match crate::health::metric(&graph.nodes[p].metrics, "lines") {
        Some(v) => v,
        None => 0,
    };
    FileStat { node: p, lines, outbound: out.len(), inbound: inc.len(), symbols }
}

/// What the summary reports besides the project and its statistics.
pub struct SummaryReport {
    pub stats: crate::model::GraphStats,
    pub top_files: Vec<FileStat>,
    pub hot_symbols: Vec<usize>,
}

/// The graph's statistics, its busiest files (most edges first, at most
/// `limit`) and its hot symbols (at most `limit`).
pub fn summary(graph: &CodeGraph, limit: usize) -> (r: SummaryReport)
    requires
        crate::index::weights_fit(graph.edges@),
    ensures
        r.top_files.len() <= limit,
        forall|i: int| 0 <= i < r.top_files.len() ==> file_stat_ok(*graph, #[trigger] r.top_files@[i]),
        forall|i: int, j: int| 0 <= i < j < r.top_files.len() ==> busier_file(*graph, r.top_files@[i].node as int, r.top_files@[j].node as int),
        forall|q: int|
            0 <= q < graph.nodes.len() && graph.nodes@[q].kind == NodeKind::File ==> (exists|i: int| 0 <= i < r.top_files.len() && r.top_files@[i].node == q)
                || (r.top_files.len() == limit && forall|i: int| 0 <= i < r.top_files.len() ==> busier_file(*graph, r.top_files@[i].node as int, q)),
        r.hot_symbols.len() <= limit,
        forall|i: int|
            0 <= i < r.hot_symbols.len() ==> r.hot_symbols@[i] < graph.nodes.len() && crate::ranking::hot_candidate(*graph, 0, r.hot_symbols@[i] as int),
        forall|i: int, j: int|
            0 <= i < j < r.hot_symbols.len() ==> crate::ranking::hot_before(*graph, r.hot_symbols@[i] as int, r.hot_symbols@[j] as int),
        forall|t: int|
            0 <= t < graph.nodes.len() && crate::ranking::hot_candidate(*graph, 0, t) ==> r.hot_symbols@.contains(t as usize) || (
            r.hot_symbols.len() == limit && forall|i: int| 0 <= i < r.hot_symbols.len() ==> crate::ranking::hot_before(*graph, r.hot_symbols@[i] as int, t)),
        r.stats.nodes == graph.nodes.len(),
        r.stats.edges == graph.edges.len(),
{
    let index = QueryIndex::new(graph);
    let n = graph.nodes.len();
    let mut keys: Vec<crate::rank::RankKey> = Vec::new();
    let mut cand: Vec<usize> = Vec::new();
    let mut p: usize = 0;
    while p < n
        invariant
            n == graph.nodes.len(),
            index.describes(graph),
            p <= n,
            keys.len() == cand.len(),
            forall|k: int| 0 <= k < cand.len() ==> cand@[k] < p && graph.nodes@[cand@[k] as int].kind == NodeKind::File,
            forall|a: int, b: int| 0 <= a < b < cand.len() ==> cand@[a] < cand@[b],
            forall|q: int| 0 <= q < p && graph.nodes@[q].kind == NodeKind::File ==> cand@.contains(q as usize),
            forall|k: int|
                #![trigger keys@[k]]
                0 <= k < keys.len() ==> keys@[k].hi == file_traffic(*graph, cand@[k] as int) && keys@[k].lo == 0
                    && keys@[k].a@ == Seq::<char>::empty() && keys@[k].b@ == Seq::<char>::empty(),
        decreases n - p,
    {
        if graph.nodes[p].kind == NodeKind::File {
            let out = index.edges_of(graph, p, true).len();
            let inc = index.edges_of(graph, p, false).len();
            let key = crate::rank::RankKey { hi: out.saturating_add(inc), lo: 0, a: Vec::new(), b: Vec::new() };
            let ghost old_cand = cand@;
            keys.push(key);
            cand.push(p);
            proof {
                assert(keys@[keys.len() - 1].a@ =~= Seq::<char>::empty());
                assert(keys@[keys.len() - 1].b@ =~= Seq::<char>::empty());
                assert forall|q: int| 0 <= q < p + 1 && graph.nodes@[q].kind == NodeKind::File implies cand@.contains(q as usize) by {
                    if q == p {
                        assert(cand@[old_cand.len() as int] == p);
                    } else {
                        let k = choose|k: int| 0 <= k < old_cand.len() && old_cand[k] == q as usize;
                        assert(cand@[k] == q as usize);
                    }
                }
            }
        }
        p = p + 1;
    }
    let idx = crate::rank::top_ranked(&keys, limit);
    let mut top: Vec<FileStat> = Vec::new();
    let mut i: usize = 0;
    while i < idx.len()
        invariant
            i <= idx.len(),
            index.describes(graph),
            top.len() == i,
            forall|j: int| 0 <= j < idx.len() ==> idx@[j] < keys.len(),
            keys.len() == cand.len(),
            forall|k: int| 0 <= k < cand.len() ==> cand@[k] < graph.nodes.len() && graph.nodes@[cand@[k] as int].kind == NodeKind::File,
            forall|j: int| 0 <= j < i ==> file_stat_ok(*graph, #[trigger] top@[j]) && top@[j].node == cand@[idx@[j] as int],
        decreases idx.len() - i,
    {
        top.push(file_stat(&index, graph, cand[idx[i]]));
        i = i + 1;
    }
    proof {
        assert forall|i: int, j: int| 0 <= i < j < top.len() implies busier_file(*graph, top@[i].node as int, top@[j].node as int) by {
            assert(crate::rank::kb(keys@, idx@[i], idx@[j]));
            if idx@[i] < idx@[j] {
                assert(cand@[idx@[i] as int] < cand@[idx@[j] as int]);
            } else if idx@[i] > idx@[j] {
                assert(cand@[idx@[j] as int] < cand@[idx@[i] as int]);
            }
        }
        assert forall|q: int|
            0 <= q < n && graph.nodes@[q].kind == NodeKind::File implies (exists|i: int| 0 <= i < top.len() && top@[i].node == q)
                || (top.len() == limit && forall|i: int| 0 <= i < top.len() ==> busier_file(*graph, top@[i].node as int, q)) by {
            assert(cand@.contains(q as usize));
            let k = choose|k: int| 0 <= k < cand.len() && cand@[k] == q as usize;
            let ku = k as usize;
            if idx@.contains(ku) {
                let i = choose|i: int| 0 <= i < idx.len() && idx@[i] == ku;
                assert(top@[i].node == q);
            } else {
                assert forall|i: int| 0 <= i < top.len() implies busier_file(*graph, top@[i].node as int, q) by {
                    assert(crate::rank::kb(keys@, idx@[i], ku));
                    if idx@[i] < ku {
                        assert(cand@[idx@[i] as int] < cand@[k]);
                    } else if idx@[i] > ku {
                        assert(cand@[k] < cand@[idx@[i] as int]);
                    }
                }
            }
        }
    }
    let hot = crate::ranking::hot_symbols(graph, &index, limit);
    SummaryReport { stats: graph.stats(), top_files: top, hot_symbols: hot }
}

} // verus!
