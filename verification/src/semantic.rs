use vstd::prelude::*;
use crate::builder::{claim_id, id_base, is_first_free, opt_view};
use crate::helpers::{all_white, all_white_exec};
use crate::lex::lex_lt;
use crate::mir::{has_call, is_first_call, profiles_view};
use crate::model::{CodeGraph, Edge, EdgeCertainty, EdgeKind, EdgeSource, Location, Node, NodeKind, Range};
use crate::seqs::{count_where, select, strings_view};
use crate::split::replace_char_exec;
use crate::strs::{cat, chars_of, owned, str_eq, string_from_chars};
use crate::strset::StrSet;

verus! {

/// A symbol rust-analyzer is asked about: a function or method with a file
/// and a line range.
pub open spec fn semantic_target() -> spec_fn(Node) -> bool {
    |n: Node| (n.kind == NodeKind::Function || n.kind == NodeKind::Method) && n.file is Some && n.range is Some
}

/// The symbols whose call hierarchy semantic enrichment asks for: the first
/// `limit` functions and methods with a file and a line range, in node order.
pub fn semantic_targets(graph: &CodeGraph, limit: usize) -> (r: Vec<usize>)
    ensures
        r@ == select(graph.nodes@, graph.nodes@.len() as int, semantic_target()).take(r@.len() as int),
        r@.len() == limit || r@ == select(graph.nodes@, graph.nodes@.len() as int, semantic_target()),
        r@.len() <= limit,
{
    let ghost nodes = graph.nodes@;
    let ghost pick = semantic_target();
    let mut r: Vec<usize> = Vec::new();
    let mut k: usize = 0;
    while k < graph.nodes.len() && r.len() < limit
        invariant
            k <= graph.nodes.len(),
            nodes == graph.nodes@,
            pick == semantic_target(),
            r@ == select(nodes, k as int, pick),
            r@.len() <= limit,
        decreases graph.nodes.len() - k,
    {
        let n = &graph.nodes[k];
        if (n.kind == NodeKind::Function || n.kind == NodeKind::Method) && n.file.is_some() && n.range.is_some() {
            r.push(k);
        }
        k = k + 1;
    }
    proof {
        crate::health::lemma_select_prefix(nodes, k as int, nodes.len() as int, pick);
        if r@.len() < limit {
            assert(k == nodes.len());
        }
    }
    r
}

/// The files whose document symbols semantic enrichment reads: the names of
/// the file nodes, in node order.
pub fn semantic_files(graph: &CodeGraph) -> (r: Vec<String>)
    ensures
        strings_view(r@) == select(graph.nodes@, graph.nodes@.len() as int, |n: Node| n.kind == NodeKind::File).map_values(
            |i: usize| graph.nodes@[i as int].name@,
        ),
{
    let ghost nodes = graph.nodes@;
    let ghost pick = |n: Node| n.kind == NodeKind::File;
    let mut r: Vec<String> = Vec::new();
    let mut k: usize = 0;
    while k < graph.nodes.len()
        invariant
            k <= graph.nodes.len(),
            nodes == graph.nodes@,
            pick == (|n: Node| n.kind == NodeKind::File),
            strings_view(r@) == select(nodes, k as int, pick).map_values(|i: usize| nodes[i as int].name@),
        decreases graph.nodes.len() - k,
    {
        let n = &graph.nodes[k];
        let ghost before = r@;
        if n.kind == NodeKind::File {
            r.push(owned(n.name.as_str()));
            assert(strings_view(r@) =~= strings_view(before).push(n.name@));
        }
        assert(select(nodes, k + 1, pick).map_values(|i: usize| nodes[i as int].name@) =~= if pick(nodes[k as int]) {
            select(nodes, k as int, pick).map_values(|i: usize| nodes[i as int].name@).push(nodes[k as int].name@)
        } else {
            select(nodes, k as int, pick).map_values(|i: usize| nodes[i as int].name@)
        });
        k = k + 1;
    }
    r
}


// ---------------------------------------------------------------------------
// Applying an outgoing call hierarchy
// ---------------------------------------------------------------------------

/// One outgoing call reported for a symbol: the callee's name, whether its
/// file lies inside the project, its path relative to the project (when
/// known), the detail shown for it, its kind, its range, and where the call is.
pub struct CallItem {
    pub name: String,
    pub inside: bool,
    pub file: Option<String>,
    pub detail: Option<String>,
    pub kind: NodeKind,
    pub range: Option<Range>,
    pub evidence: Option<Location>,
}

/// What applying one call did.
pub enum CallOutcome {
    Inserted,
    Confirmed,
    Skipped,
    Unresolved,
}

/// The first node at or after `i` named `name` whose file is `file` (any file
/// when `None`).
pub open spec fn first_named_from(nodes: Seq<Node>, name: Seq<char>, file: Option<Seq<char>>, i: int) -> Option<usize>
    decreases nodes.len() - i,
{
    if i < 0 || i >= nodes.len() {
        None
    } else if nodes[i].name@ == name && (file matches Some(f) ==> opt_view(nodes[i].file) == Some(f)) {
        Some(i as usize)
    } else {
        first_named_from(nodes, name, file, i + 1)
    }
}

/// The ids of the nodes.
pub open spec fn node_ids(nodes: Seq<Node>) -> Set<Seq<char>> {
    Set::new(|x: Seq<char>| exists|i: int| 0 <= i < nodes.len() && #[trigger] nodes[i].id@ == x)
}

/// The qualified name of a node made for a callee: its detail and name when
/// the detail is not blank, else its file and name, else its name.
pub open spec fn callee_qname(item: CallItem) -> Seq<char> {
    if item.detail is Some && !all_white(item.detail->0@) {
        item.detail->0@ + "::"@ + item.name@
    } else if item.file is Some {
        item.file->0@ + "::"@ + item.name@
    } else {
        item.name@
    }
}

/// `n` is the node made for the callee `item` under the id `id`.
pub open spec fn callee_node(n: Node, id: Seq<char>, item: CallItem) -> bool {
    &&& n.id@ == id
    &&& n.kind == item.kind
    &&& n.name@ == item.name@
    &&& n.qualified_name@ == callee_qname(item)
    &&& opt_view(n.file) == opt_view(item.file)
    &&& n.range == item.range
    &&& n.visibility is None
    &&& opt_view(n.signature) == opt_view(item.detail)
    &&& n.docs is None
    &&& n.metrics@.len() == 0
}

/// The callee of `item` resolved against `nodes`: none when its file lies
/// outside the project; else the first node with its name (and file); else a
/// new node under the first free id for it, appended to `nodes`.
pub open spec fn callee_resolved(nodes: Seq<Node>, after: Seq<Node>, item: CallItem, id: Option<Seq<char>>) -> bool {
    if !item.inside {
        id is None && after == nodes
    } else {
        match first_named_from(nodes, item.name@, opt_view(item.file), 0) {
            Some(q) => id == Some(nodes[q as int].id@) && after == nodes,
            None => id matches Some(nid) && is_first_free(id_base(item.kind, callee_qname(item)), node_ids(nodes), nid)
                && after.len() == nodes.len() + 1 && after.drop_last() == nodes && callee_node(after.last(), nid, item),
        }
    }
}

/// Recording a confirmed call from `from` to `to`: nothing for a call to
/// itself; else the first call edge between them gains one weight and becomes
/// a confirmed rust-analyzer edge; else a new one is appended, of weight one,
/// labelled as an outgoing call, at `evidence`, under the profiles `profiles`.
pub open spec fn call_recorded(
    before: Seq<Edge>,
    after: Seq<Edge>,
    from: Seq<char>,
    to: Seq<char>,
    evidence: Option<Location>,
    profiles: Seq<Seq<char>>,
    r: CallOutcome,
) -> bool {
    if from == to {
        r is Skipped && after == before
    } else if has_call(before, from, to) {
        &&& r is Confirmed
        &&& exists|k: int| #![trigger is_first_call(before, from, to, k)] is_first_call(before, from, to, k) && {
            let e = before[k];
            let f = after[k];
            &&& after.len() == before.len()
            &&& forall|j: int| 0 <= j < before.len() && j != k ==> after[j] == before[j]
            &&& f.from == e.from && f.to == e.to && f.kind == e.kind && f.label == e.label && f.evidence == e.evidence
            &&& f.call_style == e.call_style && f.profiles == e.profiles
            &&& f.weight == e.weight + 1
            &&& f.source == EdgeSource::RustAnalyzer
            &&& f.certainty == EdgeCertainty::Confirmed
        }
    } else {
        &&& r is Inserted
        &&& after.len() == before.len() + 1
        &&& after.drop_last() == before
        &&& {
            let f = after.last();
            &&& f.from@ == from && f.to@ == to && f.kind == EdgeKind::Calls
            &&& (f.label matches Some(l) && l@ == "rust-analyzer outgoing call"@)
            &&& f.evidence == evidence
            &&& f.weight == 1 && f.source == EdgeSource::RustAnalyzer && f.certainty == EdgeCertainty::Confirmed
            &&& f.call_style is None
            &&& profiles_view(f.profiles@) == profiles
        }
    }
}

/// Applying one outgoing call of the node with id `from` (`None` for a call
/// reported without a callee).
pub open spec fn call_applied(
    nodes: Seq<Node>,
    edges: Seq<Edge>,
    nodes2: Seq<Node>,
    edges2: Seq<Edge>,
    from: Seq<char>,
    call: Option<CallItem>,
    profiles: Seq<Seq<char>>,
    r: CallOutcome,
) -> bool {
    match call {
        None => r is Unresolved && nodes2 == nodes && edges2 == edges,
        Some(item) => exists|id: Option<Seq<char>>|
            #[trigger] callee_resolved(nodes, nodes2, item, id) && match id {
                None => r is Unresolved && edges2 == edges,
                Some(t) => call_recorded(edges, edges2, from, t, item.evidence, profiles, r),
            },
    }
}

fn first_named(nodes: &Vec<Node>, name: &str, file: &Option<String>) -> (r: Option<usize>)
    ensures
        r == first_named_from(nodes@, name@, opt_view(*file), 0),
        r matches Some(q) ==> q < nodes@.len(),
{
    let mut i: usize = 0;
    while i < nodes.len()
        invariant
            i <= nodes.len(),
            first_named_from(nodes@, name@, opt_view(*file), 0) == first_named_from(nodes@, name@, opt_view(*file), i as int),
        decreases nodes.len() - i,
    {
        let n = &nodes[i];
        let file_ok = match file {
            Some(f) => match &n.file {
                Some(g) => str_eq(g.as_str(), f.as_str()),
                None => false,
            },
            None => true,
        };
        if str_eq(n.name.as_str(), name) && file_ok {
            return Some(i);
        }
        i = i + 1;
    }
    None
}

fn ids_of(nodes: &Vec<Node>) -> (s: StrSet)
    ensures
        s.wf(),
        s.members() == node_ids(nodes@),
        s.size() <= nodes@.len(),
{
    let mut s = StrSet::new();
    let mut i: usize = 0;
    while i < nodes.len()
        invariant
            i <= nodes.len(),
            s.wf(),
            s.size() <= i,
            forall|x: Seq<char>| s.members().contains(x) <==> exists|j: int| 0 <= j < i && #[trigger] nodes@[j].id@ == x,
        decreases nodes.len() - i,
    {
        s.insert(chars_of(nodes[i].id.as_str()));
        proof {
            assert forall|x: Seq<char>| s.members().contains(x) <==> exists|j: int| 0 <= j < i + 1 && #[trigger] nodes@[j].id@ == x by {
                if x == nodes@[i as int].id@ {
                    assert(nodes@[i as int].id@ == x);
                }
            }
        }
        i = i + 1;
    }
    assert(s.members() =~= node_ids(nodes@));
    s
}

fn opt_string(o: &Option<String>) -> (r: Option<String>)
    ensures
        opt_view(r) == opt_view(*o),
{
    match o {
        Some(s) => Some(owned(s.as_str())),
        None => None,
    }
}

fn copy_location(o: &Option<Location>) -> (r: Option<Location>)
    ensures
        r == *o,
{
    match o {
        Some(l) => Some(Location { file: l.file.clone(), line: l.line }),
        None => None,
    }
}

/// The qualified name of a node made for a callee (see [`callee_qname`]).
fn callee_qname_exec(item: &CallItem) -> (r: String)
    ensures
        r@ == callee_qname(*item),
{
    match &item.detail {
        Some(d) => {
            if !all_white_exec(&chars_of(d.as_str())) {
                let head = cat(d.as_str(), "::");
                return cat(head.as_str(), item.name.as_str());
            }
        },
        None => {},
    }
    match &item.file {
        Some(f) => {
            let head = cat(f.as_str(), "::");
            cat(head.as_str(), item.name.as_str())
        },
        None => owned(item.name.as_str()),
    }
}

/// Resolves the callee of `item` (see [`callee_resolved`]), adding a node for
/// it when none has its name.
fn resolve_callee(graph: &mut CodeGraph, item: &CallItem) -> (id: Option<String>)
    requires
        old(graph).nodes@.len() < usize::MAX - 3,
    ensures
        callee_resolved(old(graph).nodes@, final(graph).nodes@, *item, opt_view(id)),
        final(graph).edges == old(graph).edges,
        final(graph).profiles == old(graph).profiles,
        final(graph).project == old(graph).project,
        final(graph).warnings == old(graph).warnings,
        final(graph).semantic == old(graph).semantic,
        final(graph).mir == old(graph).mir,
{
    if !item.inside {
        return None;
    }
    match first_named(&graph.nodes, item.name.as_str(), &item.file) {
        Some(q) => {
            return Some(owned(graph.nodes[q].id.as_str()));
        },
        None => {},
    }
    let qn = callee_qname_exec(item);
    let q = chars_of(qn.as_str());
    let q1 = replace_char_exec(&q, ' ', '_');
    let q2 = replace_char_exec(&q1, '\n', '_');
    let q3 = replace_char_exec(&q2, '\t', '_');
    let mut base = owned(item.kind.as_str());
    base.append(":");
    let tail = string_from_chars(&q3);
    base.append(tail.as_str());
    assert(base@ == id_base(item.kind, callee_qname(*item)));
    let mut ids = ids_of(&graph.nodes);
    let id = claim_id(&mut ids, base);
    let node = Node {
        id: owned(id.as_str()),
        kind: item.kind,
        name: owned(item.name.as_str()),
        qualified_name: qn,
        file: opt_string(&item.file),
        range: item.range,
        visibility: None,
        signature: opt_string(&item.detail),
        docs: None,
        metrics: Vec::new(),
    };
    let ghost before = graph.nodes@;
    graph.nodes.push(node);
    assert(graph.nodes@.drop_last() =~= before);
    Some(id)
}

/// The names of build profiles, in order.
pub open spec fn graph_profile_names(profiles: Seq<crate::model::BuildProfile>) -> Seq<Seq<char>> {
    profiles.map_values(|p: crate::model::BuildProfile| p.name@)
}

/// The names of the graph's build profiles.
fn profile_names(graph: &CodeGraph) -> (r: Vec<String>)
    ensures
        profiles_view(r@) == graph_profile_names(graph.profiles@),
{
    let mut r: Vec<String> = Vec::new();
    let mut k: usize = 0;
    while k < graph.profiles.len()
        invariant
            k <= graph.profiles.len(),
            profiles_view(r@) == graph.profiles@.take(k as int).map_values(|p: crate::model::BuildProfile| p.name@),
        decreases graph.profiles.len() - k,
    {
        let ghost before = r@;
        r.push(owned(graph.profiles[k].name.as_str()));
        assert(profiles_view(r@) =~= graph.profiles@.take(k + 1).map_values(|p: crate::model::BuildProfile| p.name@)) by {
            assert(profiles_view(r@) =~= profiles_view(before).push(graph.profiles@[k as int].name@));
        }
        k = k + 1;
    }
    assert(graph.profiles@.take(graph.profiles.len() as int) =~= graph.profiles@);
    r
}

/// Records a confirmed call (see [`call_recorded`]).
fn record_call(edges: &mut Vec<Edge>, from: &str, to: &str, evidence: Option<Location>, profiles: &Vec<String>) -> (r: CallOutcome)
    requires
        forall|k: int| 0 <= k < old(edges)@.len() ==> (#[trigger] old(edges)@[k]).weight < usize::MAX,
    ensures
        call_recorded(old(edges)@, final(edges)@, from@, to@, evidence, profiles_view(profiles@), r),
{
    if str_eq(from, to) {
        return CallOutcome::Skipped;
    }
    let mut k: usize = 0;
    while k < edges.len()
        invariant
            k <= edges.len(),
            edges@ == old(edges)@,
            from@ != to@,
            forall|j: int| 0 <= j < edges@.len() ==> (#[trigger] edges@[j]).weight < usize::MAX,
            forall|j: int| 0 <= j < k ==> !(edges@[j].from@ == from@ && edges@[j].to@ == to@ && edges@[j].kind == EdgeKind::Calls),
        decreases edges.len() - k,
    {
        if str_eq(edges[k].from.as_str(), from) && str_eq(edges[k].to.as_str(), to) && edges[k].kind == EdgeKind::Calls {
            let ghost before = edges@;
            assert(before[k as int].weight < usize::MAX);
            let e = &mut edges[k];
            e.weight = e.weight + 1;
            e.source = EdgeSource::RustAnalyzer;
            e.certainty = EdgeCertainty::Confirmed;
            proof {
                assert(is_first_call(before, from@, to@, k as int));
                assert(has_call(before, from@, to@));
                assert(forall|j: int| 0 <= j < before.len() && j != k ==> edges@[j] == before[j]);
            }
            return CallOutcome::Confirmed;
        }
        k = k + 1;
    }
    proof {
        if has_call(edges@, from@, to@) {
            let j = choose|j: int| 0 <= j < edges@.len() && (#[trigger] edges@[j]).from@ == from@ && edges@[j].to@ == to@ && edges@[j].kind == EdgeKind::Calls;
        }
    }
    let ghost before = edges@;
    let mut label = owned("rust-analyzer outgoing call");
    edges.push(Edge {
        from: owned(from),
        to: owned(to),
        kind: EdgeKind::Calls,
        label: Some(label),
        evidence,
        weight: 1,
        source: EdgeSource::RustAnalyzer,
        certainty: EdgeCertainty::Confirmed,
        call_style: None,
        profiles: crate::strs::clone_strings(profiles),
    });
    assert(edges@.drop_last() =~= before);
    CallOutcome::Inserted
}

/// What applying the calls of a symbol counted: edges inserted, edges
/// confirmed, and calls whose callee could not be resolved.
pub struct CallStats {
    pub enriched: usize,
    pub confirmed: usize,
    pub unresolved: usize,
}

/// Applies the outgoing calls reported for node `node`, in order (see
/// [`call_applied`]): each resolves its callee, adding a node for it when
/// needed, and records a confirmed call edge to it. Returns how many edges were
/// inserted and confirmed and how many calls were left unresolved.
pub fn apply_call_hierarchy(graph: &mut CodeGraph, node: usize, outgoing: &Vec<Option<CallItem>>) -> (s: CallStats)
    requires
        node < old(graph).nodes@.len(),
        outgoing@.len() < usize::MAX - 1,
        old(graph).nodes@.len() + outgoing@.len() < usize::MAX - 3,
        forall|k: int| 0 <= k < old(graph).edges@.len() ==> (#[trigger] old(graph).edges@[k]).weight < usize::MAX - outgoing@.len(),
    ensures
        final(graph).project == old(graph).project,
        final(graph).warnings == old(graph).warnings,
        final(graph).profiles == old(graph).profiles,
        final(graph).semantic == old(graph).semantic,
        final(graph).mir == old(graph).mir,
        exists|ns: Seq<Seq<Node>>, es: Seq<Seq<Edge>>, rs: Seq<CallOutcome>|
            #![trigger ns.len(), es.len(), rs.len()]
            ns.len() == outgoing@.len() + 1 && es.len() == outgoing@.len() + 1 && rs.len() == outgoing@.len()
                && ns[0] == old(graph).nodes@ && es[0] == old(graph).edges@ && ns.last() == final(graph).nodes@
                && es.last() == final(graph).edges@ && (forall|i: int|
                0 <= i < outgoing@.len() ==> #[trigger] call_applied(
                    ns[i],
                    es[i],
                    ns[i + 1],
                    es[i + 1],
                    old(graph).nodes@[node as int].id@,
                    outgoing@[i],
                    graph_profile_names(old(graph).profiles@),
                    rs[i],
                )) && s.enriched == count_where(rs, |r: CallOutcome| r is Inserted) && s.confirmed == count_where(
                rs,
                |r: CallOutcome| r is Confirmed,
            ) && s.unresolved == count_where(rs, |r: CallOutcome| r is Unresolved),
{
    let from = owned(graph.nodes[node].id.as_str());
    let profiles = profile_names(graph);
    let n = outgoing.len();
    let mut stats = CallStats { enriched: 0, confirmed: 0, unresolved: 0 };
    let ghost g0 = *graph;
    let ghost mut ns: Seq<Seq<Node>> = seq![graph.nodes@];
    let ghost mut es: Seq<Seq<Edge>> = seq![graph.edges@];
    let ghost mut rs: Seq<CallOutcome> = Seq::empty();
    let ghost pv = graph_profile_names(g0.profiles@);
    let mut i: usize = 0;
    while i < n
        invariant
            i <= n,
            n == outgoing@.len(),
            n < usize::MAX - 1,
            from@ == g0.nodes@[node as int].id@,
            profiles_view(profiles@) == pv,
            pv == graph_profile_names(g0.profiles@),
            graph.project == g0.project && graph.warnings == g0.warnings && graph.profiles == g0.profiles
                && graph.semantic == g0.semantic && graph.mir == g0.mir,
            graph.nodes@.len() <= g0.nodes@.len() + i,
            g0.nodes@.len() + n < usize::MAX - 3,
            forall|k: int| 0 <= k < graph.edges@.len() ==> (#[trigger] graph.edges@[k]).weight < usize::MAX - n + i,
            ns.len() == i + 1 && es.len() == i + 1 && rs.len() == i,
            ns[0] == g0.nodes@ && es[0] == g0.edges@,
            ns[i as int] == graph.nodes@ && es[i as int] == graph.edges@,
            forall|j: int| 0 <= j < i ==> #[trigger] call_applied(ns[j], es[j], ns[j + 1], es[j + 1], from@, outgoing@[j], pv, rs[j]),
            stats.enriched == count_where(rs, |r: CallOutcome| r is Inserted),
            stats.confirmed == count_where(rs, |r: CallOutcome| r is Confirmed),
            stats.unresolved == count_where(rs, |r: CallOutcome| r is Unresolved),
            stats.enriched <= i && stats.confirmed <= i && stats.unresolved <= i,
        decreases n - i,
    {
        let ghost nb = graph.nodes@;
        let ghost eb = graph.edges@;
        let r = match &outgoing[i] {
            None => CallOutcome::Unresolved,
            Some(item) => {
                let target = resolve_callee(graph, item);
                match target {
                    None => CallOutcome::Unresolved,
                    Some(t) => {
                        proof {
                            assert forall|k: int| 0 <= k < graph.edges@.len() implies (#[trigger] graph.edges@[k]).weight < usize::MAX by {
                                assert(graph.edges@[k].weight < usize::MAX - n + i);
                            }
                        }
                        record_call(&mut graph.edges, from.as_str(), t.as_str(), copy_location(&item.evidence), &profiles)
                    },
                }
            },
        };
        proof {
            assert(call_applied(nb, eb, graph.nodes@, graph.edges@, from@, outgoing@[i as int], pv, r));
            let ob = ns;
            let eo = es;
            let rb = rs;
            ns = ns.push(graph.nodes@);
            es = es.push(graph.edges@);
            rs = rs.push(r);
            assert(rs.drop_last() =~= rb);
            assert forall|j: int| 0 <= j < i + 1 implies #[trigger] call_applied(ns[j], es[j], ns[j + 1], es[j + 1], from@, outgoing@[j], pv, rs[j]) by {
                if j < i {
                    assert(ns[j] == ob[j] && ns[j + 1] == ob[j + 1] && es[j] == eo[j] && es[j + 1] == eo[j + 1] && rs[j] == rb[j]);
                }
            }
            assert forall|k: int| 0 <= k < graph.edges@.len() implies (#[trigger] graph.edges@[k]).weight < usize::MAX - n + i + 1 by {
                if k < eb.len() {
                    assert(eb[k].weight < usize::MAX - n + i);
                }
            }
        }
        match r {
            CallOutcome::Inserted => stats.enriched = stats.enriched + 1,
            CallOutcome::Confirmed => stats.confirmed = stats.confirmed + 1,
            CallOutcome::Unresolved => stats.unresolved = stats.unresolved + 1,
            CallOutcome::Skipped => {},
        }
        i = i + 1;
    }
    stats
}


// ---------------------------------------------------------------------------
// Applying the document symbols of a file
// ---------------------------------------------------------------------------

/// A symbol reported in a file's outline: the symbol as a callee would be
/// (name, file, detail, kind, range) and the line it is selected at (0 when
/// unknown).
pub struct DocSymbol {
    pub symbol: CallItem,
    pub line: usize,
}

/// The metric rust-analyzer's confirmation of a symbol is recorded under.
pub open spec fn confirmation_key() -> Seq<char> {
    "rust_analyzer_document_symbol"@
}

/// Node `n` is the symbol `s` at its line: same name, same file (when known),
/// and same first line (when both are known).
pub open spec fn confirms_at_line(n: Node, s: DocSymbol) -> bool {
    &&& n.name@ == s.symbol.name@
    &&& (s.symbol.file matches Some(f) ==> opt_view(n.file) == Some(f@))
    &&& (n.range matches Some(r) ==> s.line == 0 || r.start_line == s.line)
}

/// Node `n` has the name and file of the symbol `s`.
pub open spec fn named_like(s: DocSymbol) -> spec_fn(Node) -> bool {
    |n: Node| n.name@ == s.symbol.name@ && (s.symbol.file matches Some(f) ==> opt_view(n.file) == Some(f@))
}

/// The first node at or after `i` that is the symbol at its line.
pub open spec fn first_confirming(nodes: Seq<Node>, s: DocSymbol, i: int) -> Option<usize>
    decreases nodes.len() - i,
{
    if i < 0 || i >= nodes.len() {
        None
    } else if confirms_at_line(nodes[i], s) {
        Some(i as usize)
    } else {
        first_confirming(nodes, s, i + 1)
    }
}

/// The node a document symbol confirms: the first that is the symbol at its
/// line; else the only node with its name and file, if exactly one has them.
pub open spec fn confirmed_node(nodes: Seq<Node>, s: DocSymbol) -> Option<usize> {
    match first_confirming(nodes, s, 0) {
        Some(q) => Some(q),
        None => {
            let c = select(nodes, nodes.len() as int, named_like(s));
            if c.len() == 1 {
                Some(c[0])
            } else {
                None
            }
        },
    }
}

/// The first metric at or after `i` named `key`.
pub open spec fn metric_index(ms: Seq<(String, usize)>, key: Seq<char>, i: int) -> Option<int>
    decreases ms.len() - i,
{
    if i < 0 || i >= ms.len() {
        None
    } else if ms[i].0@ == key {
        Some(i)
    } else {
        metric_index(ms, key, i + 1)
    }
}

/// The position of the first metric at or after `i` whose name sorts after
/// `key`, or the end.
pub open spec fn metric_slot(ms: Seq<(String, usize)>, key: Seq<char>, i: int) -> int
    decreases ms.len() - i,
{
    if i < 0 || i >= ms.len() {
        ms.len() as int
    } else if lex_lt(key, ms[i].0@) {
        i
    } else {
        metric_slot(ms, key, i + 1)
    }
}

/// `after` is `before` with the metric `key` set to `v`: the first entry with
/// that name takes the value; else a new entry goes before the first whose
/// name sorts after `key`, so that names stay in increasing order.
pub open spec fn metric_set(before: Seq<(String, usize)>, after: Seq<(String, usize)>, key: Seq<char>, v: usize) -> bool {
    match metric_index(before, key, 0) {
        Some(k) => after.len() == before.len() && after[k].0 == before[k].0 && after[k].1 == v && forall|j: int|
            0 <= j < before.len() && j != k ==> after[j] == before[j],
        None => {
            let p = metric_slot(before, key, 0);
            &&& after.len() == before.len() + 1
            &&& after.take(p) == before.take(p)
            &&& after.skip(p + 1) == before.skip(p)
            &&& after[p].0@ == key && after[p].1 == v
        },
    }
}

/// What applying one document symbol did.
pub enum DocOutcome {
    Confirmed,
    Enriched,
    Skipped,
}

/// Applying one document symbol: the node it confirms gets the confirmation
/// metric set to 1; else its node is found or added as a callee's would be
/// (see [`callee_resolved`]).
pub open spec fn doc_applied(nodes: Seq<Node>, after: Seq<Node>, s: DocSymbol, r: DocOutcome) -> bool {
    match confirmed_node(nodes, s) {
        Some(q) => r is Confirmed && after.len() == nodes.len() && (forall|j: int| 0 <= j < nodes.len() && j != q ==> after[j] == nodes[j])
            && {
            let (a, b) = (nodes[q as int], after[q as int]);
            &&& b.id == a.id && b.kind == a.kind && b.name == a.name && b.qualified_name == a.qualified_name
            &&& b.file == a.file && b.range == a.range && b.visibility == a.visibility && b.signature == a.signature
            &&& b.docs == a.docs
            &&& metric_set(a.metrics@, b.metrics@, confirmation_key(), 1)
        },
        None => exists|id: Option<Seq<char>>|
            #[trigger] callee_resolved(nodes, after, s.symbol, id) && if id is Some {
                r is Enriched
            } else {
                r is Skipped
            },
    }
}

fn first_confirming_exec(nodes: &Vec<Node>, s: &DocSymbol) -> (r: Option<usize>)
    ensures
        r == first_confirming(nodes@, *s, 0),
        r matches Some(q) ==> q < nodes@.len(),
{
    let mut i: usize = 0;
    while i < nodes.len()
        invariant
            i <= nodes.len(),
            first_confirming(nodes@, *s, 0) == first_confirming(nodes@, *s, i as int),
        decreases nodes.len() - i,
    {
        let n = &nodes[i];
        let file_ok = match &s.symbol.file {
            Some(f) => match &n.file {
                Some(g) => str_eq(g.as_str(), f.as_str()),
                None => false,
            },
            None => true,
        };
        let line_ok = match &n.range {
            Some(r) => s.line == 0 || r.start_line == s.line,
            None => true,
        };
        if str_eq(n.name.as_str(), s.symbol.name.as_str()) && file_ok && line_ok {
            return Some(i);
        }
        i = i + 1;
    }
    None
}

fn confirmed_node_exec(nodes: &Vec<Node>, s: &DocSymbol) -> (r: Option<usize>)
    ensures
        r == confirmed_node(nodes@, *s),
        r matches Some(q) ==> q < nodes@.len(),
{
    match first_confirming_exec(nodes, s) {
        Some(q) => return Some(q),
        None => {},
    }
    let ghost pick = named_like(*s);
    let mut c: Vec<usize> = Vec::new();
    let mut k: usize = 0;
    while k < nodes.len()
        invariant
            k <= nodes.len(),
            pick == named_like(*s),
            c@ == select(nodes@, k as int, pick),
        decreases nodes.len() - k,
    {
        let n = &nodes[k];
        let file_ok = match &s.symbol.file {
            Some(f) => match &n.file {
                Some(g) => str_eq(g.as_str(), f.as_str()),
                None => false,
            },
            None => true,
        };
        if str_eq(n.name.as_str(), s.symbol.name.as_str()) && file_ok {
            c.push(k);
        }
        k = k + 1;
    }
    proof {
        assert(nodes@.len() == nodes.len());
        crate::seqs::lemma_select_members(nodes@, nodes@.len() as int, pick);
    }
    if c.len() == 1 {
        Some(c[0])
    } else {
        None
    }
}

fn same_opt(o: &Option<String>) -> (r: Option<String>)
    ensures
        r == *o,
{
    match o {
        Some(s) => Some(s.clone()),
        None => None,
    }
}

fn clone_metrics(v: &Vec<(String, usize)>) -> (r: Vec<(String, usize)>)
    ensures
        r@ == v@,
{
    let mut r: Vec<(String, usize)> = Vec::new();
    let mut i: usize = 0;
    while i < v.len()
        invariant
            i <= v.len(),
            r@ == v@.take(i as int),
        decreases v.len() - i,
    {
        r.push((v[i].0.clone(), v[i].1));
        assert(r@ =~= v@.take(i + 1));
        i = i + 1;
    }
    assert(v@.take(v.len() as int) =~= v@);
    r
}

fn set_metric(ms: &mut Vec<(String, usize)>, key: &str, v: usize)
    ensures
        metric_set(old(ms)@, final(ms)@, key@, v),
{
    let mut k: usize = 0;
    while k < ms.len()
        invariant
            k <= ms.len(),
            ms@ == old(ms)@,
            metric_index(ms@, key@, 0) == metric_index(ms@, key@, k as int),
        decreases ms.len() - k,
    {
        if str_eq(ms[k].0.as_str(), key) {
            let ghost before = ms@;
            let name = ms[k].0.clone();
            ms.set(k, (name, v));
            assert(metric_index(before, key@, 0) == Some(k as int));
            return;
        }
        k = k + 1;
    }
    let kv = chars_of(key);
    let mut p: usize = 0;
    while p < ms.len()
        invariant
            p <= ms.len(),
            ms@ == old(ms)@,
            kv@ == key@,
            metric_slot(ms@, key@, 0) == metric_slot(ms@, key@, p as int),
        ensures
            metric_slot(ms@, key@, 0) == p as int,
            p <= ms.len(),
            ms@ == old(ms)@,
        decreases ms.len() - p,
    {
        if crate::lex::lex_compare(&kv, &chars_of(ms[p].0.as_str())) < 0 {
            break;
        }
        p = p + 1;
    }
    let ghost before = ms@;
    ms.insert(p, (owned(key), v));
    assert(ms@.take(p as int) =~= before.take(p as int));
    assert(ms@.skip(p + 1) =~= before.skip(p as int));
}

/// What applying the document symbols of a file counted: nodes found or
/// added, and nodes confirmed.
pub struct SymbolStats {
    pub enriched: usize,
    pub confirmed: usize,
}

/// Applies the document symbols reported for a file, in order (see
/// [`doc_applied`]). Returns how many were found or added and how many
/// confirmed a node.
pub fn apply_document_symbols(graph: &mut CodeGraph, symbols: &Vec<DocSymbol>) -> (s: SymbolStats)
    requires
        old(graph).nodes@.len() + symbols@.len() < usize::MAX - 3,
    ensures
        final(graph).edges == old(graph).edges,
        final(graph).project == old(graph).project,
        final(graph).warnings == old(graph).warnings,
        final(graph).profiles == old(graph).profiles,
        final(graph).semantic == old(graph).semantic,
        final(graph).mir == old(graph).mir,
        exists|ns: Seq<Seq<Node>>, rs: Seq<DocOutcome>|
            #![trigger ns.len(), rs.len()]
            ns.len() == symbols@.len() + 1 && rs.len() == symbols@.len() && ns[0] == old(graph).nodes@ && ns.last()
                == final(graph).nodes@ && (forall|i: int|
                0 <= i < symbols@.len() ==> #[trigger] doc_applied(ns[i], ns[i + 1], symbols@[i], rs[i]))
                && s.enriched == count_where(rs, |r: DocOutcome| r is Enriched) && s.confirmed == count_where(
                rs,
                |r: DocOutcome| r is Confirmed,
            ),
{
    proof {
        reveal_strlit("rust_analyzer_document_symbol");
    }
    let n = symbols.len();
    let mut stats = SymbolStats { enriched: 0, confirmed: 0 };
    let ghost g0 = *graph;
    let ghost mut ns: Seq<Seq<Node>> = seq![graph.nodes@];
    let ghost mut rs: Seq<DocOutcome> = Seq::empty();
    let mut i: usize = 0;
    while i < n
        invariant
            i <= n,
            n == symbols@.len(),
            graph.edges == g0.edges && graph.project == g0.project && graph.warnings == g0.warnings && graph.profiles
                == g0.profiles && graph.semantic == g0.semantic && graph.mir == g0.mir,
            graph.nodes@.len() <= g0.nodes@.len() + i,
            g0.nodes@.len() + n < usize::MAX - 3,
            ns.len() == i + 1 && rs.len() == i,
            ns[0] == g0.nodes@,
            ns[i as int] == graph.nodes@,
            forall|j: int| 0 <= j < i ==> #[trigger] doc_applied(ns[j], ns[j + 1], symbols@[j], rs[j]),
            stats.enriched == count_where(rs, |r: DocOutcome| r is Enriched),
            stats.confirmed == count_where(rs, |r: DocOutcome| r is Confirmed),
            stats.enriched <= i && stats.confirmed <= i,
        decreases n - i,
    {
        let ghost nb = graph.nodes@;
        let sym = &symbols[i];
        let r = match confirmed_node_exec(&graph.nodes, sym) {
            Some(q) => {
                let old_node = &graph.nodes[q];
                let mut metrics = clone_metrics(&old_node.metrics);
                set_metric(&mut metrics, "rust_analyzer_document_symbol", 1);
                let node = Node {
                    id: old_node.id.clone(),
                    kind: old_node.kind,
                    name: old_node.name.clone(),
                    qualified_name: old_node.qualified_name.clone(),
                    file: same_opt(&old_node.file),
                    range: old_node.range,
                    visibility: same_opt(&old_node.visibility),
                    signature: same_opt(&old_node.signature),
                    docs: same_opt(&old_node.docs),
                    metrics,
                };
                graph.nodes.set(q, node);
                DocOutcome::Confirmed
            },
            None => {
                match resolve_callee(graph, &sym.symbol) {
                    Some(_) => DocOutcome::Enriched,
                    None => DocOutcome::Skipped,
                }
            },
        };
        proof {
            assert(doc_applied(nb, graph.nodes@, *sym, r));
            let ob = ns;
            let rb = rs;
            ns = ns.push(graph.nodes@);
            rs = rs.push(r);
            assert(rs.drop_last() =~= rb);
            assert forall|j: int| 0 <= j < i + 1 implies #[trigger] doc_applied(ns[j], ns[j + 1], symbols@[j], rs[j]) by {
                if j < i {
                    assert(ns[j] == ob[j] && ns[j + 1] == ob[j + 1] && rs[j] == rb[j]);
                }
            }
        }
        match r {
            DocOutcome::Enriched => stats.enriched = stats.enriched + 1,
            DocOutcome::Confirmed => stats.confirmed = stats.confirmed + 1,
            DocOutcome::Skipped => {},
        }
        i = i + 1;
    }
    stats
}

} // verus!
