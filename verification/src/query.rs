use vstd::prelude::*;
use crate::index::{
    edges_at, has_id, is_last_with_id, last_with_id, lemma_last_with_id, node_for, QueryIndex,
};
use crate::model::{CodeGraph, Edge, EdgeKind, Node, NodeKind};
use crate::rank::{is_permutation, kb, sort_by_rank, sorted_by, RankKey};
use crate::seqs::{lemma_select_members, select};
use crate::strs::{
    cat, chars_of, char_is_ascii_digit, ends_with_seq, is_ascii_digit, occurs_at_exec, owned,
    str_ends_with, str_eq,
};
use crate::text::{append_str, join, join_strings};

verus! {

// ---------------------------------------------------------------------------
// Finding nodes by name
// ---------------------------------------------------------------------------

/// `id` minus one trailing `#` or ASCII digit equals `name`.
pub open spec fn stripped_id_match(id: Seq<char>, name: Seq<char>) -> bool {
    id.len() > 0 && (id.last() == '#' || is_ascii_digit(id.last())) && id.drop_last() == name
}

/// A node matches `name` exactly: by id, by id with one trailing `#`/digit
/// removed, or by qualified name.
pub open spec fn exact_match(n: Node, name: Seq<char>) -> bool {
    n.id@ == name || stripped_id_match(n.id@, name) || n.qualified_name@ == name
}

/// The qualified name ends with `::name`.
pub open spec fn suffix_match(n: Node, name: Seq<char>) -> bool {
    ends_with_seq(n.qualified_name@, "::"@ + name)
}

/// Nodes that match `name` exactly.
pub open spec fn exact_pick(name: Seq<char>) -> spec_fn(Node) -> bool {
    |n: Node| exact_match(n, name)
}

/// Nodes whose short name is `name`.
pub open spec fn name_pick(name: Seq<char>) -> spec_fn(Node) -> bool {
    |n: Node| n.name@ == name
}

/// Nodes whose qualified name ends with `::name`.
pub open spec fn suffix_pick(name: Seq<char>) -> spec_fn(Node) -> bool {
    |n: Node| suffix_match(n, name)
}

/// Nodes that `name` designates: the exact matches if any, else the nodes with
/// that short name, else those whose qualified name ends with `::name`.
pub open spec fn find_nodes_spec(nodes: Seq<Node>, name: Seq<char>) -> Seq<usize> {
    let exact = select(nodes, nodes.len() as int, |n: Node| exact_match(n, name));
    let by_name = select(nodes, nodes.len() as int, |n: Node| n.name@ == name);
    if exact.len() > 0 {
        exact
    } else if by_name.len() > 0 {
        by_name
    } else {
        select(nodes, nodes.len() as int, |n: Node| suffix_match(n, name))
    }
}

fn exact_match_exec(n: &Node, name: &str) -> (b: bool)
    ensures
        b == exact_match(*n, name@),
{
    if str_eq(n.id.as_str(), name) || str_eq(n.qualified_name.as_str(), name) {
        return true;
    }
    let id = chars_of(n.id.as_str());
    let nm = chars_of(name);
    if id.len() == 0 || id.len() - 1 != nm.len() {
        proof {
            if id@.len() > 0 {
                assert(id@.drop_last().len() != nm@.len());
            }
        }
        return false;
    }
    let last = id[id.len() - 1];
    if !(last == '#' || char_is_ascii_digit(last)) {
        return false;
    }
    let r = occurs_at_exec(&id, &nm, 0);
    proof {
        assert(id@.subrange(0, nm@.len() as int) =~= id@.drop_last());
    }
    r
}

fn suffix_match_exec(n: &Node, needle: &str) -> (b: bool)
    ensures
        b == ends_with_seq(n.qualified_name@, needle@),
{
    str_ends_with(n.qualified_name.as_str(), needle)
}

/// The nodes that `name` designates (see [`find_nodes_spec`]), by position.
pub fn find_nodes(graph: &CodeGraph, name: &str) -> (r: Vec<usize>)
    ensures
        r@ == find_nodes_spec(graph.nodes@, name@),
        forall|t: int| 0 <= t < r.len() ==> r@[t] < graph.nodes.len(),
{
    let nodes = &graph.nodes;
    let mut exact: Vec<usize> = Vec::new();
    let mut by_name: Vec<usize> = Vec::new();
    let mut i: usize = 0;
    while i < nodes.len()
        invariant
            i <= nodes.len(),
            nodes@ == graph.nodes@,
            exact@ == select(nodes@, i as int, |n: Node| exact_match(n, name@)),
            by_name@ == select(nodes@, i as int, |n: Node| n.name@ == name@),
            forall|t: int| 0 <= t < exact.len() ==> exact@[t] < i,
            forall|t: int| 0 <= t < by_name.len() ==> by_name@[t] < i,
        decreases nodes.len() - i,
    {
        if exact_match_exec(&nodes[i], name) {
            exact.push(i);
        }
        if str_eq(nodes[i].name.as_str(), name) {
            by_name.push(i);
        }
        i = i + 1;
    }
    if exact.len() > 0 {
        return exact;
    }
    if by_name.len() > 0 {
        return by_name;
    }
    let needle = cat("::", name);
    let mut suffix: Vec<usize> = Vec::new();
    let mut i: usize = 0;
    while i < nodes.len()
        invariant
            i <= nodes.len(),
            nodes@ == graph.nodes@,
            needle@ == "::"@ + name@,
            suffix@ == select(nodes@, i as int, |n: Node| suffix_match(n, name@)),
            forall|t: int| 0 <= t < suffix.len() ==> suffix@[t] < i,
        decreases nodes.len() - i,
    {
        if suffix_match_exec(&nodes[i], needle.as_str()) {
            suffix.push(i);
        }
        i = i + 1;
    }
    suffix
}

// ---------------------------------------------------------------------------
// Edit distance and suggestions
// ---------------------------------------------------------------------------

pub open spec fn min3(x: nat, y: nat, z: nat) -> nat {
    if x <= y && x <= z {
        x
    } else if y <= z {
        y
    } else {
        z
    }
}

/// Levenshtein distance between `a.take(i)` and `b.take(j)`.
pub open spec fn lev(a: Seq<char>, b: Seq<char>, i: int, j: int) -> nat
    decreases i + j,
{
    if i <= 0 {
        if j <= 0 {
            0
        } else {
            j as nat
        }
    } else if j <= 0 {
        i as nat
    } else {
        min3(
            lev(a, b, i - 1, j) + 1,
            lev(a, b, i, j - 1) + 1,
            lev(a, b, i - 1, j - 1) + if a[i - 1] == b[j - 1] {
                0nat
            } else {
                1nat
            },
        )
    }
}

/// [`find_nodes_spec`] through the named picks.
pub proof fn lemma_find_nodes_picks(nodes: Seq<Node>, name: Seq<char>)
    ensures
        find_nodes_spec(nodes, name) == if select(nodes, nodes.len() as int, exact_pick(name)).len() > 0 {
            select(nodes, nodes.len() as int, exact_pick(name))
        } else if select(nodes, nodes.len() as int, name_pick(name)).len() > 0 {
            select(nodes, nodes.len() as int, name_pick(name))
        } else {
            select(nodes, nodes.len() as int, suffix_pick(name))
        },
{
    assert(exact_pick(name) =~= (|n: Node| exact_match(n, name)));
    assert(name_pick(name) =~= (|n: Node| n.name@ == name));
    assert(suffix_pick(name) =~= (|n: Node| suffix_match(n, name)));
}

/// The Levenshtein (edit) distance between two character sequences.
pub open spec fn edit_distance(a: Seq<char>, b: Seq<char>) -> nat {
    lev(a, b, a.len() as int, b.len() as int)
}

pub proof fn lemma_lev_bound(a: Seq<char>, b: Seq<char>, i: int, j: int)
    requires
        i >= 0,
        j >= 0,
    ensures
        lev(a, b, i, j) <= if i >= j {
            i
        } else {
            j
        },
    decreases i + j,
{
    if i > 0 && j > 0 {
        lemma_lev_bound(a, b, i - 1, j - 1);
    }
}

fn min_usize(x: usize, y: usize) -> (r: usize)
    ensures
        r == if x <= y {
            x
        } else {
            y
        },
{
    if x <= y {
        x
    } else {
        y
    }
}

/// Edit distance between `a` and `b` (dynamic programming over two rows).
pub fn levenshtein(a: &Vec<char>, b: &Vec<char>) -> (d: usize)
    ensures
        d == edit_distance(a@, b@),
{
    let n = a.len();
    let m = b.len();
    let mut prev: Vec<usize> = Vec::new();
    let mut j: usize = 0;
    loop
        invariant_except_break
            j <= m,
            prev.len() == j,
            forall|k: int| 0 <= k < j ==> prev@[k] == lev(a@, b@, 0, k),
        ensures
            prev.len() == m + 1,
            forall|k: int| 0 <= k <= m ==> prev@[k] == lev(a@, b@, 0, k),
        decreases m - j,
    {
        prev.push(j);
        if j == m {
            break;
        }
        j = j + 1;
    }
    assert(prev.len() == m + 1);
    let mut i: usize = 0;
    while i < n
        invariant
            n == a.len(),
            m == b.len(),
            i <= n,
            prev.len() == m + 1,
            forall|k: int| 0 <= k <= m ==> prev@[k] == lev(a@, b@, i as int, k),
        decreases n - i,
    {
        let mut curr: Vec<usize> = Vec::new();
        curr.push(i + 1);
        let mut j: usize = 0;
        while j < m
            invariant
                n == a.len(),
                m == b.len(),
                i < n,
                j <= m,
                prev.len() == m + 1,
                forall|k: int| 0 <= k <= m ==> prev@[k] == lev(a@, b@, i as int, k),
                curr.len() == j + 1,
                forall|k: int| 0 <= k <= j ==> curr@[k] == lev(a@, b@, i + 1, k),
            decreases m - j,
        {
            let cost: usize = if a[i] == b[j] {
                0
            } else {
                1
            };
            proof {
                lemma_lev_bound(a@, b@, i as int, j as int);
                lemma_lev_bound(a@, b@, i + 1, j + 1);
            }
            let up = prev[j + 1].saturating_add(1);
            let left = curr[j].saturating_add(1);
            let diag = prev[j] + cost;
            let v = min_usize(min_usize(up, left), diag);
            proof {
                let t = lev(a@, b@, i + 1, j + 1);
                assert(t == min3(
                    lev(a@, b@, i as int, j + 1) + 1,
                    lev(a@, b@, i + 1, j as int) + 1,
                    lev(a@, b@, i as int, j as int) + if a@[i as int] == b@[j as int] {
                        0nat
                    } else {
                        1nat
                    },
                ));
            }
            curr.push(v);
            j = j + 1;
        }
        prev = curr;
        i = i + 1;
    }
    prev[m]
}

/// `order` lists positions by increasing distance, ties by position.
pub open spec fn sorted_by_distance(ds: Seq<nat>, order: Seq<usize>) -> bool {
    forall|p: int, q: int|
        0 <= p < q < order.len() ==> ds[order[p] as int] < ds[order[q] as int] || (ds[order[p] as int]
            == ds[order[q] as int] && order[p] < order[q])
}

/// The suggestion lines for the first `k` entries of `order` whose distance is
/// below `thr`.
pub open spec fn suggestion_lines(
    names: Seq<Seq<char>>,
    ds: Seq<nat>,
    order: Seq<usize>,
    k: int,
    thr: nat,
) -> Seq<Seq<char>>
    decreases k,
{
    if k <= 0 {
        Seq::empty()
    } else {
        let prev = suggestion_lines(names, ds, order, k - 1, thr);
        let i = order[k - 1] as int;
        if ds[i] < thr {
            prev.push("  \u{2022} "@ + names[i])
        } else {
            prev
        }
    }
}

pub open spec fn suggestion_text(lines: Seq<Seq<char>>) -> Seq<char> {
    if lines.len() == 0 {
        Seq::empty()
    } else {
        "\nDid you mean?\n"@ + join(lines, "\n"@)
    }
}

pub open spec fn distances(query: Seq<char>, names: Seq<Seq<char>>) -> Seq<nat> {
    Seq::new(names.len(), |k: int| edit_distance(query, names[k]))
}

pub open spec fn min_nat(a: nat, b: nat) -> nat {
    if a <= b {
        a
    } else {
        b
    }
}

/// `text` is the "did you mean" hint for `query` among `names`: the first
/// `limit` names by edit distance (a stable sort), keeping those closer than
/// the larger of 5 and the query's length in bytes.
pub open spec fn is_suggestion(
    query: Seq<char>,
    query_bytes: nat,
    names: Seq<Seq<char>>,
    limit: nat,
    text: Seq<char>,
) -> bool {
    let ds = distances(query, names);
    let thr = if query_bytes >= 5 {
        query_bytes
    } else {
        5nat
    };
    exists|order: Seq<usize>|
        #![trigger sorted_by_distance(ds, order)]
        sorted_by_distance(ds, order) && is_permutation(order, names.len()) && text
            == suggestion_text(
            suggestion_lines(names, ds, order, min_nat(limit, names.len()) as int, thr),
        )
}

pub open spec fn names_view(v: Seq<String>) -> Seq<Seq<char>> {
    v.map_values(|s: String| s@)
}

/// A "did you mean" hint listing up to `limit` of `candidates` closest to `query`.
pub fn suggest(query: &str, candidates: &Vec<String>, limit: usize) -> (r: String)
    ensures
        is_suggestion(query@, query.len() as nat, names_view(candidates@), limit as nat, r@),
{
    let ghost names = names_view(candidates@);
    let ghost ds = distances(query@, names);
    let q = chars_of(query);
    let n = candidates.len();
    let mut keys: Vec<RankKey> = Vec::new();
    let mut k: usize = 0;
    while k < n
        invariant
            n == candidates.len(),
            names == names_view(candidates@),
            ds == distances(query@, names),
            q@ == query@,
            k <= n,
            keys.len() == k,
            forall|j: int|
                #![trigger keys@[j]]
                0 <= j < k ==> keys@[j].hi == 0 && keys@[j].lo == ds[j] && keys@[j].a@.len() == 0
                    && keys@[j].b@.len() == 0,
        decreases n - k,
    {
        let c = chars_of(candidates[k].as_str());
        let d = levenshtein(&q, &c);
        keys.push(RankKey { hi: 0, lo: d, a: Vec::new(), b: Vec::new() });
        k = k + 1;
    }
    let order = sort_by_rank(&keys);
    proof {
        assert forall|p: int, q2: int| 0 <= p < q2 < order@.len() implies ds[order@[p] as int]
            < ds[order@[q2] as int] || (ds[order@[p] as int] == ds[order@[q2] as int] && order@[p]
            < order@[q2]) by {
            assert(kb(keys@, order@[p], order@[q2]));
            let x = keys@[order@[p] as int];
            let y = keys@[order@[q2] as int];
            assert(x.a@ =~= y.a@);
            assert(x.b@ =~= y.b@);
            crate::lex::lemma_lex_irreflexive(x.a@);
            crate::lex::lemma_lex_irreflexive(x.b@);
        }
    }
    let qlen = query.len();
    let thr: usize = if qlen >= 5 {
        qlen
    } else {
        5
    };
    let top = if limit <= n {
        limit
    } else {
        n
    };
    let mut lines: Vec<String> = Vec::new();
    let mut p: usize = 0;
    while p < top
        invariant
            top <= n,
            n == candidates.len(),
            order.len() == n,
            names == names_view(candidates@),
            ds == distances(query@, names),
            forall|j: int|
                #![trigger keys@[j]]
                0 <= j < n ==> keys@[j].lo == ds[j],
            keys.len() == n,
            forall|t: int| 0 <= t < order.len() ==> order@[t] < n,
            p <= top,
            names_view(lines@) == suggestion_lines(names, ds, order@, p as int, thr as nat),
        decreases top - p,
    {
        let i = order[p];
        if keys[i].lo < thr {
            let ghost prev = lines@;
            let line = cat("  \u{2022} ", candidates[i].as_str());
            lines.push(line);
            assert(names_view(lines@) =~= names_view(prev).push("  \u{2022} "@ + names[i as int]));
        }
        p = p + 1;
    }
    let body = join_strings(&lines, "\n");
    let r = if lines.len() == 0 {
        String::new()
    } else {
        cat("\nDid you mean?\n", body.as_str())
    };
    proof {
        assert(names_view(lines@) == lines@.map_values(|s: String| s@));
        assert(r@ == suggestion_text(
            suggestion_lines(names, ds, order@, min_nat(limit as nat, names.len()) as int, thr as nat),
        ));
        assert(sorted_by_distance(ds, order@));
        assert(is_permutation(order@, names.len()));
    }
    r
}

// ---------------------------------------------------------------------------
// Adjacent nodes
// ---------------------------------------------------------------------------

/// The id at the far end of `e` when walking `outbound` (to) or inbound (from).
pub open spec fn other_end(e: Edge, outbound: bool) -> Seq<char> {
    if outbound {
        e.to@
    } else {
        e.from@
    }
}

pub open spec fn kind_ok(e: Edge, kind: Option<EdgeKind>) -> bool {
    match kind {
        Some(k) => e.kind == k,
        None => true,
    }
}

/// `(edge, node)` pairs for the first `k` edges of `es` whose kind passes the
/// filter and whose far end is a node of the graph.
pub open spec fn adjacent_upto(
    nodes: Seq<Node>,
    edges: Seq<Edge>,
    es: Seq<usize>,
    k: int,
    outbound: bool,
    kind: Option<EdgeKind>,
) -> Seq<(usize, usize)>
    decreases k,
{
    if k <= 0 {
        Seq::empty()
    } else {
        let prev = adjacent_upto(nodes, edges, es, k - 1, outbound, kind);
        let e = edges[es[k - 1] as int];
        if kind_ok(e, kind) && has_id(nodes, other_end(e, outbound)) {
            prev.push((es[k - 1], last_with_id(nodes, other_end(e, outbound)) as usize))
        } else {
            prev
        }
    }
}

/// The first `limit` neighbours of node `p` along edges of `kind` (any kind when
/// `None`), as `(edge, node)` positions, in edge order.
pub open spec fn adjacent_spec(
    graph: CodeGraph,
    p: int,
    outbound: bool,
    kind: Option<EdgeKind>,
    limit: nat,
) -> Seq<(usize, usize)> {
    let es = edges_at(graph.edges@, graph.nodes@[p].id@, outbound);
    let all = adjacent_upto(graph.nodes@, graph.edges@, es, es.len() as int, outbound, kind);
    all.take(min_nat(limit, all.len()) as int)
}

proof fn lemma_adjacent_prefix(
    nodes: Seq<Node>,
    edges: Seq<Edge>,
    es: Seq<usize>,
    k: int,
    k2: int,
    outbound: bool,
    kind: Option<EdgeKind>,
)
    requires
        0 <= k <= k2,
    ensures
        adjacent_upto(nodes, edges, es, k, outbound, kind).len() <= adjacent_upto(
            nodes,
            edges,
            es,
            k2,
            outbound,
            kind,
        ).len(),
        adjacent_upto(nodes, edges, es, k2, outbound, kind).take(
            adjacent_upto(nodes, edges, es, k, outbound, kind).len() as int,
        ) == adjacent_upto(nodes, edges, es, k, outbound, kind),
    decreases k2 - k,
{
    let a = adjacent_upto(nodes, edges, es, k, outbound, kind);
    if k == k2 {
        assert(a.take(a.len() as int) =~= a);
    } else {
        lemma_adjacent_prefix(nodes, edges, es, k, k2 - 1, outbound, kind);
        let b = adjacent_upto(nodes, edges, es, k2 - 1, outbound, kind);
        let c = adjacent_upto(nodes, edges, es, k2, outbound, kind);
        assert(c.take(a.len() as int) =~= b.take(a.len() as int));
    }
}

fn other_end_exec(e: &Edge, outbound: bool) -> (r: &String)
    ensures
        r@ == other_end(*e, outbound),
{
    if outbound {
        &e.to
    } else {
        &e.from
    }
}

fn kind_ok_exec(e: &Edge, kind: Option<EdgeKind>) -> (b: bool)
    ensures
        b == kind_ok(*e, kind),
{
    match kind {
        Some(k) => e.kind == k,
        None => true,
    }
}

/// Neighbours of node `p` (see [`adjacent_spec`]).
pub fn adjacent(
    index: &QueryIndex,
    graph: &CodeGraph,
    p: usize,
    outbound: bool,
    kind: Option<EdgeKind>,
    limit: usize,
) -> (r: Vec<(usize, usize)>)
    requires
        index.describes(graph),
        p < graph.nodes.len(),
    ensures
        r@ == adjacent_spec(*graph, p as int, outbound, kind, limit as nat),
        forall|t: int| 0 <= t < r.len() ==> r@[t].0 < graph.edges.len() && r@[t].1 < graph.nodes.len(),
{
    let es = index.edges_of(graph, p, outbound);
    let ghost nodes = graph.nodes@;
    let ghost edges = graph.edges@;
    let mut r: Vec<(usize, usize)> = Vec::new();
    let mut k: usize = 0;
    while k < es.len() && r.len() < limit
        invariant
            index.id_tables(graph.nodes@),
            nodes == graph.nodes@,
            edges == graph.edges@,
            es@ == edges_at(edges, nodes[p as int].id@, outbound),
            forall|t: int| 0 <= t < es.len() ==> es@[t] < edges.len(),
            k <= es.len(),
            r.len() <= limit,
            r@ == adjacent_upto(nodes, edges, es@, k as int, outbound, kind),
            forall|t: int| 0 <= t < r.len() ==> r@[t].0 < edges.len() && r@[t].1 < nodes.len(),
        decreases es.len() - k,
    {
        let e = &graph.edges[es[k]];
        if kind_ok_exec(e, kind) {
            let other = chars_of(other_end_exec(e, outbound).as_str());
            match index.lookup(graph, &other) {
                Some(q) => {
                    proof {
                        lemma_last_with_id(nodes, other@, q as int);
                    }
                    r.push((es[k], q));
                },
                None => {},
            }
        }
        k = k + 1;
    }
    proof {
        let all = adjacent_upto(nodes, edges, es@, es.len() as int, outbound, kind);
        lemma_adjacent_prefix(nodes, edges, es@, k as int, es.len() as int, outbound, kind);
        if k == es.len() {
            assert(all.take(all.len() as int) =~= all);
        }
    }
    r
}

// ---------------------------------------------------------------------------
// Symbol lookup
// ---------------------------------------------------------------------------

/// What a symbol query finds.
pub enum SymbolLookup {
    /// One node matched, with its incoming and outgoing neighbours (at most 100 each).
    Found { node: usize, incoming: Vec<(usize, usize)>, outgoing: Vec<(usize, usize)> },
    /// Several nodes matched.
    Ambiguous { matches: Vec<usize> },
}

impl SymbolLookup {
    /// `"symbol"` for a unique match, `"ambiguous"` otherwise.
    pub fn kind(&self) -> (s: &'static str)
        ensures
            s@ == (if self is Found {
                "symbol"@
            } else {
                "ambiguous"@
            }),
    {
        match self {
            SymbolLookup::Found { .. } => "symbol",
            SymbolLookup::Ambiguous { .. } => "ambiguous",
        }
    }
}

pub open spec fn node_names(nodes: Seq<Node>) -> Seq<Seq<char>> {
    nodes.map_values(|n: Node| n.name@)
}

/// `msg` reports that `label` `name` was not found, with a hint among all node names.
pub open spec fn is_not_found_message(
    nodes: Seq<Node>,
    label: Seq<char>,
    name: Seq<char>,
    name_bytes: nat,
    msg: Seq<char>,
) -> bool {
    exists|hint: Seq<char>|
        #![trigger is_suggestion(name, name_bytes, node_names(nodes), 3, hint)]
        is_suggestion(name, name_bytes, node_names(nodes), 3, hint) && msg == label + " `"@ + name
            + "` not found"@ + hint
}

fn all_names(graph: &CodeGraph) -> (v: Vec<String>)
    ensures
        names_view(v@) == node_names(graph.nodes@),
{
    let mut v: Vec<String> = Vec::new();
    let mut i: usize = 0;
    while i < graph.nodes.len()
        invariant
            i <= graph.nodes.len(),
            names_view(v@) == node_names(graph.nodes@.take(i as int)),
        decreases graph.nodes.len() - i,
    {
        v.push(graph.nodes[i].name.clone());
        assert(node_names(graph.nodes@.take(i + 1)) =~= node_names(graph.nodes@.take(i as int)).push(graph.nodes@[i as int].name@));
        assert(names_view(v@) =~= node_names(graph.nodes@.take(i + 1)));
        i = i + 1;
    }
    assert(graph.nodes@.take(graph.nodes.len() as int) =~= graph.nodes@);
    v
}

fn not_found_message(graph: &CodeGraph, label: &str, name: &str) -> (m: String)
    ensures
        is_not_found_message(graph.nodes@, label@, name@, name.len() as nat, m@),
{
    let names = all_names(graph);
    let hint = suggest(name, &names, 3);
    let mut m = owned(label);
    append_str(&mut m, " `");
    append_str(&mut m, name);
    append_str(&mut m, "` not found");
    append_str(&mut m, hint.as_str());
    m
}

/// Looks up one symbol: the node `name` designates with its neighbours, or all
/// matches when several nodes match, or an error with a hint when none does.
pub fn symbol(index: &QueryIndex, graph: &CodeGraph, name: &str) -> (r: Result<SymbolLookup, String>)
    requires
        index.describes(graph),
    ensures
        ({
            let found = find_nodes_spec(graph.nodes@, name@);
            &&& r is Err <==> found.len() == 0
            &&& r matches Err(msg) ==> is_not_found_message(
                graph.nodes@,
                "symbol"@,
                name@,
                name.len() as nat,
                msg@,
            )
            &&& r matches Ok(SymbolLookup::Found { node, incoming, outgoing }) ==> found.len() == 1
                && node == found[0] && incoming@ == adjacent_spec(*graph, node as int, false, None, 100)
                && outgoing@ == adjacent_spec(*graph, node as int, true, None, 100)
            &&& r matches Ok(SymbolLookup::Ambiguous { matches }) ==> found.len() > 1 && matches@
                == found
            &&& found.len() == 1 ==> r is Ok && r->Ok_0 is Found
        }),
{
    let matches = find_nodes(graph, name);
    if matches.len() == 0 {
        return Err(not_found_message(graph, "symbol", name));
    }
    if matches.len() == 1 {
        let node = matches[0];
        let incoming = adjacent(index, graph, node, false, None, 100);
        let outgoing = adjacent(index, graph, node, true, None, 100);
        return Ok(SymbolLookup::Found { node, incoming, outgoing });
    }
    Ok(SymbolLookup::Ambiguous { matches })
}

/// The message a failed lookup of `name` (under `label`) gives: not found
/// with a hint, or ambiguous with the qualified names of the matches.
pub open spec fn lookup_failed(nodes: Seq<Node>, label: Seq<char>, name: Seq<char>, name_len: nat, msg: Seq<char>) -> bool {
    let found = find_nodes_spec(nodes, name);
    &&& found.len() == 0 ==> is_not_found_message(nodes, label, name, name_len, msg)
    &&& found.len() > 1 ==> msg == label + " `"@ + name + "` is ambiguous, matches: "@ + join(
        found.map_values(|i: usize| nodes[i as int].qualified_name@),
        ", "@,
    )
}

/// The unique node `name` designates, or an error: not found (with a hint) or
/// ambiguous (listing the qualified names of the matches).
pub fn require_unique_node(graph: &CodeGraph, name: &str, label: &str) -> (r: Result<usize, String>)
    ensures
        ({
            let found = find_nodes_spec(graph.nodes@, name@);
            &&& r matches Ok(p) ==> found.len() == 1 && p == found[0] && p < graph.nodes.len()
            &&& found.len() == 1 ==> r is Ok
            &&& found.len() == 0 ==> (r matches Err(msg) && is_not_found_message(
                graph.nodes@,
                label@,
                name@,
                name.len() as nat,
                msg@,
            ))
            &&& found.len() > 1 ==> (r matches Err(msg) && msg@ == label@ + " `"@ + name@
                + "` is ambiguous, matches: "@ + join(
                found.map_values(|i: usize| graph.nodes@[i as int].qualified_name@),
                ", "@,
            ))
            &&& r matches Err(msg) ==> found.len() != 1 && lookup_failed(graph.nodes@, label@, name@, name.len() as nat, msg@)
        }),
{
    let matches = find_nodes(graph, name);
    if matches.len() == 0 {
        return Err(not_found_message(graph, label, name));
    }
    if matches.len() > 1 {
        let mut names: Vec<String> = Vec::new();
        let mut k: usize = 0;
        while k < matches.len()
            invariant
                k <= matches.len(),
                forall|t: int| 0 <= t < matches.len() ==> (matches@[t] as int) < graph.nodes.len(),
                names_view(names@) == matches@.take(k as int).map_values(
                    |i: usize| graph.nodes@[i as int].qualified_name@,
                ),
            decreases matches.len() - k,
        {
            let ghost prev = names@;
            names.push(graph.nodes[matches[k]].qualified_name.clone());
            assert(matches@.take(k + 1) =~= matches@.take(k as int).push(matches@[k as int]));
            assert(names_view(names@) =~= names_view(prev).push(graph.nodes@[matches@[k as int] as int].qualified_name@));
            assert(names_view(names@) =~= matches@.take(k + 1).map_values(
                |i: usize| graph.nodes@[i as int].qualified_name@,
            ));
            k = k + 1;
        }
        assert(matches@.take(matches.len() as int) =~= matches@);
        let joined = join_strings(&names, ", ");
        let mut m = owned(label);
        append_str(&mut m, " `");
        append_str(&mut m, name);
        append_str(&mut m, "` is ambiguous, matches: ");
        append_str(&mut m, joined.as_str());
        return Err(m);
    }
    Ok(matches[0])
}

} // verus!
