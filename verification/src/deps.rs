use vstd::prelude::*;
use crate::namegraph::{flags, graph_from_pairs, lemma_occurs_push, names_of, occurs, occurs_exec, paired, NameGraph};
use crate::paths::{trim_rs, trim_rs_exec};
use crate::split::{split_chars, split_on};
use crate::strs::{chars_of, contains_seq, owned, str_contains, str_eq, string_from_chars};
use crate::model::{CodeGraph, Edge, EdgeKind, Node};
use crate::index::{has_id, is_last_with_id, last_with_id, lemma_last_with_id, lemma_weight_monotone, node_for, weight_upto, weights_fit, QueryIndex};
use crate::builder::opt_view;
use crate::dispatch::pairs_of;
use crate::seqs::strings_view;
use crate::rank::{is_permutation, kb, sort_by_rank, sorted_by, RankKey};
use crate::refactor::is_dependency_kind;

verus! {

// ---------------------------------------------------------------------------
// Clusters
// ---------------------------------------------------------------------------

/// The cluster of a file: its path pieces without a leading `src`; the first two
/// pieces joined by `/`, or the single piece without `.rs`, or `root`.
pub open spec fn cluster_key_spec(file: Seq<char>) -> Seq<char> {
    let all = split_on(file, '/');
    let parts = if all.len() > 0 && all[0] == "src"@ {
        all.skip(1)
    } else {
        all
    };
    if parts.len() == 0 {
        "root"@
    } else if parts.len() == 1 {
        trim_rs(parts[0])
    } else {
        parts[0] + "/"@ + parts[1]
    }
}

/// The cluster of a file (see [`cluster_key_spec`]).
pub fn cluster_key(file: &str) -> (r: String)
    ensures
        r@ == cluster_key_spec(file@),
{
    let fv = chars_of(file);
    let all = split_chars(&fv, '/');
    let ghost av = all@.map_values(|p: Vec<char>| p@);
    proof {
        reveal_strlit("src");
        reveal_strlit("/");
        reveal_strlit("root");
        reveal_strlit("bin");
    }
    let skip: usize = if all.len() > 0 && crate::strs::str_eq(string_from_chars(&all[0]).as_str(), "src") {
        1
    } else {
        0
    };
    assert(skip == 1 <==> (av.len() > 0 && av[0] == "src"@));
    let count = all.len() - skip;
    if count == 0 {
        return owned("root");
    }
    if count == 1 {
        let t = trim_rs_exec(&all[skip]);
        return string_from_chars(&t);
    }
    let first = string_from_chars(&all[skip]);
    let second = string_from_chars(&all[skip + 1]);
    if crate::strs::str_eq(first.as_str(), "bin") {
        let mut r = owned("bin/");
        r.append(second.as_str());
        proof {
            reveal_strlit("bin/");
            assert(r@ =~= first@ + "/"@ + second@);
        }
        return r;
    }
    let mut r = first;
    r.append("/");
    r.append(second.as_str());
    r
}

// ---------------------------------------------------------------------------
// Walks over a name graph
// ---------------------------------------------------------------------------

/// The first vertex of `row[k..]` that is not on `path`.
pub open spec fn first_fresh(row: Seq<usize>, path: Seq<usize>, k: int) -> Option<usize>
    decreases row.len() - k,
{
    if k < 0 || k >= row.len() {
        None
    } else if !occurs(path, row[k] as int) {
        Some(row[k])
    } else {
        first_fresh(row, path, k + 1)
    }
}

/// The path extended, at most `fuel` times, by the first successor of its last
/// vertex that it does not hold yet.
pub open spec fn greedy_chain(g: NameGraph, path: Seq<usize>, fuel: nat) -> Seq<usize>
    decreases fuel,
{
    if fuel == 0 || path.len() == 0 {
        path
    } else {
        match first_fresh(g.succ@[path.last() as int]@, path, 0) {
            Some(x) => greedy_chain(g, path.push(x), (fuel - 1) as nat),
            None => path,
        }
    }
}

fn first_fresh_exec(row: &Vec<usize>, path: &Vec<usize>) -> (r: Option<usize>)
    ensures
        r == first_fresh(row@, path@, 0),
        r matches Some(y) ==> occurs(row@, y as int),
{
    let mut k: usize = 0;
    while k < row.len()
        invariant
            k <= row.len(),
            first_fresh(row@, path@, 0) == first_fresh(row@, path@, k as int),
        decreases row.len() - k,
    {
        let y = row[k];
        if !occurs_exec(path, y) {
            assert(occurs(row@, y as int));
            return Some(y);
        }
        k = k + 1;
    }
    None
}

/// Follows one branch from `start` for at most `max_depth` steps, always to the
/// first successor not yet on the chain (see [`greedy_chain`]).
pub fn bfs_chain(g: &NameGraph, start: usize, max_depth: usize) -> (chain: Vec<usize>)
    requires
        g.wf(),
        start < g.n(),
    ensures
        chain@ == greedy_chain(*g, seq![start], max_depth as nat),
        forall|k: int| 0 <= k < chain@.len() ==> chain@[k] < g.n(),
        chain@.len() >= 1,
{
    let mut path: Vec<usize> = Vec::new();
    path.push(start);
    let mut fuel: usize = max_depth;
    while fuel > 0
        invariant
            g.wf(),
            path@.len() >= 1,
            forall|k: int| 0 <= k < path@.len() ==> path@[k] < g.n(),
            greedy_chain(*g, seq![start], max_depth as nat) == greedy_chain(*g, path@, fuel as nat),
        decreases fuel,
    {
        let cur = path[path.len() - 1];
        match first_fresh_exec(&g.succ[cur], &path) {
            Some(y) => {
                path.push(y);
            },
            None => {
                return path;
            },
        }
        fuel = fuel - 1;
    }
    path
}


/// The vertices reachable from `s` in at most `d` steps.
pub open spec fn within(g: NameGraph, s: int, d: nat) -> Set<int>
    decreases d,
{
    if d == 0 {
        set![s]
    } else {
        let w = within(g, s, (d - 1) as nat);
        w.union(Set::new(|y: int| exists|x: int| w.contains(x) && #[trigger] g.edge(x, y)))
    }
}

/// The vertices other than `start` within `max_depth` steps of it, in
/// increasing order (a breadth-first search cut at that depth).
pub fn bfs_transitive_closure(g: &NameGraph, start: usize, max_depth: usize) -> (r: Vec<usize>)
    requires
        g.wf(),
        start < g.n(),
    ensures
        crate::namegraph::increasing(r@),
        forall|x: int| occurs(r@, x) <==> (x != start && within(*g, start as int, max_depth as nat).contains(x)),
{
    let n = g.names.len();
    let mut seen = flags(n);
    seen.set(start, true);
    let mut d: usize = 0;
    while d < max_depth
        invariant
            g.wf(),
            n == g.n(),
            start < n,
            d <= max_depth,
            seen@.len() == n,
            forall|x: int| #![trigger seen@[x]] 0 <= x < n ==> (seen@[x] <==> within(*g, start as int, d as nat).contains(x)),
            forall|x: int| within(*g, start as int, d as nat).contains(x) ==> 0 <= x < n,
        decreases max_depth - d,
    {
        let ghost w = within(*g, start as int, d as nat);
        let mut next = flags(n);
        let mut x: usize = 0;
        while x < n
            invariant
                g.wf(),
                n == g.n(),
                x <= n,
                seen@.len() == n,
                next@.len() == n,
                w == within(*g, start as int, d as nat),
                forall|y: int| #![trigger seen@[y]] 0 <= y < n ==> (seen@[y] <==> w.contains(y)),
                forall|y: int| w.contains(y) ==> 0 <= y < n,
                forall|y: int|
                    #![trigger next@[y]]
                    0 <= y < n ==> (next@[y] <==> ((y < x && w.contains(y)) || exists|z: int| 0 <= z < x && w.contains(z) && #[trigger] g.edge(z, y))),
            decreases n - x,
        {
            if seen[x] {
                next.set(x, true);
                let row = &g.succ[x];
                let mut k: usize = 0;
                while k < row.len()
                    invariant
                        g.wf(),
                        n == g.n(),
                        x < n,
                        row@ == g.succ@[x as int]@,
                        k <= row.len(),
                        next@.len() == n,
                        w.contains(x as int),
                        forall|y: int|
                            #![trigger next@[y]]
                            0 <= y < n ==> (next@[y] <==> ((y < x && w.contains(y)) || (exists|z: int| 0 <= z < x && w.contains(z) && #[trigger] g.edge(z, y))
                                || occurs(row@.take(k as int), y) || y == x)),
                    decreases row.len() - k,
                {
                    let y = row[k];
                    assert(y < n);
                    next.set(y, true);
                    proof {
                        assert forall|yy: int| #![trigger next@[yy]] 0 <= yy < n implies (next@[yy] <==> ((yy < x && w.contains(yy)) || (exists|z: int| 0 <= z < x && w.contains(z) && #[trigger] g.edge(z, yy))
                                || occurs(row@.take(k + 1), yy) || yy == x)) by {
                            crate::namegraph::lemma_occurs_take(row@, k as int, yy);
                        }
                    }
                    k = k + 1;
                }
                proof {
                    assert(row@.take(row.len() as int) =~= row@);
                    assert forall|y: int| #![trigger next@[y]] 0 <= y < n implies (next@[y] <==> ((y < x + 1 && w.contains(y)) || exists|z: int| 0 <= z < x + 1 && w.contains(z) && #[trigger] g.edge(z, y))) by {
                        if occurs(row@, y) {
                            assert(g.edge(x as int, y));
                        }
                        if exists|z: int| 0 <= z < x + 1 && w.contains(z) && #[trigger] g.edge(z, y) {
                            let z = choose|z: int| 0 <= z < x + 1 && w.contains(z) && #[trigger] g.edge(z, y);
                            if z == x {
                                assert(occurs(g.succ@[x as int]@, y));
                            }
                        }
                    }
                }
            } else {
                proof {
                    assert forall|y: int| #![trigger next@[y]] 0 <= y < n implies (next@[y] <==> ((y < x + 1 && w.contains(y)) || exists|z: int| 0 <= z < x + 1 && w.contains(z) && #[trigger] g.edge(z, y))) by {
                        if exists|z: int| 0 <= z < x + 1 && w.contains(z) && #[trigger] g.edge(z, y) {
                            let z = choose|z: int| 0 <= z < x + 1 && w.contains(z) && #[trigger] g.edge(z, y);
                            assert(z != x);
                        }
                    }
                }
            }
            x = x + 1;
        }
        seen = next;
        proof {
            let w2 = within(*g, start as int, (d + 1) as nat);
            assert forall|y: int| w2.contains(y) ==> 0 <= y < n by {
                if w2.contains(y) && !w.contains(y) {
                    let z = choose|z: int| w.contains(z) && #[trigger] g.edge(z, y);
                    let q = choose|q: int| 0 <= q < g.succ@[z]@.len() && g.succ@[z]@[q] == y;
                    assert(g.succ@[z]@[q] < n);
                }
            }
            assert forall|y: int| 0 <= y < n implies (seen@[y] <==> w2.contains(y)) by {
                if w2.contains(y) && !w.contains(y) {
                    let z = choose|z: int| w.contains(z) && #[trigger] g.edge(z, y);
                    assert(0 <= z < n);
                }
            }
        }
        d = d + 1;
    }
    let mut r: Vec<usize> = Vec::new();
    let mut x: usize = 0;
    while x < n
        invariant
            x <= n,
            n == g.n(),
            seen@.len() == n,
            forall|y: int| 0 <= y < n ==> (seen@[y] <==> within(*g, start as int, max_depth as nat).contains(y)),
            forall|y: int| within(*g, start as int, max_depth as nat).contains(y) ==> 0 <= y < n,
            crate::namegraph::increasing(r@),
            forall|k: int| 0 <= k < r@.len() ==> r@[k] < x,
            forall|y: int| occurs(r@, y) <==> (0 <= y < x && y != start && within(*g, start as int, max_depth as nat).contains(y)),
        decreases n - x,
    {
        let ghost rb = r@;
        if seen[x] && x != start {
            r.push(x);
        }
        proof {
            assert forall|y: int| occurs(r@, y) <==> (0 <= y < x + 1 && y != start && within(*g, start as int, max_depth as nat).contains(y)) by {
                if r@ != rb {
                    lemma_occurs_push(rb, x, y);
                }
                if y == x && occurs(rb, y) {
                    let q = choose|q: int| 0 <= q < rb.len() && rb[q] == y;
                }
            }
        }
        x = x + 1;
    }
    r
}


// ---------------------------------------------------------------------------
// Dependencies between clusters
// ---------------------------------------------------------------------------

/// The file of the node a map from ids would give for `id`, if it has one.
pub open spec fn file_of(nodes: Seq<Node>, id: Seq<char>) -> Option<Seq<char>> {
    if has_id(nodes, id) {
        opt_view(nodes[last_with_id(nodes, id)].file)
    } else {
        None
    }
}

/// The pair of clusters an edge links: a dependency edge between nodes of two
/// different clusters, whose names contain the filters when given.
pub open spec fn cluster_link(
    nodes: Seq<Node>,
    e: Edge,
    from_filter: Option<Seq<char>>,
    to_filter: Option<Seq<char>>,
) -> Option<(Seq<char>, Seq<char>)> {
    if !is_dependency_kind(e.kind) {
        None
    } else {
        match (file_of(nodes, e.from@), file_of(nodes, e.to@)) {
            (Some(ff), Some(tf)) => {
                let fc = cluster_key_spec(ff);
                let tc = cluster_key_spec(tf);
                if fc == tc {
                    None
                } else if from_filter matches Some(f) && !contains_seq(fc, f) {
                    None
                } else if to_filter matches Some(t) && !contains_seq(tc, t) {
                    None
                } else {
                    Some((fc, tc))
                }
            },
            _ => None,
        }
    }
}

/// The summed weight of the edges linking cluster `a` to cluster `b`.
pub open spec fn link_weight(
    nodes: Seq<Node>,
    edges: Seq<Edge>,
    ff: Option<Seq<char>>,
    tf: Option<Seq<char>>,
    a: Seq<char>,
    b: Seq<char>,
) -> nat
    decreases edges.len(),
{
    if edges.len() == 0 {
        0
    } else {
        link_weight(nodes, edges.drop_last(), ff, tf, a, b) + if cluster_link(nodes, edges.last(), ff, tf) == Some((a, b)) {
            edges.last().weight as nat
        } else {
            0
        }
    }
}

/// Some edge links cluster `a` to cluster `b`.
pub open spec fn links(nodes: Seq<Node>, edges: Seq<Edge>, ff: Option<Seq<char>>, tf: Option<Seq<char>>, a: Seq<char>, b: Seq<char>) -> bool {
    exists|k: int| 0 <= k < edges.len() && cluster_link(nodes, #[trigger] edges[k], ff, tf) == Some((a, b))
}

proof fn lemma_link_weight_bound(nodes: Seq<Node>, edges: Seq<Edge>, ff: Option<Seq<char>>, tf: Option<Seq<char>>, a: Seq<char>, b: Seq<char>)
    ensures
        link_weight(nodes, edges, ff, tf, a, b) <= weight_upto(edges, edges.len() as int),
    decreases edges.len(),
{
    if edges.len() > 0 {
        lemma_link_weight_bound(nodes, edges.drop_last(), ff, tf, a, b);
        lemma_weight_prefix(edges, edges.len() - 1);
    }
}

proof fn lemma_weight_prefix(edges: Seq<Edge>, n: int)
    requires
        0 <= n <= edges.len(),
    ensures
        weight_upto(edges.take(n), n) == weight_upto(edges, n),
    decreases n,
{
    if n > 0 {
        lemma_weight_prefix(edges, n - 1);
        lemma_weight_prefix_of(edges.take(n), n - 1);
        assert(edges.take(n).take(n - 1) =~= edges.take(n - 1));
    }
}

proof fn lemma_weight_prefix_of(edges: Seq<Edge>, n: int)
    requires
        0 <= n <= edges.len(),
    ensures
        weight_upto(edges.take(n), n) == weight_upto(edges, n),
    decreases n,
{
    if n > 0 {
        lemma_weight_prefix_of(edges, n - 1);
        assert(edges.take(n).take(n - 1) =~= edges.take(n - 1));
        lemma_weight_prefix_of(edges.take(n), n - 1);
    }
}


/// A link between two clusters and its weight.
pub struct DepItem {
    pub from: String,
    pub to: String,
    pub weight: usize,
}

/// An optional string filter, as characters.
pub open spec fn filter_view(o: Option<&str>) -> Option<Seq<char>> {
    match o {
        Some(s) => Some(s@),
        None => None,
    }
}

/// `items` lists each linked pair of clusters once, with its summed weight.
pub open spec fn tabulates(
    items: Seq<DepItem>,
    nodes: Seq<Node>,
    edges: Seq<Edge>,
    ff: Option<Seq<char>>,
    tf: Option<Seq<char>>,
) -> bool {
    &&& forall|i: int, j: int| 0 <= i < j < items.len() ==> !(items[i].from@ == items[j].from@ && items[i].to@ == items[j].to@)
    &&& forall|i: int|
        0 <= i < items.len() ==> links(nodes, edges, ff, tf, (#[trigger] items[i]).from@, items[i].to@) && items[i].weight
            == link_weight(nodes, edges, ff, tf, items[i].from@, items[i].to@)
    &&& forall|a: Seq<char>, b: Seq<char>|
        #[trigger] links(nodes, edges, ff, tf, a, b) ==> exists|i: int| 0 <= i < items.len() && items[i].from@ == a && items[i].to@ == b
}

/// The file of the node the index gives for `id`.
fn file_for(index: &QueryIndex, graph: &CodeGraph, id: &str) -> (r: Option<String>)
    requires
        index.id_tables(graph.nodes@),
    ensures
        opt_view(r) == file_of(graph.nodes@, id@),
{
    let idv = chars_of(id);
    match index.lookup(graph, &idv) {
        Some(p) => {
            proof {
                lemma_last_with_id(graph.nodes@, id@, p as int);
            }
            match &graph.nodes[p].file {
                Some(f) => Some(f.clone()),
                None => None,
            }
        },
        None => None,
    }
}

/// The cluster pair an edge links, if any (see [`cluster_link`]).
fn link_of(index: &QueryIndex, graph: &CodeGraph, e: &Edge, from: Option<&str>, to: Option<&str>) -> (r: Option<(String, String)>)
    requires
        index.id_tables(graph.nodes@),
    ensures
        match r {
            Some(p) => cluster_link(graph.nodes@, *e, filter_view(from), filter_view(to)) == Some((p.0@, p.1@)),
            None => cluster_link(graph.nodes@, *e, filter_view(from), filter_view(to)) is None,
        },
{
    let k = e.kind;
    if !(k == EdgeKind::Calls || k == EdgeKind::Imports || k == EdgeKind::UsesType || k == EdgeKind::Returns) {
        return None;
    }
    let ff = match file_for(index, graph, e.from.as_str()) {
        Some(f) => f,
        None => return None,
    };
    let tf = match file_for(index, graph, e.to.as_str()) {
        Some(f) => f,
        None => return None,
    };
    let fc = cluster_key(ff.as_str());
    let tc = cluster_key(tf.as_str());
    if str_eq(fc.as_str(), tc.as_str()) {
        return None;
    }
    match from {
        Some(f) => {
            if !str_contains(fc.as_str(), f) {
                return None;
            }
        },
        None => {},
    }
    match to {
        Some(t) => {
            if !str_contains(tc.as_str(), t) {
                return None;
            }
        },
        None => {},
    }
    Some((fc, tc))
}

fn find_item(items: &Vec<DepItem>, from: &str, to: &str) -> (r: Option<usize>)
    ensures
        match r {
            Some(k) => k < items@.len() && items@[k as int].from@ == from@ && items@[k as int].to@ == to@,
            None => forall|q: int| 0 <= q < items@.len() ==> !(items@[q].from@ == from@ && items@[q].to@ == to@),
        },
{
    let mut k: usize = 0;
    while k < items.len()
        invariant
            k <= items.len(),
            forall|q: int| 0 <= q < k ==> !(items@[q].from@ == from@ && items@[q].to@ == to@),
        decreases items.len() - k,
    {
        if str_eq(items[k].from.as_str(), from) && str_eq(items[k].to.as_str(), to) {
            return Some(k);
        }
        k = k + 1;
    }
    None
}

/// Each pair of clusters linked by dependency edges, with the summed weight of
/// its edges, in the order the pairs are first met.
pub fn cluster_links(graph: &CodeGraph, from: Option<&str>, to: Option<&str>) -> (r: Vec<DepItem>)
    requires
        weights_fit(graph.edges@),
    ensures
        tabulates(r@, graph.nodes@, graph.edges@, filter_view(from), filter_view(to)),
{
    let ghost ff = filter_view(from);
    let ghost tf = filter_view(to);
    let ghost nodes = graph.nodes@;
    let index = QueryIndex::ids_only(graph);
    let edges = &graph.edges;
    let mut items: Vec<DepItem> = Vec::new();
    let mut i: usize = 0;
    while i < edges.len()
        invariant
            i <= edges.len(),
            edges@ == graph.edges@,
            nodes == graph.nodes@,
            index.id_tables(graph.nodes@),
            weights_fit(graph.edges@),
            ff == filter_view(from),
            tf == filter_view(to),
            tabulates(items@, nodes, edges@.take(i as int), ff, tf),
        decreases edges.len() - i,
    {
        let ghost pre = edges@.take(i as int);
        let ghost post = edges@.take(i + 1);
        assert(post.drop_last() =~= pre);
        assert(post.last() == edges@[i as int]);
        let ghost ib = items@;
        match link_of(&index, graph, &edges[i], from, to) {
            Some((fc, tc)) => {
                let w = edges[i].weight;
                let pos = find_item(&items, fc.as_str(), tc.as_str());
                proof {
                    lemma_link_weight_bound(nodes, post, ff, tf, fc@, tc@);
                    crate::deps::lemma_weight_prefix_of(edges@, i + 1);
                    lemma_weight_monotone(edges@, i + 1, edges@.len() as int);
                }
                if let Some(k) = pos {
                    let ghost old_item = items@[k as int];
                    let cur = items[k].weight;
                    let item = &mut items[k];
                    item.weight = cur + w;
                    proof {
                        assert forall|a: Seq<char>, b: Seq<char>|
                            #[trigger] links(nodes, post, ff, tf, a, b) implies exists|q: int| 0 <= q < items@.len() && items@[q].from@ == a && items@[q].to@ == b by {
                            let e = choose|e: int| 0 <= e < post.len() && cluster_link(nodes, #[trigger] post[e], ff, tf) == Some((a, b));
                            if e < i {
                                assert(pre[e] == post[e]);
                                assert(links(nodes, pre, ff, tf, a, b));
                                let q = choose|q: int| 0 <= q < ib.len() && ib[q].from@ == a && ib[q].to@ == b;
                                assert(items@[q].from@ == a);
                            } else {
                                assert(items@[k as int].from@ == a);
                            }
                        }
                        assert forall|q: int| 0 <= q < items@.len() implies links(nodes, post, ff, tf, (#[trigger] items@[q]).from@, items@[q].to@) && items@[q].weight
                            == link_weight(nodes, post, ff, tf, items@[q].from@, items@[q].to@) by {
                            assert(links(nodes, pre, ff, tf, ib[q].from@, ib[q].to@));
                            let e = choose|e: int| 0 <= e < pre.len() && cluster_link(nodes, #[trigger] pre[e], ff, tf) == Some((ib[q].from@, ib[q].to@));
                            assert(post[e] == pre[e]);
                        }
                    }
                } else {
                    proof {
                        assert(!links(nodes, pre, ff, tf, fc@, tc@));
                        assert(link_weight(nodes, pre, ff, tf, fc@, tc@) == 0) by {
                            lemma_no_link_no_weight(nodes, pre, ff, tf, fc@, tc@);
                        }
                    }
                    items.push(DepItem { from: fc, to: tc, weight: w });
                    proof {
                        assert forall|a: Seq<char>, b: Seq<char>|
                            #[trigger] links(nodes, post, ff, tf, a, b) implies exists|q: int| 0 <= q < items@.len() && items@[q].from@ == a && items@[q].to@ == b by {
                            let e = choose|e: int| 0 <= e < post.len() && cluster_link(nodes, #[trigger] post[e], ff, tf) == Some((a, b));
                            if e < i {
                                assert(pre[e] == post[e]);
                                assert(links(nodes, pre, ff, tf, a, b));
                                let q = choose|q: int| 0 <= q < ib.len() && ib[q].from@ == a && ib[q].to@ == b;
                                assert(items@[q].from@ == a);
                            } else {
                                assert(items@[ib.len() as int].from@ == a);
                            }
                        }
                        assert forall|q: int| 0 <= q < items@.len() implies links(nodes, post, ff, tf, (#[trigger] items@[q]).from@, items@[q].to@) && items@[q].weight
                            == link_weight(nodes, post, ff, tf, items@[q].from@, items@[q].to@) by {
                            if q < ib.len() {
                                assert(items@[q] == ib[q]);
                                assert(links(nodes, pre, ff, tf, ib[q].from@, ib[q].to@));
                                let e = choose|e: int| 0 <= e < pre.len() && cluster_link(nodes, #[trigger] pre[e], ff, tf) == Some((ib[q].from@, ib[q].to@));
                                assert(post[e] == pre[e]);
                            } else {
                                assert(cluster_link(nodes, post[i as int], ff, tf) == Some((fc@, tc@)));
                            }
                        }
                    }
                }
            },
            None => {
                proof {
                    assert forall|a: Seq<char>, b: Seq<char>|
                        #[trigger] links(nodes, post, ff, tf, a, b) implies exists|q: int| 0 <= q < items@.len() && items@[q].from@ == a && items@[q].to@ == b by {
                        let e = choose|e: int| 0 <= e < post.len() && cluster_link(nodes, #[trigger] post[e], ff, tf) == Some((a, b));
                        assert(e < i);
                        assert(pre[e] == post[e]);
                        assert(links(nodes, pre, ff, tf, a, b));
                    }
                    assert forall|q: int| 0 <= q < items@.len() implies links(nodes, post, ff, tf, (#[trigger] items@[q]).from@, items@[q].to@) && items@[q].weight
                        == link_weight(nodes, post, ff, tf, items@[q].from@, items@[q].to@) by {
                        assert(links(nodes, pre, ff, tf, items@[q].from@, items@[q].to@));
                        let e = choose|e: int| 0 <= e < pre.len() && cluster_link(nodes, #[trigger] pre[e], ff, tf) == Some((items@[q].from@, items@[q].to@));
                        assert(post[e] == pre[e]);
                    }
                }
            },
        }
        i = i + 1;
    }
    assert(edges@.take(edges.len() as int) =~= edges@);
    items
}

proof fn lemma_no_link_no_weight(nodes: Seq<Node>, edges: Seq<Edge>, ff: Option<Seq<char>>, tf: Option<Seq<char>>, a: Seq<char>, b: Seq<char>)
    requires
        !links(nodes, edges, ff, tf, a, b),
    ensures
        link_weight(nodes, edges, ff, tf, a, b) == 0,
    decreases edges.len(),
{
    if edges.len() > 0 {
        let init = edges.drop_last();
        assert(!links(nodes, init, ff, tf, a, b)) by {
            if links(nodes, init, ff, tf, a, b) {
                let e = choose|e: int| 0 <= e < init.len() && cluster_link(nodes, #[trigger] init[e], ff, tf) == Some((a, b));
                assert(edges[e] == init[e]);
            }
        }
        lemma_no_link_no_weight(nodes, init, ff, tf, a, b);
        assert(cluster_link(nodes, edges[edges.len() - 1], ff, tf) != Some((a, b)));
    }
}


// ---------------------------------------------------------------------------
// The dependency report
// ---------------------------------------------------------------------------

/// A chain of clusters each depending on the next.
pub struct ChainItem {
    pub from: String,
    pub to: String,
    pub chain: Vec<String>,
    pub chain_length: usize,
}

/// The dependencies between clusters, heaviest first, and how far a change
/// could travel.
pub struct DepsReport {
    pub items: Vec<DepItem>,
    pub recompile_impact: Vec<ChainItem>,
    pub total_recompile_modules: usize,
}

/// `x` is listed before `y`: heavier first, then by source and target cluster.
pub open spec fn dep_before(x: DepItem, y: DepItem) -> bool {
    x.weight > y.weight || (x.weight == y.weight && (crate::lex::lex_lt(x.from@, y.from@) || (x.from@ == y.from@
        && crate::lex::lex_lt(x.to@, y.to@))))
}

/// `g` is the graph of clusters, with an edge for each linked pair.
pub open spec fn is_cluster_graph(
    g: NameGraph,
    nodes: Seq<Node>,
    edges: Seq<Edge>,
    ff: Option<Seq<char>>,
    tf: Option<Seq<char>>,
) -> bool {
    &&& g.wf()
    &&& forall|x: Seq<char>|
        #[trigger] strings_view(g.names@).contains(x) <==> exists|y: Seq<char>|
            links(nodes, edges, ff, tf, x, y) || links(nodes, edges, ff, tf, y, x)
    &&& forall|i: int, j: int|
        0 <= i < g.n() && 0 <= j < g.n() ==> (#[trigger] g.edge(i, j) <==> links(nodes, edges, ff, tf, g.name(i), g.name(j)))
}

/// `(source, chain)` for each cluster with a dependency, in name order, whose
/// chain of at most five steps (see [`greedy_chain`]) reaches three clusters.
pub open spec fn chains_upto(g: NameGraph, m: int) -> Seq<(Seq<char>, Seq<Seq<char>>)>
    decreases m,
{
    if m <= 0 {
        Seq::empty()
    } else {
        let rest = chains_upto(g, m - 1);
        let v = m - 1;
        let chain = greedy_chain(g, seq![v as usize], 5);
        if g.succ@[v]@.len() > 0 && chain.len() >= 3 {
            rest.push((g.name(v), crate::refactor::index_names(g, chain)))
        } else {
            rest
        }
    }
}

/// The number of clusters other than `v` within five steps of it.
pub open spec fn reach_count(g: NameGraph, v: int) -> nat {
    Set::new(reached_from(g, v)).len()
}

/// The clusters other than `v` within five steps of it.
pub open spec fn reached_from(g: NameGraph, v: int) -> spec_fn(int) -> bool {
    |x: int| x != v && within(g, v, 5).contains(x)
}

/// The largest reach among the clusters with a dependency below `m` (0 if none).
pub open spec fn max_reach(g: NameGraph, m: int) -> nat
    decreases m,
{
    if m <= 0 {
        0
    } else {
        let rest = max_reach(g, m - 1);
        let v = m - 1;
        if g.succ@[v]@.len() > 0 && reach_count(g, v) > rest {
            reach_count(g, v)
        } else {
            rest
        }
    }
}

pub open spec fn chain_view(c: ChainItem) -> (Seq<char>, Seq<Seq<char>>) {
    (c.from@, strings_view(c.chain@))
}


/// `x` and `y` hold the same pair and weight.
pub open spec fn same_item(x: DepItem, y: DepItem) -> bool {
    x.from@ == y.from@ && x.to@ == y.to@ && x.weight == y.weight
}

/// An item with the same pair and weight as `x` is in `v`.
pub open spec fn among(x: DepItem, v: Seq<DepItem>) -> bool {
    exists|k: int| 0 <= k < v.len() && same_item(x, #[trigger] v[k])
}

/// The first `limit` of `items` ranked by [`dep_before`] (a stable sort by
/// weight over pairs in name order).
pub fn rank_items(items: &Vec<DepItem>, limit: usize) -> (r: Vec<DepItem>)
    requires
        forall|i: int, j: int| 0 <= i < j < items@.len() ==> !(items@[i].from@ == items@[j].from@ && items@[i].to@ == items@[j].to@),
    ensures
        r@.len() <= limit,
        forall|i: int, j: int| 0 <= i < j < r@.len() ==> dep_before(r@[i], r@[j]),
        forall|i: int| 0 <= i < r@.len() ==> #[trigger] among(r@[i], items@),
        forall|t: int|
            0 <= t < items@.len() ==> #[trigger] among(items@[t], r@) || (r@.len() == limit && forall|i: int|
                0 <= i < r@.len() ==> dep_before(r@[i], items@[t])),
{
    let mut keys: Vec<RankKey> = Vec::new();
    let mut k: usize = 0;
    while k < items.len()
        invariant
            k <= items.len(),
            keys@.len() == k,
            forall|q: int|
                0 <= q < k ==> (#[trigger] keys@[q]).hi == items@[q].weight && keys@[q].lo == 0 && keys@[q].a@
                    == items@[q].from@ && keys@[q].b@ == items@[q].to@,
        decreases items.len() - k,
    {
        keys.push(RankKey { hi: items[k].weight, lo: 0, a: chars_of(items[k].from.as_str()), b: chars_of(items[k].to.as_str()) });
        k = k + 1;
    }
    let order = sort_by_rank(&keys);
    let m = if limit < items.len() {
        limit
    } else {
        items.len()
    };
    let mut r: Vec<DepItem> = Vec::new();
    let mut p: usize = 0;
    while p < m
        invariant
            p <= m,
            m <= items.len(),
            m <= limit,
            m == limit || m == items.len(),
            keys@.len() == items@.len(),
            sorted_by(keys@, order@),
            is_permutation(order@, items@.len() as nat),
            forall|q: int|
                0 <= q < items@.len() ==> (#[trigger] keys@[q]).hi == items@[q].weight && keys@[q].lo == 0 && keys@[q].a@
                    == items@[q].from@ && keys@[q].b@ == items@[q].to@,
            r@.len() == p,
            forall|q: int| 0 <= q < p ==> same_item(#[trigger] r@[q], items@[order@[q] as int]),
        decreases m - p,
    {
        let t = order[p];
        let it = &items[t];
        r.push(DepItem { from: it.from.clone(), to: it.to.clone(), weight: it.weight });
        p = p + 1;
    }
    proof {
        assert forall|i: int, j: int| 0 <= i < j < r@.len() implies dep_before(r@[i], r@[j]) by {
            assert(kb(keys@, order@[i], order@[j]));
            let ti = order@[i] as int;
            let tj = order@[j] as int;
            assert(ti != tj);
            assert(keys@[ti].hi == items@[ti].weight);
            assert(keys@[tj].hi == items@[tj].weight);
        }
        assert forall|i: int| 0 <= i < r@.len() implies #[trigger] among(r@[i], items@) by {
            assert(same_item(r@[i], items@[order@[i] as int]));
        }
        assert forall|t: int|
            0 <= t < items@.len() implies #[trigger] among(items@[t], r@) || (r@.len() == limit && forall|i: int|
                0 <= i < r@.len() ==> dep_before(r@[i], items@[t])) by {
            assert(order@.contains(t as usize));
            let q = choose|q: int| 0 <= q < order@.len() && order@[q] == t as usize;
            if q < m {
                assert(same_item(r@[q], items@[t]));
                assert(same_item(items@[t], r@[q]));
            } else {
                assert forall|i: int| 0 <= i < r@.len() implies dep_before(r@[i], items@[t]) by {
                    assert(kb(keys@, order@[i], order@[q]));
                    let ti = order@[i] as int;
                    assert(ti != t);
                    assert(keys@[ti].hi == items@[ti].weight);
                    assert(keys@[t].hi == items@[t].weight);
                }
            }
        }
    }
    r
}


/// A list of distinct positions has as many entries as it has members.
pub proof fn lemma_occurs_set_len(s: Seq<usize>)
    requires
        s.no_duplicates(),
    ensures
        Set::new(|x: int| occurs(s, x)).finite(),
        Set::new(|x: int| occurs(s, x)).len() == s.len(),
{
    let t = s.map_values(|u: usize| u as int);
    assert(t.no_duplicates()) by {
        assert forall|i: int, j: int| 0 <= i < t.len() && 0 <= j < t.len() && i != j implies t[i] != t[j] by {
            assert(s[i] != s[j]);
        }
    }
    t.unique_seq_to_set();
    assert(t.to_set() =~= Set::new(|x: int| occurs(s, x))) by {
        assert forall|x: int| t.to_set().contains(x) <==> occurs(s, x) by {
            if t.to_set().contains(x) {
                let k = choose|k: int| 0 <= k < t.len() && t[k] == x;
                assert(s[k] == x);
            }
            if occurs(s, x) {
                let k = choose|k: int| 0 <= k < s.len() && s[k] == x;
                assert(t[k] == x);
            }
        }
    }
    vstd::seq_lib::seq_to_set_is_finite(t);
}

/// How many clusters lie within five steps of `v` (see [`reach_count`]).
fn reach(g: &NameGraph, v: usize) -> (r: usize)
    requires
        g.wf(),
        v < g.n(),
    ensures
        r == reach_count(*g, v as int),
{
    let c = bfs_transitive_closure(g, v, 5);
    proof {
        assert(c@.no_duplicates()) by {
            assert forall|i: int, j: int| 0 <= i < c@.len() && 0 <= j < c@.len() && i != j implies c@[i] != c@[j] by {
                if i < j {
                } else {
                }
            }
        }
        lemma_occurs_set_len(c@);
        let vi = v as int;
        assert(Set::new(|x: int| occurs(c@, x)) =~= Set::new(reached_from(*g, vi)));
    }
    c.len()
}


/// `(w, a, b)` would be listed before `(w2, a2, b2)`: heavier first, then by
/// source and target cluster.
pub open spec fn ranks_before(w: nat, a: Seq<char>, b: Seq<char>, w2: nat, a2: Seq<char>, b2: Seq<char>) -> bool {
    w > w2 || (w == w2 && (crate::lex::lex_lt(a, a2) || (a == a2 && crate::lex::lex_lt(b, b2))))
}

/// The report on dependencies between clusters: the `limit` heaviest links
/// (see [`cluster_links`] and [`rank_items`]); for each cluster with a
/// dependency, the chain of clusters it leads to when that chain reaches three
/// clusters (see [`chains_upto`]); and the largest number of clusters one
/// cluster reaches within five steps (see [`max_reach`]).
pub fn deps(graph: &CodeGraph, from: Option<&str>, to: Option<&str>, limit: usize) -> (r: DepsReport)
    requires
        weights_fit(graph.edges@),
    ensures
        ({
            let nodes = graph.nodes@;
            let edges = graph.edges@;
            let ff = filter_view(from);
            let tf = filter_view(to);
            let items = r.items@;
            &&& items.len() <= limit
            &&& forall|i: int, j: int| 0 <= i < j < items.len() ==> dep_before(items[i], items[j])
            &&& forall|i: int|
                0 <= i < items.len() ==> links(nodes, edges, ff, tf, (#[trigger] items[i]).from@, items[i].to@)
                    && items[i].weight == link_weight(nodes, edges, ff, tf, items[i].from@, items[i].to@)
            &&& forall|a: Seq<char>, b: Seq<char>|
                #[trigger] links(nodes, edges, ff, tf, a, b) ==> (exists|i: int| 0 <= i < items.len() && items[i].from@ == a && items[i].to@ == b)
                    || (items.len() == limit && forall|i: int|
                    0 <= i < items.len() ==> ranks_before(items[i].weight as nat, items[i].from@, items[i].to@, link_weight(nodes, edges, ff, tf, a, b), a, b))
            &&& exists|g: NameGraph|
                is_cluster_graph(g, nodes, edges, ff, tf) && r.recompile_impact@.map_values(|c: ChainItem| chain_view(c)) == chains_upto(g, g.n() as int)
                    && r.total_recompile_modules == max_reach(g, g.n() as int)
            &&& forall|k: int|
                0 <= k < r.recompile_impact@.len() ==> (#[trigger] r.recompile_impact@[k]).chain_length == r.recompile_impact@[k].chain@.len()
                    && r.recompile_impact@[k].chain@.len() > 0 && r.recompile_impact@[k].to@ == r.recompile_impact@[k].chain@.last()@
        }),
{
    let ghost nodes = graph.nodes@;
    let ghost edges = graph.edges@;
    let ghost ff = filter_view(from);
    let ghost tf = filter_view(to);
    let table = cluster_links(graph, from, to);
    let items = rank_items(&table, limit);
    proof {
        assert forall|i: int|
            0 <= i < items@.len() implies links(nodes, edges, ff, tf, (#[trigger] items@[i]).from@, items@[i].to@)
                && items@[i].weight == link_weight(nodes, edges, ff, tf, items@[i].from@, items@[i].to@) by {
            assert(among(items@[i], table@));
            let t = choose|t: int| 0 <= t < table@.len() && same_item(items@[i], #[trigger] table@[t]);
            assert(links(nodes, edges, ff, tf, table@[t].from@, table@[t].to@));
        }
        assert forall|a: Seq<char>, b: Seq<char>|
            #[trigger] links(nodes, edges, ff, tf, a, b) implies (exists|i: int| 0 <= i < items@.len() && items@[i].from@ == a && items@[i].to@ == b)
                || (items@.len() == limit && forall|i: int|
                0 <= i < items@.len() ==> ranks_before(items@[i].weight as nat, items@[i].from@, items@[i].to@, link_weight(nodes, edges, ff, tf, a, b), a, b)) by {
            let t = choose|t: int| 0 <= t < table@.len() && table@[t].from@ == a && table@[t].to@ == b;
            if among(table@[t], items@) {
                let i = choose|i: int| 0 <= i < items@.len() && same_item(table@[t], #[trigger] items@[i]);
                assert(items@[i].from@ == a && items@[i].to@ == b);
            } else {
                assert forall|i: int| 0 <= i < items@.len() implies ranks_before(items@[i].weight as nat, items@[i].from@, items@[i].to@, link_weight(nodes, edges, ff, tf, a, b), a, b) by {
                    assert(dep_before(items@[i], table@[t]));
                }
            }
        }
    }
    // The graph of clusters.
    let mut pairs: Vec<(String, String)> = Vec::new();
    let mut k: usize = 0;
    while k < table.len()
        invariant
            k <= table.len(),
            pairs@.len() == k,
            forall|q: int| 0 <= q < k ==> (#[trigger] pairs@[q]).0@ == table@[q].from@ && pairs@[q].1@ == table@[q].to@,
        decreases table.len() - k,
    {
        pairs.push((table[k].from.clone(), table[k].to.clone()));
        k = k + 1;
    }
    let keys: Vec<String> = Vec::new();
    let g = graph_from_pairs(&keys, &pairs);
    proof {
        assert forall|x: Seq<char>|
            #[trigger] strings_view(g.names@).contains(x) <==> exists|y: Seq<char>|
                links(nodes, edges, ff, tf, x, y) || links(nodes, edges, ff, tf, y, x) by {
            assert(strings_view(g.names@).to_set().contains(x) == strings_view(g.names@).contains(x));
            if names_of(keys@, pairs@).contains(x) {
                let q = choose|q: int| 0 <= q < pairs@.len() && ((#[trigger] pairs@[q]).0@ == x || pairs@[q].1@ == x);
                assert(links(nodes, edges, ff, tf, table@[q].from@, table@[q].to@));
            }
            if exists|y: Seq<char>| links(nodes, edges, ff, tf, x, y) || links(nodes, edges, ff, tf, y, x) {
                let y = choose|y: Seq<char>| links(nodes, edges, ff, tf, x, y) || links(nodes, edges, ff, tf, y, x);
                if links(nodes, edges, ff, tf, x, y) {
                    let q = choose|q: int| 0 <= q < table@.len() && table@[q].from@ == x && table@[q].to@ == y;
                    assert(pairs@[q].0@ == x);
                } else {
                    let q = choose|q: int| 0 <= q < table@.len() && table@[q].from@ == y && table@[q].to@ == x;
                    assert(pairs@[q].1@ == x);
                }
                assert(names_of(keys@, pairs@).contains(x));
            }
        }
        assert forall|i: int, j: int|
            0 <= i < g.n() && 0 <= j < g.n() implies (#[trigger] g.edge(i, j) <==> links(nodes, edges, ff, tf, g.name(i), g.name(j))) by {
            if paired(pairs@, pairs@.len() as int, g.name(i), g.name(j)) {
                let q = choose|q: int| 0 <= q < pairs@.len() && (#[trigger] pairs@[q]).0@ == g.name(i) && pairs@[q].1@ == g.name(j);
                assert(links(nodes, edges, ff, tf, table@[q].from@, table@[q].to@));
            }
            if links(nodes, edges, ff, tf, g.name(i), g.name(j)) {
                let q = choose|q: int| 0 <= q < table@.len() && table@[q].from@ == g.name(i) && table@[q].to@ == g.name(j);
                assert(pairs@[q].0@ == g.name(i));
            }
        }
        assert(is_cluster_graph(g, nodes, edges, ff, tf));
    }
    let n = g.names.len();
    let mut chains: Vec<ChainItem> = Vec::new();
    let mut total: usize = 0;
    let mut v: usize = 0;
    while v < n
        invariant
            v <= n,
            n == g.n(),
            g.wf(),
            chains@.map_values(|c: ChainItem| chain_view(c)) == chains_upto(g, v as int),
            total == max_reach(g, v as int),
            forall|q: int|
                0 <= q < chains@.len() ==> (#[trigger] chains@[q]).chain_length == chains@[q].chain@.len()
                    && chains@[q].chain@.len() > 0 && chains@[q].to@ == chains@[q].chain@.last()@,
        decreases n - v,
    {
        if g.succ[v].len() > 0 {
            let chain = bfs_chain(&g, v, 5);
            if chain.len() >= 3 {
                let names = crate::refactor::names_at(&g, &chain);
                let last = g.names[chain[chain.len() - 1]].clone();
                let ghost cb = chains@;
                let item = ChainItem { from: g.names[v].clone(), to: last, chain: names, chain_length: chain.len() };
                proof {
                    assert(strings_view(item.chain@).len() == item.chain@.len());
                    assert(strings_view(item.chain@)[chain@.len() - 1] == item.chain@.last()@);
                }
                chains.push(item);
                assert(chains@.map_values(|c: ChainItem| chain_view(c)) =~= cb.map_values(|c: ChainItem| chain_view(c)).push(chain_view(item)));
            }
            let c = reach(&g, v);
            if c > total {
                total = c;
            }
        }
        v = v + 1;
    }
    DepsReport { items, recompile_impact: chains, total_recompile_modules: total }
}


// ---------------------------------------------------------------------------
// Fan-out and fan-in of files
// ---------------------------------------------------------------------------

/// The files of the two ends of an edge, when both have one and they differ.
pub open spec fn file_link(nodes: Seq<Node>, e: Edge) -> Option<(Seq<char>, Seq<char>)> {
    match (file_of(nodes, e.from@), file_of(nodes, e.to@)) {
        (Some(a), Some(b)) => if a != b {
            Some((a, b))
        } else {
            None
        },
        _ => None,
    }
}

/// Some edge runs from a node of file `a` to a node of file `b`.
pub open spec fn file_links(nodes: Seq<Node>, edges: Seq<Edge>, a: Seq<char>, b: Seq<char>) -> bool {
    exists|k: int| 0 <= k < edges.len() && file_link(nodes, #[trigger] edges[k]) == Some((a, b))
}

/// The files that file `a` reaches by an edge.
pub open spec fn files_after(nodes: Seq<Node>, edges: Seq<Edge>, a: Seq<char>) -> Set<Seq<char>> {
    Set::new(|b: Seq<char>| file_links(nodes, edges, a, b))
}

/// The files that reach file `a` by an edge.
pub open spec fn files_before(nodes: Seq<Node>, edges: Seq<Edge>, a: Seq<char>) -> Set<Seq<char>> {
    Set::new(|b: Seq<char>| file_links(nodes, edges, b, a))
}

/// How many files a file reaches and is reached from.
pub struct FanItem {
    pub file: String,
    pub fanout: usize,
    pub fanin: usize,
    pub total: usize,
}

/// `x` is listed before a file of total `t` named `f`: larger total first, then by name.
pub open spec fn fan_before(x: FanItem, t: nat, f: Seq<char>) -> bool {
    x.total > t || (x.total == t && crate::lex::lex_lt(x.file@, f))
}

/// `total` is `a + b`, or `usize::MAX` when that does not fit.
pub open spec fn capped_sum(a: nat, b: nat) -> nat {
    if a + b <= usize::MAX {
        a + b
    } else {
        usize::MAX as nat
    }
}

/// The names of the distinct vertices `r` are as many as `r`.
proof fn lemma_names_count(g: NameGraph, r: Seq<usize>)
    requires
        g.wf(),
        crate::namegraph::increasing(r),
        forall|k: int| 0 <= k < r.len() ==> r[k] < g.n(),
    ensures
        crate::refactor::index_names(g, r).to_set().len() == r.len(),
        crate::refactor::index_names(g, r).to_set().finite(),
{
    let ns = crate::refactor::index_names(g, r);
    assert(ns.no_duplicates()) by {
        assert forall|a: int, b: int| 0 <= a < ns.len() && 0 <= b < ns.len() && a != b implies ns[a] != ns[b] by {
            if ns[a] == ns[b] {
                crate::refactor::lemma_name_injective(g, r[a] as int, r[b] as int);
            }
        }
    }
    ns.unique_seq_to_set();
    vstd::seq_lib::seq_to_set_is_finite(ns);
}

/// `(file, file)` for each edge whose ends lie in two different files.
fn file_pairs(graph: &CodeGraph) -> (pairs: Vec<(String, String)>)
    ensures
        forall|a: Seq<char>, b: Seq<char>|
            file_links(graph.nodes@, graph.edges@, a, b) <==> paired(pairs@, pairs@.len() as int, a, b),
{
    let ghost nodes = graph.nodes@;
    let ghost edges = graph.edges@;
    let index = QueryIndex::ids_only(graph);
    let mut pairs: Vec<(String, String)> = Vec::new();
    let mut i: usize = 0;
    while i < graph.edges.len()
        invariant
            i <= graph.edges.len(),
            edges == graph.edges@,
            nodes == graph.nodes@,
            index.id_tables(graph.nodes@),
            forall|q: int| 0 <= q < pairs@.len() ==> exists|k: int| 0 <= k < i && file_link(nodes, #[trigger] edges[k]) == Some(((#[trigger] pairs@[q]).0@, pairs@[q].1@)),
            forall|k: int| 0 <= k < i && (#[trigger] file_link(nodes, edges[k])) is Some ==> exists|q: int| 0 <= q < pairs@.len() && file_link(nodes, edges[k]) == Some((pairs@[q].0@, pairs@[q].1@)),
        decreases graph.edges.len() - i,
    {
        let e = &graph.edges[i];
        let a = file_for(&index, graph, e.from.as_str());
        let b = file_for(&index, graph, e.to.as_str());
        let ghost pb = pairs@;
        match (a, b) {
            (Some(a), Some(b)) => {
                if !str_eq(a.as_str(), b.as_str()) {
                    pairs.push((a, b));
                    proof {
                        assert forall|q: int| 0 <= q < pairs@.len() implies exists|k: int| 0 <= k < i + 1 && file_link(nodes, #[trigger] edges[k]) == Some(((#[trigger] pairs@[q]).0@, pairs@[q].1@)) by {
                            if q < pb.len() {
                                assert(pairs@[q] == pb[q]);
                            } else {
                                assert(file_link(nodes, edges[i as int]) == Some((pairs@[q].0@, pairs@[q].1@)));
                            }
                        }
                        assert forall|k: int| 0 <= k < i + 1 && (#[trigger] file_link(nodes, edges[k])) is Some implies exists|q: int| 0 <= q < pairs@.len() && file_link(nodes, edges[k]) == Some((pairs@[q].0@, pairs@[q].1@)) by {
                            if k < i {
                                let q = choose|q: int| 0 <= q < pb.len() && file_link(nodes, edges[k]) == Some((pb[q].0@, pb[q].1@));
                                assert(pairs@[q] == pb[q]);
                            } else {
                                assert(file_link(nodes, edges[k]) == Some((pairs@[pb.len() as int].0@, pairs@[pb.len() as int].1@)));
                            }
                        }
                    }
                }
            },
            _ => {},
        }
        i = i + 1;
    }
    proof {
        assert forall|a: Seq<char>, b: Seq<char>| file_links(nodes, edges, a, b) <==> paired(pairs@, pairs@.len() as int, a, b) by {
            if file_links(nodes, edges, a, b) {
                let k = choose|k: int| 0 <= k < edges.len() && file_link(nodes, #[trigger] edges[k]) == Some((a, b));
                let q = choose|q: int| 0 <= q < pairs@.len() && file_link(nodes, edges[k]) == Some((pairs@[q].0@, pairs@[q].1@));
                assert(pairs@[q].0@ == a && pairs@[q].1@ == b);
            }
            if paired(pairs@, pairs@.len() as int, a, b) {
                let q = choose|q: int| 0 <= q < pairs@.len() && (#[trigger] pairs@[q]).0@ == a && pairs@[q].1@ == b;
                let k = choose|k: int| 0 <= k < edges.len() && file_link(nodes, #[trigger] edges[k]) == Some((pairs@[q].0@, pairs@[q].1@));
            }
        }
    }
    pairs
}

/// The counts of each vertex, and its sort key.
fn fan_counts(g: &NameGraph, preds: &Vec<Vec<usize>>) -> (r: (Vec<FanItem>, Vec<RankKey>))
    requires
        g.wf(),
        crate::namegraph::lists_preds(*g, preds@),
    ensures
        r.0@.len() == g.n(),
        r.1@.len() == g.n(),
        forall|q: int|
            0 <= q < g.n() ==> (#[trigger] r.0@[q]).file@ == g.name(q) && r.0@[q].fanout == g.succ@[q]@.len()
                && r.0@[q].fanin == preds@[q]@.len() && r.0@[q].total == capped_sum(r.0@[q].fanout as nat, r.0@[q].fanin as nat),
        forall|q: int|
            0 <= q < g.n() ==> (#[trigger] r.1@[q]).hi == r.0@[q].total && r.1@[q].lo == 0 && r.1@[q].a@ == g.name(q)
                && r.1@[q].b@.len() == 0,
{
    let n = g.names.len();
    let mut counts: Vec<FanItem> = Vec::new();
    let mut keyv: Vec<RankKey> = Vec::new();
    let mut v: usize = 0;
    while v < n
        invariant
            v <= n,
            n == g.n(),
            g.wf(),
            crate::namegraph::lists_preds(*g, preds@),
            counts@.len() == v,
            keyv@.len() == v,
            forall|q: int|
                0 <= q < v ==> (#[trigger] counts@[q]).file@ == g.name(q) && counts@[q].fanout == g.succ@[q]@.len()
                    && counts@[q].fanin == preds@[q]@.len() && counts@[q].total == capped_sum(counts@[q].fanout as nat, counts@[q].fanin as nat),
            forall|q: int|
                0 <= q < v ==> (#[trigger] keyv@[q]).hi == counts@[q].total && keyv@[q].lo == 0 && keyv@[q].a@ == g.name(q)
                    && keyv@[q].b@.len() == 0,
        decreases n - v,
    {
        let fo = g.succ[v].len();
        let fi = preds[v].len();
        let t = fo.saturating_add(fi);
        counts.push(FanItem { file: g.names[v].clone(), fanout: fo, fanin: fi, total: t });
        keyv.push(RankKey { hi: t, lo: 0, a: chars_of(g.names[v].as_str()), b: Vec::new() });
        v = v + 1;
    }
    (counts, keyv)
}

/// The first `m` of `counts` in the order `order`.
fn take_in_order(counts: &Vec<FanItem>, order: &Vec<usize>, m: usize) -> (r: Vec<FanItem>)
    requires
        m <= order@.len(),
        forall|q: int| 0 <= q < order@.len() ==> order@[q] < counts@.len(),
    ensures
        r@.len() == m,
        forall|q: int| 0 <= q < m ==> same_fan(#[trigger] r@[q], counts@[order@[q] as int]),
{
    let mut r: Vec<FanItem> = Vec::new();
    let mut p: usize = 0;
    while p < m
        invariant
            p <= m,
            m <= order@.len(),
            forall|q: int| 0 <= q < order@.len() ==> order@[q] < counts@.len(),
            r@.len() == p,
            forall|q: int| 0 <= q < p ==> same_fan(#[trigger] r@[q], counts@[order@[q] as int]),
        decreases m - p,
    {
        let c = &counts[order[p]];
        r.push(FanItem { file: c.file.clone(), fanout: c.fanout, fanin: c.fanin, total: c.total });
        p = p + 1;
    }
    r
}

/// The fan report of a graph of files: each item names a file linked to another,
/// with exact counts; items come in order; a file left out ranks after all of
/// them and the report is full.
pub open spec fn fan_report(r: Seq<FanItem>, nodes: Seq<Node>, edges: Seq<Edge>, limit: usize) -> bool {
    &&& r.len() <= limit
    &&& forall|i: int, j: int| 0 <= i < j < r.len() ==> fan_before(r[i], r[j].total as nat, r[j].file@)
    &&& forall|i: int| 0 <= i < r.len() ==> fan_fits(#[trigger] r[i], nodes, edges)
    &&& forall|x: Seq<char>|
        #[trigger] linked_file(nodes, edges, x) ==> (exists|i: int| 0 <= i < r.len() && r[i].file@ == x) || (r.len() == limit
            && forall|i: int| 0 <= i < r.len() ==> fan_before(r[i], capped_sum(files_after(nodes, edges, x).len(), files_before(nodes, edges, x).len()), x))
}

/// File `x` is linked to some other file.
pub open spec fn linked_file(nodes: Seq<Node>, edges: Seq<Edge>, x: Seq<char>) -> bool {
    exists|b: Seq<char>| file_links(nodes, edges, x, b) || file_links(nodes, edges, b, x)
}

/// The item counts the files linked to its file exactly.
pub open spec fn fan_fits(it: FanItem, nodes: Seq<Node>, edges: Seq<Edge>) -> bool {
    &&& linked_file(nodes, edges, it.file@)
    &&& it.fanout == files_after(nodes, edges, it.file@).len()
    &&& it.fanin == files_before(nodes, edges, it.file@).len()
    &&& it.total == capped_sum(it.fanout as nat, it.fanin as nat)
}

/// Per file, how many other files it reaches and is reached from by edges; the
/// `limit` files with the largest sum, in order of that sum then name (the sum
/// stays at `usize::MAX` if it would pass it).
pub fn fanout(graph: &CodeGraph, limit: usize) -> (r: Vec<FanItem>)
    ensures
        fan_report(r@, graph.nodes@, graph.edges@, limit),
{
    let pairs = file_pairs(graph);
    let keys: Vec<String> = Vec::new();
    let g = graph_from_pairs(&keys, &pairs);
    let n = g.names.len();
    let preds = crate::namegraph::predecessors(&g);
    let (counts, keyv) = fan_counts(&g, &preds);
    let order = sort_by_rank(&keyv);
    let m = if limit < n {
        limit
    } else {
        n
    };
    let r = take_in_order(&counts, &order, m);
    proof {
        lemma_fan_report(g, keys@, pairs@, graph.nodes@, graph.edges@, preds@, counts@, keyv@, order@, m as int, limit, r@);
    }
    r
}

proof fn lemma_fan_report(
    g: NameGraph,
    keys: Seq<String>,
    pairs: Seq<(String, String)>,
    nodes: Seq<Node>,
    edges: Seq<Edge>,
    preds: Seq<Vec<usize>>,
    counts: Seq<FanItem>,
    keyv: Seq<RankKey>,
    order: Seq<usize>,
    m: int,
    limit: usize,
    r: Seq<FanItem>,
)
    requires
        crate::refactor::built_from(g, keys, pairs),
        keys.len() == 0,
        g.n() <= usize::MAX,
        crate::namegraph::lists_preds(g, preds),
        forall|a: Seq<char>, b: Seq<char>| file_links(nodes, edges, a, b) <==> paired(pairs, pairs.len() as int, a, b),
        counts.len() == g.n(),
        keyv.len() == g.n(),
        forall|q: int|
            0 <= q < g.n() ==> (#[trigger] counts[q]).file@ == g.name(q) && counts[q].fanout == g.succ@[q]@.len()
                && counts[q].fanin == preds[q]@.len() && counts[q].total == capped_sum(counts[q].fanout as nat, counts[q].fanin as nat),
        forall|q: int|
            0 <= q < g.n() ==> (#[trigger] keyv[q]).hi == counts[q].total && keyv[q].lo == 0 && keyv[q].a@ == g.name(q)
                && keyv[q].b@.len() == 0,
        sorted_by(keyv, order),
        is_permutation(order, g.n()),
        m <= g.n(),
        m <= limit,
        m == limit || m == g.n(),
        r.len() == m,
        forall|q: int| 0 <= q < m ==> same_fan(#[trigger] r[q], counts[order[q] as int]),
    ensures
        fan_report(r, nodes, edges, limit),
{
    let n = g.n();
    assert forall|q: int| 0 <= q < n implies #[trigger] counts[q].fanout == files_after(nodes, edges, g.name(q)).len()
        && counts[q].fanin == files_before(nodes, edges, g.name(q)).len() by {
        lemma_fan_sets(g, keys, pairs, nodes, edges, preds, q);
        lemma_names_count(g, g.succ@[q]@);
        lemma_names_count(g, preds[q]@);
    }
    assert forall|i: int, j: int| 0 <= i < j < r.len() implies fan_before(r[i], r[j].total as nat, r[j].file@) by {
        assert(kb(keyv, order[i], order[j]));
        let ti = order[i] as int;
        let tj = order[j] as int;
        assert(ti != tj);
        if g.name(ti) == g.name(tj) {
            crate::refactor::lemma_name_injective(g, ti, tj);
        }
    }
    assert forall|i: int| 0 <= i < r.len() implies fan_fits(#[trigger] r[i], nodes, edges) by {
        let q = order[i] as int;
        assert(strings_view(g.names@)[q] == g.name(q));
        assert(names_of(keys, pairs).contains(g.name(q)));
        let k = choose|k: int| 0 <= k < pairs.len() && ((#[trigger] pairs[k]).0@ == g.name(q) || pairs[k].1@ == g.name(q));
        if pairs[k].0@ == g.name(q) {
            assert(paired(pairs, pairs.len() as int, g.name(q), pairs[k].1@));
            assert(file_links(nodes, edges, g.name(q), pairs[k].1@));
        } else {
            assert(paired(pairs, pairs.len() as int, pairs[k].0@, g.name(q)));
            assert(file_links(nodes, edges, pairs[k].0@, g.name(q)));
        }
    }
    assert forall|x: Seq<char>|
        #[trigger] linked_file(nodes, edges, x) implies (exists|i: int| 0 <= i < r.len() && r[i].file@ == x) || (r.len() == limit
            && forall|i: int| 0 <= i < r.len() ==> fan_before(r[i], capped_sum(files_after(nodes, edges, x).len(), files_before(nodes, edges, x).len()), x)) by {
        let b = choose|b: Seq<char>| file_links(nodes, edges, x, b) || file_links(nodes, edges, b, x);
        crate::refactor::lemma_symbol_set(keys, pairs);
        assert(crate::refactor::symbol_set(strings_view(keys), pairs_of(pairs)).contains(x)) by {
            if file_links(nodes, edges, x, b) {
                assert(paired(pairs, pairs.len() as int, x, b));
                let k = choose|k: int| 0 <= k < pairs.len() && (#[trigger] pairs[k]).0@ == x && pairs[k].1@ == b;
                assert(pairs_of(pairs)[k].0 == x);
            } else {
                assert(paired(pairs, pairs.len() as int, b, x));
                let k = choose|k: int| 0 <= k < pairs.len() && (#[trigger] pairs[k]).0@ == b && pairs[k].1@ == x;
                assert(pairs_of(pairs)[k].1 == x);
            }
        }
        let w = crate::refactor::lemma_vertex_of(g, keys, pairs, x);
        assert(w as usize as int == w);
        assert(order.contains(w as usize));
        let q = choose|q: int| 0 <= q < order.len() && order[q] == w as usize;
        assert(counts[w].file@ == x);
        if q < m {
            assert(same_fan(r[q], counts[order[q] as int]));
            assert(r[q].file@ == x);
        } else {
            assert forall|i: int| 0 <= i < r.len() implies fan_before(r[i], capped_sum(files_after(nodes, edges, x).len(), files_before(nodes, edges, x).len()), x) by {
                assert(kb(keyv, order[i], order[q]));
                let ti = order[i] as int;
                assert(ti != w);
                if g.name(ti) == x {
                    crate::refactor::lemma_name_injective(g, ti, w);
                }
            }
        }
    }
    assert(r.len() <= limit);
    assert(forall|i: int, j: int| 0 <= i < j < r.len() ==> fan_before(r[i], r[j].total as nat, r[j].file@));

}

/// `x` and `y` name the same file with the same counts.
pub open spec fn same_fan(x: FanItem, y: FanItem) -> bool {
    x.file@ == y.file@ && x.fanout == y.fanout && x.fanin == y.fanin && x.total == y.total
}

proof fn lemma_fan_sets(
    g: NameGraph,
    keys: Seq<String>,
    pairs: Seq<(String, String)>,
    nodes: Seq<Node>,
    edges: Seq<Edge>,
    preds: Seq<Vec<usize>>,
    q: int,
)
    requires
        crate::refactor::built_from(g, keys, pairs),
        keys.len() == 0,
        crate::namegraph::lists_preds(g, preds),
        0 <= q < g.n(),
        forall|a: Seq<char>, b: Seq<char>| file_links(nodes, edges, a, b) <==> paired(pairs, pairs.len() as int, a, b),
    ensures
        files_after(nodes, edges, g.name(q)) == crate::refactor::index_names(g, g.succ@[q]@).to_set(),
        files_before(nodes, edges, g.name(q)) == crate::refactor::index_names(g, preds[q]@).to_set(),
{
    crate::refactor::lemma_symbol_set(keys, pairs);
    let a = g.name(q);
    assert forall|b: Seq<char>| files_after(nodes, edges, a).contains(b) <==> crate::refactor::index_names(g, g.succ@[q]@).to_set().contains(b) by {
        crate::refactor::lemma_names_contain(g, g.succ@[q]@, b);
        if files_after(nodes, edges, a).contains(b) {
            assert(paired(pairs, pairs.len() as int, a, b));
            let k = choose|k: int| 0 <= k < pairs.len() && (#[trigger] pairs[k]).0@ == a && pairs[k].1@ == b;
            assert(pairs_of(pairs)[k].1 == b);
            let w = crate::refactor::lemma_vertex_of(g, keys, pairs, b);
            assert(g.edge(q, w));
            assert(crate::refactor::index_names(g, g.succ@[q]@).contains(b));
        }
        if crate::refactor::index_names(g, g.succ@[q]@).to_set().contains(b) {
            let w = choose|w: int| occurs(g.succ@[q]@, w) && g.name(w) == b;
            let k = choose|k: int| 0 <= k < g.succ@[q]@.len() && g.succ@[q]@[k] == w;
            assert(g.succ@[q]@[k] < g.n());
            assert(g.edge(q, w));
        }
    }
    assert forall|b: Seq<char>| files_before(nodes, edges, a).contains(b) <==> crate::refactor::index_names(g, preds[q]@).to_set().contains(b) by {
        crate::refactor::lemma_names_contain(g, preds[q]@, b);
        if files_before(nodes, edges, a).contains(b) {
            assert(paired(pairs, pairs.len() as int, b, a));
            let k = choose|k: int| 0 <= k < pairs.len() && (#[trigger] pairs[k]).0@ == b && pairs[k].1@ == a;
            assert(pairs_of(pairs)[k].0 == b);
            let w = crate::refactor::lemma_vertex_of(g, keys, pairs, b);
            assert(g.edge(w, q));
            assert(occurs(preds[q]@, w));
            assert(crate::refactor::index_names(g, preds[q]@).contains(b));
        }
        if crate::refactor::index_names(g, preds[q]@).to_set().contains(b) {
            let w = choose|w: int| occurs(preds[q]@, w) && g.name(w) == b;
            let k = choose|k: int| 0 <= k < preds[q]@.len() && preds[q]@[k] == w;
            assert(preds[q]@[k] < g.n());
            assert(g.edge(w, q));
        }
    }
    assert(files_after(nodes, edges, a) =~= crate::refactor::index_names(g, g.succ@[q]@).to_set());
    assert(files_before(nodes, edges, a) =~= crate::refactor::index_names(g, preds[q]@).to_set());
}

} // verus!
