use vstd::prelude::*;
use crate::index::{is_last_with_id, QueryIndex};
use crate::model::{CodeGraph, Edge, EdgeKind};
use crate::namegraph::lemma_distinct_bounded;
use crate::query::{kind_ok, other_end};
use crate::strs::{chars_of, owned};
use crate::query::require_unique_node;

verus! {

/// The id at the near end of `e` when walking `outbound` (from) or inbound (to).
pub open spec fn near_end(e: Edge, outbound: bool) -> Seq<char> {
    if outbound {
        e.from@
    } else {
        e.to@
    }
}

/// The walk's `t`-th visited node and its depth: the start at depth 0, then
/// the node of each entry in turn.
pub open spec fn walk_source(p: usize, r: Seq<(usize, usize, usize)>, t: int) -> (usize, usize) {
    if t == 0 {
        (p, 0)
    } else {
        (r[t - 1].2, r[t - 1].0)
    }
}

/// Entry `i` of a walk from `p`: `(depth, edge, node)` where the edge passes
/// the kind filter, leads from a node visited earlier at one level less, and
/// ends at `node` (the last node with that id), with `1 <= depth <= max`.
pub open spec fn walk_entry(
    graph: CodeGraph,
    p: usize,
    outbound: bool,
    kind: Option<EdgeKind>,
    max: nat,
    r: Seq<(usize, usize, usize)>,
    i: int,
) -> bool {
    let (d, e, q) = r[i];
    &&& 1 <= d <= max
    &&& e < graph.edges@.len()
    &&& kind_ok(graph.edges@[e as int], kind)
    &&& is_last_with_id(graph.nodes@, other_end(graph.edges@[e as int], outbound), q as int)
    &&& exists|t: int|
        #![trigger walk_source(p, r, t)]
        0 <= t <= i && walk_source(p, r, t).1 + 1 == d && walk_source(p, r, t).0 < graph.nodes@.len()
            && near_end(graph.edges@[e as int], outbound) == graph.nodes@[walk_source(p, r, t).0 as int].id@
}

pub open spec fn walked_nodes(r: Seq<(usize, usize, usize)>) -> Seq<usize> {
    r.map_values(|x: (usize, usize, usize)| x.2)
}

/// The node edge `e` leads to in a walk: the last node whose id is its far end.
pub open spec fn reached_by(graph: CodeGraph, e: int, outbound: bool) -> int {
    crate::index::last_with_id(graph.nodes@, other_end(graph.edges@[e], outbound))
}

/// Edge `e` leaves node `src` in the walk's direction, passes the kind filter
/// and leads to a node of the graph.
pub open spec fn walk_step(graph: CodeGraph, src: int, outbound: bool, kind: Option<EdgeKind>, e: int) -> bool {
    &&& 0 <= e < graph.edges@.len()
    &&& near_end(graph.edges@[e], outbound) == graph.nodes@[src].id@
    &&& kind_ok(graph.edges@[e], kind)
    &&& crate::index::has_id(graph.nodes@, other_end(graph.edges@[e], outbound))
}

/// A walk `r` from `p` that skips nothing is complete: every step from the
/// start or a listed node above the last level reaches a listed node.
pub open spec fn walk_complete(
    graph: CodeGraph,
    p: usize,
    outbound: bool,
    kind: Option<EdgeKind>,
    depth: nat,
    r: Seq<(usize, usize, usize)>,
) -> bool {
    forall|t: int, e: int|
        0 <= t <= r.len() && walk_source(p, r, t).1 < depth && #[trigger] walk_step(
            graph,
            walk_source(p, r, t).0 as int,
            outbound,
            kind,
            e,
        ) ==> walked_nodes(r).contains(reached_by(graph, e, outbound) as usize)
}

/// Breadth-first walk from node `p` along edges of `kind` (any kind when
/// `None`), outward or inward, down to `depth` levels. Each node is listed at
/// most once, at the depth where it is first reached; nodes are expanded until
/// `limit` entries have been found (the last node expanded may add several).
/// With `skip_start`, nodes with the start's id are never listed. When the
/// walk lists fewer than `limit` nodes, it is complete: every step from the
/// start or a listed node above the last level reaches a listed node (or the
/// skipped start).
pub fn walk(
    index: &QueryIndex,
    graph: &CodeGraph,
    p: usize,
    outbound: bool,
    kind: Option<EdgeKind>,
    depth: usize,
    limit: usize,
    skip_start: bool,
) -> (r: Vec<(usize, usize, usize)>)
    requires
        index.describes(graph),
        p < graph.nodes.len(),
    ensures
        forall|i: int| 0 <= i < r.len() ==> walk_entry(*graph, p, outbound, kind, depth as nat, r@, i),
        walked_nodes(r@).no_duplicates(),
        forall|i: int, j: int| 0 <= i < j < r.len() ==> r@[i].0 <= r@[j].0,
        skip_start ==> forall|i: int|
            0 <= i < r.len() ==> graph.nodes@[r@[i].2 as int].id@ != graph.nodes@[p as int].id@,
        r.len() < limit ==> forall|t: int, e: int|
            0 <= t <= r.len() && walk_source(p, r@, t).1 < depth && #[trigger] walk_step(
                *graph,
                walk_source(p, r@, t).0 as int,
                outbound,
                kind,
                e,
            ) ==> walked_nodes(r@).contains(reached_by(*graph, e, outbound) as usize) || (skip_start && other_end(
                graph.edges@[e],
                outbound,
            ) == graph.nodes@[p as int].id@),
{
    let n = graph.nodes.len();
    let mut seen = crate::namegraph::flags(n);
    let ghost mut sc: int = -1;
    if skip_start {
        let c = index.canonical(graph, p);
        seen.set(c, true);
        proof {
            sc = c as int;
        }
    }
    let mut r: Vec<(usize, usize, usize)> = Vec::new();
    let mut queue: Vec<(usize, usize)> = Vec::new();
    queue.push((p, 0));
    let mut head: usize = 0;
    let ghost mut full: bool = true;
    while head < queue.len()
        invariant
            index.describes(graph),
            n == graph.nodes.len(),
            p < n,
            !full ==> r.len() >= limit,
            full ==> forall|t: int, e: int|
                0 <= t < head && queue@[t].1 < depth && #[trigger] walk_step(*graph, queue@[t].0 as int, outbound, kind, e)
                    ==> seen@[reached_by(*graph, e, outbound)],
            seen@.len() == n,
            queue.len() == r.len() + 1,
            head <= queue.len(),
            forall|t: int| 0 <= t < queue.len() ==> queue@[t] == walk_source(p, r@, t),
            forall|i: int| 0 <= i < r.len() ==> walk_entry(*graph, p, outbound, kind, depth as nat, r@, i),
            forall|i: int| 0 <= i < r.len() ==> r@[i].2 < n && seen@[r@[i].2 as int],
            forall|x: int| 0 <= x < n && seen@[x] ==> walked_nodes(r@).contains(x as usize) || x == sc,
            skip_start ==> 0 <= sc < n && seen@[sc] && is_last_with_id(graph.nodes@, graph.nodes@[p as int].id@, sc),
            !skip_start ==> sc == -1,
            forall|i: int| 0 <= i < r.len() ==> r@[i].2 != sc,
            walked_nodes(r@).no_duplicates(),
            forall|i: int, j: int| 0 <= i < j < r.len() ==> r@[i].0 <= r@[j].0,
            forall|i: int| 0 <= i < r.len() ==> head == 0 || #[trigger] r@[i].0 <= queue@[head as int - 1].1 + 1,
            head == 0 ==> r.len() == 0,
        decreases n + 1 - head,
    {
        proof {
            lemma_distinct_bounded(walked_nodes(r@), n as nat);
        }
        let (id, level) = queue[head];
        assert(queue@[head as int] == walk_source(p, r@, head as int));
        proof {
            if head > 0 {
                assert(queue@[head - 1] == walk_source(p, r@, head - 1));
                if head > 1 {
                    assert(r@[head - 2].0 <= r@[head - 1].0);
                }
                assert(queue@[head - 1].1 <= level);
            }
        }
        let ghost h = head as int;
        head = head + 1;
        if level >= depth || r.len() >= limit {
            proof {
                if level < depth {
                    full = false;
                }
            }
            continue;
        }
        assert(id < n);
        let es = index.edges_of(graph, id, outbound);
        let mut k: usize = 0;
        while k < es.len()
            invariant
                index.describes(graph),
                n == graph.nodes.len(),
                p < n,
                id < n,
                level < depth,
                seen@.len() == n,
                queue.len() == r.len() + 1,
                0 <= h,
                h + 1 == head,
                head <= queue.len(),
                queue@[h] == (id, level),
                es@ == crate::index::edges_at(graph.edges@, graph.nodes@[id as int].id@, outbound),
                forall|t: int| 0 <= t < es.len() ==> es@[t] < graph.edges.len(),
                k <= es.len(),
                forall|t: int| 0 <= t < queue.len() ==> queue@[t] == walk_source(p, r@, t),
                forall|i: int| 0 <= i < r.len() ==> walk_entry(*graph, p, outbound, kind, depth as nat, r@, i),
                forall|i: int| 0 <= i < r.len() ==> r@[i].2 < n && seen@[r@[i].2 as int],
                forall|x: int| 0 <= x < n && seen@[x] ==> walked_nodes(r@).contains(x as usize) || x == sc,
            skip_start ==> 0 <= sc < n && seen@[sc] && is_last_with_id(graph.nodes@, graph.nodes@[p as int].id@, sc),
            !skip_start ==> sc == -1,
            forall|i: int| 0 <= i < r.len() ==> r@[i].2 != sc,
                walked_nodes(r@).no_duplicates(),
                forall|i: int, j: int| 0 <= i < j < r.len() ==> r@[i].0 <= r@[j].0,
                forall|i: int| 0 <= i < r.len() ==> #[trigger] r@[i].0 <= level + 1,
                r.len() >= h,
                !full ==> r.len() >= limit,
                full ==> forall|t: int, e: int|
                    0 <= t < h && queue@[t].1 < depth && #[trigger] walk_step(*graph, queue@[t].0 as int, outbound, kind, e)
                        ==> seen@[reached_by(*graph, e, outbound)],
                forall|kk: int|
                    0 <= kk < k && kind_ok(graph.edges@[#[trigger] es@[kk] as int], kind) && crate::index::has_id(
                        graph.nodes@,
                        other_end(graph.edges@[es@[kk] as int], outbound),
                    ) ==> seen@[reached_by(*graph, es@[kk] as int, outbound)],
            decreases es.len() - k,
        {
            let ghost seen_k = seen@;
            let ghost queue_k = queue@;
            let e = es[k];
            let edge = &graph.edges[e];
            let ok = match kind {
                Some(want) => edge.kind == want,
                None => true,
            };
            if ok {
                let other = if outbound {
                    chars_of(edge.to.as_str())
                } else {
                    chars_of(edge.from.as_str())
                };
                match index.lookup(graph, &other) {
                    Some(q) => {
                        proof {
                            crate::index::lemma_last_with_id(graph.nodes@, other@, q as int);
                        }
                        if !seen[q] {
                            proof {
                                crate::index::lemma_edges_at_in_range(graph.edges@, graph.nodes@[id as int].id@, outbound);
                                crate::seqs::lemma_select_members(
                                    graph.edges@,
                                    graph.edges@.len() as int,
                                    if outbound {
                                        crate::index::leaves(graph.nodes@[id as int].id@)
                                    } else {
                                        crate::index::enters(graph.nodes@[id as int].id@)
                                    },
                                );
                            }
                            let ghost old_r = r@;
                            let ghost old_seen = seen@;
                            let ghost old_q = queue@;
                            seen.set(q, true);
                            r.push((level + 1, e, q));
                            queue.push((q, level + 1));
                            proof {
                                assert(walked_nodes(r@) =~= walked_nodes(old_r).push(q));
                                assert(!walked_nodes(old_r).contains(q)) by {
                                    if walked_nodes(old_r).contains(q) {
                                        let i = choose|i: int| 0 <= i < old_r.len() && walked_nodes(old_r)[i] == q;
                                        assert(old_seen[old_r[i].2 as int]);
                                    }
                                }
                                assert forall|t: int| 0 <= t < queue.len() implies queue@[t] == walk_source(p, r@, t) by {
                                    if t > 0 && t < queue.len() - 1 {
                                        assert(r@[t - 1] == old_r[t - 1]);
                                    }
                                }
                                assert(queue@[h] == old_q[h]);
                                assert(queue@[h] == (id, level));
                                assert(queue@[h] == walk_source(p, r@, h));
                                assert(walk_source(p, r@, h) == (id, level));
                                let i_new = r.len() - 1;
                                assert forall|i: int| 0 <= i < r.len() implies walk_entry(*graph, p, outbound, kind, depth as nat, r@, i) by {
                                    if i < i_new {
                                        assert(walk_entry(*graph, p, outbound, kind, depth as nat, old_r, i));
                                        let t = choose|t: int|
                                            #![trigger walk_source(p, old_r, t)]
                                            0 <= t <= i && walk_source(p, old_r, t).1 + 1 == old_r[i].0
                                                && walk_source(p, old_r, t).0 < graph.nodes@.len()
                                                && near_end(graph.edges@[old_r[i].1 as int], outbound)
                                                == graph.nodes@[walk_source(p, old_r, t).0 as int].id@;
                                        assert(walk_source(p, r@, t) == walk_source(p, old_r, t));
                                    } else {
                                        assert(walk_source(p, r@, h).0 < graph.nodes@.len());
                                    }
                                }
                                assert forall|x: int| 0 <= x < n && seen@[x] implies walked_nodes(r@).contains(x as usize) || x == sc by {
                                    if x != q {
                                        assert(old_seen[x]);
                                        if x != sc {
                                            let i = choose|i: int| 0 <= i < old_r.len() && walked_nodes(old_r)[i] == x as usize;
                                            assert(walked_nodes(r@)[i] == x as usize);
                                        }
                                    } else {
                                        assert(walked_nodes(r@)[old_r.len() as int] == q);
                                    }
                                }
                            }
                        }
                        proof {
                            assert(other@ == other_end(graph.edges@[e as int], outbound));
                            assert(reached_by(*graph, e as int, outbound) == q);
                            assert(seen@[q as int]);
                        }
                    },
                    None => {
                        proof {
                            assert(other@ == other_end(graph.edges@[e as int], outbound));
                        }
                    },
                }
            }
            proof {
                assert forall|x: int| 0 <= x < seen_k.len() && seen_k[x] implies seen@[x] by {}
                assert forall|t: int| 0 <= t < queue_k.len() implies queue@[t] == queue_k[t] by {}
                assert forall|kk: int|
                    0 <= kk < k + 1 && kind_ok(graph.edges@[#[trigger] es@[kk] as int], kind) && crate::index::has_id(
                        graph.nodes@,
                        other_end(graph.edges@[es@[kk] as int], outbound),
                    ) implies seen@[reached_by(*graph, es@[kk] as int, outbound)] by {
                    crate::index::lemma_last_with_id_in(graph.nodes@, other_end(graph.edges@[es@[kk] as int], outbound));
                    if kk < k {
                        assert(seen_k[reached_by(*graph, es@[kk] as int, outbound)]);
                    }
                }
                if full {
                    assert forall|t: int, e2: int|
                        0 <= t < h && queue@[t].1 < depth && #[trigger] walk_step(*graph, queue@[t].0 as int, outbound, kind, e2)
                            implies seen@[reached_by(*graph, e2, outbound)] by {
                        crate::index::lemma_last_with_id_in(graph.nodes@, other_end(graph.edges@[e2], outbound));
                        assert(queue@[t] == queue_k[t]);
                        assert(walk_step(*graph, queue_k[t].0 as int, outbound, kind, e2));
                        assert(seen_k[reached_by(*graph, e2, outbound)]);
                    }
                }
            }
            k = k + 1;
        }
        proof {
            crate::index::lemma_edges_at_in_range(graph.edges@, graph.nodes@[id as int].id@, outbound);
            crate::seqs::lemma_select_members(
                graph.edges@,
                graph.edges@.len() as int,
                if outbound {
                    crate::index::leaves(graph.nodes@[id as int].id@)
                } else {
                    crate::index::enters(graph.nodes@[id as int].id@)
                },
            );
            if full {
                assert forall|t: int, e2: int|
                    0 <= t < head && queue@[t].1 < depth && #[trigger] walk_step(*graph, queue@[t].0 as int, outbound, kind, e2)
                        implies seen@[reached_by(*graph, e2, outbound)] by {
                    if t == h {
                        assert(es@.contains(e2 as usize));
                        let kk = choose|kk: int| 0 <= kk < es@.len() && es@[kk] == e2 as usize;
                        assert(kind_ok(graph.edges@[es@[kk] as int], kind));
                    }
                }
            }
        }
    }
    proof {
        if r.len() < limit {
            assert forall|t: int, e2: int|
                0 <= t <= r.len() && walk_source(p, r@, t).1 < depth && #[trigger] walk_step(
                    *graph,
                    walk_source(p, r@, t).0 as int,
                    outbound,
                    kind,
                    e2,
                ) implies walked_nodes(r@).contains(reached_by(*graph, e2, outbound) as usize) || (skip_start && other_end(
                    graph.edges@[e2],
                    outbound,
                ) == graph.nodes@[p as int].id@) by {
                assert(queue@[t] == walk_source(p, r@, t));
                assert(walk_step(*graph, queue@[t].0 as int, outbound, kind, e2));
                let q = reached_by(*graph, e2, outbound);
                assert(seen@[q]);
                crate::index::lemma_last_with_id_in(graph.nodes@, other_end(graph.edges@[e2], outbound));
                if q == sc {
                    assert(graph.nodes@[q].id@ == other_end(graph.edges@[e2], outbound));
                }
            }
        }
    }
    proof {
        if skip_start {
            assert forall|i: int| 0 <= i < r.len() implies graph.nodes@[r@[i].2 as int].id@ != graph.nodes@[p as int].id@ by {
                assert(walk_entry(*graph, p, outbound, kind, depth as nat, r@, i));
                if graph.nodes@[r@[i].2 as int].id@ == graph.nodes@[p as int].id@ {
                    crate::index::lemma_last_unique(graph.nodes@, graph.nodes@[p as int].id@, r@[i].2 as int, sc);
                }
            }
        }
    }
    r
}


// ---------------------------------------------------------------------------
// Shortest paths
// ---------------------------------------------------------------------------

/// `w` follows the directed pairs: each step is one of them.
pub open spec fn follows_pairs(pairs: Seq<(Seq<char>, Seq<char>)>, w: Seq<Seq<char>>) -> bool {
    forall|i: int|
        #![trigger w[i]]
        0 <= i < w.len() - 1 ==> exists|k: int| 0 <= k < pairs.len() && pairs[k] == (w[i], w[i + 1])
}

/// `w` is a walk along the pairs from `a` to `b`.
pub open spec fn pair_walk(pairs: Seq<(Seq<char>, Seq<char>)>, a: Seq<char>, b: Seq<char>, w: Seq<Seq<char>>) -> bool {
    &&& w.len() >= 1
    &&& w[0] == a
    &&& w.last() == b
    &&& follows_pairs(pairs, w)
}

/// What petgraph's `astar` returns as the path, on a directed graph map holding
/// the pairs as unit-cost edges, from `a` to the goal `b` with a zero estimate.
pub uninterp spec fn astar_path(pairs: Seq<(Seq<char>, Seq<char>)>, a: Seq<char>, b: Seq<char>) -> Option<Seq<Seq<char>>>;

pub open spec fn pair_strings_view(v: Seq<(String, String)>) -> Seq<(Seq<char>, Seq<char>)> {
    v.map_values(|p: (String, String)| (p.0@, p.1@))
}

pub open spec fn opt_strings_view(o: Option<Vec<String>>) -> Option<Seq<Seq<char>>> {
    match o {
        Some(v) => Some(crate::seqs::strings_view(v@)),
        None => None,
    }
}

/// `petgraph::algo::astar` on a `DiGraphMap` built from `pairs` (each a unit
/// cost edge), from `a` to `b`, with a zero estimate. Per its documentation it
/// computes a shortest path: the result starts at `a`, ends at `b`, follows the
/// pairs and is no longer than any walk from `a` to `b`; it is `None` when no
/// walk exists. Which of several shortest walks it picks is left unsaid.
#[verifier::external_body]
fn shortest_walk(pairs: &Vec<(String, String)>, a: &str, b: &str) -> (r: Option<Vec<String>>)
    ensures
        opt_strings_view(r) == astar_path(pair_strings_view(pairs@), a@, b@),
        r matches Some(p) ==> pair_walk(pair_strings_view(pairs@), a@, b@, crate::seqs::strings_view(p@)),
        r matches Some(p) ==> forall|w: Seq<Seq<char>>|
            pair_walk(pair_strings_view(pairs@), a@, b@, w) ==> p@.len() <= w.len(),
        r is None ==> forall|w: Seq<Seq<char>>| !pair_walk(pair_strings_view(pairs@), a@, b@, w),
{
    let mut map = petgraph::graphmap::DiGraphMap::<&str, usize>::new();
    for (x, y) in pairs.iter() {
        map.add_edge(x.as_str(), y.as_str(), 1);
    }
    petgraph::algo::astar(&map, a, |n| crate::strs::str_eq(n, b), |e| *e.2, |_| 0)
        .map(|(_, p)| p.into_iter().map(|s| s.to_string()).collect())
}

/// The `(from, to)` ids of the call edges, in edge order.
pub open spec fn call_pairs(edges: Seq<Edge>) -> Seq<(Seq<char>, Seq<char>)>
    decreases edges.len(),
{
    if edges.len() == 0 {
        Seq::empty()
    } else {
        let rest = call_pairs(edges.drop_last());
        if edges.last().kind == EdgeKind::Calls {
            rest.push((edges.last().from@, edges.last().to@))
        } else {
            rest
        }
    }
}

/// The `(from, to)` ids of the call edges, in order.
fn call_edge_pairs(graph: &CodeGraph) -> (r: Vec<(String, String)>)
    ensures
        pair_strings_view(r@) == call_pairs(graph.edges@),
{
    let mut r: Vec<(String, String)> = Vec::new();
    let mut k: usize = 0;
    while k < graph.edges.len()
        invariant
            k <= graph.edges.len(),
            pair_strings_view(r@) == call_pairs(graph.edges@.take(k as int)),
        decreases graph.edges.len() - k,
    {
        let e = &graph.edges[k];
        let ghost prev = r@;
        assert(graph.edges@.take(k + 1).drop_last() =~= graph.edges@.take(k as int));
        if e.kind == EdgeKind::Calls {
            r.push((owned(e.from.as_str()), owned(e.to.as_str())));
            assert(pair_strings_view(r@) =~= pair_strings_view(prev).push((e.from@, e.to@)));
        }
        k = k + 1;
    }
    assert(graph.edges@.take(graph.edges.len() as int) =~= graph.edges@);
    r
}

/// What the shortest-path search found between the ids `a` and `b` over the
/// call pairs: a shortest walk along them, or nothing when none exists.
pub open spec fn shortest_found(pairs: Seq<(Seq<char>, Seq<char>)>, a: Seq<char>, b: Seq<char>) -> bool {
    match astar_path(pairs, a, b) {
        Some(w) => pair_walk(pairs, a, b, w) && forall|w2: Seq<Seq<char>>| pair_walk(pairs, a, b, w2) ==> w.len() <= w2.len(),
        None => forall|w2: Seq<Seq<char>>| !pair_walk(pairs, a, b, w2),
    }
}

/// The path kept: the one found, when it has at most `max` steps; else none.
pub open spec fn kept_path(found: Option<Seq<Seq<char>>>, max: nat) -> Seq<Seq<char>> {
    match found {
        Some(p) => if p.len() == 0 || p.len() - 1 <= max { p } else { Seq::empty() },
        None => Seq::empty(),
    }
}

/// For each id of `ids` that names a node, the last node with that id, in order.
pub open spec fn ids_to_nodes(nodes: Seq<crate::model::Node>, ids: Seq<Seq<char>>) -> Seq<usize>
    decreases ids.len(),
{
    if ids.len() == 0 {
        Seq::empty()
    } else {
        let prev = ids_to_nodes(nodes, ids.drop_last());
        if crate::index::has_id(nodes, ids.last()) {
            prev.push(crate::index::last_with_id(nodes, ids.last()) as usize)
        } else {
            prev
        }
    }
}

/// The nodes of the path `found` (as computed by the path search), kept when it
/// has at most `max_depth` steps.
pub fn path_nodes(index: &QueryIndex, graph: &CodeGraph, found: &Option<Vec<String>>, max_depth: usize) -> (r: Vec<usize>)
    requires
        index.describes(graph),
    ensures
        r@ == ids_to_nodes(graph.nodes@, kept_path(opt_strings_view(*found), max_depth as nat)),
{
    let empty: Vec<String> = Vec::new();
    let p: &Vec<String> = match found {
        Some(p) => if p.len() == 0 || p.len() - 1 <= max_depth { p } else { &empty },
        None => &empty,
    };
    let ghost ids = crate::seqs::strings_view(p@);
    assert(ids == kept_path(opt_strings_view(*found), max_depth as nat));
    let mut r: Vec<usize> = Vec::new();
    let mut k: usize = 0;
    while k < p.len()
        invariant
            index.describes(graph),
            k <= p.len(),
            ids == crate::seqs::strings_view(p@),
            r@ == ids_to_nodes(graph.nodes@, ids.take(k as int)),
        decreases p.len() - k,
    {
        let id = chars_of(p[k].as_str());
        assert(ids.take(k + 1).drop_last() =~= ids.take(k as int));
        match index.lookup(graph, &id) {
            Some(q) => {
                proof {
                    crate::index::lemma_last_with_id(graph.nodes@, id@, q as int);
                }
                r.push(q);
            },
            None => {},
        }
        k = k + 1;
    }
    assert(ids.take(p.len() as int) =~= ids);
    r
}

/// A path query's answer: the two end nodes and the nodes of a shortest path
/// between them (empty when there is none within the depth).
pub struct PathReport {
    pub from: usize,
    pub to: usize,
    pub nodes: Vec<usize>,
}

/// The shortest call path from the node `from` designates to the node `to`
/// designates, of at most `max_depth` steps: a shortest walk along call edges
/// (see [`shortest_found`]), kept when it has at most `max_depth` steps. Fails
/// as [`require_unique_node`] does for the source, then for the target.
pub fn path(graph: &CodeGraph, from: &str, to: &str, max_depth: usize) -> (r: Result<PathReport, String>)
    requires
        crate::index::weights_fit(graph.edges@),
    ensures
        ({
            let a = crate::query::find_nodes_spec(graph.nodes@, from@);
            let b = crate::query::find_nodes_spec(graph.nodes@, to@);
            &&& r is Ok <==> a.len() == 1 && b.len() == 1
            &&& r matches Ok(rep) ==> rep.from == a[0] && rep.to == b[0] && rep.from < graph.nodes.len()
                && rep.to < graph.nodes.len() && rep.nodes@ == ids_to_nodes(
                graph.nodes@,
                kept_path(
                    astar_path(
                        call_pairs(graph.edges@),
                        graph.nodes@[a[0] as int].id@,
                        graph.nodes@[b[0] as int].id@,
                    ),
                    max_depth as nat,
                ),
            ) && shortest_found(call_pairs(graph.edges@), graph.nodes@[a[0] as int].id@, graph.nodes@[b[0] as int].id@)
        }),
        r matches Err(msg) ==> if crate::query::find_nodes_spec(graph.nodes@, from@).len() != 1 {
            crate::query::lookup_failed(graph.nodes@, "source"@, from@, from.len() as nat, msg@)
        } else {
            crate::query::find_nodes_spec(graph.nodes@, to@).len() != 1 && crate::query::lookup_failed(graph.nodes@, "target"@, to@, to.len() as nat, msg@)
        },
{
    let index = QueryIndex::new(graph);
    let a = match require_unique_node(graph, from, "source") {
        Ok(a) => a,
        Err(e) => return Err(e),
    };
    let b = match require_unique_node(graph, to, "target") {
        Ok(b) => b,
        Err(e) => return Err(e),
    };
    let pairs = call_edge_pairs(graph);
    let found = shortest_walk(&pairs, graph.nodes[a].id.as_str(), graph.nodes[b].id.as_str());
    let nodes = path_nodes(&index, graph, &found, max_depth);
    Ok(PathReport { from: a, to: b, nodes })
}

} // verus!
