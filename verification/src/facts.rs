use vstd::prelude::*;
use crate::model::{CodeGraph, Edge, EdgeKind, Node};
use crate::ranking::{haystack, node_haystack, query_terms, vecs_view, word_runs};
use crate::seqs::select;
use crate::strs::{contains_chars, contains_seq, lowercase, str_eq};

verus! {

/// The terms of a question worth matching: the word runs of its lower-case
/// form that are longer than two characters.
pub open spec fn fact_terms(question: Seq<char>) -> Seq<Seq<char>> {
    word_runs(lowercase(question)).filter(|t: Seq<char>| t.len() > 2)
}

/// A node whose text (see [`haystack`]) contains one of the terms `ts`.
pub open spec fn mentions_any(ts: Seq<Seq<char>>) -> spec_fn(Node) -> bool {
    |n: Node| exists|k: int| 0 <= k < ts.len() && contains_seq(haystack(n), #[trigger] ts[k])
}

/// A node with a signature.
pub open spec fn has_signature() -> spec_fn(Node) -> bool {
    |n: Node| n.signature is Some
}

/// The first `n` elements of `s` (all of them when it is shorter).
pub open spec fn first_n<T>(s: Seq<T>, n: nat) -> Seq<T> {
    if s.len() <= n {
        s
    } else {
        s.take(n as int)
    }
}

/// The nodes a question's facts are about: the first `limit` nodes that
/// mention one of its terms; when there are none, the first `limit` nodes with
/// a signature.
pub open spec fn fact_nodes(nodes: Seq<Node>, ts: Seq<Seq<char>>, limit: nat) -> Seq<usize> {
    let m = first_n(select(nodes, nodes.len() as int, mentions_any(ts)), limit);
    if m.len() > 0 {
        m
    } else {
        first_n(select(nodes, nodes.len() as int, has_signature()), limit)
    }
}

/// The position of the first node at or after `i` whose id is `id`.
pub open spec fn first_with_id_from(nodes: Seq<Node>, id: Seq<char>, i: int) -> Option<usize>
    decreases nodes.len() - i,
{
    if i < 0 || i >= nodes.len() {
        None
    } else if nodes[i].id@ == id {
        Some(i as usize)
    } else {
        first_with_id_from(nodes, id, i + 1)
    }
}

/// The edges that make a node part of another: declarations, methods and
/// containment.
pub open spec fn is_part_kind(k: EdgeKind) -> bool {
    k == EdgeKind::Declares || k == EdgeKind::HasMethod || k == EdgeKind::Contains
}

/// For each edge of `edges` from `id` that declares, holds as a method or
/// contains another node, in order, the first node with the edge's target id
/// (edges to no node are passed over).
pub open spec fn part_nodes(nodes: Seq<Node>, edges: Seq<Edge>, id: Seq<char>) -> Seq<usize>
    decreases edges.len(),
{
    if edges.len() == 0 {
        Seq::empty()
    } else {
        let rest = part_nodes(nodes, edges.drop_last(), id);
        let e = edges.last();
        if e.from@ == id && is_part_kind(e.kind) {
            match first_with_id_from(nodes, e.to@, 0) {
                Some(q) => rest.push(q),
                None => rest,
            }
        } else {
            rest
        }
    }
}

fn long_terms(question: &str) -> (r: Vec<Vec<char>>)
    ensures
        vecs_view(r@) == fact_terms(question@),
{
    let all = query_terms(question);
    let ghost ts = vecs_view(all@);
    let mut r: Vec<Vec<char>> = Vec::new();
    let mut k: usize = 0;
    while k < all.len()
        invariant
            k <= all.len(),
            ts == vecs_view(all@),
            ts == word_runs(lowercase(question@)),
            vecs_view(r@) == ts.take(k as int).filter(|t: Seq<char>| t.len() > 2),
        decreases all.len() - k,
    {
        proof {
            assert(ts.take(k + 1).drop_last() =~= ts.take(k as int));
            reveal(Seq::filter);
        }
        let ghost before = r@;
        if all[k].len() > 2 {
            r.push(crate::strs::copy_chars(&all[k]));
            assert(vecs_view(r@) =~= vecs_view(before).push(ts[k as int]));
        }
        k = k + 1;
    }
    assert(ts.take(all.len() as int) =~= ts);
    r
}

fn mentions_exec(node: &Node, terms: &Vec<Vec<char>>) -> (b: bool)
    ensures
        b == mentions_any(vecs_view(terms@))(*node),
{
    let h = node_haystack(node);
    let mut k: usize = 0;
    while k < terms.len()
        invariant
            k <= terms.len(),
            h@ == haystack(*node),
            forall|j: int| 0 <= j < k ==> !contains_seq(h@, #[trigger] vecs_view(terms@)[j]),
        decreases terms.len() - k,
    {
        if contains_chars(&h, &terms[k]) {
            assert(contains_seq(haystack(*node), vecs_view(terms@)[k as int]));
            return true;
        }
        k = k + 1;
    }
    false
}

fn first_with_id(nodes: &Vec<Node>, id: &str) -> (r: Option<usize>)
    ensures
        r == first_with_id_from(nodes@, id@, 0),
{
    let mut i: usize = 0;
    while i < nodes.len()
        invariant
            i <= nodes.len(),
            first_with_id_from(nodes@, id@, 0) == first_with_id_from(nodes@, id@, i as int),
        decreases nodes.len() - i,
    {
        if str_eq(nodes[i].id.as_str(), id) {
            return Some(i);
        }
        i = i + 1;
    }
    None
}

proof fn lemma_first_n_push<T>(s: Seq<T>, x: T, n: nat)
    ensures
        first_n(s.push(x), n) == if s.len() < n {
            s.push(x)
        } else {
            first_n(s, n)
        },
{
    if s.len() >= n {
        assert(s.push(x).take(n as int) =~= s.take(n as int));
        if s.len() == n {
            assert(s.take(n as int) =~= s);
        }
    }
}

/// The parts of the node with id `id`: at most forty (see [`part_nodes`]).
fn parts_of(graph: &CodeGraph, id: &str) -> (r: Vec<usize>)
    ensures
        r@ == first_n(part_nodes(graph.nodes@, graph.edges@, id@), 40),
{
    let mut r: Vec<usize> = Vec::new();
    let mut k: usize = 0;
    while k < graph.edges.len()
        invariant
            k <= graph.edges.len(),
            r@ == first_n(part_nodes(graph.nodes@, graph.edges@.take(k as int), id@), 40),
        decreases graph.edges.len() - k,
    {
        let e = &graph.edges[k];
        let ghost prev = part_nodes(graph.nodes@, graph.edges@.take(k as int), id@);
        assert(graph.edges@.take(k + 1).drop_last() =~= graph.edges@.take(k as int));
        if str_eq(e.from.as_str(), id) && (e.kind == EdgeKind::Declares || e.kind == EdgeKind::HasMethod || e.kind
            == EdgeKind::Contains) {
            match first_with_id(&graph.nodes, e.to.as_str()) {
                Some(q) => {
                    proof {
                        lemma_first_n_push(prev, q, 40);
                    }
                    if r.len() < 40 {
                        r.push(q);
                    }
                },
                None => {},
            }
        }
        k = k + 1;
    }
    assert(graph.edges@.take(graph.edges.len() as int) =~= graph.edges@);
    r
}

fn first_selected(graph: &CodeGraph, terms: &Vec<Vec<char>>, by_terms: bool, limit: usize) -> (r: Vec<usize>)
    ensures
        r@ == first_n(
            select(graph.nodes@, graph.nodes@.len() as int, if by_terms {
                mentions_any(vecs_view(terms@))
            } else {
                has_signature()
            }),
            limit as nat,
        ),
{
    let ghost nodes = graph.nodes@;
    let ghost pick = if by_terms {
        mentions_any(vecs_view(terms@))
    } else {
        has_signature()
    };
    let mut r: Vec<usize> = Vec::new();
    let mut k: usize = 0;
    while k < graph.nodes.len() && r.len() < limit
        invariant
            k <= graph.nodes.len(),
            nodes == graph.nodes@,
            pick == (if by_terms {
                mentions_any(vecs_view(terms@))
            } else {
                has_signature()
            }),
            r@ == select(nodes, k as int, pick),
            r@.len() <= limit,
        decreases graph.nodes.len() - k,
    {
        let n = &graph.nodes[k];
        let hit = if by_terms {
            mentions_exec(n, terms)
        } else {
            n.signature.is_some()
        };
        if hit {
            r.push(k);
        }
        k = k + 1;
    }
    proof {
        crate::health::lemma_select_prefix(nodes, k as int, nodes.len() as int, pick);
        let all = select(nodes, nodes.len() as int, pick);
        crate::health::lemma_select_len(nodes, k as int, nodes.len() as int, pick);
        assert(r@ == all.take(r@.len() as int));
        if r@.len() < limit {
            assert(k == nodes.len());
            assert(r@ == all);
        } else if all.len() <= limit {
            assert(all.take(all.len() as int) =~= all);
        }
        assert(r@ == first_n(all, limit as nat));
        assert(pick == (if by_terms {
            mentions_any(vecs_view(terms@))
        } else {
            has_signature()
        }));
    }
    r
}

/// The concrete facts offered with a question: the nodes it is about (see
/// [`fact_nodes`], with [`fact_terms`] and at most `limit` nodes), each with
/// its parts (see [`part_nodes`], at most forty).
pub fn symbol_facts(graph: &CodeGraph, question: &str, limit: usize) -> (r: Vec<(usize, Vec<usize>)>)
    ensures
        r@.len() == fact_nodes(graph.nodes@, fact_terms(question@), limit as nat).len(),
        forall|i: int|
            0 <= i < r@.len() ==> (#[trigger] r@[i]).0 == fact_nodes(graph.nodes@, fact_terms(question@), limit as nat)[i]
                && r@[i].0 < graph.nodes@.len() && r@[i].1@ == first_n(
                part_nodes(graph.nodes@, graph.edges@, graph.nodes@[r@[i].0 as int].id@),
                40,
            ),
{
    let terms = long_terms(question);
    let mut matched = first_selected(graph, &terms, true, limit);
    if matched.len() == 0 {
        matched = first_selected(graph, &terms, false, limit);
    }
    let ghost m = fact_nodes(graph.nodes@, fact_terms(question@), limit as nat);
    assert(matched@ == m);
    assert(graph.nodes@.len() == graph.nodes.len());
    proof {
        let sel_t = select(graph.nodes@, graph.nodes@.len() as int, mentions_any(fact_terms(question@)));
        let sel_s = select(graph.nodes@, graph.nodes@.len() as int, has_signature());
        crate::seqs::lemma_select_members(graph.nodes@, graph.nodes@.len() as int, mentions_any(fact_terms(question@)));
        crate::seqs::lemma_select_members(graph.nodes@, graph.nodes@.len() as int, has_signature());
        assert forall|i: int| 0 <= i < m.len() implies m[i] < graph.nodes@.len() by {
            if first_n(sel_t, limit as nat).len() > 0 {
                assert(m[i] == sel_t[i]);
            } else {
                assert(m[i] == sel_s[i]);
            }
        }
    }
    let mut r: Vec<(usize, Vec<usize>)> = Vec::new();
    let mut i: usize = 0;
    while i < matched.len()
        invariant
            i <= matched.len(),
            matched@ == m,
            forall|j: int| 0 <= j < m.len() ==> m[j] < graph.nodes@.len(),
            r@.len() == i,
            forall|j: int|
                0 <= j < i ==> (#[trigger] r@[j]).0 == m[j] && r@[j].1@ == first_n(
                    part_nodes(graph.nodes@, graph.edges@, graph.nodes@[r@[j].0 as int].id@),
                    40,
                ),
        decreases matched.len() - i,
    {
        let q = matched[i];
        let parts = parts_of(graph, graph.nodes[q].id.as_str());
        r.push((q, parts));
        i = i + 1;
    }
    r
}

} // verus!
