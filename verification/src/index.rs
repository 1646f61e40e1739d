use vstd::prelude::*;
use crate::lex::{lemma_lex_irreflexive, lemma_lex_asymmetric, lemma_lex_transitive, lex_compare, lex_lt};
use crate::model::{CodeGraph, Edge, Node};
use crate::rank::{is_permutation, kb, sort_by_rank, sorted_by, RankKey, lemma_key_transitive};
use crate::seqs::select;
use crate::strs::chars_of;

verus! {

// ---------------------------------------------------------------------------
// Specifications
// ---------------------------------------------------------------------------

/// `p` is the last node whose id is `id` (what a map from ids to nodes keeps
/// when later nodes overwrite earlier ones).
pub open spec fn is_last_with_id(nodes: Seq<Node>, id: Seq<char>, p: int) -> bool {
    &&& 0 <= p < nodes.len()
    &&& nodes[p].id@ == id
    &&& forall|q: int| p < q < nodes.len() ==> nodes[q].id@ != id
}

/// Some node has id `id`.
pub open spec fn has_id(nodes: Seq<Node>, id: Seq<char>) -> bool {
    exists|q: int| 0 <= q < nodes.len() && nodes[q].id@ == id
}

/// The node a map from ids would return for `id`.
pub open spec fn node_for(nodes: Seq<Node>, id: Seq<char>, r: Option<usize>) -> bool {
    match r {
        Some(p) => is_last_with_id(nodes, id, p as int),
        None => !has_id(nodes, id),
    }
}

/// The edge leaves `id`.
pub open spec fn leaves(id: Seq<char>) -> spec_fn(Edge) -> bool {
    |e: Edge| e.from@ == id
}

/// The edge enters `id`.
pub open spec fn enters(id: Seq<char>) -> spec_fn(Edge) -> bool {
    |e: Edge| e.to@ == id
}

/// Positions (increasing) of the edges that leave `id`.
pub open spec fn edges_from(edges: Seq<Edge>, id: Seq<char>) -> Seq<usize> {
    select(edges, edges.len() as int, leaves(id))
}

/// Positions (increasing) of the edges that enter `id`.
pub open spec fn edges_to(edges: Seq<Edge>, id: Seq<char>) -> Seq<usize> {
    select(edges, edges.len() as int, enters(id))
}

/// The edges at one end of `id`: leaving it when `outbound`, entering it otherwise.
pub open spec fn edges_at(edges: Seq<Edge>, id: Seq<char>, outbound: bool) -> Seq<usize> {
    if outbound {
        edges_from(edges, id)
    } else {
        edges_to(edges, id)
    }
}

pub proof fn lemma_edges_at_in_range(edges: Seq<Edge>, id: Seq<char>, outbound: bool)
    requires
        edges.len() <= usize::MAX,
    ensures
        forall|t: int|
            0 <= t < edges_at(edges, id, outbound).len() ==> (edges_at(edges, id, outbound)[t] as int)
                < edges.len(),
{
    crate::seqs::lemma_select_members(edges, edges.len() as int, leaves(id));
    crate::seqs::lemma_select_members(edges, edges.len() as int, enters(id));
}

/// Sum of the weights of the first `n` edges, counted once per end that is `id`.
pub open spec fn degree_upto(edges: Seq<Edge>, n: int, id: Seq<char>) -> nat
    decreases n,
{
    if n <= 0 {
        0
    } else {
        let e = edges[n - 1];
        degree_upto(edges, n - 1, id) + (if e.from@ == id {
            e.weight as nat
        } else {
            0nat
        }) + (if e.to@ == id {
            e.weight as nat
        } else {
            0nat
        })
    }
}

/// Total weight of the edges touching `id` (an edge from `id` to itself counts twice).
pub open spec fn degree(edges: Seq<Edge>, id: Seq<char>) -> nat {
    degree_upto(edges, edges.len() as int, id)
}

/// Sum of all edge weights among the first `n` edges.
pub open spec fn weight_upto(edges: Seq<Edge>, n: int) -> nat
    decreases n,
{
    if n <= 0 {
        0
    } else {
        weight_upto(edges, n - 1) + edges[n - 1].weight as nat
    }
}

/// Twice the total weight fits in a `usize`, so no degree overflows.
pub open spec fn weights_fit(edges: Seq<Edge>) -> bool {
    2 * weight_upto(edges, edges.len() as int) <= usize::MAX
}

pub proof fn lemma_degree_bound(edges: Seq<Edge>, n: int, id: Seq<char>)
    requires
        0 <= n <= edges.len(),
    ensures
        degree_upto(edges, n, id) <= 2 * weight_upto(edges, n),
    decreases n,
{
    if n > 0 {
        lemma_degree_bound(edges, n - 1, id);
    }
}

pub proof fn lemma_weight_monotone(edges: Seq<Edge>, m: int, n: int)
    requires
        0 <= m <= n <= edges.len(),
    ensures
        weight_upto(edges, m) <= weight_upto(edges, n),
    decreases n - m,
{
    if m < n {
        lemma_weight_monotone(edges, m, n - 1);
    }
}

// ---------------------------------------------------------------------------
// The index
// ---------------------------------------------------------------------------

/// Whether twice the total edge weight fits in a `usize` (see [`weights_fit`]).
pub fn check_weights(edges: &Vec<Edge>) -> (b: bool)
    ensures
        b == weights_fit(edges@),
{
    let mut total: usize = 0;
    let mut i: usize = 0;
    while i < edges.len()
        invariant
            i <= edges.len(),
            total == weight_upto(edges@, i as int),
            2 * total <= usize::MAX,
        decreases edges.len() - i,
    {
        let w = edges[i].weight;
        if w > (usize::MAX / 2) - total {
            proof {
                lemma_weight_monotone(edges@, i + 1, edges.len() as int);
            }
            return false;
        }
        total = total + w;
        i = i + 1;
    }
    true
}

/// Lookup tables over a graph: nodes by id, the edges at each node, and each
/// node's degree. Tables are kept at the last node of each id.
pub struct QueryIndex {
    pub keys: Vec<RankKey>,
    pub order: Vec<usize>,
    pub outbound: Vec<Vec<usize>>,
    pub inbound: Vec<Vec<usize>>,
    pub degrees: Vec<usize>,
}

impl QueryIndex {
    /// The id tables (sorted node ids) describe `nodes`.
    pub open spec fn id_tables(&self, nodes: Seq<Node>) -> bool {
        &&& self.keys.len() == nodes.len()
        &&& forall|k: int|
            #![trigger self.keys@[k]]
            0 <= k < nodes.len() ==> self.keys@[k].a@ == nodes[k].id@ && self.keys@[k].hi == 0
                && self.keys@[k].lo == 0 && self.keys@[k].b@.len() == 0
        &&& sorted_by(self.keys@, self.order@)
        &&& is_permutation(self.order@, nodes.len() as nat)
    }

    /// The tables describe `graph`.
    pub open spec fn describes(&self, graph: &CodeGraph) -> bool {
        let nodes = graph.nodes@;
        let edges = graph.edges@;
        &&& self.id_tables(nodes)
        &&& self.outbound.len() == nodes.len()
        &&& self.inbound.len() == nodes.len()
        &&& self.degrees.len() == nodes.len()
        &&& forall|c: int|
            #![trigger self.outbound@[c]]
            0 <= c < nodes.len() && is_last_with_id(nodes, nodes[c].id@, c) ==> self.outbound@[c]@
                == edges_from(edges, nodes[c].id@)
        &&& forall|c: int|
            #![trigger self.inbound@[c]]
            0 <= c < nodes.len() && is_last_with_id(nodes, nodes[c].id@, c) ==> self.inbound@[c]@
                == edges_to(edges, nodes[c].id@)
        &&& forall|c: int|
            #![trigger self.degrees@[c]]
            0 <= c < nodes.len() && is_last_with_id(nodes, nodes[c].id@, c) ==> self.degrees@[c]
                == degree(edges, nodes[c].id@)
    }

    /// The last node whose id is `id`, if any.
    pub fn lookup(&self, graph: &CodeGraph, id: &Vec<char>) -> (r: Option<usize>)
        requires
            self.id_tables(graph.nodes@),
        ensures
            node_for(graph.nodes@, id@, r),
            r matches Some(p) ==> p < graph.nodes.len(),
    {
        let ghost nodes = graph.nodes@;
        let mut lo: usize = 0;
        let mut hi: usize = self.order.len();
        // Find the first position in `order` whose id sorts after `id`.
        while lo < hi
            invariant
                self.id_tables(graph.nodes@),
                nodes == graph.nodes@,
                0 <= lo <= hi <= self.order.len(),
                forall|p: int|
                    0 <= p < lo ==> !lex_lt(id@, nodes[self.order@[p] as int].id@),
                forall|p: int|
                    hi <= p < self.order.len() ==> lex_lt(id@, nodes[self.order@[p] as int].id@),
            decreases hi - lo,
        {
            let mid = lo + (hi - lo) / 2;
            let m = self.order[mid];
            let c = lex_compare(id, &self.keys[m].a);
            if c < 0 {
                proof {
                    assert forall|p: int| mid <= p < self.order.len() implies lex_lt(
                        id@,
                        nodes[self.order@[p] as int].id@,
                    ) by {
                        if p > mid {
                            assert(kb(self.keys@, self.order@[mid as int], self.order@[p]));
                            let km = self.keys@[m as int];
                            let kp = self.keys@[self.order@[p] as int];
                            if lex_lt(km.a@, kp.a@) {
                                lemma_lex_transitive(id@, km.a@, kp.a@);
                            }
                        }
                    }
                }
                hi = mid;
            } else {
                proof {
                    assert forall|p: int| 0 <= p <= mid implies !lex_lt(
                        id@,
                        nodes[self.order@[p] as int].id@,
                    ) by {
                        if p < mid {
                            assert(kb(self.keys@, self.order@[p], self.order@[mid as int]));
                            let km = self.keys@[m as int];
                            let kp = self.keys@[self.order@[p] as int];
                            if lex_lt(id@, kp.a@) {
                                if lex_lt(kp.a@, km.a@) {
                                    lemma_lex_transitive(id@, kp.a@, km.a@);
                                }
                                if c == 0 {
                                    lemma_lex_irreflexive(id@);
                                }
                                if c > 0 {
                                    lemma_lex_asymmetric(km.a@, id@);
                                }
                            }
                        }
                    }
                }
                lo = mid + 1;
            }
        }
        if lo == 0 {
            proof {
                assert forall|q: int| 0 <= q < nodes.len() implies nodes[q].id@ != id@ by {
                    assert(self.order@.contains(q as usize));
                    let t = choose|t: int| 0 <= t < self.order.len() && self.order@[t] == q as usize;
                    if nodes[q].id@ == id@ {
                        lemma_lex_irreflexive(id@);
                    }
                }
            }
            return None;
        }
        let cand = self.order[lo - 1];
        if lex_compare(id, &self.keys[cand].a) == 0 {
            proof {
                assert forall|q: int| cand < q < nodes.len() implies nodes[q].id@ != id@ by {
                    assert(self.order@.contains(q as usize));
                    let t = choose|t: int| 0 <= t < self.order.len() && self.order@[t] == q as usize;
                    if nodes[q].id@ == id@ {
                        if t >= lo {
                            lemma_lex_irreflexive(id@);
                        } else if t < lo - 1 {
                            assert(kb(self.keys@, self.order@[t], self.order@[lo - 1]));
                            lemma_lex_irreflexive(id@);
                        }
                    }
                }
            }
            Some(cand)
        } else {
            proof {
                assert forall|q: int| 0 <= q < nodes.len() implies nodes[q].id@ != id@ by {
                    assert(self.order@.contains(q as usize));
                    let t = choose|t: int| 0 <= t < self.order.len() && self.order@[t] == q as usize;
                    if nodes[q].id@ == id@ {
                        if t >= lo {
                            lemma_lex_irreflexive(id@);
                        } else if t < lo - 1 {
                            assert(kb(self.keys@, self.order@[t], self.order@[lo - 1]));
                            let kc = self.keys@[cand as int];
                            assert(!lex_lt(id@, kc.a@));
                            crate::lex::lemma_lex_total(id@, kc.a@);
                            lemma_lex_asymmetric(kc.a@, id@);
                        }
                    }
                }
            }
            None
        }
    }
}

/// Appends `e` to the list at position `c`.
pub fn push_at(v: &mut Vec<Vec<usize>>, c: usize, e: usize)
    requires
        c < old(v).len(),
    ensures
        final(v).len() == old(v).len(),
        final(v)@[c as int]@ == old(v)@[c as int]@.push(e),
        forall|k: int| 0 <= k < old(v).len() && k != c ==> final(v)@[k] == old(v)@[k],
{
    let mut tmp: Vec<usize> = Vec::new();
    v.set_and_swap(c, &mut tmp);
    tmp.push(e);
    v.set_and_swap(c, &mut tmp);
}

pub fn empty_lists(n: usize) -> (v: Vec<Vec<usize>>)
    ensures
        v.len() == n,
        forall|i: int| 0 <= i < n ==> v@[i]@.len() == 0,
{
    let mut v: Vec<Vec<usize>> = Vec::new();
    while v.len() < n
        invariant
            v.len() <= n,
            forall|i: int| 0 <= i < v.len() ==> v@[i]@.len() == 0,
        decreases n - v.len(),
    {
        v.push(Vec::new());
    }
    v
}

fn zero_counts(n: usize) -> (v: Vec<usize>)
    ensures
        v.len() == n,
        forall|i: int| 0 <= i < n ==> v@[i] == 0,
{
    let mut v: Vec<usize> = Vec::new();
    while v.len() < n
        invariant
            v.len() <= n,
            forall|i: int| 0 <= i < v.len() ==> v@[i] == 0,
        decreases n - v.len(),
    {
        v.push(0);
    }
    v
}

pub proof fn lemma_last_unique(nodes: Seq<Node>, id: Seq<char>, p: int, q: int)
    requires
        is_last_with_id(nodes, id, p),
        is_last_with_id(nodes, id, q),
    ensures
        p == q,
{
}

impl QueryIndex {
    /// Builds only the id tables for `graph` (nodes by id), with no edge tables.
    pub fn ids_only(graph: &CodeGraph) -> (r: QueryIndex)
        ensures
            r.id_tables(graph.nodes@),
    {
        let nodes = &graph.nodes;
        let n = nodes.len();
        let mut keys: Vec<RankKey> = Vec::new();
        let mut k: usize = 0;
        while k < n
            invariant
                n == nodes.len(),
                k <= n,
                keys.len() == k,
                forall|j: int|
                    #![trigger keys@[j]]
                    0 <= j < k ==> keys@[j].a@ == nodes@[j].id@ && keys@[j].hi == 0 && keys@[j].lo
                        == 0 && keys@[j].b@.len() == 0,
            decreases n - k,
        {
            keys.push(RankKey { hi: 0, lo: 0, a: chars_of(nodes[k].id.as_str()), b: Vec::new() });
            k = k + 1;
        }
        let order = sort_by_rank(&keys);
        QueryIndex { keys, order, outbound: Vec::new(), inbound: Vec::new(), degrees: Vec::new() }
    }

    /// Builds the tables for `graph`.
    pub fn new(graph: &CodeGraph) -> (r: QueryIndex)
        requires
            weights_fit(graph.edges@),
        ensures
            r.describes(graph),
    {
        let nodes = &graph.nodes;
        let edges = &graph.edges;
        let n = nodes.len();
        let mut keys: Vec<RankKey> = Vec::new();
        let mut k: usize = 0;
        while k < n
            invariant
                n == nodes.len(),
                k <= n,
                keys.len() == k,
                forall|j: int|
                    #![trigger keys@[j]]
                    0 <= j < k ==> keys@[j].a@ == nodes@[j].id@ && keys@[j].hi == 0 && keys@[j].lo
                        == 0 && keys@[j].b@.len() == 0,
            decreases n - k,
        {
            keys.push(RankKey { hi: 0, lo: 0, a: chars_of(nodes[k].id.as_str()), b: Vec::new() });
            k = k + 1;
        }
        let order = sort_by_rank(&keys);
        let mut index = QueryIndex {
            keys,
            order,
            outbound: empty_lists(n),
            inbound: empty_lists(n),
            degrees: zero_counts(n),
        };
        proof {
            assert forall|c: int|
                0 <= c < n && is_last_with_id(nodes@, nodes@[c].id@, c) implies #[trigger] index.degrees@[c]
                == degree_upto(edges@, 0, nodes@[c].id@) by {}
            assert forall|c: int|
                0 <= c < n && is_last_with_id(nodes@, nodes@[c].id@, c) implies #[trigger] index.outbound@[c]@
                =~= select(edges@, 0, leaves(nodes@[c].id@)) by {}
            assert forall|c: int|
                0 <= c < n && is_last_with_id(nodes@, nodes@[c].id@, c) implies #[trigger] index.inbound@[c]@
                =~= select(edges@, 0, enters(nodes@[c].id@)) by {}
        }
        let mut e: usize = 0;
        while e < edges.len()
            invariant
                n == nodes.len(),
                nodes@ == graph.nodes@,
                edges@ == graph.edges@,
                e <= edges.len(),
                weights_fit(edges@),
                index.keys.len() == n,
                forall|j: int|
                    #![trigger index.keys@[j]]
                    0 <= j < n ==> index.keys@[j].a@ == nodes@[j].id@ && index.keys@[j].hi == 0
                        && index.keys@[j].lo == 0 && index.keys@[j].b@.len() == 0,
                sorted_by(index.keys@, index.order@),
                is_permutation(index.order@, n as nat),
                index.outbound.len() == n,
                index.inbound.len() == n,
                index.degrees.len() == n,
                forall|c: int|
                    #![trigger index.outbound@[c]]
                    0 <= c < n && is_last_with_id(nodes@, nodes@[c].id@, c) ==> index.outbound@[c]@
                        == select(edges@, e as int, leaves(nodes@[c].id@)),
                forall|c: int|
                    #![trigger index.inbound@[c]]
                    0 <= c < n && is_last_with_id(nodes@, nodes@[c].id@, c) ==> index.inbound@[c]@
                        == select(edges@, e as int, enters(nodes@[c].id@)),
                forall|c: int|
                    #![trigger index.degrees@[c]]
                    0 <= c < n && is_last_with_id(nodes@, nodes@[c].id@, c) ==> index.degrees@[c]
                        == degree_upto(edges@, e as int, nodes@[c].id@),
            decreases edges.len() - e,
        {
            let edge = &edges[e];
            let w = edge.weight;
            let ghost pre = index;
            proof {
                lemma_weight_monotone(edges@, e + 1, edges.len() as int);
                assert forall|c: int|
                    0 <= c < n && is_last_with_id(nodes@, nodes@[c].id@, c) implies degree_upto(
                    edges@,
                    e + 1,
                    nodes@[c].id@,
                ) <= usize::MAX by {
                    lemma_degree_bound(edges@, e + 1, nodes@[c].id@);
                }
            }
            let f = index.lookup(graph, &chars_of(edge.from.as_str()));
            match f {
                Some(c) => {
                    push_at(&mut index.outbound, c, e);
                    let d = index.degrees[c];
                    index.degrees.set(c, d + w);
                },
                None => {},
            }
            proof {
                assert forall|c: int|
                    0 <= c < n && is_last_with_id(nodes@, nodes@[c].id@, c) implies #[trigger] index.outbound@[c]@
                    == select(edges@, e + 1, leaves(nodes@[c].id@)) by {
                    if f == Some(c as usize) {
                    } else if edge.from@ == nodes@[c].id@ {
                        match f {
                            Some(c2) => lemma_last_unique(nodes@, edge.from@, c, c2 as int),
                            None => {},
                        }
                    }
                }
            }
            let ghost mid = index;
            let t = index.lookup(graph, &chars_of(edge.to.as_str()));
            match t {
                Some(c) => {
                    push_at(&mut index.inbound, c, e);
                    let d = index.degrees[c];
                    proof {
                        if f == Some(c) {
                            assert(d == degree_upto(edges@, e as int, nodes@[c as int].id@) + w);
                        } else {
                            assert(d == degree_upto(edges@, e as int, nodes@[c as int].id@));
                        }
                    }
                    index.degrees.set(c, d + w);
                },
                None => {},
            }
            proof {
                assert forall|c: int|
                    0 <= c < n && is_last_with_id(nodes@, nodes@[c].id@, c) implies #[trigger] index.inbound@[c]@
                    == select(edges@, e + 1, enters(nodes@[c].id@)) by {
                    if t == Some(c as usize) {
                    } else if edge.to@ == nodes@[c].id@ {
                        match t {
                            Some(c2) => lemma_last_unique(nodes@, edge.to@, c, c2 as int),
                            None => {},
                        }
                    }
                }
                assert forall|c: int|
                    0 <= c < n && is_last_with_id(nodes@, nodes@[c].id@, c) implies #[trigger] index.degrees@[c]
                    == degree_upto(edges@, e + 1, nodes@[c].id@) by {
                    if edge.from@ == nodes@[c].id@ {
                        match f {
                            Some(c2) => lemma_last_unique(nodes@, edge.from@, c, c2 as int),
                            None => {},
                        }
                    }
                    if edge.to@ == nodes@[c].id@ {
                        match t {
                            Some(c2) => lemma_last_unique(nodes@, edge.to@, c, c2 as int),
                            None => {},
                        }
                    }
                }
            }
            e = e + 1;
        }
        index
    }
}

/// The position of the last node whose id is `id`, when there is one.
pub open spec fn last_with_id(nodes: Seq<Node>, id: Seq<char>) -> int {
    choose|p: int| is_last_with_id(nodes, id, p)
}

/// When some node has id `id`, a last one exists.
pub proof fn lemma_last_with_id_in(nodes: Seq<Node>, id: Seq<char>)
    requires
        has_id(nodes, id),
    ensures
        is_last_with_id(nodes, id, last_with_id(nodes, id)),
{
    let q = choose|q: int| 0 <= q < nodes.len() && nodes[q].id@ == id;
    lemma_last_from(nodes, id, q);
}

proof fn lemma_last_from(nodes: Seq<Node>, id: Seq<char>, q: int)
    requires
        0 <= q < nodes.len(),
        nodes[q].id@ == id,
    ensures
        is_last_with_id(nodes, id, last_with_id(nodes, id)),
    decreases nodes.len() - q,
{
    if exists|r: int| q < r < nodes.len() && nodes[r].id@ == id {
        let r = choose|r: int| q < r < nodes.len() && nodes[r].id@ == id;
        lemma_last_from(nodes, id, r);
    } else {
        assert(is_last_with_id(nodes, id, q));
    }
}

pub proof fn lemma_last_with_id(nodes: Seq<Node>, id: Seq<char>, p: int)
    requires
        is_last_with_id(nodes, id, p),
    ensures
        last_with_id(nodes, id) == p,
{
    let q = last_with_id(nodes, id);
    lemma_last_unique(nodes, id, p, q);
}

impl QueryIndex {
    /// The last node whose id is the id of node `p`.
    pub fn canonical(&self, graph: &CodeGraph, p: usize) -> (c: usize)
        requires
            self.id_tables(graph.nodes@),
            p < graph.nodes.len(),
        ensures
            is_last_with_id(graph.nodes@, graph.nodes@[p as int].id@, c as int),
            c < graph.nodes.len(),
    {
        let id = chars_of(graph.nodes[p].id.as_str());
        match self.lookup(graph, &id) {
            Some(c) => c,
            None => {
                assert(graph.nodes@[p as int].id@ == id@);
                p
            },
        }
    }

    /// Positions of the edges leaving node `p` (`outbound`) or entering it.
    /// Each is a valid edge position.
    pub fn edges_of(&self, graph: &CodeGraph, p: usize, outbound: bool) -> (r: Vec<usize>)
        requires
            self.describes(graph),
            p < graph.nodes.len(),
        ensures
            r@ == edges_at(graph.edges@, graph.nodes@[p as int].id@, outbound),
            forall|t: int| 0 <= t < r.len() ==> r@[t] < graph.edges.len(),
    {
        proof {
            assert(graph.edges@.len() == graph.edges.len());
            lemma_edges_at_in_range(graph.edges@, graph.nodes@[p as int].id@, outbound);
        }
        let c = self.canonical(graph, p);
        if outbound {
            self.outbound[c].clone()
        } else {
            self.inbound[c].clone()
        }
    }

    /// Total weight of the edges touching node `p`.
    pub fn degree_of(&self, graph: &CodeGraph, p: usize) -> (d: usize)
        requires
            self.describes(graph),
            p < graph.nodes.len(),
        ensures
            d == degree(graph.edges@, graph.nodes@[p as int].id@),
    {
        let c = self.canonical(graph, p);
        self.degrees[c]
    }
}

} // verus!
