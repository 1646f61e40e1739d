use vstd::prelude::*;
use crate::builder::opt_view;
use crate::helpers::all_white;
use crate::index::{
    degree, degree_upto, edges_at, edges_to, enters, has_id, last_with_id, lemma_degree_bound,
    lemma_last_with_id, lemma_weight_monotone, node_for, weight_upto, weights_fit, QueryIndex,
};
use crate::model::{CodeGraph, Edge, EdgeKind, Node, NodeKind};
use crate::seqs::{select, strings_view};
use crate::strs::{
    chars_of, contains_seq, ends_with_seq, owned, starts_with_seq, str_contains, str_ends_with,
    str_eq, str_starts_with, usize_to_string, nat_digits,
};

verus! {

/// Conditions on the symbols to list.
pub struct SymbolFilter {
    pub visibility: Option<String>,
    pub no_docs: bool,
    pub dead: bool,
    pub test_only: bool,
    pub min_callers: Option<usize>,
    pub max_callers: Option<usize>,
    pub min_degree: Option<usize>,
    pub max_degree: Option<usize>,
}

impl Default for SymbolFilter {
    /// No condition at all.
    fn default() -> (f: Self)
        ensures
            f.visibility is None,
            !f.no_docs,
            !f.dead,
            !f.test_only,
            f.min_callers is None,
            f.max_callers is None,
            f.min_degree is None,
            f.max_degree is None,
    {
        SymbolFilter {
            visibility: None,
            no_docs: false,
            dead: false,
            test_only: false,
            min_callers: None,
            max_callers: None,
            min_degree: None,
            max_degree: None,
        }
    }
}

/// Functions, methods, structs, enums and traits: the symbols that can be dead.
pub open spec fn is_code_kind(k: NodeKind) -> bool {
    k == NodeKind::Function || k == NodeKind::Method || k == NodeKind::Struct || k == NodeKind::Enum || k
        == NodeKind::Trait
}

/// The node carries documentation that is not blank.
pub open spec fn has_docs(n: Node) -> bool {
    n.docs matches Some(d) && !all_white(d@)
}

/// How many of the edges at positions `pos` are calls.
pub open spec fn calls_among(edges: Seq<Edge>, pos: Seq<usize>) -> nat
    decreases pos.len(),
{
    if pos.len() == 0 {
        0
    } else {
        calls_among(edges, pos.drop_last()) + if edges[pos.last() as int].kind == EdgeKind::Calls {
            1nat
        } else {
            0nat
        }
    }
}

/// The number of call edges into `id`.
pub open spec fn caller_count(edges: Seq<Edge>, id: Seq<char>) -> nat {
    calls_among(edges, edges_to(edges, id))
}

/// A node whose file mentions `test`, or whose name starts with `test_` or ends with `_test`.
pub open spec fn is_test_node(n: Node) -> bool {
    (n.file matches Some(f) && contains_seq(f@, "test"@)) || starts_with_seq(n.name@, "test_"@) || ends_with_seq(
        n.name@,
        "_test"@,
    )
}

/// Every call into `id` comes from a test node.
pub open spec fn only_tests_call(nodes: Seq<Node>, edges: Seq<Edge>, id: Seq<char>) -> bool {
    forall|k: int|
        0 <= k < edges.len() && (#[trigger] edges[k]).to@ == id && edges[k].kind == EdgeKind::Calls ==> has_id(
            nodes,
            edges[k].from@,
        ) && is_test_node(nodes[last_with_id(nodes, edges[k].from@)])
}

impl SymbolFilter {
    /// Whether node `n` of a graph with `nodes` and `edges` passes every condition.
    pub open spec fn accepts(&self, nodes: Seq<Node>, edges: Seq<Edge>, n: Node) -> bool {
        let callers = caller_count(edges, n.id@);
        let deg = degree(edges, n.id@);
        &&& (self.visibility matches Some(v) ==> opt_view(n.visibility) == Some(v@))
        &&& (self.no_docs ==> !has_docs(n))
        &&& ((self.dead || self.test_only) ==> is_code_kind(n.kind))
        &&& (self.dead ==> callers == 0)
        &&& (self.test_only ==> callers > 0 && only_tests_call(nodes, edges, n.id@))
        &&& (self.min_callers matches Some(m) ==> callers >= m)
        &&& (self.max_callers matches Some(m) ==> callers <= m)
        &&& (self.min_degree matches Some(m) ==> deg >= m)
        &&& (self.max_degree matches Some(m) ==> deg <= m)
    }

    /// Whether `node` passes every condition of the filter (see [`Self::accepts`]).
    pub fn matches(&self, node: &Node, index: &QueryIndex, graph: &CodeGraph) -> (b: bool)
        requires
            index.describes(graph),
            weights_fit(graph.edges@),
        ensures
            b == self.accepts(graph.nodes@, graph.edges@, *node),
    {
        let ghost nodes = graph.nodes@;
        let ghost edges = graph.edges@;
        let infrastructure = !(node.kind == NodeKind::Function || node.kind == NodeKind::Method || node.kind
            == NodeKind::Struct || node.kind == NodeKind::Enum || node.kind == NodeKind::Trait);
        match &self.visibility {
            Some(vis) => {
                let same = match &node.visibility {
                    Some(v) => str_eq(v.as_str(), vis.as_str()),
                    None => false,
                };
                if !same {
                    return false;
                }
            },
            None => {},
        }
        if self.no_docs && has_docs_exec(node) {
            return false;
        }
        if (self.dead || self.test_only) && infrastructure {
            return false;
        }
        let inbound = inbound_edges(graph, index, node.id.as_str());
        let callers = count_calls(graph, &inbound);
        proof {
            lemma_tested_among(nodes, edges, node.id@);
        }
        if self.dead && callers > 0 {
            return false;
        }
        if self.test_only {
            if callers == 0 {
                return false;
            }
            if !calls_from_tests(graph, index, &inbound) {
                return false;
            }
        }
        match self.min_callers {
            Some(m) => {
                if callers < m {
                    return false;
                }
            },
            None => {},
        }
        match self.max_callers {
            Some(m) => {
                if callers > m {
                    return false;
                }
            },
            None => {},
        }
        if self.min_degree.is_some() || self.max_degree.is_some() {
            let deg = degree_for(graph, index, node.id.as_str());
            match self.min_degree {
                Some(m) => {
                    if deg < m {
                        return false;
                    }
                },
                None => {},
            }
            match self.max_degree {
                Some(m) => {
                    if deg > m {
                        return false;
                    }
                },
                None => {},
            }
        }
        true
    }

    /// The conditions in words, one per condition set.
    pub fn description(&self) -> (r: Vec<String>)
        ensures
            strings_view(r@) == self.description_spec(),
    {
        let mut desc: Vec<String> = Vec::new();
        match &self.visibility {
            Some(vis) => {
                let mut s = owned("visibility=");
                s.append(vis.as_str());
                desc.push(s);
            },
            None => {},
        }
        let ghost s1 = strings_view(desc@);
        push_flag(&mut desc, self.no_docs, "no-docs");
        push_flag(&mut desc, self.dead, "dead");
        push_flag(&mut desc, self.test_only, "test-only");
        let ghost s2 = strings_view(desc@);
        push_count(&mut desc, "min-callers>=", self.min_callers);
        push_count(&mut desc, "max-callers<=", self.max_callers);
        push_count(&mut desc, "min-degree>=", self.min_degree);
        push_count(&mut desc, "max-degree<=", self.max_degree);
        proof {
            let v: Seq<Seq<char>> = match &self.visibility {
                Some(vis) => seq!["visibility="@ + vis@],
                None => Seq::empty(),
            };
            assert(s1 =~= v);
        }
        assert(strings_view(desc@) =~= self.description_spec());
        desc
    }

    /// One phrase per condition set, in a fixed order.
    pub open spec fn description_spec(&self) -> Seq<Seq<char>> {
        let v: Seq<Seq<char>> = match self.visibility {
            Some(vis) => seq!["visibility="@ + vis@],
            None => Seq::empty(),
        };
        let d: Seq<Seq<char>> = if self.no_docs { seq!["no-docs"@] } else { Seq::empty() };
        let e: Seq<Seq<char>> = if self.dead { seq!["dead"@] } else { Seq::empty() };
        let t: Seq<Seq<char>> = if self.test_only { seq!["test-only"@] } else { Seq::empty() };
        let a: Seq<Seq<char>> = match self.min_callers {
            Some(n) => seq!["min-callers>="@ + nat_digits(n as nat)],
            None => Seq::empty(),
        };
        let b: Seq<Seq<char>> = match self.max_callers {
            Some(n) => seq!["max-callers<="@ + nat_digits(n as nat)],
            None => Seq::empty(),
        };
        let c: Seq<Seq<char>> = match self.min_degree {
            Some(n) => seq!["min-degree>="@ + nat_digits(n as nat)],
            None => Seq::empty(),
        };
        let f: Seq<Seq<char>> = match self.max_degree {
            Some(n) => seq!["max-degree<="@ + nat_digits(n as nat)],
            None => Seq::empty(),
        };
        v + d + e + t + a + b + c + f
    }
}

fn has_docs_exec(n: &Node) -> (b: bool)
    ensures
        b == has_docs(*n),
{
    match &n.docs {
        Some(d) => {
            let v = chars_of(d.as_str());
            !crate::helpers::all_white_exec(&v)
        },
        None => false,
    }
}

/// Positions of the edges into `id`.
fn inbound_edges(graph: &CodeGraph, index: &QueryIndex, id: &str) -> (r: Vec<usize>)
    requires
        index.describes(graph),
    ensures
        r@ == edges_to(graph.edges@, id@),
        forall|t: int| 0 <= t < r.len() ==> r@[t] < graph.edges.len(),
{
    let idv = chars_of(id);
    match index.lookup(graph, &idv) {
        Some(p) => index.edges_of(graph, p, false),
        None => {
            let mut r: Vec<usize> = Vec::new();
            let mut k: usize = 0;
            while k < graph.edges.len()
                invariant
                    k <= graph.edges.len(),
                    r@ == select(graph.edges@, k as int, enters(id@)),
                    forall|t: int| 0 <= t < r.len() ==> r@[t] < k,
                decreases graph.edges.len() - k,
            {
                if str_eq(graph.edges[k].to.as_str(), id) {
                    r.push(k);
                }
                k = k + 1;
            }
            r
        },
    }
}

/// How many of the edges at `pos` are calls.
fn count_calls(graph: &CodeGraph, pos: &Vec<usize>) -> (c: usize)
    requires
        forall|t: int| 0 <= t < pos.len() ==> pos@[t] < graph.edges.len(),
    ensures
        c == calls_among(graph.edges@, pos@),
{
    let mut c: usize = 0;
    let mut k: usize = 0;
    while k < pos.len()
        invariant
            k <= pos.len(),
            forall|t: int| 0 <= t < pos.len() ==> pos@[t] < graph.edges.len(),
            c == calls_among(graph.edges@, pos@.take(k as int)),
            c <= k,
        decreases pos.len() - k,
    {
        assert(pos@.take(k + 1).drop_last() =~= pos@.take(k as int));
        if graph.edges[pos[k]].kind == EdgeKind::Calls {
            c = c + 1;
        }
        k = k + 1;
    }
    assert(pos@.take(pos.len() as int) =~= pos@);
    c
}

/// Whether each call among the edges at `pos` comes from a test node.
fn calls_from_tests(graph: &CodeGraph, index: &QueryIndex, pos: &Vec<usize>) -> (b: bool)
    requires
        index.describes(graph),
        forall|t: int| 0 <= t < pos.len() ==> pos@[t] < graph.edges.len(),
    ensures
        b == tested_among(graph.nodes@, graph.edges@, pos@),
{
    let mut k: usize = 0;
    while k < pos.len()
        invariant
            k <= pos.len(),
            index.describes(graph),
            forall|t: int| 0 <= t < pos.len() ==> pos@[t] < graph.edges.len(),
            forall|t: int|
                0 <= t < k && graph.edges@[(#[trigger] pos@[t]) as int].kind == EdgeKind::Calls ==> has_id(
                    graph.nodes@,
                    graph.edges@[pos@[t] as int].from@,
                ) && is_test_node(graph.nodes@[last_with_id(graph.nodes@, graph.edges@[pos@[t] as int].from@)]),
        decreases pos.len() - k,
    {
        let e = &graph.edges[pos[k]];
        if e.kind == EdgeKind::Calls {
            let fv = chars_of(e.from.as_str());
            match index.lookup(graph, &fv) {
                Some(p) => {
                    proof {
                        lemma_last_with_id(graph.nodes@, e.from@, p as int);
                    }
                    let n = &graph.nodes[p];
                    let in_test_file = match &n.file {
                        Some(f) => str_contains(f.as_str(), "test"),
                        None => false,
                    };
                    if !(in_test_file || str_starts_with(n.name.as_str(), "test_") || str_ends_with(
                        n.name.as_str(),
                        "_test",
                    )) {
                        return false;
                    }
                },
                None => {
                    return false;
                },
            }
        }
        k = k + 1;
    }
    true
}

/// The total weight of the edges touching `id`.
fn degree_for(graph: &CodeGraph, index: &QueryIndex, id: &str) -> (d: usize)
    requires
        index.describes(graph),
        weights_fit(graph.edges@),
    ensures
        d == degree(graph.edges@, id@),
{
    let idv = chars_of(id);
    match index.lookup(graph, &idv) {
        Some(p) => index.degree_of(graph, p),
        None => {
            let mut d: usize = 0;
            let mut k: usize = 0;
            while k < graph.edges.len()
                invariant
                    k <= graph.edges.len(),
                    weights_fit(graph.edges@),
                    d == degree_upto(graph.edges@, k as int, id@),
                decreases graph.edges.len() - k,
            {
                proof {
                    lemma_degree_bound(graph.edges@, k + 1, id@);
                    lemma_weight_monotone(graph.edges@, k + 1, graph.edges@.len() as int);
                }
                let e = &graph.edges[k];
                if str_eq(e.from.as_str(), id) {
                    d = d + e.weight;
                }
                if str_eq(e.to.as_str(), id) {
                    d = d + e.weight;
                }
                k = k + 1;
            }
            d
        },
    }
}


/// The calls among the edges into `id` all come from test nodes.
pub open spec fn tested_among(nodes: Seq<Node>, edges: Seq<Edge>, pos: Seq<usize>) -> bool {
    forall|t: int|
        0 <= t < pos.len() && edges[(#[trigger] pos[t]) as int].kind == EdgeKind::Calls ==> has_id(nodes, edges[pos[t] as int].from@)
            && is_test_node(nodes[last_with_id(nodes, edges[pos[t] as int].from@)])
}

proof fn lemma_tested_among(nodes: Seq<Node>, edges: Seq<Edge>, id: Seq<char>)
    requires
        edges.len() <= usize::MAX,
    ensures
        tested_among(nodes, edges, edges_to(edges, id)) <==> only_tests_call(nodes, edges, id),
{
    let pos = edges_to(edges, id);
    crate::seqs::lemma_select_members(edges, edges.len() as int, enters(id));
    if tested_among(nodes, edges, pos) {
        assert forall|k: int|
            0 <= k < edges.len() && (#[trigger] edges[k]).to@ == id && edges[k].kind == EdgeKind::Calls implies has_id(nodes, edges[k].from@)
                && is_test_node(nodes[last_with_id(nodes, edges[k].from@)]) by {
            assert(enters(id)(edges[k]));
            assert(pos.contains(k as usize));
            let t = choose|t: int| 0 <= t < pos.len() && pos[t] == k as usize;
            assert(edges[pos[t] as int].kind == EdgeKind::Calls);
        }
    }
    if only_tests_call(nodes, edges, id) {
        assert forall|t: int|
            0 <= t < pos.len() && edges[(#[trigger] pos[t]) as int].kind == EdgeKind::Calls implies has_id(nodes, edges[pos[t] as int].from@)
                && is_test_node(nodes[last_with_id(nodes, edges[pos[t] as int].from@)]) by {
            assert(enters(id)(edges[pos[t] as int]));
            assert(edges[pos[t] as int].to@ == id);
        }
    }
}


fn push_flag(desc: &mut Vec<String>, on: bool, text: &str)
    ensures
        strings_view(final(desc)@) == strings_view(old(desc)@) + if on {
            seq![text@]
        } else {
            Seq::<Seq<char>>::empty()
        },
{
    let ghost before = desc@;
    if on {
        desc.push(owned(text));
        assert(strings_view(desc@) =~= strings_view(before).push(text@));
    } else {
        assert(strings_view(desc@) =~= strings_view(before));
    }
}

fn push_count(desc: &mut Vec<String>, prefix: &str, n: Option<usize>)
    ensures
        strings_view(final(desc)@) == strings_view(old(desc)@) + match n {
            Some(n) => seq![prefix@ + nat_digits(n as nat)],
            None => Seq::<Seq<char>>::empty(),
        },
{
    let ghost before = desc@;
    match n {
        Some(n) => {
            let mut s = owned(prefix);
            s.append(usize_to_string(n).as_str());
            desc.push(s);
            assert(strings_view(desc@) =~= strings_view(before).push(prefix@ + nat_digits(n as nat)));
        },
        None => {
            assert(strings_view(desc@) =~= strings_view(before));
        },
    }
}

impl SymbolFilter {
    /// The nodes of `items` that pass the filter, in order.
    pub fn keep(&self, graph: &CodeGraph, items: &Vec<usize>) -> (r: Vec<usize>)
        requires
            weights_fit(graph.edges@),
            forall|k: int| 0 <= k < items@.len() ==> items@[k] < graph.nodes@.len(),
        ensures
            r@ == items@.filter(|i: usize| self.accepts(graph.nodes@, graph.edges@, graph.nodes@[i as int])),
    {
        let index = QueryIndex::new(graph);
        let ghost keep_it = |i: usize| self.accepts(graph.nodes@, graph.edges@, graph.nodes@[i as int]);
        let mut r: Vec<usize> = Vec::new();
        let mut k: usize = 0;
        while k < items.len()
            invariant
                k <= items.len(),
                index.describes(graph),
                weights_fit(graph.edges@),
                forall|j: int| 0 <= j < items@.len() ==> items@[j] < graph.nodes@.len(),
                keep_it == (|i: usize| self.accepts(graph.nodes@, graph.edges@, graph.nodes@[i as int])),
                r@ == items@.take(k as int).filter(keep_it),
            decreases items.len() - k,
        {
            let i = items[k];
            proof {
                assert(items@.take(k + 1).drop_last() =~= items@.take(k as int));
                reveal(Seq::filter);
            }
            if self.matches(&graph.nodes[i], &index, graph) {
                r.push(i);
            }
            k = k + 1;
        }
        assert(items@.take(items.len() as int) =~= items@);
        r
    }
}

} // verus!
