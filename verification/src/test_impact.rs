use vstd::prelude::*;
use crate::index::{has_id, is_last_with_id, last_with_id, lemma_last_with_id, QueryIndex};
use crate::lex::lex_compare;
use crate::model::{CodeGraph, Edge, EdgeKind, Node, NodeKind};
use crate::seqs::select;
use crate::strs::{
    cat, chars_of, contains_seq, copy_chars, ends_with_seq, owned, push_char, starts_with_seq,
    str_contains, str_ends_with, str_eq, str_starts_with, string_from_chars,
};
use crate::strset::StrSet;
use crate::text::append_str;

verus! {

// ---------------------------------------------------------------------------
// Test-like functions
// ---------------------------------------------------------------------------

/// A function or method that looks like a test: in a file whose path mentions
/// `test`, named `test_*` or `*_test`, or carrying a test attribute.
pub open spec fn is_test_fn(n: Node) -> bool {
    &&& (n.kind == NodeKind::Function || n.kind == NodeKind::Method)
    &&& {
        ||| (n.file matches Some(f) && contains_seq(f@, "test"@))
        ||| starts_with_seq(n.name@, "test_"@)
        ||| ends_with_seq(n.name@, "_test"@)
        ||| (n.signature matches Some(s) && (contains_seq(s@, "# [test]"@) || contains_seq(
            s@,
            "# [tokio :: test]"@,
        )))
    }
}

fn is_test_fn_exec(n: &Node) -> (b: bool)
    ensures
        b == is_test_fn(*n),
{
    if !(n.kind == NodeKind::Function || n.kind == NodeKind::Method) {
        return false;
    }
    let in_test_file = match &n.file {
        Some(f) => str_contains(f.as_str(), "test"),
        None => false,
    };
    let attr = match &n.signature {
        Some(s) => str_contains(s.as_str(), "# [test]") || str_contains(s.as_str(), "# [tokio :: test]"),
        None => false,
    };
    in_test_file || str_starts_with(n.name.as_str(), "test_") || str_ends_with(n.name.as_str(), "_test") || attr
}

pub open spec fn opt_text(o: Option<String>) -> Seq<char> {
    match o {
        Some(s) => s@,
        None => Seq::empty(),
    }
}

/// A test-like function whose name, qualified name or file mentions `symbol`
/// (any test-like function when there is no symbol).
pub open spec fn static_pick(symbol: Option<Seq<char>>) -> spec_fn(Node) -> bool {
    |n: Node| is_test_fn(n) && match symbol {
        Some(s) => contains_seq(n.name@ + " "@ + n.qualified_name@ + " "@ + opt_text(n.file), s),
        None => true,
    }
}

pub open spec fn opt_str_view(o: Option<&str>) -> Option<Seq<char>> {
    match o {
        Some(s) => Some(s@),
        None => None,
    }
}

/// The first `limit` test-like functions (see [`static_pick`]), in node order.
pub fn static_test_discovery(graph: &CodeGraph, symbol: Option<&str>, limit: usize) -> (r: Vec<usize>)
    ensures
        r@ == select(graph.nodes@, graph.nodes@.len() as int, static_pick(opt_str_view(symbol))).take(r@.len() as int),
        r@.len() == limit || r@ == select(graph.nodes@, graph.nodes@.len() as int, static_pick(opt_str_view(symbol))),
        r@.len() <= limit,
{
    let ghost nodes = graph.nodes@;
    let ghost pick = static_pick(opt_str_view(symbol));
    let mut r: Vec<usize> = Vec::new();
    let mut k: usize = 0;
    while k < graph.nodes.len() && r.len() < limit
        invariant
            k <= graph.nodes.len(),
            nodes == graph.nodes@,
            pick == static_pick(opt_str_view(symbol)),
            r@ == select(nodes, k as int, pick),
            r@.len() <= limit,
        decreases graph.nodes.len() - k,
    {
        let n = &graph.nodes[k];
        let mentioned = match symbol {
            Some(s) => {
                let mut h = cat(n.name.as_str(), " ");
                append_str(&mut h, n.qualified_name.as_str());
                append_str(&mut h, " ");
                match &n.file {
                    Some(f) => append_str(&mut h, f.as_str()),
                    None => {},
                }
                proof {
                    assert(h@ =~= n.name@ + " "@ + n.qualified_name@ + " "@ + opt_text(n.file));
                }
                str_contains(h.as_str(), s)
            },
            None => true,
        };
        if is_test_fn_exec(n) && mentioned {
            r.push(k);
        }
        assert(pick(nodes[k as int]) == (is_test_fn(nodes[k as int]) && mentioned));
        k = k + 1;
    }
    proof {
        crate::health::lemma_select_prefix(nodes, k as int, nodes.len() as int, pick);
        if r@.len() < limit {
            assert(k == nodes.len());
        }
    }
    r
}

// ---------------------------------------------------------------------------
// Callers of a symbol
// ---------------------------------------------------------------------------

/// Some call edge goes from `a` to `b`.
pub open spec fn calls_edge(edges: Seq<Edge>, a: Seq<char>, b: Seq<char>) -> bool {
    exists|k: int| 0 <= k < edges.len() && edges[k].kind == EdgeKind::Calls && (#[trigger] edges[k]).from@ == a && edges[k].to@ == b
}

pub open spec fn vv(v: Seq<Vec<char>>) -> Seq<Seq<char>> {
    v.map_values(|x: Vec<char>| x@)
}

/// The callers found from `t`: visited ids `v` with their depths and the
/// position of the id each was reached from, in breadth-first order.
pub open spec fn caller_tree(edges: Seq<Edge>, t: Seq<char>, v: Seq<Seq<char>>, dep: Seq<usize>, par: Seq<usize>) -> bool {
    &&& v.len() >= 1
    &&& v.len() == dep.len()
    &&& v.len() == par.len()
    &&& v[0] == t
    &&& dep[0] == 0
    &&& v.no_duplicates()
    &&& forall|i: int| #![trigger par[i]] 0 < i < v.len() ==> (par[i] as int) < i
    &&& forall|i: int| #![trigger dep[i]] 0 < i < v.len() ==> dep[i] == dep[par[i] as int] + 1
    &&& forall|i: int| #![trigger dep[i]] 0 < i < v.len() ==> dep[i] <= 4
    &&& forall|i: int| #![trigger v[i]] 0 < i < v.len() ==> calls_edge(edges, v[i], v[par[i] as int])
    &&& forall|i: int, j: int| 0 <= i <= j < v.len() ==> dep[i] <= dep[j]
}

proof fn lemma_tree_push(
    edges: Seq<Edge>,
    t: Seq<char>,
    v: Seq<Seq<char>>,
    d: Seq<usize>,
    p: Seq<usize>,
    x: Seq<char>,
    lvl: usize,
    h: usize,
)
    requires
        caller_tree(edges, t, v, d, p),
        h < v.len(),
        d[h as int] == lvl,
        lvl < 4,
        calls_edge(edges, x, v[h as int]),
        !v.contains(x),
        forall|i: int| 0 <= i < v.len() ==> d[i] <= lvl + 1,
    ensures
        caller_tree(edges, t, v.push(x), d.push((lvl + 1) as usize), p.push(h)),
{
    let nv = v.push(x);
    let nd = d.push((lvl + 1) as usize);
    let np = p.push(h);
    assert forall|i: int| #![trigger nv[i]] 0 < i < nv.len() implies calls_edge(edges, nv[i], nv[np[i] as int]) by {
        if i < v.len() {
            assert(d[i] == nd[i]);
            assert(p[i] == np[i]);
            assert(nv[np[i] as int] == v[p[i] as int]);
        }
    }
    assert forall|i: int| #![trigger nd[i]] 0 < i < nv.len() implies nd[i] == nd[np[i] as int] + 1 && nd[i] <= 4 by {
        if i < v.len() {
            assert(d[i] == nd[i]);
            assert(p[i] == np[i]);
            assert(nd[np[i] as int] == d[p[i] as int]);
        }
    }
    assert forall|a: int, b: int| 0 <= a < nv.len() && 0 <= b < nv.len() && a != b implies nv[a] != nv[b] by {
        if a < v.len() && b < v.len() {
        } else if a < v.len() {
            assert(v.contains(v[a]));
        } else if b < v.len() {
            assert(v.contains(v[b]));
        }
    }
    assert forall|i: int| #![trigger np[i]] 0 < i < nv.len() implies (np[i] as int) < i by {
        if i < v.len() {
            assert(d[i] == nd[i]);
            assert(p[i] == np[i]);
            assert((p[i] as int) < i);
        } else {
            assert(np[i] == h);
        }
    }
    assert(forall|i: int, j: int| 0 <= i <= j < nv.len() ==> nd[i] <= nd[j]);
}

/// The id `x` is visited at depth `d` or less.
pub open spec fn visited_within(v: Seq<Seq<char>>, dep: Seq<usize>, x: Seq<char>, d: int) -> bool {
    exists|j: int| 0 <= j < v.len() && #[trigger] v[j] == x && dep[j] <= d
}

/// Every caller of a visited id of depth below four is visited, at most one
/// level deeper.
pub open spec fn callers_closed(edges: Seq<Edge>, v: Seq<Seq<char>>, dep: Seq<usize>, upto: int) -> bool {
    forall|i: int, k: int|
        #![trigger v[i], edges[k]]
        0 <= i < upto && dep[i] < 4 && 0 <= k < edges.len() && edges[k].kind == EdgeKind::Calls && edges[k].to@
            == v[i] ==> visited_within(v, dep, edges[k].from@, dep[i] + 1)
}

proof fn lemma_within_level(v: Seq<Seq<char>>, dep: Seq<usize>, x: Seq<char>, lo: int, hi: int, level: int)
    requires
        v.contains(x),
        v.len() == dep.len(),
        0 <= lo <= hi <= v.len(),
        forall|i: int| 0 <= i < lo ==> #[trigger] dep[i] < level,
        forall|i: int| lo <= i < hi ==> #[trigger] dep[i] == level,
        forall|i: int| hi <= i < v.len() ==> #[trigger] dep[i] == level + 1,
    ensures
        visited_within(v, dep, x, level + 1),
{
    let w = choose|w: int| 0 <= w < v.len() && v[w] == x;
    if w < lo {
        assert(dep[w] < level);
    } else if w < hi {
        assert(dep[w] == level);
    } else {
        assert(dep[w] == level + 1);
    }
}

/// Breadth-first search of the callers of `target`, up to four calls away.
fn callers_within(graph: &CodeGraph, target: &Vec<char>) -> (r: (Vec<Vec<char>>, Vec<usize>, Vec<usize>))
    ensures
        caller_tree(graph.edges@, target@, vv(r.0@), r.1@, r.2@),
        callers_closed(graph.edges@, vv(r.0@), r.1@, r.0@.len() as int),
{
    let ghost edges = graph.edges@;
    let mut ids: Vec<Vec<char>> = Vec::new();
    ids.push(copy_chars(target));
    let mut depths: Vec<usize> = Vec::new();
    depths.push(0);
    let mut parents: Vec<usize> = Vec::new();
    parents.push(0);
    let mut seen = StrSet::new();
    seen.insert(copy_chars(target));
    proof {
        assert(vv(ids@) =~= seq![target@]);
        assert forall|x: Seq<char>| vv(ids@).contains(x) <==> x == target@ by {
            if x == target@ {
                assert(vv(ids@)[0] == x);
            }
        }
        assert(vv(ids@).to_set() =~= Set::empty().insert(target@));
    }
    let mut lo: usize = 0;
    let mut level: usize = 0;
    while level < 4
        invariant
            edges == graph.edges@,
            caller_tree(edges, target@, vv(ids@), depths@, parents@),
            seen.wf(),
            seen.members() == vv(ids@).to_set(),
            lo <= ids.len(),
            level <= 4,
            forall|i: int| lo <= i < ids.len() ==> #[trigger] depths@[i] == level,
            forall|i: int| 0 <= i < lo ==> #[trigger] depths@[i] < level,
            callers_closed(edges, vv(ids@), depths@, lo as int),
        decreases 4 - level,
    {
        let hi = ids.len();
        let mut h = lo;
        while h < hi
            invariant
                edges == graph.edges@,
                caller_tree(edges, target@, vv(ids@), depths@, parents@),
                seen.wf(),
                seen.members() == vv(ids@).to_set(),
                lo <= h <= hi,
                hi <= ids.len(),
                level < 4,
                forall|i: int| lo <= i < hi ==> #[trigger] depths@[i] == level,
                forall|i: int| hi <= i < ids.len() ==> #[trigger] depths@[i] == level + 1,
                forall|i: int| 0 <= i < lo ==> #[trigger] depths@[i] < level,
                callers_closed(edges, vv(ids@), depths@, h as int),
            decreases hi - h,
        {
            let cur = copy_chars(&ids[h]);
            let mut k: usize = 0;
            while k < graph.edges.len()
                invariant
                    edges == graph.edges@,
                    caller_tree(edges, target@, vv(ids@), depths@, parents@),
                    seen.wf(),
                    seen.members() == vv(ids@).to_set(),
                    lo <= h < hi,
                    hi <= ids.len(),
                    level < 4,
                    cur@ == vv(ids@)[h as int],
                    depths@[h as int] == level,
                    forall|i: int| lo <= i < hi ==> #[trigger] depths@[i] == level,
                    forall|i: int| hi <= i < ids.len() ==> #[trigger] depths@[i] == level + 1,
                    forall|i: int| 0 <= i < lo ==> #[trigger] depths@[i] < level,
                    callers_closed(edges, vv(ids@), depths@, h as int),
                    k <= graph.edges.len(),
                    forall|j: int|
                        #![trigger edges[j]]
                        0 <= j < k && edges[j].kind == EdgeKind::Calls && edges[j].to@ == cur@ ==> visited_within(vv(ids@), depths@, edges[j].from@, level + 1),
                decreases graph.edges.len() - k,
            {
                let e = &graph.edges[k];
                if e.kind == EdgeKind::Calls && lex_compare(&chars_of(e.to.as_str()), &cur) == 0 {
                    let from = chars_of(e.from.as_str());
                    if !seen.contains(&from) {
                        let ghost old_v = vv(ids@);
                        let ghost old_d = depths@;
                        let ghost old_p = parents@;
                        seen.insert(copy_chars(&from));
                        ids.push(from);
                        depths.push(level + 1);
                        parents.push(h);
                        proof {
                            let nv = vv(ids@);
                            assert(nv =~= old_v.push(e.from@));
                            assert forall|x: Seq<char>| nv.contains(x) <==> (old_v.contains(x) || x == e.from@) by {
                                if nv.contains(x) {
                                    let w = choose|w: int| 0 <= w < nv.len() && nv[w] == x;
                                    if w < old_v.len() {
                                        assert(old_v[w] == x);
                                    }
                                }
                                if old_v.contains(x) {
                                    let w = choose|w: int| 0 <= w < old_v.len() && old_v[w] == x;
                                    assert(nv[w] == x);
                                }
                                if x == e.from@ {
                                    assert(nv[nv.len() - 1] == x);
                                }
                            }
                            assert(nv.to_set() =~= old_v.to_set().insert(e.from@));
                            assert(!old_v.contains(e.from@));
                            assert(calls_edge(edges, e.from@, old_v[h as int])) by {
                                assert(edges[k as int].from@ == e.from@);
                            }
                            assert forall|i: int| 0 <= i < old_v.len() implies old_d[i] <= level + 1 by {
                                if i < lo {
                                    assert(old_d[i] < level);
                                } else if i < hi {
                                    assert(old_d[i] == level);
                                } else {
                                    assert(old_d[i] == level + 1);
                                }
                            }
                            lemma_tree_push(edges, target@, old_v, old_d, old_p, e.from@, level, h);
                            assert(depths@ =~= old_d.push((level + 1) as usize));
                            assert(parents@ =~= old_p.push(h));
                            assert(callers_closed(edges, nv, depths@, h as int)) by {
                                assert forall|i: int, k2: int|
                                    #![trigger nv[i], edges[k2]]
                                    0 <= i < h && depths@[i] < 4 && 0 <= k2 < edges.len() && edges[k2].kind == EdgeKind::Calls
                                        && edges[k2].to@ == nv[i] implies visited_within(nv, depths@, edges[k2].from@, depths@[i] + 1) by {
                                    assert(old_v[i] == nv[i]);
                                    assert(old_d[i] == depths@[i]);
                                    assert(visited_within(old_v, old_d, edges[k2].from@, old_d[i] + 1));
                                    let w = choose|w: int| 0 <= w < old_v.len() && #[trigger] old_v[w] == edges[k2].from@ && old_d[w] <= old_d[i] + 1;
                                    assert(nv[w] == edges[k2].from@ && depths@[w] == old_d[w]);
                                }
                            }
                            assert forall|j: int|
                                #![trigger edges[j]]
                                0 <= j <= k && edges[j].kind == EdgeKind::Calls && edges[j].to@ == cur@ implies visited_within(nv, depths@, edges[j].from@, level + 1) by {
                                if j < k {
                                    let w = choose|w: int| 0 <= w < old_v.len() && #[trigger] old_v[w] == edges[j].from@ && old_d[w] <= level + 1;
                                    assert(nv[w] == edges[j].from@ && depths@[w] == old_d[w]);
                                } else {
                                    assert(nv[nv.len() - 1] == edges[j].from@);
                                    assert(depths@[nv.len() - 1] == level + 1);
                                }
                            }
                        }
                    } else {
                        proof {
                            assert(seen.members().contains(from@));
                            assert(vv(ids@).to_set().contains(from@));
                            lemma_within_level(vv(ids@), depths@, from@, lo as int, hi as int, level as int);
                            assert(edges[k as int].from@ == from@);
                        }
                    }
                }
                k = k + 1;
            }
            proof {
                let nv = vv(ids@);
                assert(callers_closed(edges, nv, depths@, h + 1)) by {
                    assert forall|i: int, k2: int|
                        #![trigger nv[i], edges[k2]]
                        0 <= i < h + 1 && depths@[i] < 4 && 0 <= k2 < edges.len() && edges[k2].kind == EdgeKind::Calls
                            && edges[k2].to@ == nv[i] implies visited_within(nv, depths@, edges[k2].from@, depths@[i] + 1) by {
                        if i == h {
                            assert(edges[k2].to@ == cur@);
                        }
                    }
                }
            }
            h = h + 1;
        }
        lo = hi;
        level = level + 1;
    }
    proof {
        let nv = vv(ids@);
        assert forall|i: int, k2: int|
            #![trigger nv[i], edges[k2]]
            0 <= i < ids.len() && depths@[i] < 4 && 0 <= k2 < edges.len() && edges[k2].kind == EdgeKind::Calls
                && edges[k2].to@ == nv[i] implies visited_within(nv, depths@, edges[k2].from@, depths@[i] + 1) by {
            if i >= lo {
                assert(depths@[i] == level);
            }
        }
    }
    (ids, depths, parents)
}


// ---------------------------------------------------------------------------
// Test candidates
// ---------------------------------------------------------------------------

/// The name a path shows for an id: the node's name, or the id itself when no
/// node has it.
pub open spec fn display_name(nodes: Seq<Node>, id: Seq<char>) -> Seq<char> {
    if has_id(nodes, id) {
        nodes[last_with_id(nodes, id)].name@
    } else {
        id
    }
}

/// The ids from the start of the search to visited id `i`, following parents.
pub open spec fn walk_ids(v: Seq<Seq<char>>, par: Seq<usize>, i: int) -> Seq<Seq<char>>
    decreases i,
{
    if i <= 0 || i >= par.len() || par[i] as int >= i {
        seq![v[0]]
    } else {
        walk_ids(v, par, par[i] as int).push(v[i])
    }
}

proof fn lemma_walk_ids(edges: Seq<Edge>, t: Seq<char>, v: Seq<Seq<char>>, dep: Seq<usize>, par: Seq<usize>, i: int)
    requires
        caller_tree(edges, t, v, dep, par),
        0 <= i < v.len(),
    ensures
        walk_ids(v, par, i).len() == dep[i] + 1,
        walk_ids(v, par, i)[0] == t,
        walk_ids(v, par, i).last() == v[i],
        forall|j: int|
            #![trigger walk_ids(v, par, i)[j]]
            0 <= j < dep[i] ==> calls_edge(edges, walk_ids(v, par, i)[j + 1], walk_ids(v, par, i)[j]),
    decreases i,
{
    if i > 0 {
        assert((par[i] as int) < i);
        assert(dep[i] == dep[par[i] as int] + 1);
        let p = par[i] as int;
        lemma_walk_ids(edges, t, v, dep, par, p);
        let w = walk_ids(v, par, p);
        let w2 = walk_ids(v, par, i);
        assert(w2 == w.push(v[i]));
        assert(calls_edge(edges, v[i], v[p]));
        assert forall|j: int| #![trigger w2[j]] 0 <= j < dep[i] implies calls_edge(edges, w2[j + 1], w2[j]) by {
            if j < dep[p] {
                assert(w2[j + 1] == w[j + 1]);
                assert(w2[j] == w[j]);
            } else {
                assert(w2[j] == w.last());
            }
        }
    }
}

/// A test that reaches the target through calls: the test's node, its
/// distance in calls, and the names along the way from the target to it.
pub struct TestCandidate {
    pub node: usize,
    pub depth: usize,
    pub path: Vec<String>,
}

/// `c` is a test-like function (the last node with its id) that reaches the
/// id `t` through `depth` calls, one to four, along the ids whose names `path`
/// shows, from `t` to the test.
pub open spec fn candidate_ok(graph: CodeGraph, t: Seq<char>, c: TestCandidate) -> bool {
    let nodes = graph.nodes@;
    &&& c.node < nodes.len()
    &&& is_last_with_id(nodes, nodes[c.node as int].id@, c.node as int)
    &&& is_test_fn(nodes[c.node as int])
    &&& 1 <= c.depth <= 4
    &&& c.path@.len() == c.depth + 1
    &&& exists|w: Seq<Seq<char>>|
        #![trigger w.len(), calls_edge(graph.edges@, w[1], w[0])]
        w.len() == c.depth + 1 && w[0] == t && w[c.depth as int] == nodes[c.node as int].id@ && (forall|j: int|
            #![trigger w[j]]
            0 <= j < c.depth ==> calls_edge(graph.edges@, w[j + 1], w[j])) && (forall|j: int|
            #![trigger c.path@[j]]
            0 <= j <= c.depth ==> c.path@[j]@ == display_name(nodes, w[j]))
}

fn display_exec(index: &QueryIndex, graph: &CodeGraph, id: &Vec<char>) -> (r: String)
    requires
        index.id_tables(graph.nodes@),
    ensures
        r@ == display_name(graph.nodes@, id@),
{
    match index.lookup(graph, id) {
        Some(q) => {
            proof {
                lemma_last_with_id(graph.nodes@, id@, q as int);
            }
            owned(graph.nodes[q].name.as_str())
        },
        None => string_from_chars(id),
    }
}

/// The names along the walk to visited id `i`.
fn path_names(
    index: &QueryIndex,
    graph: &CodeGraph,
    ids: &Vec<Vec<char>>,
    parents: &Vec<usize>,
    i: usize,
    Ghost(t): Ghost<Seq<char>>,
    Ghost(dep): Ghost<Seq<usize>>,
) -> (r: Vec<String>)
    requires
        index.id_tables(graph.nodes@),
        caller_tree(graph.edges@, t, vv(ids@), dep, parents@),
        i < ids.len(),
    ensures
        r@.len() == walk_ids(vv(ids@), parents@, i as int).len(),
        forall|j: int| 0 <= j < r@.len() ==> (#[trigger] r@[j])@ == display_name(graph.nodes@, walk_ids(vv(ids@), parents@, i as int)[j]),
    decreases i,
{
    let ghost v = vv(ids@);
    if i == 0 {
        let mut r: Vec<String> = Vec::new();
        r.push(display_exec(index, graph, &ids[0]));
        assert(v[0] == ids@[0]@);
        r
    } else {
        assert((parents@[i as int] as int) < i);
        let mut r = path_names(index, graph, ids, parents, parents[i], Ghost(t), Ghost(dep));
        let ghost prev = r@;
        r.push(display_exec(index, graph, &ids[i]));
        proof {
            let w = walk_ids(v, parents@, parents@[i as int] as int);
            assert(walk_ids(v, parents@, i as int) == w.push(v[i as int]));
            assert(v[i as int] == ids@[i as int]@);
            assert forall|j: int| 0 <= j < r@.len() implies (#[trigger] r@[j])@ == display_name(graph.nodes@, walk_ids(v, parents@, i as int)[j]) by {
                if j < prev.len() {
                    assert(r@[j] == prev[j]);
                }
            }
        }
        r
    }
}

/// Each step of `w` goes from an id to one of its callers.
pub open spec fn is_call_walk(edges: Seq<Edge>, w: Seq<Seq<char>>) -> bool {
    forall|j: int| #![trigger w[j]] 0 <= j < w.len() - 1 ==> calls_edge(edges, w[j + 1], w[j])
}

/// The id `x` reaches the id `t` through `d` calls.
pub open spec fn calls_reach(edges: Seq<Edge>, t: Seq<char>, x: Seq<char>, d: nat) -> bool {
    exists|w: Seq<Seq<char>>| #[trigger] is_call_walk(edges, w) && w.len() == d + 1 && w[0] == t && w[d as int] == x
}

/// The last node with id `x` is a test-like function.
pub open spec fn test_at(nodes: Seq<Node>, x: Seq<char>) -> bool {
    has_id(nodes, x) && is_test_fn(nodes[last_with_id(nodes, x)])
}

proof fn lemma_reach_visited(
    edges: Seq<Edge>,
    t: Seq<char>,
    v: Seq<Seq<char>>,
    dep: Seq<usize>,
    par: Seq<usize>,
    w: Seq<Seq<char>>,
    d: int,
)
    requires
        caller_tree(edges, t, v, dep, par),
        callers_closed(edges, v, dep, v.len() as int),
        is_call_walk(edges, w),
        0 <= d < w.len(),
        d <= 4,
        w[0] == t,
    ensures
        visited_within(v, dep, w[d], d),
    decreases d,
{
    if d == 0 {
        assert(v[0] == w[0]);
    } else {
        lemma_reach_visited(edges, t, v, dep, par, w, d - 1);
        let j = choose|j: int| 0 <= j < v.len() && #[trigger] v[j] == w[d - 1] && dep[j] <= d - 1;
        let e = d - 1;
        assert(calls_edge(edges, w[e + 1], w[e]));
        let k = choose|k: int| 0 <= k < edges.len() && edges[k].kind == EdgeKind::Calls && (#[trigger] edges[k]).from@ == w[d] && edges[k].to@ == w[d - 1];
        assert(visited_within(v, dep, edges[k].from@, dep[j] + 1));
        let jj = choose|jj: int| 0 <= jj < v.len() && #[trigger] v[jj] == edges[k].from@ && dep[jj] <= dep[j] + 1;
        assert(v[jj] == w[d] && dep[jj] <= d);
    }
}

/// `n` is what a query for `sym` designates: by name, by qualified name, or
/// by a qualified name ending in `::sym`.
pub open spec fn test_match(sym: Seq<char>) -> spec_fn(Node) -> bool {
    |n: Node| n.name@ == sym || n.qualified_name@ == sym || ends_with_seq(n.qualified_name@, "::"@ + sym)
}

/// What the test query finds.
pub enum TestsReport {
    /// The symbol designates one node: the tests that reach it through calls,
    /// closest first.
    Impact { target: usize, tests: Vec<TestCandidate> },
    /// No symbol, or it designates no node or several: test-like functions
    /// (mentioning the symbol, if any).
    Static { tests: Vec<usize> },
}

/// The tests to run for `symbol`: when it designates exactly one node, the
/// test-like functions that call it within four calls (nearest first, at most
/// `limit`; a test left out is no nearer than any listed, and when fewer than
/// `limit` are listed every such test is); otherwise the test-like functions that mention it (at most
/// `limit`, in node order).
pub fn tests(graph: &CodeGraph, symbol: Option<&str>, limit: usize) -> (r: TestsReport)
    ensures
        symbol is None ==> (r matches TestsReport::Static { tests } && tests@ == select(
            graph.nodes@,
            graph.nodes@.len() as int,
            static_pick(None),
        ).take(tests@.len() as int) && (tests@.len() == limit || tests@ == select(
            graph.nodes@,
            graph.nodes@.len() as int,
            static_pick(None),
        )) && tests@.len() <= limit),
        symbol matches Some(s) ==> ({
            let m = select(graph.nodes@, graph.nodes@.len() as int, test_match(s@));
            &&& m.len() != 1 ==> (r matches TestsReport::Static { tests } && tests@ == select(
                graph.nodes@,
                graph.nodes@.len() as int,
                static_pick(Some(s@)),
            ).take(tests@.len() as int) && (tests@.len() == limit || tests@ == select(
                graph.nodes@,
                graph.nodes@.len() as int,
                static_pick(Some(s@)),
            )) && tests@.len() <= limit)
            &&& m.len() == 1 ==> (r matches TestsReport::Impact { target, tests } && target == m[0] && target
                < graph.nodes.len() && tests@.len() <= limit && (forall|k: int|
                0 <= k < tests@.len() ==> candidate_ok(*graph, graph.nodes@[target as int].id@, #[trigger] tests@[k]))
                && (forall|a: int, b: int| 0 <= a < b < tests@.len() ==> tests@[a].depth <= tests@[b].depth && tests@[a].node != tests@[b].node)
                && (forall|x: Seq<char>, d: nat|
                    #![trigger calls_reach(graph.edges@, graph.nodes@[target as int].id@, x, d), test_at(graph.nodes@, x)]
                    1 <= d <= 4 && x != graph.nodes@[target as int].id@ && calls_reach(graph.edges@, graph.nodes@[target as int].id@, x, d)
                        && test_at(graph.nodes@, x) ==> (exists|k: int| 0 <= k < tests@.len() && #[trigger] tests@[k].node == last_with_id(graph.nodes@, x))
                        || (tests@.len() == limit && forall|k: int| 0 <= k < tests@.len() ==> #[trigger] tests@[k].depth <= d)))
        }),
{
    let s = match symbol {
        None => {
            return TestsReport::Static { tests: static_test_discovery(graph, None, limit) };
        },
        Some(s) => s,
    };
    let ghost nodes = graph.nodes@;
    let ghost pick = test_match(s@);
    let mut matches: Vec<usize> = Vec::new();
    let mut k: usize = 0;
    let mut suffix = owned("::");
    append_str(&mut suffix, s);
    while k < graph.nodes.len()
        invariant
            k <= graph.nodes.len(),
            nodes == graph.nodes@,
            pick == test_match(s@),
            suffix@ == "::"@ + s@,
            matches@ == select(nodes, k as int, pick),
        decreases graph.nodes.len() - k,
    {
        let n = &graph.nodes[k];
        if str_eq(n.name.as_str(), s) || str_eq(n.qualified_name.as_str(), s) || str_ends_with(n.qualified_name.as_str(), suffix.as_str()) {
            matches.push(k);
        }
        k = k + 1;
    }
    if matches.len() != 1 {
        return TestsReport::Static { tests: static_test_discovery(graph, Some(s), limit) };
    }
    let target = matches[0];
    proof {
        crate::seqs::lemma_select_members(nodes, nodes.len() as int, pick);
    }
    let index = QueryIndex::ids_only(graph);
    let tid = chars_of(graph.nodes[target].id.as_str());
    let (ids, depths, parents) = callers_within(graph, &tid);
    let ghost v = vv(ids@);
    let ghost t = tid@;
    let mut out: Vec<TestCandidate> = Vec::new();
    let ghost mut src: Seq<int> = Seq::empty();
    let mut i: usize = 1;
    while i < ids.len() && out.len() < limit
        invariant
            1 <= i <= ids.len(),
            index.id_tables(graph.nodes@),
            caller_tree(graph.edges@, t, vv(ids@), depths@, parents@),
            t == graph.nodes@[target as int].id@,
            target < graph.nodes.len(),
            out@.len() <= limit,
            src.len() == out@.len(),
            forall|a: int| 0 <= a < src.len() ==> 1 <= #[trigger] src[a] < i && out@[a].depth == depths@[src[a]]
                && graph.nodes@[out@[a].node as int].id@ == vv(ids@)[src[a]],
            forall|a: int, b: int| 0 <= a < b < src.len() ==> src[a] < src[b],
            forall|a: int| 0 <= a < out@.len() ==> candidate_ok(*graph, t, #[trigger] out@[a]),
            forall|j: int|
                1 <= j < i && #[trigger] test_at(graph.nodes@, vv(ids@)[j]) ==> exists|a: int| 0 <= a < src.len() && #[trigger] src[a] == j,
        decreases ids.len() - i,
    {
        match index.lookup(graph, &ids[i]) {
            Some(q) => {
                if is_test_fn_exec(&graph.nodes[q]) {
                    let path = path_names(&index, graph, &ids, &parents, i, Ghost(t), Ghost(depths@));
                    let c = TestCandidate { node: q, depth: depths[i], path };
                    proof {
                        let vi = vv(ids@);
                        lemma_walk_ids(graph.edges@, t, vi, depths@, parents@, i as int);
                        let w = walk_ids(vi, parents@, i as int);
                        assert(vi[i as int] == ids@[i as int]@);
                        assert(depths@[i as int] >= 1) by {
                            assert(depths@[i as int] == depths@[parents@[i as int] as int] + 1);
                        }
                        assert(w[c.depth as int] == w.last());
                        assert(candidate_ok(*graph, t, c));
                    }
                    out.push(c);
                    proof {
                        let sb = src;
                        src = src.push(i as int);
                        assert(src[sb.len() as int] == i);
                        assert forall|j: int|
                            1 <= j < i + 1 && #[trigger] test_at(graph.nodes@, vv(ids@)[j]) implies exists|a: int|
                                0 <= a < src.len() && #[trigger] src[a] == j by {
                            if j < i {
                                let a = choose|a: int| 0 <= a < sb.len() && #[trigger] sb[a] == j;
                                assert(src[a] == j);
                            }
                        }
                    }
                } else {
                    proof {
                        assert(vv(ids@)[i as int] == ids@[i as int]@);
                        lemma_last_with_id(graph.nodes@, vv(ids@)[i as int], q as int);
                        assert(!test_at(graph.nodes@, vv(ids@)[i as int]));
                    }
                }
            },
            None => {
                proof {
                    assert(vv(ids@)[i as int] == ids@[i as int]@);
                    assert(!test_at(graph.nodes@, vv(ids@)[i as int]));
                }
            },
        }
        i = i + 1;
    }
    proof {
        assert forall|a: int, b: int| 0 <= a < b < out@.len() implies out@[a].depth <= out@[b].depth && out@[a].node
            != out@[b].node by {
            assert(src[a] < src[b]);
            assert(vv(ids@)[src[a]] != vv(ids@)[src[b]]);
        }
        let nodes = graph.nodes@;
        assert forall|x: Seq<char>, d: nat|
            1 <= d <= 4 && x != t && calls_reach(graph.edges@, t, x, d) && test_at(nodes, x) implies (exists|k: int|
                0 <= k < out@.len() && #[trigger] out@[k].node == last_with_id(nodes, x)) || (out@.len() == limit
                && forall|k: int| 0 <= k < out@.len() ==> #[trigger] out@[k].depth <= d) by {
            let w = choose|w: Seq<Seq<char>>| #[trigger] is_call_walk(graph.edges@, w) && w.len() == d + 1 && w[0] == t && w[d as int] == x;
            lemma_reach_visited(graph.edges@, t, vv(ids@), depths@, parents@, w, d as int);
            let j = choose|j: int| 0 <= j < vv(ids@).len() && #[trigger] vv(ids@)[j] == x && depths@[j] <= d;
            assert(j != 0);
            if j < i {
                assert(test_at(nodes, vv(ids@)[j]));
                let a = choose|a: int| 0 <= a < src.len() && #[trigger] src[a] == j;
                assert(candidate_ok(*graph, t, out@[a]));
                assert(nodes[out@[a].node as int].id@ == x);
                lemma_last_with_id(nodes, x, out@[a].node as int);
            } else {
                assert forall|k: int| 0 <= k < out@.len() implies #[trigger] out@[k].depth <= d by {
                    assert(src[k] < i <= j);
                    assert(depths@[src[k]] <= depths@[j]);
                }
            }
        }
    }
    TestsReport::Impact { target, tests: out }
}

// ---------------------------------------------------------------------------
// Build targets
// ---------------------------------------------------------------------------

/// The `(package, target)` positions of the targets of the first `p` packages.
pub open spec fn target_pairs(pkgs: Seq<crate::model::Package>, p: int) -> Seq<(usize, usize)>
    decreases p,
{
    if p <= 0 {
        Seq::empty()
    } else {
        target_pairs(pkgs, p - 1) + Seq::new(pkgs[p - 1].targets@.len(), |t: int| ((p - 1) as usize, t as usize))
    }
}

/// Every build target, as `(package, target)` positions, in order.
pub fn all_targets(graph: &CodeGraph) -> (r: Vec<(usize, usize)>)
    ensures
        r@ == target_pairs(graph.project.packages@, graph.project.packages@.len() as int),
{
    let ghost pkgs = graph.project.packages@;
    let mut r: Vec<(usize, usize)> = Vec::new();
    let mut p: usize = 0;
    while p < graph.project.packages.len()
        invariant
            p <= graph.project.packages.len(),
            pkgs == graph.project.packages@,
            r@ == target_pairs(pkgs, p as int),
        decreases graph.project.packages.len() - p,
    {
        let n = graph.project.packages[p].targets.len();
        let mut t: usize = 0;
        assert(target_pairs(pkgs, p as int) + Seq::new(0, |u: int| (p, u as usize)) =~= target_pairs(pkgs, p as int));
        while t < n
            invariant
                p < graph.project.packages.len(),
                pkgs == graph.project.packages@,
                n == pkgs[p as int].targets@.len(),
                t <= n,
                r@ == target_pairs(pkgs, p as int) + Seq::new(t as nat, |u: int| (p, u as usize)),
            decreases n - t,
        {
            r.push((p, t));
            assert(r@ =~= target_pairs(pkgs, p as int) + Seq::new((t + 1) as nat, |u: int| (p, u as usize)));
            t = t + 1;
        }
        assert(target_pairs(pkgs, p + 1) =~= target_pairs(pkgs, p as int) + Seq::new(n as nat, |u: int| (p, u as usize)));
        p = p + 1;
    }
    r
}

/// A changed file touches a target when the target's source path ends with
/// it, or when the file lies under `src/`.
pub open spec fn touches(src_path: Seq<char>, changed: Seq<Seq<char>>) -> bool {
    exists|k: int|
        0 <= k < changed.len() && (ends_with_seq(src_path, #[trigger] changed[k]) || starts_with_seq(changed[k], "src/"@))
}

/// The build targets touched by the changed files (see [`touches`]), as
/// `(package, target)` positions, in order.
pub fn changed_targets(graph: &CodeGraph, changed: &Vec<String>) -> (r: Vec<(usize, usize)>)
    ensures
        forall|k: int| 0 <= k < r@.len() ==> (#[trigger] r@[k]).0 < graph.project.packages.len() && r@[k].1
            < graph.project.packages@[r@[k].0 as int].targets.len() && touches(
            graph.project.packages@[r@[k].0 as int].targets@[r@[k].1 as int].src_path@,
            crate::seqs::strings_view(changed@),
        ),
        forall|p: int, t: int|
            0 <= p < graph.project.packages.len() && 0 <= t < graph.project.packages@[p].targets.len() && touches(
                graph.project.packages@[p].targets@[t].src_path@,
                crate::seqs::strings_view(changed@),
            ) ==> r@.contains((p as usize, t as usize)),
        forall|a: int, b: int| 0 <= a < b < r@.len() ==> r@[a] != r@[b],
{
    let ghost cv = crate::seqs::strings_view(changed@);
    let mut r: Vec<(usize, usize)> = Vec::new();
    let mut p: usize = 0;
    while p < graph.project.packages.len()
        invariant
            p <= graph.project.packages.len(),
            cv == crate::seqs::strings_view(changed@),
            forall|k: int| 0 <= k < r@.len() ==> (#[trigger] r@[k]).0 < p && r@[k].1
                < graph.project.packages@[r@[k].0 as int].targets.len() && touches(
                graph.project.packages@[r@[k].0 as int].targets@[r@[k].1 as int].src_path@,
                cv,
            ),
            forall|a: int, t: int|
                0 <= a < p && 0 <= t < graph.project.packages@[a].targets.len() && touches(
                    graph.project.packages@[a].targets@[t].src_path@,
                    cv,
                ) ==> r@.contains((a as usize, t as usize)),
            forall|a: int, b: int| 0 <= a < b < r@.len() ==> r@[a] != r@[b],
        decreases graph.project.packages.len() - p,
    {
        let targets = &graph.project.packages[p].targets;
        let n = targets.len();
        let mut t: usize = 0;
        while t < n
            invariant
                p < graph.project.packages.len(),
                targets == graph.project.packages@[p as int].targets,
                n == targets.len(),
                t <= n,
                cv == crate::seqs::strings_view(changed@),
                forall|k: int| 0 <= k < r@.len() ==> (#[trigger] r@[k]).0 <= p && (r@[k].0 < p || r@[k].1 < t) && r@[k].1
                    < graph.project.packages@[r@[k].0 as int].targets.len() && touches(
                    graph.project.packages@[r@[k].0 as int].targets@[r@[k].1 as int].src_path@,
                    cv,
                ),
                forall|a: int, u: int|
                    0 <= a < p && 0 <= u < graph.project.packages@[a].targets.len() && touches(
                        graph.project.packages@[a].targets@[u].src_path@,
                        cv,
                    ) ==> r@.contains((a as usize, u as usize)),
                forall|u: int| 0 <= u < t && touches(targets@[u].src_path@, cv) ==> r@.contains((p, u as usize)),
                forall|a: int, b: int| 0 <= a < b < r@.len() ==> r@[a] != r@[b],
            decreases n - t,
        {
            let sp = targets[t].src_path.as_str();
            let mut hit = false;
            let mut j: usize = 0;
            while j < changed.len()
                invariant
                    j <= changed.len(),
                    cv == crate::seqs::strings_view(changed@),
                    hit <==> exists|k: int| 0 <= k < j && (ends_with_seq(sp@, #[trigger] cv[k]) || starts_with_seq(cv[k], "src/"@)),
                decreases changed.len() - j,
            {
                assert(cv[j as int] == changed@[j as int]@);
                if str_ends_with(sp, changed[j].as_str()) || str_starts_with(changed[j].as_str(), "src/") {
                    hit = true;
                }
                j = j + 1;
            }
            if hit {
                let ghost old_r = r@;
                r.push((p, t));
                proof {
                    assert forall|a: int, u: int|
                        0 <= a < p && 0 <= u < graph.project.packages@[a].targets.len() && touches(
                            graph.project.packages@[a].targets@[u].src_path@,
                            cv,
                        ) implies r@.contains((a as usize, u as usize)) by {
                        let w = choose|w: int| 0 <= w < old_r.len() && old_r[w] == (a as usize, u as usize);
                        assert(r@[w] == old_r[w]);
                    }
                    assert forall|u: int| 0 <= u < t + 1 && touches(targets@[u].src_path@, cv) implies r@.contains((p, u as usize)) by {
                        if u < t {
                            let w = choose|w: int| 0 <= w < old_r.len() && old_r[w] == (p, u as usize);
                            assert(r@[w] == old_r[w]);
                        } else {
                            assert(r@[old_r.len() as int] == (p, t));
                        }
                    }
                    assert forall|a: int, b: int| 0 <= a < b < r@.len() implies r@[a] != r@[b] by {
                        if b == old_r.len() {
                            assert(old_r[a].0 < p || old_r[a].1 < t);
                        }
                    }
                }
            }
            t = t + 1;
        }
        p = p + 1;
    }
    r
}

} // verus!
