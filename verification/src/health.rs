use vstd::prelude::*;
use crate::builder::opt_view;
use crate::index::{has_id, last_with_id, lemma_last_with_id, QueryIndex};
use crate::model::{CodeGraph, Edge, EdgeCertainty, EdgeKind, Node, NodeKind};
use crate::namegraph::{graph_from_pairs, occurs, occurs_exec, paired, NameGraph};
use crate::rank::{is_permutation, kb, sort_by_rank, sorted_by, RankKey};
use crate::strs::{chars_of, contains_seq, owned, starts_with_seq, str_contains, str_eq, str_starts_with, string_from_range};

verus! {

// ---------------------------------------------------------------------------
// Score
// ---------------------------------------------------------------------------

/// `a - b`, or 0 when `b` is larger.
pub open spec fn sat_sub(a: int, b: int) -> int {
    if a >= b {
        a - b
    } else {
        0
    }
}

/// `n`, but at most 10.
pub open spec fn at_most_ten(n: nat) -> nat {
    if n < 10 {
        n
    } else {
        10
    }
}

/// The health score: 100, less 5 per cycle, 3 per oversized module, 1 per
/// possibly dead public symbol and 2 per warning, each counted up to ten times,
/// and never below 0.
pub open spec fn score_spec(cycles: nat, god_modules: nat, dead: nat, warnings: nat) -> int {
    sat_sub(
        sat_sub(
            sat_sub(sat_sub(100, (5 * at_most_ten(cycles)) as int), (3 * at_most_ten(god_modules)) as int),
            at_most_ten(dead) as int,
        ),
        (2 * at_most_ten(warnings)) as int,
    )
}

fn ten(n: usize) -> (r: usize)
    ensures
        r == at_most_ten(n as nat),
{
    if n < 10 {
        n
    } else {
        10
    }
}

/// The health score (see [`score_spec`]).
pub fn score(cycles: usize, god_modules: usize, possible_dead: usize, warnings: usize) -> (s: usize)
    ensures
        s == score_spec(cycles as nat, god_modules as nat, possible_dead as nat, warnings as nat),
{
    let a = 100usize.saturating_sub(ten(cycles) * 5);
    let b = a.saturating_sub(ten(god_modules) * 3);
    let c = b.saturating_sub(ten(possible_dead));
    c.saturating_sub(ten(warnings) * 2)
}

/// The word for a score: `high` from 85 to 100, `medium` from 65, `low` from 1,
/// `critical` otherwise.
pub open spec fn label_spec(score: nat) -> Seq<char> {
    if 85 <= score <= 100 {
        "high"@
    } else if 65 <= score <= 84 {
        "medium"@
    } else if 1 <= score <= 64 {
        "low"@
    } else {
        "critical"@
    }
}

/// The word for a score (see [`label_spec`]).
pub fn label(score: usize) -> (s: &'static str)
    ensures
        s@ == label_spec(score as nat),
{
    if 85 <= score && score <= 100 {
        "high"
    } else if 65 <= score && score <= 84 {
        "medium"
    } else if 1 <= score && score <= 64 {
        "low"
    } else {
        "critical"
    }
}

// ---------------------------------------------------------------------------
// Modules of files
// ---------------------------------------------------------------------------

/// The position of the last `/` in `s` before position `k`, or -1.
pub open spec fn last_slash(s: Seq<char>, k: int) -> int
    decreases k,
{
    if k <= 0 {
        -1
    } else if s[k - 1] == '/' {
        k - 1
    } else {
        last_slash(s, k - 1)
    }
}

/// The module a file belongs to: the directory of the file (the text before its
/// last `/`), or the file itself when that directory is `src`, `.` or empty.
pub open spec fn module_of_file_spec(file: Seq<char>) -> Seq<char> {
    let i = last_slash(file, file.len() as int);
    if i < 0 {
        file
    } else {
        let dir = file.take(i);
        if dir == "src"@ || dir == "."@ || dir.len() == 0 {
            file
        } else {
            dir
        }
    }
}

/// The module a file belongs to (see [`module_of_file_spec`]).
pub fn module_of_file(file: &str) -> (r: String)
    ensures
        r@ == module_of_file_spec(file@),
{
    let v = chars_of(file);
    let mut k: usize = v.len();
    while k > 0 && v[k - 1] != '/'
        invariant
            k <= v.len(),
            v@ == file@,
            last_slash(file@, file@.len() as int) == last_slash(file@, k as int),
        decreases k,
    {
        k = k - 1;
    }
    if k == 0 {
        return owned(file);
    }
    let dir = string_from_range(&v, 0, k - 1);
    assert(dir@ =~= file@.take(k - 1));
    if k - 1 == 0 || str_eq(dir.as_str(), "src") || str_eq(dir.as_str(), ".") {
        proof {
            reveal_strlit("src");
            reveal_strlit(".");
        }
        owned(file)
    } else {
        dir
    }
}


// ---------------------------------------------------------------------------
// Dependencies between modules
// ---------------------------------------------------------------------------

/// Modules, files, projects and crates: declarations rather than code.
pub open spec fn is_container_kind(k: NodeKind) -> bool {
    k == NodeKind::Module || k == NodeKind::File || k == NodeKind::Project || k == NodeKind::Crate
}

/// The node a map from ids would give for `id`.
pub open spec fn node_of(nodes: Seq<Node>, id: Seq<char>) -> Node {
    nodes[last_with_id(nodes, id)]
}

/// `id` is a node that a `HasMethod` edge from an `impl:` node reaches.
pub open spec fn is_impl_method(nodes: Seq<Node>, edges: Seq<Edge>, id: Seq<char>) -> bool {
    exists|k: int|
        0 <= k < edges.len() && (#[trigger] edges[k]).kind == EdgeKind::HasMethod && starts_with_seq(edges[k].from@, "impl:"@)
            && has_id(nodes, edges[k].to@) && edges[k].to@ == id
}

/// The modules an edge makes depend on each other: a definite call or import
/// that is not into an impl method, between two code nodes whose files lie in
/// different modules.
pub open spec fn module_link(nodes: Seq<Node>, edges: Seq<Edge>, e: Edge) -> Option<(Seq<char>, Seq<char>)> {
    if !(e.kind == EdgeKind::Calls || e.kind == EdgeKind::Imports) || e.certainty == EdgeCertainty::Inferred
        || e.certainty == EdgeCertainty::Possible || is_impl_method(nodes, edges, e.to@) || !has_id(nodes, e.from@)
        || !has_id(nodes, e.to@) {
        None
    } else {
        let f = node_of(nodes, e.from@);
        let t = node_of(nodes, e.to@);
        if is_container_kind(f.kind) || is_container_kind(t.kind) {
            None
        } else {
            match (f.file, t.file) {
                (Some(a), Some(b)) => {
                    let ma = module_of_file_spec(a@);
                    let mb = module_of_file_spec(b@);
                    if ma != mb {
                        Some((ma, mb))
                    } else {
                        None
                    }
                },
                _ => None,
            }
        }
    }
}

/// Some edge makes module `a` depend on module `b`.
pub open spec fn module_links(nodes: Seq<Node>, edges: Seq<Edge>, a: Seq<char>, b: Seq<char>) -> bool {
    exists|k: int| 0 <= k < edges.len() && module_link(nodes, edges, #[trigger] edges[k]) == Some((a, b))
}

/// The ids of the impl methods (see [`is_impl_method`]).
fn impl_methods(graph: &CodeGraph, index: &QueryIndex) -> (s: crate::strset::StrSet)
    requires
        index.id_tables(graph.nodes@),
    ensures
        s.wf(),
        forall|id: Seq<char>| s.members().contains(id) <==> is_impl_method(graph.nodes@, graph.edges@, id),
{
    let ghost nodes = graph.nodes@;
    let ghost edges = graph.edges@;
    let mut s = crate::strset::StrSet::new();
    let mut k: usize = 0;
    while k < graph.edges.len()
        invariant
            k <= graph.edges.len(),
            index.id_tables(graph.nodes@),
            nodes == graph.nodes@,
            edges == graph.edges@,
            s.wf(),
            forall|id: Seq<char>|
                s.members().contains(id) <==> exists|q: int|
                    0 <= q < k && (#[trigger] edges[q]).kind == EdgeKind::HasMethod && starts_with_seq(edges[q].from@, "impl:"@)
                        && has_id(nodes, edges[q].to@) && edges[q].to@ == id,
        decreases graph.edges.len() - k,
    {
        let e = &graph.edges[k];
        if e.kind == EdgeKind::HasMethod && str_starts_with(e.from.as_str(), "impl:") {
            let tv = chars_of(e.to.as_str());
            if index.lookup(graph, &tv).is_some() {
                s.insert(tv);
            }
        }
        proof {
            assert forall|id: Seq<char>|
                s.members().contains(id) <==> exists|q: int|
                    0 <= q < k + 1 && (#[trigger] edges[q]).kind == EdgeKind::HasMethod && starts_with_seq(edges[q].from@, "impl:"@)
                        && has_id(nodes, edges[q].to@) && edges[q].to@ == id by {
                if edges[k as int].to@ == id && edges[k as int].kind == EdgeKind::HasMethod && starts_with_seq(edges[k as int].from@, "impl:"@)
                    && has_id(nodes, edges[k as int].to@) {
                    assert(edges[k as int].to@ == id);
                }
            }
        }
        k = k + 1;
    }
    s
}

/// The module pair an edge links, if any (see [`module_link`]).
fn module_link_of(graph: &CodeGraph, index: &QueryIndex, impls: &crate::strset::StrSet, e: &Edge) -> (r: Option<(String, String)>)
    requires
        index.id_tables(graph.nodes@),
        impls.wf(),
        forall|id: Seq<char>| impls.members().contains(id) <==> is_impl_method(graph.nodes@, graph.edges@, id),
    ensures
        match r {
            Some(p) => module_link(graph.nodes@, graph.edges@, *e) == Some((p.0@, p.1@)),
            None => module_link(graph.nodes@, graph.edges@, *e) is None,
        },
{
    if !(e.kind == EdgeKind::Calls || e.kind == EdgeKind::Imports) || e.certainty == EdgeCertainty::Inferred
        || e.certainty == EdgeCertainty::Possible {
        return None;
    }
    let tv = chars_of(e.to.as_str());
    if impls.contains(&tv) {
        return None;
    }
    let fv = chars_of(e.from.as_str());
    let fp = match index.lookup(graph, &fv) {
        Some(p) => p,
        None => return None,
    };
    let tp = match index.lookup(graph, &tv) {
        Some(p) => p,
        None => return None,
    };
    proof {
        lemma_last_with_id(graph.nodes@, e.from@, fp as int);
        lemma_last_with_id(graph.nodes@, e.to@, tp as int);
    }
    let f = &graph.nodes[fp];
    let t = &graph.nodes[tp];
    let fk = f.kind;
    let tk = t.kind;
    if fk == NodeKind::Module || fk == NodeKind::File || fk == NodeKind::Project || fk == NodeKind::Crate || tk
        == NodeKind::Module || tk == NodeKind::File || tk == NodeKind::Project || tk == NodeKind::Crate {
        return None;
    }
    match (&f.file, &t.file) {
        (Some(a), Some(b)) => {
            let ma = module_of_file(a.as_str());
            let mb = module_of_file(b.as_str());
            if str_eq(ma.as_str(), mb.as_str()) {
                None
            } else {
                Some((ma, mb))
            }
        },
        _ => None,
    }
}

/// `(module, module)` for every edge that makes one module depend on another
/// (see [`module_link`]).
pub fn file_dependencies(graph: &CodeGraph) -> (pairs: Vec<(String, String)>)
    ensures
        forall|a: Seq<char>, b: Seq<char>|
            module_links(graph.nodes@, graph.edges@, a, b) <==> paired(pairs@, pairs@.len() as int, a, b),
{
    let ghost nodes = graph.nodes@;
    let ghost edges = graph.edges@;
    let index = QueryIndex::ids_only(graph);
    let impls = impl_methods(graph, &index);
    let mut pairs: Vec<(String, String)> = Vec::new();
    let mut k: usize = 0;
    while k < graph.edges.len()
        invariant
            k <= graph.edges.len(),
            nodes == graph.nodes@,
            edges == graph.edges@,
            index.id_tables(graph.nodes@),
            impls.wf(),
            forall|id: Seq<char>| impls.members().contains(id) <==> is_impl_method(graph.nodes@, graph.edges@, id),
            forall|a: Seq<char>, b: Seq<char>|
                (exists|q: int| 0 <= q < k && module_link(nodes, edges, #[trigger] edges[q]) == Some((a, b))) <==> paired(
                    pairs@,
                    pairs@.len() as int,
                    a,
                    b,
                ),
        decreases graph.edges.len() - k,
    {
        let ghost pb = pairs@;
        match module_link_of(graph, &index, &impls, &graph.edges[k]) {
            Some(p) => {
                let ghost pv = (p.0@, p.1@);
                pairs.push(p);
                proof {
                    assert forall|a: Seq<char>, b: Seq<char>|
                        (exists|q: int| 0 <= q < k + 1 && module_link(nodes, edges, #[trigger] edges[q]) == Some((a, b))) <==> paired(
                            pairs@,
                            pairs@.len() as int,
                            a,
                            b,
                        ) by {
                        if paired(pairs@, pairs@.len() as int, a, b) {
                            let q = choose|q: int| 0 <= q < pairs@.len() && (#[trigger] pairs@[q]).0@ == a && pairs@[q].1@ == b;
                            if q < pb.len() {
                                assert(pairs@[q] == pb[q]);
                                assert(paired(pb, pb.len() as int, a, b));
                            } else {
                                assert(module_link(nodes, edges, edges[k as int]) == Some((a, b)));
                            }
                        }
                        if exists|q: int| 0 <= q < k + 1 && module_link(nodes, edges, #[trigger] edges[q]) == Some((a, b)) {
                            let q = choose|q: int| 0 <= q < k + 1 && module_link(nodes, edges, #[trigger] edges[q]) == Some((a, b));
                            if q < k {
                                assert(paired(pb, pb.len() as int, a, b));
                                let r = choose|r: int| 0 <= r < pb.len() && (#[trigger] pb[r]).0@ == a && pb[r].1@ == b;
                                assert(pairs@[r] == pb[r]);
                            } else {
                                assert(pairs@[pb.len() as int].0@ == a);
                            }
                        }
                    }
                }
            },
            None => {
                proof {
                    assert forall|a: Seq<char>, b: Seq<char>|
                        (exists|q: int| 0 <= q < k + 1 && module_link(nodes, edges, #[trigger] edges[q]) == Some((a, b))) <==> paired(
                            pairs@,
                            pairs@.len() as int,
                            a,
                            b,
                        ) by {
                        if exists|q: int| 0 <= q < k + 1 && module_link(nodes, edges, #[trigger] edges[q]) == Some((a, b)) {
                            let q = choose|q: int| 0 <= q < k + 1 && module_link(nodes, edges, #[trigger] edges[q]) == Some((a, b));
                            assert(q < k);
                        }
                    }
                }
            },
        }
        k = k + 1;
    }
    proof {
        assert forall|a: Seq<char>, b: Seq<char>|
            module_links(nodes, edges, a, b) <==> paired(pairs@, pairs@.len() as int, a, b) by {
            if module_links(nodes, edges, a, b) {
                let q = choose|q: int| 0 <= q < edges.len() && module_link(nodes, edges, #[trigger] edges[q]) == Some((a, b));
            }
        }
    }
    pairs
}


// ---------------------------------------------------------------------------
// Cycles between modules
// ---------------------------------------------------------------------------

/// `p` follows edges of `g` from vertex to vertex.
pub open spec fn is_walk(g: NameGraph, p: Seq<usize>) -> bool {
    &&& forall|i: int| 0 <= i < p.len() ==> p[i] < g.n()
    &&& forall|i: int| 0 <= i < p.len() - 1 ==> #[trigger] g.edge(p[i] as int, p[i + 1] as int)
}

/// A walk from `start` to `v`.
pub open spec fn walk_to(g: NameGraph, start: usize, v: usize, p: Seq<usize>) -> bool {
    &&& p.len() >= 1
    &&& p[0] == start
    &&& p.last() == v
    &&& is_walk(g, p)
}

/// The vertices of the queue entries.
pub open spec fn queued_vertices(q: Seq<(usize, Vec<usize>)>) -> Seq<usize> {
    q.map_values(|e: (usize, Vec<usize>)| e.0)
}

fn copy_path(p: &Vec<usize>) -> (r: Vec<usize>)
    ensures
        r@ == p@,
{
    let mut r: Vec<usize> = Vec::new();
    let mut i: usize = 0;
    while i < p.len()
        invariant
            i <= p.len(),
            r@ == p@.take(i as int),
        decreases p.len() - i,
    {
        r.push(p[i]);
        assert(r@ =~= p@.take(i + 1));
        i = i + 1;
    }
    assert(p@.take(p.len() as int) =~= p@);
    r
}

/// Some queue entry holds vertex `v` with a path of at most `len` vertices.
pub open spec fn queued_within(queue: Seq<(usize, Vec<usize>)>, v: int, len: nat) -> bool {
    exists|j: int| 0 <= j < queue.len() && queue[j].0 == v && queue[j].1@.len() <= len
}

/// The length of the last path taken from the queue (0 before the first).
pub open spec fn last_len(queue: Seq<(usize, Vec<usize>)>, head: int) -> int {
    if head <= 0 {
        0
    } else {
        queue[head - 1].1@.len() as int
    }
}

/// The breadth-first search invariant: entries are queued by nondecreasing
/// path length; every entry taken so far whose path is short enough had its
/// successors queued with a path one longer at most.
pub open spec fn bfs_inv(g: NameGraph, queue: Seq<(usize, Vec<usize>)>, done: int, max_depth: int) -> bool {
    &&& forall|a: int, b: int| 0 <= a < b < queue.len() ==> queue[a].1@.len() <= queue[b].1@.len()
    &&& forall|q: int, v: int|
        0 <= q < done && queue[q].1@.len() <= max_depth && #[trigger] g.edge(queue[q].0 as int, v) ==> queued_within(
            queue,
            v,
            queue[q].1@.len() + 1,
        )
}

/// Every vertex of a walk from `start` short enough to be searched was queued
/// with a path no longer than its position on the walk.
proof fn lemma_bfs_reach(
    g: NameGraph,
    queue: Seq<(usize, Vec<usize>)>,
    done: int,
    start: usize,
    max_depth: int,
    cutoff: int,
    w: Seq<usize>,
    i: int,
)
    requires
        bfs_inv(g, queue, done, max_depth),
        0 <= done <= queue.len(),
        queue.len() >= 1,
        queue[0].0 == start,
        queue[0].1@.len() == 1,
        forall|q: int| done <= q < queue.len() ==> queue[q].1@.len() >= cutoff,
        w.len() >= 1,
        w[0] == start,
        is_walk(g, w),
        w.len() <= max_depth,
        w.len() <= cutoff,
        0 <= i < w.len(),
    ensures
        queued_within(queue, w[i] as int, (i + 1) as nat),
    decreases i,
{
    if i == 0 {
        assert(queue[0].0 == w[0]);
    } else {
        lemma_bfs_reach(g, queue, done, start, max_depth, cutoff, w, i - 1);
        let j = choose|j: int| 0 <= j < queue.len() && queue[j].0 == w[i - 1] && queue[j].1@.len() <= i;
        assert(g.edge(w[i - 1] as int, w[(i - 1) + 1] as int));
        if j >= done {
            assert(queue[j].1@.len() >= cutoff);
        }
        assert(g.edge(queue[j].0 as int, w[i] as int));
    }
}

/// A breadth-first search from `start` for `target`, abandoning paths of more
/// than `max_depth` vertices; the path found, vertex by vertex. A path is found
/// exactly when a walk of at most `max_depth` vertices leads from `start` to
/// `target`, and no such walk is shorter than it.
pub fn path_to(g: &NameGraph, start: usize, target: usize, max_depth: usize) -> (r: Option<Vec<usize>>)
    requires
        g.wf(),
        start < g.n(),
    ensures
        r matches Some(p) ==> 1 <= p@.len() <= max_depth && walk_to(*g, start, target, p@),
        r matches Some(p) ==> forall|w: Seq<usize>| walk_to(*g, start, target, w) ==> p@.len() <= w.len(),
        r is None ==> forall|w: Seq<usize>| walk_to(*g, start, target, w) ==> w.len() > max_depth,
{
    let n = g.names.len();
    let mut seen = crate::namegraph::flags(n);
    seen.set(start, true);
    let mut queue: Vec<(usize, Vec<usize>)> = Vec::new();
    queue.push((start, vec![start]));
    proof {
        assert(queued_vertices(queue@) =~= seq![start]);
        assert forall|x: int| 0 <= x < n implies (seen@[x] <==> occurs(queued_vertices(queue@), x)) by {
            if x == start {
                assert(queued_vertices(queue@)[0] == start);
            }
        }
    }
    let mut head: usize = 0;
    while head < queue.len()
        invariant
            g.wf(),
            n == g.n(),
            start < n,
            seen@.len() == n,
            head <= queue@.len(),
            queue@.len() >= 1,
            queue@[0].0 == start,
            queue@[0].1@.len() == 1,
            forall|q: int| 0 <= q < queue@.len() ==> walk_to(*g, start, (#[trigger] queue@[q]).0, queue@[q].1@),
            queued_vertices(queue@).no_duplicates(),
            forall|q: int| 0 <= q < queue@.len() ==> (#[trigger] queue@[q]).0 < n,
            forall|x: int| 0 <= x < n ==> (seen@[x] <==> occurs(queued_vertices(queue@), x)),
            bfs_inv(*g, queue@, head as int, max_depth as int),
            forall|q: int| 0 <= q < queue@.len() ==> (#[trigger] queue@[q]).1@.len() <= last_len(queue@, head as int) + 1,
            forall|q: int| 0 <= q < head && (#[trigger] queue@[q]).1@.len() <= max_depth ==> queue@[q].0 != target,
        decreases n - head,
    {
        proof {
            assert forall|q: int| 0 <= q < queued_vertices(queue@).len() implies queued_vertices(queue@)[q] < n by {
                assert(queue@[q].0 < n);
            }
            crate::namegraph::lemma_distinct_bounded(queued_vertices(queue@), n as nat);
        }
        let current = queue[head].0;
        let path = copy_path(&queue[head].1);
        let ghost h = head as int;
        proof {
            if h > 0 {
                assert(queue@[h - 1].1@.len() <= queue@[h].1@.len());
            }
        }
        head = head + 1;
        if path.len() > max_depth {
            continue;
        }
        if current == target {
            proof {
                assert forall|w: Seq<usize>| walk_to(*g, start, target, w) implies path@.len() <= w.len() by {
                    if w.len() < path@.len() {
                        assert forall|q: int| h <= q < queue@.len() implies queue@[q].1@.len() >= path@.len() by {
                            if q > h {
                                assert(queue@[h].1@.len() <= queue@[q].1@.len());
                            }
                        }
                        lemma_bfs_reach(*g, queue@, h, start, max_depth as int, path@.len() as int, w, w.len() - 1);
                        let j = choose|j: int| 0 <= j < queue@.len() && queue@[j].0 == w[w.len() - 1] && queue@[j].1@.len() <= w.len();
                        if j >= h {
                            assert(queue@[j].1@.len() >= path@.len());
                        }
                        assert(queue@[j].0 != target);
                    }
                }
            }
            return Some(path);
        }
        let row = &g.succ[current];
        let mut k: usize = 0;
        while k < row.len()
            invariant
                g.wf(),
                n == g.n(),
                start < n,
                current < n,
                row@ == g.succ@[current as int]@,
                walk_to(*g, start, current, path@),
                seen@.len() == n,
                0 <= h,
                h + 1 == head,
                head <= queue@.len(),
                queue@.len() >= 1,
                queue@[0].0 == start,
                queue@[0].1@.len() == 1,
                queue@[h].0 == current,
                queue@[h].1@ == path@,
                path@.len() <= max_depth,
                current != target,
                k <= row.len(),
                forall|q: int| 0 <= q < queue@.len() ==> walk_to(*g, start, (#[trigger] queue@[q]).0, queue@[q].1@),
                queued_vertices(queue@).no_duplicates(),
                forall|q: int| 0 <= q < queue@.len() ==> (#[trigger] queue@[q]).0 < n,
                forall|x: int| 0 <= x < n ==> (seen@[x] <==> occurs(queued_vertices(queue@), x)),
                bfs_inv(*g, queue@, h, max_depth as int),
                forall|q: int| 0 <= q < queue@.len() ==> (#[trigger] queue@[q]).1@.len() <= path@.len() + 1,
                forall|q: int| 0 <= q < h && (#[trigger] queue@[q]).1@.len() <= max_depth ==> queue@[q].0 != target,
                forall|kk: int| 0 <= kk < k ==> queued_within(queue@, #[trigger] row@[kk] as int, path@.len() + 1),
            decreases row.len() - k,
        {
            let next = row[k];
            assert(next < n);
            if !seen[next] {
                let mut np = copy_path(&path);
                np.push(next);
                proof {
                    assert(occurs(g.succ@[current as int]@, next as int)) by {
                        assert(g.succ@[current as int]@[k as int] == next);
                    }
                    assert(g.edge(current as int, next as int));
                    assert forall|i: int| 0 <= i < np@.len() - 1 implies #[trigger] g.edge(np@[i] as int, np@[i + 1] as int) by {
                        if i < path@.len() - 1 {
                            assert(np@[i] == path@[i]);
                            assert(np@[i + 1] == path@[i + 1]);
                        } else {
                            assert(np@[i] == current);
                        }
                    }
                }
                let ghost qb = queue@;
                seen.set(next, true);
                queue.push((next, np));
                proof {
                    assert(queued_vertices(queue@) =~= queued_vertices(qb).push(next));
                    assert forall|x: int| 0 <= x < n implies (seen@[x] <==> occurs(queued_vertices(queue@), x)) by {
                        crate::namegraph::lemma_occurs_push(queued_vertices(qb), next, x);
                    }
                    assert(queued_vertices(queue@).no_duplicates()) by {
                        let v = queued_vertices(queue@);
                        assert forall|a: int, b: int| 0 <= a < v.len() && 0 <= b < v.len() && a != b implies v[a] != v[b] by {
                            if a == qb.len() && b < qb.len() {
                                if v[a] == v[b] {
                                    assert(queued_vertices(qb)[b] == next);
                                    assert(occurs(queued_vertices(qb), next as int));
                                }
                            } else if b == qb.len() && a < qb.len() {
                                if v[a] == v[b] {
                                    assert(queued_vertices(qb)[a] == next);
                                    assert(occurs(queued_vertices(qb), next as int));
                                }
                            } else if a < qb.len() && b < qb.len() {
                                assert(v[a] == queued_vertices(qb)[a]);
                                assert(v[b] == queued_vertices(qb)[b]);
                            }
                        }
                    }
                    let nl = qb.len() as int;
                    assert(queue@[nl].1@.len() == path@.len() + 1);
                    assert forall|x: int, y: int| 0 <= x < y < queue@.len() implies queue@[x].1@.len() <= queue@[y].1@.len() by {
                        assert(queue@[x] == qb[x]);
                        if y < nl {
                            assert(queue@[y] == qb[y]);
                        } else {
                            assert(qb[x].1@.len() <= path@.len() + 1);
                        }
                    }
                    assert forall|q: int, v: int|
                        0 <= q < h && queue@[q].1@.len() <= max_depth && #[trigger] g.edge(queue@[q].0 as int, v) implies queued_within(
                        queue@,
                        v,
                        queue@[q].1@.len() + 1,
                    ) by {
                        assert(queue@[q] == qb[q]);
                        assert(queued_within(qb, v, qb[q].1@.len() + 1));
                        let j = choose|j: int| 0 <= j < qb.len() && qb[j].0 == v && qb[j].1@.len() <= qb[q].1@.len() + 1;
                        assert(queue@[j] == qb[j]);
                    }
                    assert forall|kk: int| 0 <= kk < k + 1 implies queued_within(queue@, #[trigger] row@[kk] as int, path@.len() + 1) by {
                        if kk < k {
                            assert(queued_within(qb, row@[kk] as int, path@.len() + 1));
                            let j = choose|j: int| 0 <= j < qb.len() && qb[j].0 == row@[kk] && qb[j].1@.len() <= path@.len() + 1;
                            assert(queue@[j] == qb[j]);
                        } else {
                            assert(queue@[nl].0 == row@[kk]);
                        }
                    }
                    assert forall|q: int| 0 <= q < queue@.len() implies walk_to(*g, start, (#[trigger] queue@[q]).0, queue@[q].1@) by {
                        if q < nl {
                            assert(queue@[q] == qb[q]);
                        }
                    }
                    assert(queue@[h] == qb[h]);
                    assert(queue@[0] == qb[0]);
                }
            } else {
                proof {
                    assert(occurs(queued_vertices(queue@), next as int));
                    let j = choose|j: int| 0 <= j < queued_vertices(queue@).len() && queued_vertices(queue@)[j] == next as int;
                    assert(queue@[j].0 == next);
                    assert(queue@[j].1@.len() <= path@.len() + 1);
                    assert(queued_within(queue@, row@[k as int] as int, path@.len() + 1));
                }
            }
            k = k + 1;
        }
        proof {
            assert forall|q: int, v: int|
                0 <= q < head && queue@[q].1@.len() <= max_depth && #[trigger] g.edge(queue@[q].0 as int, v) implies queued_within(
                queue@,
                v,
                queue@[q].1@.len() + 1,
            ) by {
                if q == h {
                    let kk = choose|kk: int| 0 <= kk < row@.len() && row@[kk] == v;
                    assert(queued_within(queue@, row@[kk] as int, path@.len() + 1));
                }
            }
            assert(last_len(queue@, head as int) == path@.len());
        }
    }
    proof {
        assert forall|w: Seq<usize>| walk_to(*g, start, target, w) implies w.len() > max_depth by {
            if w.len() <= max_depth {
                lemma_bfs_reach(*g, queue@, head as int, start, max_depth as int, max_depth as int, w, w.len() - 1);
                let j = choose|j: int| 0 <= j < queue@.len() && queue@[j].0 == w[w.len() - 1] && queue@[j].1@.len() <= w.len();
                assert(queue@[j].0 != target);
            }
        }
    }
    None
}

/// Vertex `s` has an edge to another vertex from which a walk of at most six
/// vertices leads back to `s`.
pub open spec fn has_short_cycle(g: NameGraph, s: usize) -> bool {
    exists|k: int, w: Seq<usize>|
        #![trigger walk_to(g, g.succ@[s as int]@[k], s, w)]
        0 <= k < g.succ@[s as int]@.len() && g.succ@[s as int]@[k] != s && walk_to(g, g.succ@[s as int]@[k], s, w)
            && w.len() <= 6
}

/// For each module with dependencies, in name order, the first closed walk back to
/// it (found by [`path_to`] from its successors, in order) through more than one
/// other step; at most `limit` of them. The modules listed are, in order, the
/// first `limit` of those with such a walk (see [`has_short_cycle`]).
pub fn cycles(g: &NameGraph, limit: usize) -> (r: Vec<Vec<usize>>)
    requires
        g.wf(),
    ensures
        r@.len() <= limit,
        forall|k: int|
            0 <= k < r@.len() ==> {
                let c = (#[trigger] r@[k])@;
                &&& 3 <= c.len() <= 7
                &&& c[0] == c.last()
                &&& is_walk(*g, c)
                &&& has_short_cycle(*g, c[0])
            },
        forall|a: int, b: int| 0 <= a < b < r@.len() ==> r@[a]@[0] < r@[b]@[0],
        forall|s: usize|
            s < g.n() && has_short_cycle(*g, s) ==> (exists|k: int| 0 <= k < r@.len() && r@[k]@[0] == s) || (r@.len()
                == limit && forall|k: int| 0 <= k < r@.len() ==> r@[k]@[0] < s),
{
    let n = g.names.len();
    let mut result: Vec<Vec<usize>> = Vec::new();
    let mut start: usize = 0;
    while start < n
        invariant
            g.wf(),
            n == g.n(),
            start <= n,
            result@.len() <= limit,
            forall|k: int|
                0 <= k < result@.len() ==> {
                    let c = (#[trigger] result@[k])@;
                    &&& 3 <= c.len() <= 7
                    &&& c[0] == c.last()
                    &&& is_walk(*g, c)
                    &&& c[0] < start
                },
            forall|a: int, b: int| 0 <= a < b < result@.len() ==> result@[a]@[0] < result@[b]@[0],
            forall|k: int| 0 <= k < result@.len() ==> has_short_cycle(*g, (#[trigger] result@[k])@[0]),
            forall|s: usize|
                s < start && has_short_cycle(*g, s) ==> exists|k: int| 0 <= k < result@.len() && result@[k]@[0] == s,
        ensures
            start >= n || result@.len() == limit,
        decreases n - start,
    {
        if result.len() >= limit {
            break;
        }
        let row = &g.succ[start];
        let mut k: usize = 0;
        let mut found: Option<Vec<usize>> = None;
        while k < row.len()
            invariant
                g.wf(),
                n == g.n(),
                start < n,
                row@ == g.succ@[start as int]@,
                k <= row.len(),
                found matches Some(c) ==> 3 <= c@.len() <= 7 && c@[0] == start && c@.last() == start && is_walk(*g, c@)
                    && has_short_cycle(*g, start),
                found is None ==> forall|kk: int|
                    0 <= kk < k ==> row@[kk] == start || forall|w: Seq<usize>|
                        walk_to(*g, #[trigger] row@[kk], start, w) ==> w.len() > 6,
            ensures
                found is None ==> k == row.len(),
            decreases row.len() - k,
        {
            let next = row[k];
            assert(next < n);
            match path_to(g, next, start, 6) {
                Some(path) => {
                    let mut cycle: Vec<usize> = vec![start];
                    let mut i: usize = 0;
                    while i < path.len()
                        invariant
                            i <= path.len(),
                            cycle@ == seq![start] + path@.take(i as int),
                        decreases path.len() - i,
                    {
                        cycle.push(path[i]);
                        assert(cycle@ =~= seq![start] + path@.take(i + 1));
                        i = i + 1;
                    }
                    assert(path@.take(path.len() as int) =~= path@);
                    if cycle.len() > 2 {
                        proof {
                            assert(cycle@.len() == path@.len() + 1);
                            if next == start {
                                assert(walk_to(*g, next, start, seq![start]));
                                assert(path@.len() <= 1);
                            }
                            assert(g.succ@[start as int]@[k as int] == next);
                            assert(walk_to(*g, g.succ@[start as int]@[k as int], start, path@));
                            assert(has_short_cycle(*g, start));
                            assert(occurs(g.succ@[start as int]@, next as int)) by {
                                assert(g.succ@[start as int]@[k as int] == next);
                            }
                            assert(g.edge(start as int, next as int));
                            assert forall|j: int| 0 <= j < cycle@.len() - 1 implies #[trigger] g.edge(cycle@[j] as int, cycle@[j + 1] as int) by {
                                if j > 0 {
                                    assert(cycle@[j] == path@[j - 1]);
                                    assert(cycle@[j + 1] == path@[j]);
                                    assert(g.edge(path@[j - 1] as int, path@[(j - 1) + 1] as int));
                                }
                            }
                        }
                        found = Some(cycle);
                        break;
                    }
                    proof {
                        assert(path@.len() == 1);
                        assert(path@[0] == next && path@.last() == start);
                    }
                },
                None => {},
            }
            k = k + 1;
        }
        proof {
            if found is None {
                assert(!has_short_cycle(*g, start)) by {
                    if has_short_cycle(*g, start) {
                        let (kk, w) = choose|kk: int, w: Seq<usize>|
                            #![trigger walk_to(*g, g.succ@[start as int]@[kk], start, w)]
                            0 <= kk < g.succ@[start as int]@.len() && g.succ@[start as int]@[kk] != start && walk_to(
                                *g,
                                g.succ@[start as int]@[kk],
                                start,
                                w,
                            ) && w.len() <= 6;
                        assert(walk_to(*g, row@[kk], start, w));
                    }
                }
            }
        }
        match found {
            Some(c) => {
                let ghost rb = result@;
                result.push(c);
                proof {
                    assert forall|k: int| 0 <= k < result@.len() implies has_short_cycle(*g, (#[trigger] result@[k])@[0]) by {
                        if k < rb.len() {
                            assert(result@[k] == rb[k]);
                        }
                    }
                    assert forall|s: usize|
                        s < start + 1 && has_short_cycle(*g, s) implies exists|k: int| 0 <= k < result@.len() && result@[k]@[0] == s by {
                        if s < start {
                            let k = choose|k: int| 0 <= k < rb.len() && rb[k]@[0] == s;
                            assert(result@[k] == rb[k]);
                        } else {
                            assert(result@[rb.len() as int]@[0] == s);
                        }
                    }
                    assert forall|a: int, b: int| 0 <= a < b < result@.len() implies result@[a]@[0] < result@[b]@[0] by {
                        if b < rb.len() {
                            assert(result@[a] == rb[a]);
                            assert(result@[b] == rb[b]);
                        } else {
                            assert(result@[a] == rb[a]);
                        }
                    }
                }
            },
            None => {},
        }
        start = start + 1;
    }
    proof {
        assert forall|s: usize|
            s < g.n() && has_short_cycle(*g, s) implies (exists|k: int| 0 <= k < result@.len() && result@[k]@[0] == s) || (
            result@.len() == limit && forall|k: int| 0 <= k < result@.len() ==> result@[k]@[0] < s) by {
            if s >= start {
                assert forall|k: int| 0 <= k < result@.len() implies result@[k]@[0] < s by {
                    assert(result@[k]@[0] < start);
                }
            }
        }
    }
    result
}


// ---------------------------------------------------------------------------
// Oversized modules
// ---------------------------------------------------------------------------

/// Functions, methods, traits, impls and macros: logic-bearing symbols.
pub open spec fn is_meaningful_kind(k: NodeKind) -> bool {
    k == NodeKind::Function || k == NodeKind::Method || k == NodeKind::Trait || k == NodeKind::Impl || k == NodeKind::Macro
}

/// Symbols counted in a module: all but containers.
pub open spec fn is_symbol_kind(k: NodeKind) -> bool {
    !is_container_kind(k)
}

/// The value of the metric `key`, if the node has it.
pub open spec fn metric_spec(ms: Seq<(String, usize)>, key: Seq<char>) -> Option<nat>
    decreases ms.len(),
{
    if ms.len() == 0 {
        None
    } else if ms[0].0@ == key {
        Some(ms[0].1 as nat)
    } else {
        metric_spec(ms.drop_first(), key)
    }
}

pub fn metric(ms: &Vec<(String, usize)>, key: &str) -> (r: Option<usize>)
    ensures
        match r {
            Some(v) => metric_spec(ms@, key@) == Some(v as nat),
            None => metric_spec(ms@, key@) is None,
        },
{
    let mut i: usize = 0;
    assert(ms@.skip(0) =~= ms@);
    while i < ms.len()
        invariant
            i <= ms.len(),
            metric_spec(ms@, key@) == metric_spec(ms@.skip(i as int), key@),
        decreases ms.len() - i,
    {
        assert(ms@.skip(i as int).drop_first() =~= ms@.skip(i + 1));
        if str_eq(ms[i].0.as_str(), key) {
            return Some(ms[i].1);
        }
        i = i + 1;
    }
    None
}

/// The node lies in a file of module `m`.
pub open spec fn in_module(n: Node, m: Seq<char>) -> bool {
    n.file matches Some(f) && module_of_file_spec(f@) == m
}

/// Counts over the nodes of module `m`: `(nodes, symbols, meaningful, lines)`,
/// lines summed as far as `usize` goes.
pub open spec fn module_counts(nodes: Seq<Node>, m: Seq<char>) -> (nat, nat, nat, nat)
    decreases nodes.len(),
{
    if nodes.len() == 0 {
        (0, 0, 0, 0)
    } else {
        let (a, b, c, d) = module_counts(nodes.drop_last(), m);
        let n = nodes.last();
        if in_module(n, m) {
            let lines = match metric_spec(n.metrics@, "lines"@) {
                Some(l) => l,
                None => 0,
            };
            (
                a + 1,
                b + if is_symbol_kind(n.kind) { 1nat } else { 0nat },
                c + if is_meaningful_kind(n.kind) { 1nat } else { 0nat },
                if d + lines <= usize::MAX { d + lines } else { usize::MAX as nat },
            )
        } else {
            (a, b, c, d)
        }
    }
}

/// Statistics of one module.
pub struct GodModule {
    pub module: String,
    pub lines: usize,
    pub symbols: usize,
    pub meaningful: usize,
    pub nodes: usize,
    pub reason: String,
}

/// Some node lies in a file of module `m`.
pub open spec fn is_module_of(nodes: Seq<Node>, m: Seq<char>) -> bool {
    exists|k: int| 0 <= k < nodes.len() && in_module(#[trigger] nodes[k], m)
}

/// The module is oversized: forty logic-bearing symbols or 1200 lines.
pub open spec fn is_god(nodes: Seq<Node>, m: Seq<char>) -> bool {
    let (a, b, c, d) = module_counts(nodes, m);
    c >= 40 || d >= 1200
}

/// The item describes module `m` of `nodes` exactly.
pub open spec fn god_fits(g: GodModule, nodes: Seq<Node>) -> bool {
    let (a, b, c, d) = module_counts(nodes, g.module@);
    &&& is_module_of(nodes, g.module@)
    &&& is_god(nodes, g.module@)
    &&& g.nodes == a && g.symbols == b && g.meaningful == c && g.lines == d
    &&& g.reason@ == if c >= 40 { "many meaningful symbols"@ } else { "large module"@ }
}

/// The ranking weight of a module: symbols plus lines (as far as `usize` goes).
pub open spec fn god_weight(symbols: nat, lines: nat) -> nat {
    if symbols + lines <= usize::MAX { symbols + lines } else { usize::MAX as nat }
}

/// `x` is listed before module `m` of weight `w`: heavier first, then by name.
pub open spec fn god_before(x: GodModule, w: nat, m: Seq<char>) -> bool {
    god_weight(x.symbols as nat, x.lines as nat) > w || (god_weight(x.symbols as nat, x.lines as nat) == w
        && crate::lex::lex_lt(x.module@, m))
}

/// Running statistics of a module while the nodes are counted.
struct ModStats {
    module: String,
    nodes: usize,
    symbols: usize,
    meaningful: usize,
    lines: usize,
}

spec fn stats_fit(st: ModStats, nodes: Seq<Node>) -> bool {
    let (a, b, c, d) = module_counts(nodes, st.module@);
    st.nodes == a && st.symbols == b && st.meaningful == c && st.lines == d && is_module_of(nodes, st.module@)
}

proof fn lemma_counts_bounded(nodes: Seq<Node>, m: Seq<char>)
    ensures
        module_counts(nodes, m).0 <= nodes.len(),
        module_counts(nodes, m).1 <= nodes.len(),
        module_counts(nodes, m).2 <= nodes.len(),
        module_counts(nodes, m).3 <= usize::MAX,
    decreases nodes.len(),
{
    if nodes.len() > 0 {
        lemma_counts_bounded(nodes.drop_last(), m);
    }
}

proof fn lemma_counts_zero(nodes: Seq<Node>, m: Seq<char>)
    requires
        !is_module_of(nodes, m),
    ensures
        module_counts(nodes, m) == (0nat, 0nat, 0nat, 0nat),
    decreases nodes.len(),
{
    if nodes.len() > 0 {
        let init = nodes.drop_last();
        assert(!is_module_of(init, m)) by {
            if is_module_of(init, m) {
                let k = choose|k: int| 0 <= k < init.len() && in_module(#[trigger] init[k], m);
                assert(nodes[k] == init[k]);
            }
        }
        lemma_counts_zero(init, m);
        assert(!in_module(nodes[nodes.len() - 1], m));
    }
}

fn find_module(r: &Vec<ModStats>, key: &str) -> (pos: Option<usize>)
    ensures
        match pos {
            Some(i) => i < r@.len() && r@[i as int].module@ == key@,
            None => forall|q: int| 0 <= q < r@.len() ==> r@[q].module@ != key@,
        },
{
    let mut i: usize = 0;
    while i < r.len()
        invariant
            i <= r.len(),
            forall|q: int| 0 <= q < i ==> r@[q].module@ != key@,
        decreases r.len() - i,
    {
        if str_eq(r[i].module.as_str(), key) {
            return Some(i);
        }
        i = i + 1;
    }
    None
}

/// Every module of a node file, with its counts (see [`module_counts`]).
fn module_stats(graph: &CodeGraph) -> (r: Vec<ModStats>)
    ensures
        forall|i: int| 0 <= i < r@.len() ==> stats_fit(#[trigger] r@[i], graph.nodes@),
        forall|i: int, j: int| 0 <= i < j < r@.len() ==> r@[i].module@ != r@[j].module@,
        forall|m: Seq<char>| #[trigger] is_module_of(graph.nodes@, m) ==> exists|i: int| 0 <= i < r@.len() && r@[i].module@ == m,
{
    let ghost nodes = graph.nodes@;
    let mut r: Vec<ModStats> = Vec::new();
    let mut k: usize = 0;
    while k < graph.nodes.len()
        invariant
            k <= graph.nodes.len(),
            nodes == graph.nodes@,
            forall|i: int| 0 <= i < r@.len() ==> stats_fit(#[trigger] r@[i], nodes.take(k as int)),
            forall|i: int, j: int| 0 <= i < j < r@.len() ==> r@[i].module@ != r@[j].module@,
            forall|m: Seq<char>| #[trigger] is_module_of(nodes.take(k as int), m) ==> exists|i: int| 0 <= i < r@.len() && r@[i].module@ == m,
        decreases graph.nodes.len() - k,
    {
        let ghost pre = nodes.take(k as int);
        let ghost post = nodes.take(k + 1);
        assert(post.drop_last() =~= pre);
        let node = &graph.nodes[k];
        proof {
            assert forall|m: Seq<char>| !in_module(*node, m) implies module_counts(post, m) == module_counts(pre, m) by {}
            assert forall|m: Seq<char>| !in_module(*node, m) implies (is_module_of(post, m) <==> is_module_of(pre, m)) by {
                if is_module_of(post, m) {
                    let q = choose|q: int| 0 <= q < post.len() && in_module(#[trigger] post[q], m);
                    assert(q < k);
                    assert(pre[q] == post[q]);
                }
                if is_module_of(pre, m) {
                    let q = choose|q: int| 0 <= q < pre.len() && in_module(#[trigger] pre[q], m);
                    assert(pre[q] == post[q]);
                }
            }
        }
        match &node.file {
            Some(f) => {
                let key = module_of_file(f.as_str());
                let lines = match metric(&node.metrics, "lines") {
                    Some(l) => l,
                    None => 0,
                };
                let sym = !(node.kind == NodeKind::File || node.kind == NodeKind::Module || node.kind == NodeKind::Project
                    || node.kind == NodeKind::Crate);
                let mean = node.kind == NodeKind::Function || node.kind == NodeKind::Method || node.kind == NodeKind::Trait
                    || node.kind == NodeKind::Impl || node.kind == NodeKind::Macro;
                proof {
                    reveal_strlit("lines");
                    lemma_counts_bounded(pre, key@);
                    assert(in_module(post[k as int], key@));
                    assert(is_module_of(post, key@));
                }
                let pos = find_module(&r, key.as_str());
                let ghost rb = r@;
                match pos {
                    Some(i) => {
                        let st = &mut r[i];
                        st.nodes = st.nodes + 1;
                        if sym {
                            st.symbols = st.symbols + 1;
                        }
                        if mean {
                            st.meaningful = st.meaningful + 1;
                        }
                        st.lines = st.lines.saturating_add(lines);
                        proof {
                            assert forall|j: int| 0 <= j < r@.len() implies stats_fit(#[trigger] r@[j], post) by {
                                if j != i {
                                    assert(r@[j] == rb[j]);
                                    assert(rb[j].module@ != key@);
                                }
                            }
                            assert forall|m: Seq<char>| #[trigger] is_module_of(post, m) implies exists|j: int| 0 <= j < r@.len() && r@[j].module@ == m by {
                                if m != key@ {
                                    assert(is_module_of(pre, m));
                                    let j = choose|j: int| 0 <= j < rb.len() && rb[j].module@ == m;
                                    assert(r@[j].module@ == m);
                                } else {
                                    assert(r@[i as int].module@ == m);
                                }
                            }
                        }
                    },
                    None => {
                        proof {
                            assert(!is_module_of(pre, key@));
                            lemma_counts_zero(pre, key@);
                        }
                        r.push(ModStats {
                            module: key,
                            nodes: 1,
                            symbols: if sym { 1 } else { 0 },
                            meaningful: if mean { 1 } else { 0 },
                            lines,
                        });
                        proof {
                            assert forall|j: int| 0 <= j < r@.len() implies stats_fit(#[trigger] r@[j], post) by {
                                if j < rb.len() {
                                    assert(r@[j] == rb[j]);
                                    assert(rb[j].module@ != key@);
                                }
                            }
                            assert forall|a: int, b: int| 0 <= a < b < r@.len() implies r@[a].module@ != r@[b].module@ by {
                                if b < rb.len() {
                                    assert(r@[a] == rb[a]);
                                    assert(r@[b] == rb[b]);
                                } else {
                                    assert(r@[a] == rb[a]);
                                }
                            }
                            assert forall|m: Seq<char>| #[trigger] is_module_of(post, m) implies exists|j: int| 0 <= j < r@.len() && r@[j].module@ == m by {
                                if m != key@ {
                                    assert(is_module_of(pre, m));
                                    let j = choose|j: int| 0 <= j < rb.len() && rb[j].module@ == m;
                                    assert(r@[j] == rb[j]);
                                } else {
                                    assert(r@[rb.len() as int].module@ == m);
                                }
                            }
                        }
                    },
                }
            },
            None => {
                proof {
                    assert forall|i: int| 0 <= i < r@.len() implies stats_fit(#[trigger] r@[i], post) by {
                        assert(!in_module(*node, r@[i].module@));
                    }
                }
            },
        }
        k = k + 1;
    }
    assert(nodes.take(graph.nodes.len() as int) =~= nodes);
    r
}


/// The oversized modules with their sort keys, in no particular order.
fn god_candidates(graph: &CodeGraph) -> (r: (Vec<GodModule>, Vec<RankKey>))
    ensures
        r.0@.len() == r.1@.len(),
        forall|i: int| 0 <= i < r.0@.len() ==> god_fits(#[trigger] r.0@[i], graph.nodes@),
        forall|i: int|
            0 <= i < r.0@.len() ==> (#[trigger] r.1@[i]).hi == god_weight(r.0@[i].symbols as nat, r.0@[i].lines as nat)
                && r.1@[i].lo == 0 && r.1@[i].a@ == r.0@[i].module@ && r.1@[i].b@.len() == 0,
        forall|i: int, j: int| 0 <= i < j < r.0@.len() ==> r.0@[i].module@ != r.0@[j].module@,
        forall|m: Seq<char>|
            is_module_of(graph.nodes@, m) && #[trigger] is_god(graph.nodes@, m) ==> exists|i: int| 0 <= i < r.0@.len() && r.0@[i].module@ == m,
{
    let ghost nodes = graph.nodes@;
    let stats = module_stats(graph);
    let mut items: Vec<GodModule> = Vec::new();
    let mut keys: Vec<RankKey> = Vec::new();
    let mut k: usize = 0;
    while k < stats.len()
        invariant
            k <= stats.len(),
            nodes == graph.nodes@,
            forall|i: int| 0 <= i < stats@.len() ==> stats_fit(#[trigger] stats@[i], nodes),
            forall|i: int, j: int| 0 <= i < j < stats@.len() ==> stats@[i].module@ != stats@[j].module@,
            items@.len() == keys@.len(),
            forall|i: int| 0 <= i < items@.len() ==> god_fits(#[trigger] items@[i], nodes),
            forall|i: int|
                0 <= i < items@.len() ==> (#[trigger] keys@[i]).hi == god_weight(items@[i].symbols as nat, items@[i].lines as nat)
                    && keys@[i].lo == 0 && keys@[i].a@ == items@[i].module@ && keys@[i].b@.len() == 0,
            forall|i: int| #![trigger items@[i]] 0 <= i < items@.len() ==> exists|j: int| 0 <= j < k && #[trigger] stats@[j].module@ == items@[i].module@,
            forall|i: int, j: int| 0 <= i < j < items@.len() ==> items@[i].module@ != items@[j].module@,
            forall|j: int| 0 <= j < k && is_god(nodes, (#[trigger] stats@[j]).module@) ==> exists|i: int| 0 <= i < items@.len() && items@[i].module@ == stats@[j].module@,
        decreases stats.len() - k,
    {
        let st = &stats[k];
        if st.meaningful >= 40 || st.lines >= 1200 {
            let reason = if st.meaningful >= 40 {
                owned("many meaningful symbols")
            } else {
                owned("large module")
            };
            let w = st.symbols.saturating_add(st.lines);
            let ghost ib = items@;
            let ghost kb = keys@;
            items.push(GodModule {
                module: st.module.clone(),
                lines: st.lines,
                symbols: st.symbols,
                meaningful: st.meaningful,
                nodes: st.nodes,
                reason,
            });
            keys.push(RankKey { hi: w, lo: 0, a: chars_of(st.module.as_str()), b: Vec::new() });
            proof {
                assert forall|i: int| #![trigger items@[i]] 0 <= i < items@.len() implies exists|j: int| 0 <= j < k + 1 && #[trigger] stats@[j].module@ == items@[i].module@ by {
                    if i < ib.len() {
                        assert(items@[i] == ib[i]);
                        let j = choose|j: int| 0 <= j < k && #[trigger] stats@[j].module@ == ib[i].module@;
                    } else {
                        assert(stats@[k as int].module@ == items@[i].module@);
                    }
                }
                assert forall|a: int, b: int| 0 <= a < b < items@.len() implies items@[a].module@ != items@[b].module@ by {
                    if b == ib.len() {
                        assert(items@[a] == ib[a]);
                        let j = choose|j: int| 0 <= j < k && #[trigger] stats@[j].module@ == ib[a].module@;
                        assert(j != k);
                    } else {
                        assert(items@[a] == ib[a]);
                        assert(items@[b] == ib[b]);
                    }
                }
                assert forall|i: int| 0 <= i < items@.len() implies (#[trigger] keys@[i]).hi == god_weight(items@[i].symbols as nat, items@[i].lines as nat)
                    && keys@[i].lo == 0 && keys@[i].a@ == items@[i].module@ && keys@[i].b@.len() == 0 by {
                    if i < ib.len() {
                        assert(items@[i] == ib[i]);
                        assert(keys@[i] == kb[i]);
                    }
                }
                assert forall|i: int| 0 <= i < items@.len() implies god_fits(#[trigger] items@[i], nodes) by {
                    if i < ib.len() {
                        assert(items@[i] == ib[i]);
                    }
                }
                assert forall|j: int| 0 <= j < k + 1 && is_god(nodes, (#[trigger] stats@[j]).module@) implies exists|i: int| 0 <= i < items@.len() && items@[i].module@ == stats@[j].module@ by {
                    if j < k {
                        let i = choose|i: int| 0 <= i < ib.len() && ib[i].module@ == stats@[j].module@;
                        assert(items@[i] == ib[i]);
                    } else {
                        assert(items@[ib.len() as int].module@ == stats@[j].module@);
                    }
                }
            }
        }
        k = k + 1;
    }
    proof {
        assert forall|md: Seq<char>|
            is_module_of(nodes, md) && #[trigger] is_god(nodes, md) implies exists|i: int| 0 <= i < items@.len() && items@[i].module@ == md by {
            let j = choose|j: int| 0 <= j < stats@.len() && stats@[j].module@ == md;
            assert(is_god(nodes, stats@[j].module@));
        }
    }
    (items, keys)
}

/// The oversized modules (see [`is_god`]), heaviest first (symbols plus lines),
/// then by name; at most `limit` of them.
pub fn god_modules(graph: &CodeGraph, limit: usize) -> (r: Vec<GodModule>)
    ensures
        r@.len() <= limit,
        forall|i: int| 0 <= i < r@.len() ==> god_fits(#[trigger] r@[i], graph.nodes@),
        forall|i: int, j: int|
            0 <= i < j < r@.len() ==> god_before(r@[i], god_weight(r@[j].symbols as nat, r@[j].lines as nat), r@[j].module@),
        forall|m: Seq<char>|
            is_module_of(graph.nodes@, m) && #[trigger] is_god(graph.nodes@, m) ==> (exists|i: int| 0 <= i < r@.len() && r@[i].module@ == m)
                || (r@.len() == limit && forall|i: int|
                0 <= i < r@.len() ==> god_before(r@[i], god_weight(module_counts(graph.nodes@, m).1, module_counts(graph.nodes@, m).3), m)),
{
    let ghost nodes = graph.nodes@;
    let (items, keys) = god_candidates(graph);
    let order = sort_by_rank(&keys);
    let m = if limit < items.len() {
        limit
    } else {
        items.len()
    };
    let mut r: Vec<GodModule> = Vec::new();
    let mut p: usize = 0;
    while p < m
        invariant
            p <= m,
            m <= items@.len(),
            m <= limit,
            m == limit || m == items@.len(),
            keys@.len() == items@.len(),
            sorted_by(keys@, order@),
            is_permutation(order@, items@.len() as nat),
            r@.len() == p,
            forall|q: int| 0 <= q < p ==> same_god(#[trigger] r@[q], items@[order@[q] as int]),
        decreases m - p,
    {
        let it = &items[order[p]];
        r.push(GodModule {
            module: it.module.clone(),
            lines: it.lines,
            symbols: it.symbols,
            meaningful: it.meaningful,
            nodes: it.nodes,
            reason: it.reason.clone(),
        });
        p = p + 1;
    }
    proof {
        assert forall|i: int| 0 <= i < r@.len() implies god_fits(#[trigger] r@[i], nodes) by {
            assert(god_fits(items@[order@[i] as int], nodes));
        }
        assert forall|i: int, j: int|
            0 <= i < j < r@.len() implies god_before(r@[i], god_weight(r@[j].symbols as nat, r@[j].lines as nat), r@[j].module@) by {
            assert(kb(keys@, order@[i], order@[j]));
            assert(order@[i] != order@[j]);
        }
        assert forall|md: Seq<char>|
            is_module_of(nodes, md) && #[trigger] is_god(nodes, md) implies (exists|i: int| 0 <= i < r@.len() && r@[i].module@ == md)
                || (r@.len() == limit && forall|i: int|
                0 <= i < r@.len() ==> god_before(r@[i], god_weight(module_counts(nodes, md).1, module_counts(nodes, md).3), md)) by {
            let t = choose|t: int| 0 <= t < items@.len() && items@[t].module@ == md;
            assert(order@.contains(t as usize));
            let q = choose|q: int| 0 <= q < order@.len() && order@[q] == t as usize;
            if q < m {
                assert(r@[q].module@ == md);
            } else {
                assert forall|i: int| 0 <= i < r@.len() implies god_before(r@[i], god_weight(module_counts(nodes, md).1, module_counts(nodes, md).3), md) by {
                    assert(kb(keys@, order@[i], order@[q]));
                    assert(order@[i] != order@[q]);
                    assert(god_fits(items@[t], nodes));
                }
            }
        }
    }
    r
}

/// `x` and `y` describe the same module alike.
pub open spec fn same_god(x: GodModule, y: GodModule) -> bool {
    x.module@ == y.module@ && x.lines == y.lines && x.symbols == y.symbols && x.meaningful == y.meaningful
        && x.nodes == y.nodes && x.reason@ == y.reason@
}


// ---------------------------------------------------------------------------
// Possibly dead public symbols
// ---------------------------------------------------------------------------

/// Some edge starts or ends at `id`.
pub open spec fn touched(edges: Seq<Edge>, id: Seq<char>) -> bool {
    exists|k: int| 0 <= k < edges.len() && ((#[trigger] edges[k]).from@ == id || edges[k].to@ == id)
}

/// A public function, method, struct, enum or trait outside the test fixtures
/// that no edge touches.
pub open spec fn looks_dead(edges: Seq<Edge>) -> spec_fn(Node) -> bool {
    |n: Node|
        opt_view(n.visibility) == Some("pub"@) && crate::filter::is_code_kind(n.kind) && !(n.file matches Some(f)
            && contains_seq(f@, "fixtures"@)) && !touched(edges, n.id@)
}

/// The ids that some edge touches.
fn touched_ids(graph: &CodeGraph) -> (s: crate::strset::StrSet)
    ensures
        s.wf(),
        forall|id: Seq<char>| s.members().contains(id) <==> touched(graph.edges@, id),
{
    let ghost edges = graph.edges@;
    let mut s = crate::strset::StrSet::new();
    let mut k: usize = 0;
    while k < graph.edges.len()
        invariant
            k <= graph.edges.len(),
            edges == graph.edges@,
            s.wf(),
            forall|id: Seq<char>|
                s.members().contains(id) <==> exists|q: int| 0 <= q < k && ((#[trigger] edges[q]).from@ == id || edges[q].to@ == id),
        decreases graph.edges.len() - k,
    {
        s.insert(chars_of(graph.edges[k].from.as_str()));
        s.insert(chars_of(graph.edges[k].to.as_str()));
        proof {
            assert forall|id: Seq<char>|
                s.members().contains(id) <==> exists|q: int| 0 <= q < k + 1 && ((#[trigger] edges[q]).from@ == id || edges[q].to@ == id) by {
                if edges[k as int].from@ == id || edges[k as int].to@ == id {
                    assert(edges[k as int].from@ == id || edges[k as int].to@ == id);
                }
            }
        }
        k = k + 1;
    }
    s
}

/// The first `limit` nodes, in graph order, that look dead (see [`looks_dead`]).
pub fn possible_dead_public_symbols(graph: &CodeGraph, limit: usize) -> (r: Vec<usize>)
    ensures
        r@ == crate::seqs::select(graph.nodes@, graph.nodes@.len() as int, looks_dead(graph.edges@)).take(r@.len() as int),
        r@.len() == limit || r@ == crate::seqs::select(graph.nodes@, graph.nodes@.len() as int, looks_dead(graph.edges@)),
        r@.len() <= limit,
        r@.len() <= crate::seqs::select(graph.nodes@, graph.nodes@.len() as int, looks_dead(graph.edges@)).len(),
{
    let ghost nodes = graph.nodes@;
    let ghost all = crate::seqs::select(nodes, nodes.len() as int, looks_dead(graph.edges@));
    let seen = touched_ids(graph);
    let mut r: Vec<usize> = Vec::new();
    let mut k: usize = 0;
    proof {
        reveal_strlit("pub");
        reveal_strlit("fixtures");
    }
    while k < graph.nodes.len() && r.len() < limit
        invariant
            k <= graph.nodes.len(),
            nodes == graph.nodes@,
            seen.wf(),
            forall|id: Seq<char>| seen.members().contains(id) <==> touched(graph.edges@, id),
            r@ == crate::seqs::select(nodes, k as int, looks_dead(graph.edges@)),
            r@.len() <= limit,
        decreases graph.nodes.len() - k,
    {
        let n = &graph.nodes[k];
        let public = match &n.visibility {
            Some(v) => str_eq(v.as_str(), "pub"),
            None => false,
        };
        let code = n.kind == NodeKind::Function || n.kind == NodeKind::Method || n.kind == NodeKind::Struct || n.kind
            == NodeKind::Enum || n.kind == NodeKind::Trait;
        let fixture = match &n.file {
            Some(f) => str_contains(f.as_str(), "fixtures"),
            None => false,
        };
        if public && code && !fixture && !seen.contains(&chars_of(n.id.as_str())) {
            r.push(k);
        }
        assert(looks_dead(graph.edges@)(nodes[k as int]) == (public && code && !fixture && !touched(graph.edges@, n.id@)));
        k = k + 1;
    }
    proof {
        lemma_select_prefix(nodes, k as int, nodes.len() as int, looks_dead(graph.edges@));
        lemma_select_len(nodes, k as int, nodes.len() as int, looks_dead(graph.edges@));
        if r@.len() < limit {
            assert(k == nodes.len());
        }
    }
    r
}

/// The positions selected below `k` are the first ones selected below `n`.
pub proof fn lemma_select_prefix<T>(s: Seq<T>, k: int, n: int, p: spec_fn(T) -> bool)
    requires
        0 <= k <= n,
    ensures
        crate::seqs::select(s, k, p) == crate::seqs::select(s, n, p).take(crate::seqs::select(s, k, p).len() as int),
    decreases n - k,
{
    if k < n {
        lemma_select_prefix(s, k, n - 1, p);
        let a = crate::seqs::select(s, k, p);
        let b = crate::seqs::select(s, n - 1, p);
        let c = crate::seqs::select(s, n, p);
        lemma_select_len(s, k, n - 1, p);
        assert(c.take(a.len() as int) =~= b.take(a.len() as int));
    } else {
        assert(crate::seqs::select(s, n, p).take(crate::seqs::select(s, n, p).len() as int) =~= crate::seqs::select(s, n, p));
    }
}

pub proof fn lemma_select_len<T>(s: Seq<T>, k: int, n: int, p: spec_fn(T) -> bool)
    requires
        0 <= k <= n,
    ensures
        crate::seqs::select(s, k, p).len() <= crate::seqs::select(s, n, p).len(),
    decreases n - k,
{
    if k < n {
        lemma_select_len(s, k, n - 1, p);
    }
}


// ---------------------------------------------------------------------------
// The health report
// ---------------------------------------------------------------------------

/// `c` is a cycle of two to six module dependencies that returns to its start.
pub open spec fn module_cycle(nodes: Seq<Node>, edges: Seq<Edge>, c: Seq<Seq<char>>) -> bool {
    &&& 3 <= c.len() <= 7
    &&& c[0] == c.last()
    &&& forall|i: int| 0 <= i < c.len() - 1 ==> #[trigger] module_links(nodes, edges, c[i], c[i + 1])
}

/// Module `m` starts a cycle of module dependencies (see [`module_cycle`])
/// whose first step leads to another module.
pub open spec fn starts_module_cycle(nodes: Seq<Node>, edges: Seq<Edge>, m: Seq<char>) -> bool {
    exists|c: Seq<Seq<char>>| #[trigger] module_cycle(nodes, edges, c) && c[0] == m && c[1] != m
}

/// The modules that start a cycle of module dependencies.
pub open spec fn cyclic_modules(nodes: Seq<Node>, edges: Seq<Edge>) -> Set<Seq<char>> {
    Set::new(|m: Seq<char>| starts_module_cycle(nodes, edges, m))
}

/// `g` is the graph of the module links: its vertices are the modules that
/// have a link, and its edges are the links.
pub open spec fn module_graph(g: NameGraph, graph: CodeGraph, pairs: Seq<(String, String)>) -> bool {
    &&& g.wf()
    &&& crate::seqs::strings_view(g.names@).to_set() == crate::namegraph::names_of(Seq::empty(), pairs)
    &&& forall|i: int, j: int|
        0 <= i < g.n() && 0 <= j < g.n() ==> (g.edge(i, j) <==> paired(pairs, pairs.len() as int, g.name(i), g.name(j)))
    &&& forall|a: Seq<char>, b: Seq<char>|
        module_links(graph.nodes@, graph.edges@, a, b) <==> paired(pairs, pairs.len() as int, a, b)
}

proof fn lemma_short_cycle_named(g: NameGraph, graph: CodeGraph, pairs: Seq<(String, String)>, s: usize)
    requires
        module_graph(g, graph, pairs),
        s < g.n(),
        has_short_cycle(g, s),
    ensures
        starts_module_cycle(graph.nodes@, graph.edges@, g.name(s as int)),
{
    let (k, w) = choose|k: int, w: Seq<usize>|
        0 <= k < g.succ@[s as int]@.len() && g.succ@[s as int]@[k] != s && walk_to(g, g.succ@[s as int]@[k], s, w)
            && w.len() <= 6;
    let v = seq![s].add(w);
    let c = v.map_values(|x: usize| g.names@[x as int]@);
    assert(w.len() >= 2) by {
        if w.len() == 1 {
            assert(w[0] == w.last());
        }
    }
    assert(w[0] < g.n());
    assert forall|i: int| 0 <= i < c.len() - 1 implies #[trigger] module_links(graph.nodes@, graph.edges@, c[i], c[i + 1]) by {
        assert(v[i] < g.n() && v[i + 1] < g.n()) by {
            if i > 0 {
                assert(v[i] == w[i - 1]);
            }
            assert(v[i + 1] == w[i]);
        }
        if i == 0 {
            assert(occurs(g.succ@[s as int]@, w[0] as int));
            assert(g.edge(s as int, w[0] as int));
        } else {
            assert(v[i] == w[i - 1] && v[i + 1] == w[i]);
            assert(is_walk(g, w));
            let j = i - 1;
            assert(0 <= j < w.len() - 1);
            assert(g.edge(w[j] as int, w[j + 1] as int));
            assert(w[j + 1] == w[i]);
        }
        assert(c[i] == g.name(v[i] as int) && c[i + 1] == g.name(v[i + 1] as int));
    }
    assert(c[0] == g.name(s as int));
    assert(c.last() == g.name(w.last() as int));
    assert(c[1] == g.name(w[0] as int));
    if c[1] == c[0] {
        crate::refactor::lemma_name_injective(g, w[0] as int, s as int);
    }
    assert(module_cycle(graph.nodes@, graph.edges@, c));
}

proof fn lemma_named_short_cycle(g: NameGraph, graph: CodeGraph, pairs: Seq<(String, String)>, m: Seq<char>) -> (s: usize)
    requires
        module_graph(g, graph, pairs),
        starts_module_cycle(graph.nodes@, graph.edges@, m),
        g.n() <= usize::MAX,
    ensures
        s < g.n(),
        g.name(s as int) == m,
        has_short_cycle(g, s),
{
    let c = choose|c: Seq<Seq<char>>| #[trigger] module_cycle(graph.nodes@, graph.edges@, c) && c[0] == m && c[1] != m;
    let names = crate::seqs::strings_view(g.names@);
    assert forall|i: int| #![trigger c[i]] 0 <= i < c.len() implies exists|x: int| 0 <= x < g.n() && #[trigger] g.name(x) == c[i] by {
        let j = if i < c.len() - 1 { i } else { 0 };
        assert(c[j] == c[i]);
        assert(module_links(graph.nodes@, graph.edges@, c[j], c[j + 1]));
        assert(paired(pairs, pairs.len() as int, c[j], c[j + 1]));
        let q = choose|q: int| 0 <= q < pairs.len() && (#[trigger] pairs[q]).0@ == c[j] && pairs[q].1@ == c[j + 1];
        assert(pairs[q].0@ == c[i]);
        assert(crate::namegraph::names_of(Seq::empty(), pairs).contains(c[i]));
        assert(names.to_set().contains(c[i]));
        let x = choose|x: int| 0 <= x < names.len() && names[x] == c[i];
        assert(g.name(x) == c[i]);
    }
    let v = Seq::new(c.len(), |i: int| (choose|x: int| 0 <= x < g.n() && #[trigger] g.name(x) == c[i]) as usize);
    assert forall|i: int| 0 <= i < v.len() implies v[i] < g.n() && g.name(v[i] as int) == c[i] by {
        assert(exists|x: int| 0 <= x < g.n() && #[trigger] g.name(x) == c[i]);
        let x = choose|x: int| 0 <= x < g.n() && #[trigger] g.name(x) == c[i];
        assert(v[i] == x as usize);
    }
    assert forall|i: int| #![trigger v[i]] 0 <= i < v.len() - 1 implies g.edge(v[i] as int, v[i + 1] as int) by {
        assert(module_links(graph.nodes@, graph.edges@, c[i], c[i + 1]));
        assert(g.name(v[i] as int) == c[i] && g.name(v[i + 1] as int) == c[i + 1]);
    }
    let s = v[0];
    assert(g.edge(s as int, v[1] as int));
    let k = choose|k: int| 0 <= k < g.succ@[s as int]@.len() && g.succ@[s as int]@[k] == v[1] as int;
    let w = v.subrange(1, v.len() as int);
    assert(v[v.len() - 1] == s) by {
        assert(g.name(v[v.len() - 1] as int) == c.last());
        crate::refactor::lemma_name_injective(g, v[v.len() - 1] as int, s as int);
    }
    assert(is_walk(g, w)) by {
        assert forall|i: int| 0 <= i < w.len() - 1 implies #[trigger] g.edge(w[i] as int, w[i + 1] as int) by {
            assert(w[i] == v[i + 1] && w[i + 1] == v[i + 2]);
        }
    }
    assert(w.last() == v[v.len() - 1]);
    assert(walk_to(g, g.succ@[s as int]@[k], s, w));
    assert(g.succ@[s as int]@[k] != s);
    s
}

/// The modules the listing `all` of [`cycles`] (with no limit) starts from are
/// the cyclic modules, one each.
proof fn lemma_cycle_count(g: NameGraph, graph: CodeGraph, pairs: Seq<(String, String)>, all: Seq<Vec<usize>>)
    requires
        module_graph(g, graph, pairs),
        forall|k: int|
            0 <= k < all.len() ==> {
                let c = (#[trigger] all[k])@;
                &&& 3 <= c.len() <= 7
                &&& c[0] == c.last()
                &&& is_walk(g, c)
                &&& has_short_cycle(g, c[0])
            },
        forall|a: int, b: int| 0 <= a < b < all.len() ==> all[a]@[0] < all[b]@[0],
        forall|s: usize|
            s < g.n() && has_short_cycle(g, s) ==> (exists|k: int| 0 <= k < all.len() && all[k]@[0] == s) || (all.len()
                == usize::MAX && forall|k: int| 0 <= k < all.len() ==> all[k]@[0] < s),
        g.n() <= usize::MAX,
    ensures
        all.len() == cyclic_modules(graph.nodes@, graph.edges@).len(),
{
    let starts = all.map_values(|c: Vec<usize>| c@[0]);
    let names = starts.map_values(|x: usize| g.names@[x as int]@);
    assert forall|k: int| 0 <= k < starts.len() implies starts[k] < g.n() by {
        assert(is_walk(g, all[k]@));
    }
    assert(starts.no_duplicates()) by {
        assert forall|a: int, b: int| 0 <= a < starts.len() && 0 <= b < starts.len() && a != b implies starts[a] != starts[b] by {
            if a < b {
                assert(all[a]@[0] < all[b]@[0]);
            } else {
                assert(all[b]@[0] < all[a]@[0]);
            }
        }
    }
    assert(names.no_duplicates()) by {
        assert forall|a: int, b: int| 0 <= a < names.len() && 0 <= b < names.len() && a != b implies names[a] != names[b] by {
            if names[a] == names[b] {
                crate::refactor::lemma_name_injective(g, starts[a] as int, starts[b] as int);
            }
        }
    }
    let cm = cyclic_modules(graph.nodes@, graph.edges@);
    assert(names.to_set() =~= cm) by {
        assert forall|m: Seq<char>| names.to_set().contains(m) implies cm.contains(m) by {
            let k = choose|k: int| 0 <= k < names.len() && names[k] == m;
            assert(has_short_cycle(g, all[k]@[0]));
            lemma_short_cycle_named(g, graph, pairs, starts[k]);
        }
        assert forall|m: Seq<char>| cm.contains(m) implies names.to_set().contains(m) by {
            let s = lemma_named_short_cycle(g, graph, pairs, m);
            if exists|k: int| 0 <= k < all.len() && all[k]@[0] == s {
                let k = choose|k: int| 0 <= k < all.len() && all[k]@[0] == s;
                assert(names[k] == m);
            } else {
                assert forall|k: int| 0 <= k < starts.len() implies starts[k] < s by {
                    assert(all[k]@[0] < s);
                }
                crate::namegraph::lemma_distinct_bounded(starts, s as nat);
            }
        }
    }
    names.unique_seq_to_set();
}

/// `r` lists oversized modules as [`god_modules`] does with `limit`.
pub open spec fn god_listing(nodes: Seq<Node>, r: Seq<GodModule>, limit: nat) -> bool {
    &&& r.len() <= limit
    &&& forall|i: int| 0 <= i < r.len() ==> god_fits(#[trigger] r[i], nodes)
    &&& forall|i: int, j: int|
        0 <= i < j < r.len() ==> god_before(r[i], god_weight(r[j].symbols as nat, r[j].lines as nat), r[j].module@)
    &&& forall|m: Seq<char>|
        is_module_of(nodes, m) && #[trigger] is_god(nodes, m) ==> (exists|i: int| 0 <= i < r.len() && r[i].module@ == m)
            || (r.len() == limit && forall|i: int|
            0 <= i < r.len() ==> god_before(r[i], god_weight(module_counts(nodes, m).1, module_counts(nodes, m).3), m))
}

/// The number of oversized modules of the graph.
pub open spec fn god_count(nodes: Seq<Node>) -> nat {
    Set::new(|m: Seq<char>| is_module_of(nodes, m) && is_god(nodes, m)).len()
}

/// The report of the `health` command.
pub struct HealthReport {
    pub score: usize,
    pub interpretation: &'static str,
    pub cycle_count: usize,
    pub god_module_count: usize,
    pub dead_count: usize,
    pub warning_count: usize,
    pub cycles: Vec<Vec<String>>,
    pub god_modules: Vec<GodModule>,
    pub hot_symbols: Vec<usize>,
    pub possible_dead: Vec<usize>,
}

fn copy_god(g: &GodModule) -> (r: GodModule)
    ensures
        same_god(r, *g),
{
    GodModule {
        module: owned(g.module.as_str()),
        lines: g.lines,
        symbols: g.symbols,
        meaningful: g.meaningful,
        nodes: g.nodes,
        reason: owned(g.reason.as_str()),
    }
}

/// The names of the vertices `c` of `g`.
fn vertex_names(g: &NameGraph, c: &Vec<usize>) -> (r: Vec<String>)
    requires
        forall|i: int| 0 <= i < c.len() ==> c@[i] < g.n(),
    ensures
        r.len() == c.len(),
        forall|i: int| 0 <= i < c.len() ==> (#[trigger] r@[i])@ == g.name(c@[i] as int),
{
    let mut r: Vec<String> = Vec::new();
    let mut i: usize = 0;
    while i < c.len()
        invariant
            i <= c.len(),
            r.len() == i,
            forall|j: int| 0 <= j < c.len() ==> c@[j] < g.n(),
            forall|j: int| 0 <= j < i ==> (#[trigger] r@[j])@ == g.name(c@[j] as int),
        decreases c.len() - i,
    {
        r.push(owned(g.names[c[i]].as_str()));
        i = i + 1;
    }
    r
}

/// The first `limit` cycles of `all`, by module name.
fn named_cycles(g: &NameGraph, all: &Vec<Vec<usize>>, limit: usize) -> (r: Vec<Vec<String>>)
    requires
        forall|k: int| 0 <= k < all.len() ==> is_walk(*g, (#[trigger] all@[k])@),
    ensures
        r.len() <= limit,
        r.len() <= all.len(),
        r.len() == limit || r.len() == all.len(),
        forall|k: int|
            0 <= k < r.len() ==> (#[trigger] r@[k]).len() == all@[k].len() && forall|i: int|
                0 <= i < all@[k].len() ==> r@[k]@[i]@ == g.name(all@[k]@[i] as int),
{
    let mut r: Vec<Vec<String>> = Vec::new();
    let mut k: usize = 0;
    while k < all.len() && k < limit
        invariant
            k <= all.len(),
            k <= limit,
            r.len() == k,
            forall|j: int| 0 <= j < all.len() ==> is_walk(*g, (#[trigger] all@[j])@),
            forall|j: int|
                0 <= j < k ==> (#[trigger] r@[j]).len() == all@[j].len() && forall|i: int|
                    0 <= i < all@[j].len() ==> r@[j]@[i]@ == g.name(all@[j]@[i] as int),
        decreases all.len() - k,
    {
        assert(is_walk(*g, all@[k as int]@));
        r.push(vertex_names(g, &all[k]));
        k = k + 1;
    }
    r
}

/// The health of a graph: the score and its word, the counts of module cycles
/// (one per module that starts one, see [`cyclic_modules`]),
/// oversized modules, possibly dead public symbols and warnings, and the first
/// `limit` of each list together with the symbols of degree twenty or more.
pub fn health(graph: &CodeGraph, limit: usize) -> (r: HealthReport)
    requires
        crate::index::weights_fit(graph.edges@),
    ensures
        r.score == score_spec(r.cycle_count as nat, r.god_module_count as nat, r.dead_count as nat, r.warning_count as nat),
        r.interpretation@ == label_spec(r.score as nat),
        r.warning_count == graph.warnings.len(),
        r.dead_count == crate::seqs::select(graph.nodes@, graph.nodes@.len() as int, looks_dead(graph.edges@)).len(),
        r.possible_dead@ == crate::seqs::select(graph.nodes@, graph.nodes@.len() as int, looks_dead(graph.edges@)).take(
            r.possible_dead@.len() as int),
        r.possible_dead@.len() == limit || r.possible_dead@.len() == r.dead_count,
        r.possible_dead@.len() <= limit,
        r.cycle_count == cyclic_modules(graph.nodes@, graph.edges@).len(),
        r.cycles.len() <= limit,
        r.cycles.len() == limit || r.cycles.len() == r.cycle_count,
        forall|k: int|
            0 <= k < r.cycles.len() ==> module_cycle(
                graph.nodes@,
                graph.edges@,
                crate::seqs::strings_view((#[trigger] r.cycles@[k])@),
            ),
        god_listing(graph.nodes@, r.god_modules@, limit as nat),
        r.god_modules.len() == limit || r.god_modules.len() == r.god_module_count,
        r.god_module_count == god_count(graph.nodes@),
        r.hot_symbols.len() <= limit,
        forall|i: int|
            0 <= i < r.hot_symbols.len() ==> r.hot_symbols@[i] < graph.nodes.len()
                && crate::ranking::hot_candidate(*graph, 20, r.hot_symbols@[i] as int),
        forall|i: int, j: int|
            0 <= i < j < r.hot_symbols.len() ==> crate::ranking::hot_before(*graph, r.hot_symbols@[i] as int, r.hot_symbols@[j] as int),
        forall|t: int|
            0 <= t < graph.nodes.len() && crate::ranking::hot_candidate(*graph, 20, t) ==> r.hot_symbols@.contains(t as usize) || (
            r.hot_symbols.len() == limit && forall|i: int| 0 <= i < r.hot_symbols.len() ==> crate::ranking::hot_before(*graph, r.hot_symbols@[i] as int, t)),
{
    let pairs = file_dependencies(graph);
    let no_keys: Vec<String> = Vec::new();
    let g = graph_from_pairs(&no_keys, &pairs);
    let all_cycles = cycles(&g, usize::MAX);
    proof {
        assert(g.names@.len() == g.names.len());
        lemma_cycle_count(g, *graph, pairs@, all_cycles@);
    }
    let listed = named_cycles(&g, &all_cycles, limit);
    proof {
        assert forall|k: int| 0 <= k < listed.len() implies module_cycle(
            graph.nodes@,
            graph.edges@,
            crate::seqs::strings_view((#[trigger] listed@[k])@),
        ) by {
            let c = all_cycles@[k]@;
            assert(all_cycles@[k]@ == c);
            let names = crate::seqs::strings_view(listed@[k]@);
            assert(3 <= c.len() <= 7 && c[0] == c.last() && is_walk(g, c));
            assert(names.len() == c.len());
            assert forall|i: int| 0 <= i < names.len() - 1 implies #[trigger] module_links(
                graph.nodes@,
                graph.edges@,
                names[i],
                names[i + 1],
            ) by {
                assert(g.edge(c[i] as int, c[i + 1] as int));
                assert(names[i] == g.name(c[i] as int));
                assert(names[i + 1] == g.name(c[i + 1] as int));
            }
            assert(names[0] == g.name(c[0] as int));
            assert(names.last() == names[names.len() - 1]);
        }
    }
    let all_gods = god_modules(graph, usize::MAX);
    let mut gods: Vec<GodModule> = Vec::new();
    let mut k: usize = 0;
    while k < all_gods.len() && k < limit
        invariant
            k <= all_gods.len(),
            k <= limit,
            gods.len() == k,
            forall|j: int| 0 <= j < k ==> same_god(#[trigger] gods@[j], all_gods@[j]),
        decreases all_gods.len() - k,
    {
        gods.push(copy_god(&all_gods[k]));
        k = k + 1;
    }
    proof {
        let nodes = graph.nodes@;
        assert(god_listing(nodes, all_gods@, usize::MAX as nat));
        assert forall|i: int| 0 <= i < gods.len() implies god_fits(#[trigger] gods@[i], nodes) by {
            assert(same_god(gods@[i], all_gods@[i]));
            assert(god_fits(all_gods@[i], nodes));
        }
        assert forall|i: int, j: int| 0 <= i < j < gods.len() implies god_before(
            gods@[i],
            god_weight(gods@[j].symbols as nat, gods@[j].lines as nat),
            gods@[j].module@,
        ) by {
            assert(same_god(gods@[i], all_gods@[i]));
            assert(same_god(gods@[j], all_gods@[j]));
            assert(god_before(all_gods@[i], god_weight(all_gods@[j].symbols as nat, all_gods@[j].lines as nat), all_gods@[j].module@));
        }
        assert forall|m: Seq<char>|
            is_module_of(nodes, m) && #[trigger] is_god(nodes, m) implies (exists|i: int|
                0 <= i < gods.len() && gods@[i].module@ == m) || (gods.len() == limit && forall|i: int|
                0 <= i < gods.len() ==> god_before(gods@[i], god_weight(module_counts(nodes, m).1, module_counts(nodes, m).3), m)) by {
            if exists|i: int| 0 <= i < all_gods.len() && all_gods@[i].module@ == m {
                let i = choose|i: int| 0 <= i < all_gods.len() && all_gods@[i].module@ == m;
                if i < gods.len() {
                    assert(same_god(gods@[i], all_gods@[i]));
                } else {
                    assert(god_fits(all_gods@[i], nodes));
                    assert forall|j: int| 0 <= j < gods.len() implies god_before(
                        gods@[j],
                        god_weight(module_counts(nodes, m).1, module_counts(nodes, m).3),
                        m,
                    ) by {
                        assert(same_god(gods@[j], all_gods@[j]));
                        assert(god_before(all_gods@[j], god_weight(all_gods@[i].symbols as nat, all_gods@[i].lines as nat), all_gods@[i].module@));
                    }
                }
            } else {
                assert forall|j: int| 0 <= j < gods.len() implies god_before(
                    gods@[j],
                    god_weight(module_counts(nodes, m).1, module_counts(nodes, m).3),
                    m,
                ) by {
                    assert(same_god(gods@[j], all_gods@[j]));
                }
            }
        }
    }
    let (candidates, _) = god_candidates(graph);
    let god_total = candidates.len();
    proof {
        let nodes = graph.nodes@;
        let mods = candidates@.map_values(|g: GodModule| g.module@);
        let gset = Set::new(|m: Seq<char>| is_module_of(nodes, m) && is_god(nodes, m));
        assert(mods.no_duplicates()) by {
            assert forall|i: int, j: int| 0 <= i < mods.len() && 0 <= j < mods.len() && i != j implies mods[i] != mods[j] by {
                if i < j {
                    assert(candidates@[i].module@ != candidates@[j].module@);
                } else {
                    assert(candidates@[j].module@ != candidates@[i].module@);
                }
            }
        }
        assert(mods.to_set() =~= gset) by {
            assert forall|m: Seq<char>| mods.to_set().contains(m) implies gset.contains(m) by {
                let i = choose|i: int| 0 <= i < mods.len() && mods[i] == m;
                assert(god_fits(candidates@[i], nodes));
            }
            assert forall|m: Seq<char>| gset.contains(m) implies mods.to_set().contains(m) by {
                assert(is_module_of(nodes, m) && is_god(nodes, m));
                let i = choose|i: int| 0 <= i < candidates@.len() && candidates@[i].module@ == m;
                assert(mods[i] == m);
            }
        }
        mods.unique_seq_to_set();
        let amods = all_gods@.map_values(|g: GodModule| g.module@);
        assert(amods.no_duplicates()) by {
            assert forall|i: int, j: int| 0 <= i < amods.len() && 0 <= j < amods.len() && i != j implies amods[i] != amods[j] by {
                let (a, b) = if i < j { (i, j) } else { (j, i) };
                assert(god_before(all_gods@[a], god_weight(all_gods@[b].symbols as nat, all_gods@[b].lines as nat), all_gods@[b].module@));
                assert(god_fits(all_gods@[a], nodes));
                assert(god_fits(all_gods@[b], nodes));
                crate::lex::lemma_lex_irreflexive(all_gods@[a].module@);
            }
        }
        amods.unique_seq_to_set();
        assert(amods.to_set().subset_of(gset)) by {
            assert forall|m: Seq<char>| amods.to_set().contains(m) implies gset.contains(m) by {
                let i = choose|i: int| 0 <= i < amods.len() && amods[i] == m;
                assert(god_fits(all_gods@[i], nodes));
            }
        }
        vstd::set_lib::lemma_len_subset(amods.to_set(), gset);
        if all_gods.len() < god_total {
            assert(gset.subset_of(amods.to_set())) by {
                assert forall|m: Seq<char>| gset.contains(m) implies amods.to_set().contains(m) by {
                    assert(is_module_of(nodes, m) && is_god(nodes, m));
                    let i = choose|i: int| 0 <= i < all_gods@.len() && all_gods@[i].module@ == m;
                    assert(amods[i] == m);
                }
            }
            vstd::set_lib::lemma_len_subset(gset, amods.to_set());
        }
        assert(all_gods.len() == god_total);
    }
    let all_dead = possible_dead_public_symbols(graph, usize::MAX);
    let dead = possible_dead_public_symbols(graph, limit);
    proof {
        let all = crate::seqs::select(graph.nodes@, graph.nodes@.len() as int, looks_dead(graph.edges@));
        crate::seqs::lemma_select_bound(graph.nodes@, graph.nodes@.len() as int, looks_dead(graph.edges@));
        assert(graph.nodes@.len() == graph.nodes.len());
        if all_dead@.len() == usize::MAX {
            assert(all.len() == all_dead@.len());
            assert(all.take(all_dead@.len() as int) =~= all);
        }
    }
    let index = QueryIndex::new(graph);
    let hot = crate::ranking::hot_ranked(graph, &index, 20, limit);
    let s = score(all_cycles.len(), all_gods.len(), all_dead.len(), graph.warnings.len());
    HealthReport {
        score: s,
        interpretation: label(s),
        cycle_count: all_cycles.len(),
        god_module_count: all_gods.len(),
        dead_count: all_dead.len(),
        warning_count: graph.warnings.len(),
        cycles: listed,
        god_modules: gods,
        hot_symbols: hot,
        possible_dead: dead,
    }
}

} // verus!
