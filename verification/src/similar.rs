use vstd::prelude::*;
use crate::index::{degree, QueryIndex};
use crate::model::{CodeGraph, Edge, EdgeKind, Node, NodeKind};
use crate::query::{find_nodes, find_nodes_spec};
use crate::rank::{kb, top_ranked, RankKey};
use crate::ranking::{cap, ranked_before};
use crate::seqs::select;
use crate::strs::{chars_of, contains_seq, str_contains};
use crate::strset::StrSet;

verus! {

// ---------------------------------------------------------------------------
// Signature similarity
// ---------------------------------------------------------------------------

/// The words whose presence two signatures are compared on.
pub open spec fn signature_keywords() -> Seq<Seq<char>> {
    seq![
        "fn"@, "pub"@, "async"@, "unsafe"@, "Result"@, "Option"@, "Vec"@, "HashMap"@, "String"@, "u32"@,
        "u64"@, "i32"@, "i64"@, "bool"@, "&str"@, "self"@, "&self"@, "&mut self"@, "PathBuf"@, "io::Result"@,
    ]
}

fn keyword(i: usize) -> (r: &'static str)
    requires
        i < 20,
    ensures
        r@ == signature_keywords()[i as int],
{
    match i {
        0 => "fn",
        1 => "pub",
        2 => "async",
        3 => "unsafe",
        4 => "Result",
        5 => "Option",
        6 => "Vec",
        7 => "HashMap",
        8 => "String",
        9 => "u32",
        10 => "u64",
        11 => "i32",
        12 => "i64",
        13 => "bool",
        14 => "&str",
        15 => "self",
        16 => "&self",
        17 => "&mut self",
        18 => "PathBuf",
        _ => "io::Result",
    }
}

/// Among the first `k` keywords, how many both signatures contain or both lack.
pub open spec fn agree_count(a: Seq<char>, b: Seq<char>, k: int) -> nat
    decreases k,
{
    if k <= 0 {
        0
    } else {
        agree_count(a, b, k - 1) + if contains_seq(a, signature_keywords()[k - 1]) == contains_seq(
            b,
            signature_keywords()[k - 1],
        ) {
            1nat
        } else {
            0nat
        }
    }
}

/// 0 when a signature is empty, else the number of keywords on which the two
/// signatures agree.
pub open spec fn sig_similarity(a: Seq<char>, b: Seq<char>) -> nat {
    if a.len() == 0 || b.len() == 0 {
        0
    } else {
        agree_count(a, b, 20)
    }
}

/// How alike two signatures look (see [`sig_similarity`]).
pub fn signature_similarity(a: &str, b: &str) -> (r: usize)
    ensures
        r == sig_similarity(a@, b@),
{
    let av = chars_of(a);
    let bv = chars_of(b);
    if av.len() == 0 || bv.len() == 0 {
        return 0;
    }
    let mut score: usize = 0;
    let mut i: usize = 0;
    while i < 20
        invariant
            i <= 20,
            av@ == a@,
            bv@ == b@,
            score == agree_count(a@, b@, i as int),
            score <= i,
        decreases 20 - i,
    {
        let kw = keyword(i);
        if str_contains(a, kw) == str_contains(b, kw) {
            score = score + 1;
        }
        i = i + 1;
    }
    score
}

// ---------------------------------------------------------------------------
// Similar symbols
// ---------------------------------------------------------------------------

/// The ids `id` calls.
pub open spec fn calls_from(edges: Seq<Edge>, id: Seq<char>) -> Set<Seq<char>> {
    Set::new(
        |x: Seq<char>|
            exists|k: int|
                0 <= k < edges.len() && (#[trigger] edges[k]).kind == EdgeKind::Calls && edges[k].from@ == id
                    && edges[k].to@ == x,
    )
}

/// The set of ids `id` calls.
fn callee_set(graph: &CodeGraph, id: &Vec<char>) -> (s: StrSet)
    ensures
        s.wf(),
        s.members() == calls_from(graph.edges@, id@),
{
    let ghost edges = graph.edges@;
    let mut s = StrSet::new();
    let mut k: usize = 0;
    while k < graph.edges.len()
        invariant
            k <= graph.edges.len(),
            edges == graph.edges@,
            s.wf(),
            forall|x: Seq<char>| s.members().contains(x) <==> exists|j: int|
                0 <= j < k && (#[trigger] edges[j]).kind == EdgeKind::Calls && edges[j].from@ == id@ && edges[j].to@ == x,
        decreases graph.edges.len() - k,
    {
        let e = &graph.edges[k];
        if e.kind == EdgeKind::Calls && crate::lex::lex_compare(&chars_of(e.from.as_str()), id) == 0 {
            let ghost old_m = s.members();
            s.insert(chars_of(e.to.as_str()));
            proof {
                assert forall|x: Seq<char>| s.members().contains(x) <==> exists|j: int|
                    0 <= j < k + 1 && (#[trigger] edges[j]).kind == EdgeKind::Calls && edges[j].from@ == id@ && edges[j].to@ == x by {
                    if x == e.to@ {
                        assert(edges[k as int].kind == EdgeKind::Calls && edges[k as int].from@ == id@ && edges[k as int].to@ == x);
                    }
                }
            }
        } else {
            proof {
                assert forall|x: Seq<char>| s.members().contains(x) <==> exists|j: int|
                    0 <= j < k + 1 && (#[trigger] edges[j]).kind == EdgeKind::Calls && edges[j].from@ == id@ && edges[j].to@ == x by {
                    if exists|j: int|
                        0 <= j < k + 1 && (#[trigger] edges[j]).kind == EdgeKind::Calls && edges[j].from@ == id@ && edges[j].to@ == x {
                        let j = choose|j: int|
                            0 <= j < k + 1 && (#[trigger] edges[j]).kind == EdgeKind::Calls && edges[j].from@ == id@ && edges[j].to@ == x;
                        if j == k {
                            assert(e.from@ == id@);
                        }
                    }
                }
            }
        }
        k = k + 1;
    }
    assert(s.members() =~= calls_from(edges, id@));
    s
}

pub open spec fn opt_text(o: Option<String>) -> Seq<char> {
    match o {
        Some(s) => s@,
        None => Seq::empty(),
    }
}

/// How similar node `n` is to node `t`: three per callee they share, plus the
/// similarity of their signatures (saturating).
pub open spec fn similarity(edges: Seq<Edge>, t: Node, n: Node) -> nat {
    cap(
        3 * calls_from(edges, t.id@).intersect(calls_from(edges, n.id@)).len() + sig_similarity(
            opt_text(t.signature),
            opt_text(n.signature),
        ),
    )
}

/// `n` is compared with `t`: another node of the same kind, not a container.
pub open spec fn comparable(t: Node, n: Node) -> bool {
    n.kind == t.kind && n.id@ != t.id@ && !crate::health::is_container_kind(n.kind)
}

/// The nodes listed as similar to `t`: comparable ones with a positive score.
pub open spec fn similar_pick(edges: Seq<Edge>, t: Node) -> spec_fn(Node) -> bool {
    |n: Node| comparable(t, n) && similarity(edges, t, n) > 0
}

/// Among similar nodes, `p` comes before `q`: higher score, then qualified
/// name, then position.
pub open spec fn similar_before(graph: CodeGraph, t: Node, p: int, q: int) -> bool {
    ranked_before(
        similarity(graph.edges@, t, graph.nodes@[p]),
        graph.nodes@[p].qualified_name@,
        Seq::empty(),
        p,
        similarity(graph.edges@, t, graph.nodes@[q]),
        graph.nodes@[q].qualified_name@,
        Seq::empty(),
        q,
    )
}

/// What a similarity query finds.
pub enum SimilarReport {
    /// No node matches the name.
    NotFound,
    /// Several nodes match.
    Ambiguous { matches: Vec<usize> },
    /// The node matched, how many nodes are similar to it, and the best
    /// `(score, node)` pairs.
    Found { target: usize, count: usize, items: Vec<(usize, usize)> },
}

/// Nodes similar to the one `name` designates: those of the same kind (not
/// containers) that share callees or signature traits with it, most similar
/// first, at most `limit`.
pub fn similar(graph: &CodeGraph, name: &str, limit: usize) -> (r: SimilarReport)
    ensures
        ({
            let m = find_nodes_spec(graph.nodes@, name@);
            &&& m.len() == 0 <==> r is NotFound
            &&& m.len() > 1 <==> r is Ambiguous
            &&& (r matches SimilarReport::Ambiguous { matches } ==> matches@ == m)
            &&& (r matches SimilarReport::Found { target, count, items } ==> {
                let t = graph.nodes@[target as int];
                let all = select(graph.nodes@, graph.nodes@.len() as int, similar_pick(graph.edges@, t));
                &&& m.len() == 1 && target == m[0] && target < graph.nodes.len()
                &&& count == all.len()
                &&& items@.len() <= limit
                &&& forall|i: int| 0 <= i < items@.len() ==> (#[trigger] items@[i]).1 < graph.nodes.len()
                    && similar_pick(graph.edges@, t)(graph.nodes@[items@[i].1 as int])
                    && items@[i].0 == similarity(graph.edges@, t, graph.nodes@[items@[i].1 as int])
                &&& forall|i: int, j: int| 0 <= i < j < items@.len() ==> similar_before(*graph, t, items@[i].1 as int, items@[j].1 as int)
                &&& forall|q: int| 0 <= q < graph.nodes.len() && similar_pick(graph.edges@, t)(graph.nodes@[q])
                    ==> (exists|i: int| 0 <= i < items@.len() && items@[i].1 == q) || (items@.len() == limit && forall|i: int|
                    0 <= i < items@.len() ==> similar_before(*graph, t, items@[i].1 as int, q))
            })
        }),
{
    let matches = find_nodes(graph, name);
    if matches.len() == 0 {
        return SimilarReport::NotFound;
    }
    if matches.len() > 1 {
        return SimilarReport::Ambiguous { matches };
    }
    let target = matches[0];
    let ghost t = graph.nodes@[target as int];
    let ghost pick = similar_pick(graph.edges@, t);
    let tnode = &graph.nodes[target];
    let tid = chars_of(tnode.id.as_str());
    let tcallees = callee_set(graph, &tid);
    let tsig = match &tnode.signature {
        Some(s) => s.as_str(),
        None => "",
    };
    proof {
        reveal_strlit("");
    }
    let n = graph.nodes.len();
    let mut keys: Vec<RankKey> = Vec::new();
    let mut cand: Vec<usize> = Vec::new();
    let mut scores: Vec<usize> = Vec::new();
    let mut p: usize = 0;
    while p < n
        invariant
            n == graph.nodes.len(),
            p <= n,
            target < n,
            t == graph.nodes@[target as int],
            pick == similar_pick(graph.edges@, t),
            tid@ == t.id@,
            tnode.kind == t.kind,
            tsig@ == opt_text(t.signature),
            tcallees.wf(),
            tcallees.members() == calls_from(graph.edges@, t.id@),
            keys.len() == cand.len(),
            scores.len() == cand.len(),
            cand@ == select(graph.nodes@, p as int, pick),
            forall|k: int|
                #![trigger keys@[k]]
                0 <= k < keys.len() ==> keys@[k].hi == similarity(graph.edges@, t, graph.nodes@[cand@[k] as int])
                    && keys@[k].lo == 0 && keys@[k].a@ == graph.nodes@[cand@[k] as int].qualified_name@
                    && keys@[k].b@ == Seq::<char>::empty() && scores@[k] == keys@[k].hi,
        decreases n - p,
    {
        let node = &graph.nodes[p];
        let container = match node.kind {
            NodeKind::Project | NodeKind::Crate | NodeKind::File | NodeKind::Module => true,
            _ => false,
        };
        let nid = chars_of(node.id.as_str());
        let same = node.kind == tnode.kind && crate::lex::lex_compare(&nid, &tid) != 0 && !container;
        let mut score: usize = 0;
        if same {
            let ncallees = callee_set(graph, &nid);
            let overlap = tcallees.common_count(&ncallees);
            proof {
                reveal_strlit("");
            }
            let nsig = match &node.signature {
                Some(s) => s.as_str(),
                None => "",
            };
            let sig = signature_similarity(tsig, nsig);
            let tri = match overlap.checked_mul(3) {
                Some(x) => x,
                None => usize::MAX,
            };
            score = tri.saturating_add(sig);
            proof {
                let nd = graph.nodes@[p as int];
                assert(nid@ == nd.id@);
                assert(overlap == calls_from(graph.edges@, t.id@).intersect(calls_from(graph.edges@, nd.id@)).len());
                assert(nsig@ == opt_text(nd.signature));
                assert(sig == sig_similarity(opt_text(t.signature), opt_text(nd.signature)));
                if overlap * 3 > usize::MAX {
                    assert(tri == usize::MAX);
                } else {
                    assert(tri == overlap * 3);
                }
            }
            assert(score == similarity(graph.edges@, t, graph.nodes@[p as int]));
        }
        if same && score > 0 {
            keys.push(RankKey { hi: score, lo: 0, a: chars_of(node.qualified_name.as_str()), b: Vec::new() });
            cand.push(p);
            scores.push(score);
            proof {
                assert(keys@[keys.len() - 1].b@ =~= Seq::<char>::empty());
            }
        }
        proof {
            let nd = graph.nodes@[p as int];
            assert(pick(nd) == (comparable(t, nd) && similarity(graph.edges@, t, nd) > 0));
            assert(comparable(t, nd) == same);
        }
        assert(pick(graph.nodes@[p as int]) == (same && score > 0));
        p = p + 1;
    }
    proof {
        crate::seqs::lemma_select_members(graph.nodes@, n as int, pick);
    }
    let count = cand.len();
    let idx = top_ranked(&keys, limit);
    let mut items: Vec<(usize, usize)> = Vec::new();
    let mut i: usize = 0;
    while i < idx.len()
        invariant
            i <= idx.len(),
            items.len() == i,
            forall|j: int| 0 <= j < idx.len() ==> idx@[j] < keys.len(),
            keys.len() == cand.len(),
            scores.len() == cand.len(),
            forall|j: int| 0 <= j < i ==> items@[j] == (scores@[idx@[j] as int], cand@[idx@[j] as int]),
        decreases idx.len() - i,
    {
        items.push((scores[idx[i]], cand[idx[i]]));
        i = i + 1;
    }
    proof {
        let nodes = graph.nodes@;
        let all = select(nodes, n as int, pick);
        assert forall|a: int, b: int| 0 <= a < b < cand.len() implies cand@[a] < cand@[b] by {}
        assert(cand@ == all);
        assert forall|i: int| 0 <= i < items@.len() implies (#[trigger] items@[i]).1 < graph.nodes.len()
            && pick(graph.nodes@[items@[i].1 as int])
            && items@[i].0 == similarity(graph.edges@, t, graph.nodes@[items@[i].1 as int]) by {
            let k = idx@[i] as int;
            assert(items@[i] == (scores@[k], cand@[k]));
            assert(keys@[k].hi == similarity(graph.edges@, t, graph.nodes@[cand@[k] as int]));
        }
        assert forall|i: int, j: int| 0 <= i < j < items@.len() implies similar_before(*graph, t, items@[i].1 as int, items@[j].1 as int) by {
            assert(kb(keys@, idx@[i], idx@[j]));
            if idx@[i] < idx@[j] {
                assert(cand@[idx@[i] as int] < cand@[idx@[j] as int]);
            } else if idx@[i] > idx@[j] {
                assert(cand@[idx@[j] as int] < cand@[idx@[i] as int]);
            }
        }
        assert forall|q: int| 0 <= q < n && pick(nodes[q]) implies (exists|i: int| 0 <= i < items@.len() && items@[i].1 == q) || (
            items@.len() == limit && forall|i: int| 0 <= i < items@.len() ==> similar_before(*graph, t, items@[i].1 as int, q)) by {
            assert(all.contains(q as usize));
            let k = choose|k: int| 0 <= k < cand.len() && cand@[k] == q as usize;
            let ku = k as usize;
            if idx@.contains(ku) {
                let i = choose|i: int| 0 <= i < idx.len() && idx@[i] == ku;
                assert(items@[i].1 == q);
            } else {
                assert forall|i: int| 0 <= i < items@.len() implies similar_before(*graph, t, items@[i].1 as int, q) by {
                    assert(kb(keys@, idx@[i], ku));
                    if idx@[i] < ku {
                        assert(cand@[idx@[i] as int] < cand@[k]);
                    } else if idx@[i] > ku {
                        assert(cand@[k] < cand@[idx@[i] as int]);
                    }
                }
            }
        }
    }
    SimilarReport::Found { target, count, items }
}

} // verus!
