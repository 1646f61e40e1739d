use vstd::prelude::*;
use crate::index::{degree, QueryIndex};
use crate::lex::{lex_compare, lex_lt};
use crate::model::{CodeGraph, Node, NodeKind};
use crate::rank::{kb, key_before, top_ranked, RankKey};
use crate::strs::{
    char_is_ascii_alnum, chars_of, contains_chars, contains_seq, is_ascii_alnum, lowercase,
    owned, push_char, to_lowercase,
};
use crate::text::append_str;

verus! {

// ---------------------------------------------------------------------------
// Search terms
// ---------------------------------------------------------------------------

/// A character that belongs to a search term.
pub open spec fn is_word_char(c: char) -> bool {
    is_ascii_alnum(c) || c == '_'
}

/// Scan of `s[0..n]`: the runs of word characters already closed, and the
/// run still open.
pub open spec fn runs_upto(s: Seq<char>, n: int) -> (Seq<Seq<char>>, Seq<char>)
    decreases n,
{
    if n <= 0 {
        (Seq::empty(), Seq::empty())
    } else {
        let prev = runs_upto(s, n - 1);
        if is_word_char(s[n - 1]) {
            (prev.0, prev.1.push(s[n - 1]))
        } else if prev.1.len() > 0 {
            (prev.0.push(prev.1), Seq::empty())
        } else {
            prev
        }
    }
}

/// The maximal non-empty runs of word characters in `s`, in order.
pub open spec fn word_runs(s: Seq<char>) -> Seq<Seq<char>> {
    let r = runs_upto(s, s.len() as int);
    if r.1.len() > 0 {
        r.0.push(r.1)
    } else {
        r.0
    }
}

pub open spec fn vecs_view(v: Seq<Vec<char>>) -> Seq<Seq<char>> {
    v.map_values(|x: Vec<char>| x@)
}

/// The maximal runs of ASCII letters, digits and underscores in `text`, in
/// order (see [`word_runs`]).
pub fn split_terms(text: &str) -> (r: Vec<Vec<char>>)
    ensures
        vecs_view(r@) == word_runs(text@),
{
    let s = chars_of(text);
    let mut done: Vec<Vec<char>> = Vec::new();
    let mut cur: Vec<char> = Vec::new();
    let mut i: usize = 0;
    while i < s.len()
        invariant
            i <= s.len(),
            s@ == text@,
            vecs_view(done@) == runs_upto(s@, i as int).0,
            cur@ == runs_upto(s@, i as int).1,
        decreases s.len() - i,
    {
        let c = s[i];
        if char_is_ascii_alnum(c) || c == '_' {
            cur.push(c);
        } else if cur.len() > 0 {
            let ghost prev = done@;
            let ghost open = cur@;
            done.push(cur);
            assert(vecs_view(done@) =~= vecs_view(prev).push(open));
            cur = Vec::new();
        }
        i = i + 1;
    }
    if cur.len() > 0 {
        let ghost prev = done@;
        let ghost open = cur@;
        done.push(cur);
        assert(vecs_view(done@) =~= vecs_view(prev).push(open));
    }
    done
}

/// The search terms of a query: the word runs of its lower-case form.
pub fn query_terms(query: &str) -> (r: Vec<Vec<char>>)
    ensures
        vecs_view(r@) == word_runs(lowercase(query@)),
{
    let low = to_lowercase(query);
    split_terms(low.as_str())
}

// ---------------------------------------------------------------------------
// Scores
// ---------------------------------------------------------------------------

pub open spec fn opt_text(o: Option<String>) -> Seq<char> {
    match o {
        Some(s) => s@,
        None => Seq::empty(),
    }
}

/// The text a search looks at: name, qualified name, file and docs, separated
/// by single spaces, in lower case.
pub open spec fn haystack(n: Node) -> Seq<char> {
    lowercase(
        n.name@ + seq![' '] + n.qualified_name@ + seq![' '] + opt_text(n.file) + seq![' ']
            + opt_text(n.docs),
    )
}

/// 100 for an exact match of the whole text, 20 for a term inside it, else 0.
pub open spec fn term_score(h: Seq<char>, t: Seq<char>) -> nat {
    if h == t {
        100
    } else if contains_seq(h, t) {
        20
    } else {
        0
    }
}

/// The sum of the term scores.
pub open spec fn text_score(h: Seq<char>, ts: Seq<Seq<char>>) -> nat
    decreases ts.len(),
{
    if ts.len() == 0 {
        0
    } else {
        text_score(h, ts.drop_last()) + term_score(h, ts.last())
    }
}

/// `n`, saturating at `usize::MAX`.
pub open spec fn cap(n: nat) -> nat {
    if n <= usize::MAX {
        n
    } else {
        usize::MAX as nat
    }
}

/// Search score of a node with degree `deg`: without terms every node scores
/// `1 + deg`; with terms a node that matches none scores 0, any other its text
/// score plus its degree (saturating).
pub open spec fn search_score(n: Node, ts: Seq<Seq<char>>, deg: nat) -> nat {
    if ts.len() == 0 {
        cap(1 + deg)
    } else if text_score(haystack(n), ts) == 0 {
        0
    } else {
        cap(text_score(haystack(n), ts) + deg)
    }
}

/// The text a search looks at (see [`haystack`]).
pub fn node_haystack(node: &Node) -> (h: Vec<char>)
    ensures
        h@ == haystack(*node),
{
    let mut raw = owned(node.name.as_str());
    push_char(&mut raw, ' ');
    append_str(&mut raw, node.qualified_name.as_str());
    push_char(&mut raw, ' ');
    match &node.file {
        Some(f) => append_str(&mut raw, f.as_str()),
        None => {},
    }
    push_char(&mut raw, ' ');
    match &node.docs {
        Some(d) => append_str(&mut raw, d.as_str()),
        None => {},
    }
    proof {
        assert(raw@ =~= node.name@ + seq![' '] + node.qualified_name@ + seq![' '] + opt_text(
            node.file,
        ) + seq![' '] + opt_text(node.docs));
    }
    let low = to_lowercase(raw.as_str());
    chars_of(low.as_str())
}

/// Score of `node` for the terms `ts`, given its degree.
fn node_search_score(node: &Node, ts: &Vec<Vec<char>>, deg: usize) -> (s: usize)
    ensures
        s == search_score(*node, vecs_view(ts@), deg as nat),
{
    let h = node_haystack(node);
    let ghost tv = vecs_view(ts@);
    let mut acc: usize = 0;
    let mut k: usize = 0;
    while k < ts.len()
        invariant
            k <= ts.len(),
            tv == vecs_view(ts@),
            h@ == haystack(*node),
            acc == cap(text_score(h@, tv.take(k as int))),
        decreases ts.len() - k,
    {
        let t = &ts[k];
        let v: usize = if lex_compare(&h, t) == 0 {
            100
        } else if contains_chars(&h, t) {
            20
        } else {
            0
        };
        proof {
            assert(tv.take(k + 1).drop_last() =~= tv.take(k as int));
            assert(tv[k as int] == t@);
        }
        acc = acc.saturating_add(v);
        k = k + 1;
    }
    assert(tv.take(ts.len() as int) =~= tv);
    if ts.len() == 0 {
        deg.saturating_add(1)
    } else if acc == 0 {
        0
    } else {
        acc.saturating_add(deg)
    }
}

// ---------------------------------------------------------------------------
// Ranked searches
// ---------------------------------------------------------------------------

/// Order of two ranked entries: score descending, then `a`, then `b`, then
/// position.
pub open spec fn ranked_before(
    hx: nat,
    ax: Seq<char>,
    bx: Seq<char>,
    px: int,
    hy: nat,
    ay: Seq<char>,
    by: Seq<char>,
    py: int,
) -> bool {
    hx > hy || (hx == hy && (lex_lt(ax, ay) || (ax == ay && (lex_lt(bx, by) || (bx == by && px
        < py)))))
}

/// The score of the node at position `p` for the terms `ts`.
pub open spec fn score_at(graph: CodeGraph, ts: Seq<Seq<char>>, p: int) -> nat {
    search_score(graph.nodes@[p], ts, degree(graph.edges@, graph.nodes@[p].id@))
}

/// The node at `p` takes part in a search for `ts`.
pub open spec fn searchable(graph: CodeGraph, ts: Seq<Seq<char>>, p: int) -> bool {
    graph.nodes@[p].kind != NodeKind::Project && score_at(graph, ts, p) > 0
}

/// In a search for `ts`, node `p` is listed before node `q`: higher score,
/// then kind name, then qualified name, then position.
pub open spec fn search_before(graph: CodeGraph, ts: Seq<Seq<char>>, p: int, q: int) -> bool {
    ranked_before(
        score_at(graph, ts, p),
        graph.nodes@[p].kind.name_spec(),
        graph.nodes@[p].qualified_name@,
        p,
        score_at(graph, ts, q),
        graph.nodes@[q].kind.name_spec(),
        graph.nodes@[q].qualified_name@,
        q,
    )
}

/// Positions `cand[idx[i]]`.
pub fn pick_positions(idx: &Vec<usize>, cand: &Vec<usize>) -> (r: Vec<usize>)
    requires
        forall|i: int| 0 <= i < idx.len() ==> idx@[i] < cand.len(),
    ensures
        r.len() == idx.len(),
        forall|i: int| 0 <= i < idx.len() ==> r@[i] == cand@[idx@[i] as int],
{
    let mut r: Vec<usize> = Vec::new();
    let mut i: usize = 0;
    while i < idx.len()
        invariant
            i <= idx.len(),
            r.len() == i,
            forall|j: int| 0 <= j < idx.len() ==> idx@[j] < cand.len(),
            forall|j: int| 0 <= j < i ==> r@[j] == cand@[idx@[j] as int],
        decreases idx.len() - i,
    {
        r.push(cand[idx[i]]);
        i = i + 1;
    }
    r
}

/// `r` lists, best first, the first `limit` nodes of a search for `ts`.
pub open spec fn search_listing(graph: CodeGraph, ts: Seq<Seq<char>>, limit: nat, r: Seq<usize>) -> bool {
    &&& r.len() <= limit
    &&& forall|i: int| 0 <= i < r.len() ==> r[i] < graph.nodes.len() && searchable(graph, ts, r[i] as int)
    &&& forall|i: int, j: int| 0 <= i < j < r.len() ==> search_before(graph, ts, r[i] as int, r[j] as int)
    &&& forall|t: int|
        0 <= t < graph.nodes.len() && searchable(graph, ts, t) ==> r.contains(t as usize) || (r.len() == limit
            && forall|i: int| 0 <= i < r.len() ==> search_before(graph, ts, r[i] as int, t))
}

/// The nodes that best match `query`, best first, at most `limit` of them:
/// every node but the project node whose score is positive, ordered by
/// [`search_before`].
pub fn ranked_nodes(graph: &CodeGraph, index: &QueryIndex, query: &str, limit: usize) -> (r: Vec<
    usize,
>)
    requires
        index.describes(graph),
    ensures
        r.len() <= limit,
        forall|i: int|
            0 <= i < r.len() ==> r@[i] < graph.nodes.len() && searchable(
                *graph,
                word_runs(lowercase(query@)),
                r@[i] as int,
            ),
        forall|i: int, j: int|
            0 <= i < j < r.len() ==> search_before(
                *graph,
                word_runs(lowercase(query@)),
                r@[i] as int,
                r@[j] as int,
            ),
        forall|t: int|
            0 <= t < graph.nodes.len() && searchable(*graph, word_runs(lowercase(query@)), t)
                ==> r@.contains(t as usize) || (r.len() == limit && forall|i: int|
                0 <= i < r.len() ==> search_before(
                    *graph,
                    word_runs(lowercase(query@)),
                    r@[i] as int,
                    t,
                )),
        search_listing(*graph, word_runs(lowercase(query@)), limit as nat, r@),
{
    let ts = query_terms(query);
    let ghost tv = word_runs(lowercase(query@));
    let n = graph.nodes.len();
    let mut keys: Vec<RankKey> = Vec::new();
    let mut cand: Vec<usize> = Vec::new();
    let mut p: usize = 0;
    while p < n
        invariant
            n == graph.nodes.len(),
            index.describes(graph),
            p <= n,
            vecs_view(ts@) == tv,
            keys.len() == cand.len(),
            forall|k: int| 0 <= k < cand.len() ==> cand@[k] < p && searchable(*graph, tv, cand@[k] as int),
            forall|a: int, b: int| 0 <= a < b < cand.len() ==> cand@[a] < cand@[b],
            forall|q: int| 0 <= q < p && searchable(*graph, tv, q) ==> cand@.contains(q as usize),
            forall|k: int|
                #![trigger keys@[k]]
                0 <= k < keys.len() ==> keys@[k].hi == score_at(*graph, tv, cand@[k] as int)
                    && keys@[k].lo == 0 && keys@[k].a@ == graph.nodes@[cand@[k] as int].kind.name_spec()
                    && keys@[k].b@ == graph.nodes@[cand@[k] as int].qualified_name@,
        decreases n - p,
    {
        let node = &graph.nodes[p];
        let skip = match node.kind {
            NodeKind::Project => true,
            _ => false,
        };
        if !skip {
            let deg = index.degree_of(graph, p);
            let s = node_search_score(node, &ts, deg);
            if s > 0 {
                let key = RankKey {
                    hi: s,
                    lo: 0,
                    a: chars_of(node.kind.as_str()),
                    b: chars_of(node.qualified_name.as_str()),
                };
                let ghost old_cand = cand@;
                keys.push(key);
                cand.push(p);
                proof {
                    assert forall|q: int| 0 <= q < p + 1 && searchable(*graph, tv, q) implies cand@.contains(q as usize) by {
                        if q == p {
                            assert(cand@[old_cand.len() as int] == p);
                        } else {
                            let k = choose|k: int| 0 <= k < old_cand.len() && old_cand[k] == q as usize;
                            assert(cand@[k] == q as usize);
                        }
                    }
                }
            }
        }
        p = p + 1;
    }
    let idx = top_ranked(&keys, limit);
    let r = pick_positions(&idx, &cand);
    proof {
        assert forall|i: int, j: int| 0 <= i < j < r.len() implies search_before(
            *graph,
            tv,
            r@[i] as int,
            r@[j] as int,
        ) by {
            assert(kb(keys@, idx@[i], idx@[j]));
            let x = keys@[idx@[i] as int];
            let y = keys@[idx@[j] as int];
            if idx@[i] < idx@[j] {
                assert(cand@[idx@[i] as int] < cand@[idx@[j] as int]);
            } else if idx@[i] > idx@[j] {
                assert(cand@[idx@[j] as int] < cand@[idx@[i] as int]);
            }
        }
        assert forall|t: int|
            0 <= t < graph.nodes.len() && searchable(*graph, tv, t) implies r@.contains(t as usize) || (r.len()
                == limit && forall|i: int| 0 <= i < r.len() ==> search_before(*graph, tv, r@[i] as int, t)) by {
            assert(cand@.contains(t as usize));
            let k = choose|k: int| 0 <= k < cand.len() && cand@[k] == t as usize;
            let ku = k as usize;
            if idx@.contains(ku) {
                let i = choose|i: int| 0 <= i < idx.len() && idx@[i] == ku;
                assert(r@[i] == t as usize);
            } else {
                assert forall|i: int| 0 <= i < r.len() implies search_before(*graph, tv, r@[i] as int, t) by {
                    assert(kb(keys@, idx@[i], ku));
                    if idx@[i] < ku {
                        assert(cand@[idx@[i] as int] < cand@[k]);
                    } else if idx@[i] > ku {
                        assert(cand@[k] < cand@[idx@[i] as int]);
                    }
                }
            }
        }
    }
    r
}


/// The node at `p` is a symbol (not a project, crate, file or module) whose
/// degree is at least `min`.
pub open spec fn hot_candidate(graph: CodeGraph, min: nat, p: int) -> bool {
    !crate::health::is_container_kind(graph.nodes@[p].kind) && degree(
        graph.edges@,
        graph.nodes@[p].id@,
    ) >= min
}

/// Among hot symbols, `p` is listed before `q`: higher degree, then qualified
/// name, then position.
pub open spec fn hot_before(graph: CodeGraph, p: int, q: int) -> bool {
    ranked_before(
        degree(graph.edges@, graph.nodes@[p].id@),
        graph.nodes@[p].qualified_name@,
        Seq::empty(),
        p,
        degree(graph.edges@, graph.nodes@[q].id@),
        graph.nodes@[q].qualified_name@,
        Seq::empty(),
        q,
    )
}

/// The symbols of degree at least `min`, highest degree first, at most
/// `limit` of them.
pub fn hot_ranked(graph: &CodeGraph, index: &QueryIndex, min: usize, limit: usize) -> (r: Vec<usize>)
    requires
        index.describes(graph),
    ensures
        r.len() <= limit,
        forall|i: int|
            0 <= i < r.len() ==> r@[i] < graph.nodes.len() && hot_candidate(*graph, min as nat, r@[i] as int),
        forall|i: int, j: int|
            0 <= i < j < r.len() ==> hot_before(*graph, r@[i] as int, r@[j] as int),
        forall|t: int|
            0 <= t < graph.nodes.len() && hot_candidate(*graph, min as nat, t) ==> r@.contains(t as usize) || (
            r.len() == limit && forall|i: int| 0 <= i < r.len() ==> hot_before(*graph, r@[i] as int, t)),
{
    let n = graph.nodes.len();
    let mut keys: Vec<RankKey> = Vec::new();
    let mut cand: Vec<usize> = Vec::new();
    let mut p: usize = 0;
    while p < n
        invariant
            n == graph.nodes.len(),
            index.describes(graph),
            p <= n,
            keys.len() == cand.len(),
            forall|k: int| 0 <= k < cand.len() ==> cand@[k] < p && hot_candidate(*graph, min as nat, cand@[k] as int),
            forall|a: int, b: int| 0 <= a < b < cand.len() ==> cand@[a] < cand@[b],
            forall|q: int| 0 <= q < p && hot_candidate(*graph, min as nat, q) ==> cand@.contains(q as usize),
            forall|k: int|
                #![trigger keys@[k]]
                0 <= k < keys.len() ==> keys@[k].hi == degree(graph.edges@, graph.nodes@[cand@[k] as int].id@)
                    && keys@[k].lo == 0 && keys@[k].a@ == graph.nodes@[cand@[k] as int].qualified_name@
                    && keys@[k].b@ == Seq::<char>::empty(),
        decreases n - p,
    {
        let node = &graph.nodes[p];
        let container = match node.kind {
            NodeKind::Project | NodeKind::Crate | NodeKind::File | NodeKind::Module => true,
            _ => false,
        };
        if !container {
            let deg = index.degree_of(graph, p);
            if deg >= min {
                let key = RankKey {
                    hi: deg,
                    lo: 0,
                    a: chars_of(node.qualified_name.as_str()),
                    b: Vec::new(),
                };
                let ghost old_cand = cand@;
                keys.push(key);
                cand.push(p);
                proof {
                    assert(keys@[keys.len() - 1].b@ =~= Seq::<char>::empty());
                    assert forall|q: int| 0 <= q < p + 1 && hot_candidate(*graph, min as nat, q) implies cand@.contains(q as usize) by {
                        if q == p {
                            assert(cand@[old_cand.len() as int] == p);
                        } else {
                            let k = choose|k: int| 0 <= k < old_cand.len() && old_cand[k] == q as usize;
                            assert(cand@[k] == q as usize);
                        }
                    }
                }
            }
        }
        p = p + 1;
    }
    let idx = top_ranked(&keys, limit);
    let r = pick_positions(&idx, &cand);
    proof {
        assert forall|i: int, j: int| 0 <= i < j < r.len() implies hot_before(
            *graph,
            r@[i] as int,
            r@[j] as int,
        ) by {
            assert(kb(keys@, idx@[i], idx@[j]));
            if idx@[i] < idx@[j] {
                assert(cand@[idx@[i] as int] < cand@[idx@[j] as int]);
            } else if idx@[i] > idx@[j] {
                assert(cand@[idx@[j] as int] < cand@[idx@[i] as int]);
            }
        }
        assert forall|t: int|
            0 <= t < graph.nodes.len() && hot_candidate(*graph, min as nat, t) implies r@.contains(t as usize) || (r.len()
                == limit && forall|i: int| 0 <= i < r.len() ==> hot_before(*graph, r@[i] as int, t)) by {
            assert(cand@.contains(t as usize));
            let k = choose|k: int| 0 <= k < cand.len() && cand@[k] == t as usize;
            let ku = k as usize;
            if idx@.contains(ku) {
                let i = choose|i: int| 0 <= i < idx.len() && idx@[i] == ku;
                assert(r@[i] == t as usize);
            } else {
                assert forall|i: int| 0 <= i < r.len() implies hot_before(*graph, r@[i] as int, t) by {
                    assert(kb(keys@, idx@[i], ku));
                    if idx@[i] < ku {
                        assert(cand@[idx@[i] as int] < cand@[k]);
                    } else if idx@[i] > ku {
                        assert(cand@[k] < cand@[idx@[i] as int]);
                    }
                }
            }
        }
    }
    r
}

/// The most connected symbols, highest degree first, at most `limit`.
pub fn hot_symbols(graph: &CodeGraph, index: &QueryIndex, limit: usize) -> (r: Vec<usize>)
    requires
        index.describes(graph),
    ensures
        r.len() <= limit,
        forall|i: int|
            0 <= i < r.len() ==> r@[i] < graph.nodes.len() && hot_candidate(*graph, 0, r@[i] as int),
        forall|i: int, j: int|
            0 <= i < j < r.len() ==> hot_before(*graph, r@[i] as int, r@[j] as int),
        forall|t: int|
            0 <= t < graph.nodes.len() && hot_candidate(*graph, 0, t) ==> r@.contains(t as usize) || (
            r.len() == limit && forall|i: int| 0 <= i < r.len() ==> hot_before(*graph, r@[i] as int, t)),
{
    hot_ranked(graph, index, 0, limit)
}

} // verus!
