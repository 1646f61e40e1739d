//! The lexical stage of retrieval: each retrievable node is read as a small
//! document, scored by the query terms it contains and by its kind, and the
//! best ones are kept.
use crate::model::{CodeGraph, Node, NodeKind, Range};
use crate::rank::{kb, top_ranked, RankKey};
use crate::ranking::{query_terms, vecs_view, word_runs};
use crate::seqs::count_where;
use crate::similar::opt_text;
use crate::strs::{
    chars_of, contains_chars, contains_seq, lowercase, nat_digits, owned, string_from_range, to_lowercase, usize_to_string,
};
use crate::text::append_str;
use vstd::prelude::*;
use vstd::string::*;
use vstd::utf8::{encode_utf8, is_ascii_chars};

verus! {

/// Kinds of node that retrieval considers.
pub open spec fn is_retrievable(k: NodeKind) -> bool {
    k == NodeKind::File || k == NodeKind::Module || k == NodeKind::Function || k == NodeKind::Method || k
        == NodeKind::Struct || k == NodeKind::Enum || k == NodeKind::Trait || k == NodeKind::Impl || k
        == NodeKind::TypeAlias || k == NodeKind::Const || k == NodeKind::Static || k == NodeKind::Macro
}

/// The weight of a node's kind: 9 for functions and methods, 7 for types,
/// traits and impls, 5 for modules and files, 1 otherwise.
pub open spec fn structural_score(k: NodeKind) -> nat {
    if k == NodeKind::Function || k == NodeKind::Method {
        9
    } else if k == NodeKind::Struct || k == NodeKind::Enum || k == NodeKind::Trait || k == NodeKind::Impl {
        7
    } else if k == NodeKind::Module || k == NodeKind::File {
        5
    } else {
        1
    }
}

/// A text cut after `limit` bytes, with `...` added when it was longer.
pub open spec fn cut_text(s: Seq<char>, limit: nat) -> Seq<char> {
    if encode_utf8(s).len() <= limit {
        s
    } else {
        s.take(limit as int) + "..."@
    }
}

/// A text that can be cut after `limit` bytes: short enough, or ASCII (so a
/// byte position is a character position); and its length fits in `usize`.
pub open spec fn cuttable(o: Option<String>, limit: nat) -> bool {
    match o {
        Some(s) => encode_utf8(s@).len() <= usize::MAX && (encode_utf8(s@).len() <= limit || is_ascii_chars(s@)),
        None => true,
    }
}

pub open spec fn range_text(r: Option<Range>) -> Seq<char> {
    match r {
        Some(r) => nat_digits(r.start_line as nat) + "-"@ + nat_digits(r.end_line as nat),
        None => Seq::empty(),
    }
}

/// The document a node is read as: its kind, names, file, line range, and its
/// signature and docs cut after 420 bytes, one per line.
pub open spec fn document_text(n: Node) -> Seq<char> {
    "kind: "@ + n.kind.name_spec() + "\nname: "@ + n.name@ + "\nqualified_name: "@ + n.qualified_name@ + "\nfile: "@
        + opt_text(n.file) + "\nrange: "@ + range_text(n.range) + "\nsignature: "@ + cut_text(opt_text(n.signature), 420)
        + "\ndocs: "@ + cut_text(opt_text(n.docs), 420)
}

/// 25 for each query term (repeats counted) that the lower-cased document
/// contains, plus the weight of the node's kind; as far as `usize` goes.
pub open spec fn doc_score(n: Node, terms: Seq<Seq<char>>) -> nat {
    let raw = 25 * count_where(terms, |t: Seq<char>| contains_seq(lowercase(document_text(n)), t)) + structural_score(n.kind);
    if raw <= usize::MAX {
        raw
    } else {
        usize::MAX as nat
    }
}

fn cut_exec(s: &Option<String>, limit: usize) -> (r: String)
    requires
        cuttable(*s, limit as nat),
    ensures
        r@ == cut_text(opt_text(*s), limit as nat),
{
    match s {
        Some(t) => {
            let text = t.as_str();
            if text.len() <= limit {
                proof {
                    assert(text.spec_bytes() == encode_utf8(t@));
                }
                owned(text)
            } else {
                proof {
                    vstd::string::is_ascii_spec_bytes(text);
                    assert(text.spec_bytes() == encode_utf8(t@));
                    assert(is_ascii(text));
                }
                let v = chars_of(text);
                let mut r = string_from_range(&v, 0, limit);
                append_str(&mut r, "...");
                assert(r@ =~= t@.take(limit as int) + "..."@);
                r
            }
        },
        None => {
            assert(cut_text(Seq::empty(), limit as nat) =~= Seq::<char>::empty());
            String::new()
        },
    }
}

fn range_exec(r: &Option<Range>) -> (s: String)
    ensures
        s@ == range_text(*r),
{
    match r {
        Some(r) => {
            let mut s = usize_to_string(r.start_line);
            append_str(&mut s, "-");
            let e = usize_to_string(r.end_line);
            append_str(&mut s, e.as_str());
            s
        },
        None => String::new(),
    }
}

/// The document a node is read as (see [`document_text`]).
pub fn document(n: &Node) -> (r: String)
    requires
        cuttable(n.signature, 420),
        cuttable(n.docs, 420),
    ensures
        r@ == document_text(*n),
{
    let mut r = owned("kind: ");
    append_str(&mut r, n.kind.as_str());
    append_str(&mut r, "\nname: ");
    append_str(&mut r, n.name.as_str());
    append_str(&mut r, "\nqualified_name: ");
    append_str(&mut r, n.qualified_name.as_str());
    append_str(&mut r, "\nfile: ");
    match &n.file {
        Some(f) => append_str(&mut r, f.as_str()),
        None => {},
    }
    append_str(&mut r, "\nrange: ");
    let rt = range_exec(&n.range);
    append_str(&mut r, rt.as_str());
    append_str(&mut r, "\nsignature: ");
    let st = cut_exec(&n.signature, 420);
    append_str(&mut r, st.as_str());
    append_str(&mut r, "\ndocs: ");
    let dt = cut_exec(&n.docs, 420);
    append_str(&mut r, dt.as_str());
    assert(r@ =~= document_text(*n));
    r
}

fn retrievable_exec(k: NodeKind) -> (b: bool)
    ensures
        b == is_retrievable(k),
{
    match k {
        NodeKind::File | NodeKind::Module | NodeKind::Function | NodeKind::Method | NodeKind::Struct | NodeKind::Enum
        | NodeKind::Trait | NodeKind::Impl | NodeKind::TypeAlias | NodeKind::Const | NodeKind::Static
        | NodeKind::Macro => true,
        _ => false,
    }
}

fn structural_exec(k: NodeKind) -> (s: usize)
    ensures
        s == structural_score(k),
{
    match k {
        NodeKind::Function | NodeKind::Method => 9,
        NodeKind::Struct | NodeKind::Enum | NodeKind::Trait | NodeKind::Impl => 7,
        NodeKind::Module | NodeKind::File => 5,
        _ => 1,
    }
}

fn score_exec(n: &Node, terms: &Vec<Vec<char>>) -> (s: usize)
    requires
        cuttable(n.signature, 420),
        cuttable(n.docs, 420),
    ensures
        s == doc_score(*n, vecs_view(terms@)),
{
    let text = document(n);
    let low = to_lowercase(text.as_str());
    let h = chars_of(low.as_str());
    let ghost ts = vecs_view(terms@);
    let ghost p = |t: Seq<char>| contains_seq(lowercase(document_text(*n)), t);
    let mut hits: usize = 0;
    let mut i: usize = 0;
    while i < terms.len()
        invariant
            i <= terms.len(),
            ts == vecs_view(terms@),
            h@ == lowercase(document_text(*n)),
            p == (|t: Seq<char>| contains_seq(lowercase(document_text(*n)), t)),
            hits == count_where(ts.take(i as int), p),
            hits <= i,
        decreases terms.len() - i,
    {
        assert(ts.take(i + 1).drop_last() =~= ts.take(i as int));
        assert(ts[i as int] == terms@[i as int]@);
        if contains_chars(&h, &terms[i]) {
            hits = hits + 1;
        }
        i = i + 1;
    }
    assert(ts.take(terms.len() as int) =~= ts);
    let base = structural_exec(n.kind);
    match hits.checked_mul(25) {
        Some(x) => match x.checked_add(base) {
            Some(y) => y,
            None => usize::MAX,
        },
        None => usize::MAX,
    }
}

/// Every retrievable node has a signature and docs that can be cut.
pub open spec fn documents_cuttable(nodes: Seq<Node>) -> bool {
    forall|i: int|
        0 <= i < nodes.len() && is_retrievable((#[trigger] nodes[i]).kind) ==> cuttable(nodes[i].signature, 420)
            && cuttable(nodes[i].docs, 420)
}

/// The key a candidate is ranked by: higher score first, then by qualified
/// name.
pub open spec fn doc_before(nodes: Seq<Node>, terms: Seq<Seq<char>>, i: int, j: int) -> bool {
    doc_score(nodes[i], terms) > doc_score(nodes[j], terms) || (doc_score(nodes[i], terms) == doc_score(nodes[j], terms)
        && (crate::lex::lex_lt(nodes[i].qualified_name@, nodes[j].qualified_name@) || (nodes[i].qualified_name@
        == nodes[j].qualified_name@ && i < j)))
}

/// The terms of a query: the runs of ASCII letters, digits and `_` in its
/// lower-cased text.
pub open spec fn retrieval_terms(query: Seq<char>) -> Seq<Seq<char>> {
    word_runs(lowercase(query))
}

/// The lexical stage: the retrievable nodes scored against the terms of
/// `query` (every one scores, its kind alone gives at least 1), best first
/// (higher score, then qualified name, then graph order), at most `limit` of
/// them, each as `(node position, score)`.
pub fn lexical_candidates(graph: &CodeGraph, query: &str, limit: usize) -> (r: Vec<(usize, usize)>)
    requires
        documents_cuttable(graph.nodes@),
    ensures
        ({
            let nodes = graph.nodes@;
            let ts = retrieval_terms(query@);
            &&& r@.len() <= limit
            &&& forall|k: int|
                0 <= k < r@.len() ==> (#[trigger] r@[k]).0 < nodes.len() && is_retrievable(nodes[r@[k].0 as int].kind)
                    && r@[k].1 == doc_score(nodes[r@[k].0 as int], ts)
            &&& forall|a: int, b: int| 0 <= a < b < r@.len() ==> doc_before(nodes, ts, r@[a].0 as int, r@[b].0 as int)
            &&& forall|t: int|
                0 <= t < nodes.len() && is_retrievable(#[trigger] nodes[t].kind) ==> (exists|k: int|
                    0 <= k < r@.len() && r@[k].0 == t) || (r@.len() == limit && forall|k: int|
                    0 <= k < r@.len() ==> doc_before(nodes, ts, r@[k].0 as int, t))
        }),
{
    let terms = query_terms(query);
    let ghost ts = vecs_view(terms@);
    let ghost nodes = graph.nodes@;
    let mut keys: Vec<RankKey> = Vec::new();
    let mut pos: Vec<usize> = Vec::new();
    let mut i: usize = 0;
    while i < graph.nodes.len()
        invariant
            i <= graph.nodes.len(),
            nodes == graph.nodes@,
            ts == vecs_view(terms@),
            documents_cuttable(nodes),
            keys.len() == pos.len(),
            forall|k: int| 0 <= k < pos.len() ==> (#[trigger] pos@[k]) < i && is_retrievable(nodes[pos@[k] as int].kind),
            forall|k: int|
                0 <= k < pos.len() ==> (#[trigger] keys@[k]).hi == doc_score(nodes[pos@[k] as int], ts) && keys@[k].lo == 0
                    && keys@[k].a@ == nodes[pos@[k] as int].qualified_name@ && keys@[k].b@.len() == 0,
            forall|a: int, b: int| 0 <= a < b < pos.len() ==> pos@[a] < pos@[b],
            forall|t: int| 0 <= t < i && is_retrievable(#[trigger] nodes[t].kind) ==> exists|k: int| 0 <= k < pos.len() && pos@[k] == t,
        decreases graph.nodes.len() - i,
    {
        let n = &graph.nodes[i];
        if retrievable_exec(n.kind) {
            let s = score_exec(n, &terms);
            let ghost kb0 = keys@;
            let ghost pb0 = pos@;
            keys.push(RankKey { hi: s, lo: 0, a: chars_of(n.qualified_name.as_str()), b: Vec::new() });
            pos.push(i);
            proof {
                assert forall|t: int| 0 <= t < i + 1 && is_retrievable(#[trigger] nodes[t].kind) implies exists|k: int|
                    0 <= k < pos.len() && pos@[k] == t by {
                    if t < i {
                        let k = choose|k: int| 0 <= k < pb0.len() && pb0[k] == t;
                        assert(pos@[k] == t);
                    } else {
                        assert(pos@[pb0.len() as int] == t);
                    }
                }
            }
        }
        i = i + 1;
    }
    let top = top_ranked(&keys, limit);
    let mut r: Vec<(usize, usize)> = Vec::new();
    let mut q: usize = 0;
    while q < top.len()
        invariant
            q <= top.len(),
            top@.len() <= limit,
            keys.len() == pos.len(),
            forall|k: int| 0 <= k < top@.len() ==> top@[k] < keys@.len(),
            r@.len() == q,
            forall|k: int| 0 <= k < q ==> (#[trigger] r@[k]).0 == pos@[top@[k] as int] && r@[k].1 == keys@[top@[k] as int].hi,
        decreases top.len() - q,
    {
        let p = top[q];
        r.push((pos[p], keys[p].hi));
        q = q + 1;
    }
    proof {
        assert forall|a: int, b: int| 0 <= a < b < r@.len() implies doc_before(nodes, ts, r@[a].0 as int, r@[b].0 as int) by {
            let (x, y) = (top@[a], top@[b]);
            assert(kb(keys@, x, y));
            if keys@[x as int].a@ == keys@[y as int].a@ && x < y {
                assert(pos@[x as int] < pos@[y as int]);
            }
            if keys@[x as int].hi == keys@[y as int].hi && keys@[x as int].a@ == keys@[y as int].a@ {
                assert(!crate::lex::lex_lt(keys@[x as int].b@, keys@[y as int].b@)) by {
                    assert(keys@[x as int].b@ =~= keys@[y as int].b@);
                    crate::lex::lemma_lex_irreflexive(keys@[x as int].b@);
                }
                assert(keys@[x as int].lo == 0 && keys@[y as int].lo == 0);
                assert(keys@[x as int].b@ == keys@[y as int].b@);
                crate::lex::lemma_lex_irreflexive(keys@[x as int].a@);
                assert(x < y);
            }
        }
        assert forall|t: int| 0 <= t < nodes.len() && is_retrievable(#[trigger] nodes[t].kind) implies (exists|k: int|
            0 <= k < r@.len() && r@[k].0 == t) || (r@.len() == limit && forall|k: int|
            0 <= k < r@.len() ==> doc_before(nodes, ts, r@[k].0 as int, t)) by {
            let c = choose|c: int| 0 <= c < pos.len() && pos@[c] == t;
            if top@.contains(c as usize) {
                let k = choose|k: int| 0 <= k < top@.len() && top@[k] == c as usize;
                assert(r@[k].0 == t);
            } else {
                assert forall|k: int| 0 <= k < r@.len() implies doc_before(nodes, ts, r@[k].0 as int, t) by {
                    let x = top@[k];
                    assert(kb(keys@, x, c as usize));
                    if keys@[x as int].hi == keys@[c].hi && keys@[x as int].a@ == keys@[c].a@ {
                        assert(!crate::lex::lex_lt(keys@[x as int].b@, keys@[c].b@)) by {
                            assert(keys@[x as int].b@ =~= keys@[c].b@);
                            crate::lex::lemma_lex_irreflexive(keys@[x as int].b@);
                        }
                        crate::lex::lemma_lex_irreflexive(keys@[x as int].a@);
                        if (x as int) < c {
                            assert(pos@[x as int] < pos@[c]);
                        }
                    }
                }
            }
        }
    }
    r
}

} // verus!
