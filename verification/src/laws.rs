use vstd::prelude::*;
use crate::ai::{
    certainty_count, cluster_stats, confidence_spec, in_cluster, keys_of, lemma_certainty_bound, new_file,
    push_all_spec, push_read_spec, read_fold, read_order_spec, first_n, root_step,
};
use crate::builder::{edge_matches, edge_recorded, first_edge_match, has_edge_match, is_first_edge_match, is_first_free};
use crate::export::{escape_spec, mermaid_id_spec};
use crate::health::score_spec;
use crate::helpers::{compact_from, compact_spec};
use crate::strs::is_white;
use crate::mir::{has_call, is_first_call, mir_edge_recorded, EdgeResult};
use crate::model::{
    alpha_node_kind, by_certainty_spec, by_edge_spec, by_kind_spec, by_source_spec, count_node_kind, CodeGraph,
    Edge, EdgeCertainty, EdgeKind, EdgeSource, Node, NodeKind,
};
use crate::seqs::tally;
use crate::query::{edit_distance, exact_match, find_nodes_spec, lev};
use crate::similar::{agree_count, sig_similarity};
use crate::strs::is_ascii_alnum;

verus! {

// ---------------------------------------------------------------------------
// Scores
// ---------------------------------------------------------------------------

/// The health score lies between 0 and 100.
pub proof fn law_health_score_bounded(cycles: nat, god_modules: nat, dead: nat, warnings: nat)
    ensures
        0 <= score_spec(cycles, god_modules, dead, warnings) <= 100,
{
}

/// More findings never raise the health score.
pub proof fn law_health_score_monotone(
    cycles: nat,
    god_modules: nat,
    dead: nat,
    warnings: nat,
    cycles2: nat,
    god_modules2: nat,
    dead2: nat,
    warnings2: nat,
)
    requires
        cycles <= cycles2,
        god_modules <= god_modules2,
        dead <= dead2,
        warnings <= warnings2,
    ensures
        score_spec(cycles2, god_modules2, dead2, warnings2) <= score_spec(cycles, god_modules, dead, warnings),
{
}

proof fn lemma_div_between(x: int, n: int, lo: int, hi: int)
    requires
        n > 0,
        lo * n <= x <= hi * n,
    ensures
        lo <= x / n <= hi,
{
    assert(lo <= x / n) by (nonlinear_arith)
        requires
            n > 0,
            lo * n <= x,
    ;
    assert(x / n <= hi) by (nonlinear_arith)
        requires
            n > 0,
            x <= hi * n,
    ;
}

/// The confidence score of a graph lies between 0 and 100; with at least one
/// edge it is at least 25, since every edge counts for at least a quarter.
pub proof fn law_confidence_bounded(edges: Seq<Edge>)
    ensures
        confidence_spec(edges) <= 100,
        edges.len() > 0 ==> confidence_spec(edges) >= 25,
{
    lemma_certainty_bound(edges, EdgeCertainty::Definite);
    let t = certainty_count(edges, EdgeCertainty::Definite) + certainty_count(edges, EdgeCertainty::Confirmed);
    let i = certainty_count(edges, EdgeCertainty::Inferred);
    let p = certainty_count(edges, EdgeCertainty::Possible);
    if t + i + p > 0 {
        lemma_div_between((t * 100 + i * 55 + p * 25) as int, (t + i + p) as int, 25, 100);
    }
}

/// A graph whose edges are all definite or confirmed scores 100.
pub proof fn law_confidence_all_trusted(edges: Seq<Edge>)
    requires
        edges.len() > 0,
        forall|k: int|
            0 <= k < edges.len() ==> (#[trigger] edges[k]).certainty == EdgeCertainty::Definite || edges[k].certainty
                == EdgeCertainty::Confirmed,
    ensures
        confidence_spec(edges) == 100,
    decreases edges.len(),
{
    lemma_untrusted_zero(edges);
    lemma_certainty_bound(edges, EdgeCertainty::Definite);
    let t = certainty_count(edges, EdgeCertainty::Definite) + certainty_count(edges, EdgeCertainty::Confirmed);
    lemma_div_between((t * 100) as int, t as int, 100, 100);
}

proof fn lemma_untrusted_zero(edges: Seq<Edge>)
    requires
        forall|k: int|
            0 <= k < edges.len() ==> (#[trigger] edges[k]).certainty == EdgeCertainty::Definite || edges[k].certainty
                == EdgeCertainty::Confirmed,
    ensures
        certainty_count(edges, EdgeCertainty::Inferred) == 0,
        certainty_count(edges, EdgeCertainty::Possible) == 0,
    decreases edges.len(),
{
    if edges.len() > 0 {
        assert(edges.last() == edges[edges.len() - 1]);
        lemma_untrusted_zero(edges.drop_last());
    }
}

// ---------------------------------------------------------------------------
// MIR call edges
// ---------------------------------------------------------------------------

/// Recording the same call a second time confirms the edge the first made
/// or met and adds no edge.
pub proof fn law_mir_record_twice(
    e0: Seq<Edge>,
    e1: Seq<Edge>,
    e2: Seq<Edge>,
    from: Seq<char>,
    to: Seq<char>,
    label1: Seq<char>,
    label2: Seq<char>,
    profile1: Seq<char>,
    profile2: Seq<char>,
    r1: EdgeResult,
    r2: EdgeResult,
)
    requires
        from != to,
        mir_edge_recorded(e0, e1, from, to, label1, profile1, r1),
        mir_edge_recorded(e1, e2, from, to, label2, profile2, r2),
    ensures
        r2 is Confirmed,
        e2.len() == e1.len(),
        e1.len() <= e0.len() + 1,
{
    if has_call(e0, from, to) {
        let k = choose|k: int| #![trigger is_first_call(e0, from, to, k)] is_first_call(e0, from, to, k) && {
            let e = e0[k];
            let f = e1[k];
            &&& e1.len() == e0.len()
            &&& forall|j: int| 0 <= j < e0.len() && j != k ==> e1[j] == e0[j]
            &&& f.from == e.from && f.to == e.to && f.kind == e.kind && f.label == e.label && f.evidence == e.evidence
            &&& f.call_style == e.call_style
            &&& f.weight == (if e.weight < usize::MAX { e.weight + 1 } else { e.weight as int })
            &&& f.source == crate::model::EdgeSource::Mir
            &&& f.certainty == EdgeCertainty::Confirmed
            &&& crate::mir::profiles_view(f.profiles@) == if crate::mir::profiles_view(e.profiles@).contains(profile1) {
                crate::mir::profiles_view(e.profiles@)
            } else {
                crate::mir::profiles_view(e.profiles@).push(profile1)
            }
        };
        assert(e1[k].from@ == from && e1[k].to@ == to && e1[k].kind == EdgeKind::Calls);
        assert(has_call(e1, from, to));
    } else {
        let k = e1.len() - 1;
        assert(e1[k] == e1.last());
        assert(has_call(e1, from, to));
    }
}

// ---------------------------------------------------------------------------
// Export
// ---------------------------------------------------------------------------

/// Text without quotes or backslashes is written as it is.
pub proof fn law_escape_plain_text(s: Seq<char>)
    requires
        forall|i: int| 0 <= i < s.len() ==> s[i] != '"' && s[i] != '\\',
    ensures
        escape_spec(s) == s,
    decreases s.len(),
{
    if s.len() > 0 {
        law_escape_plain_text(s.drop_last());
        assert(s.last() == s[s.len() - 1]);
        assert(s.drop_last().push(s.last()) =~= s);
        assert(seq![s.last()] + Seq::empty() =~= seq![s.last()]);
        assert(s.drop_last() + seq![s.last()] =~= s);
    }
}

/// A Mermaid id has as many characters as the text it names, each an ASCII
/// letter, digit or underscore.
pub proof fn law_mermaid_id_charset(s: Seq<char>)
    ensures
        mermaid_id_spec(s).len() == s.len(),
        forall|i: int|
            0 <= i < s.len() ==> is_ascii_alnum(#[trigger] mermaid_id_spec(s)[i]) || mermaid_id_spec(s)[i] == '_',
{
}

// ---------------------------------------------------------------------------
// Names and signatures
// ---------------------------------------------------------------------------

proof fn lemma_agree_symmetric(a: Seq<char>, b: Seq<char>, k: int)
    ensures
        agree_count(a, b, k) == agree_count(b, a, k),
    decreases k,
{
    if k > 0 {
        lemma_agree_symmetric(a, b, k - 1);
    }
}

proof fn lemma_agree_self(a: Seq<char>, k: int)
    requires
        k >= 0,
    ensures
        agree_count(a, a, k) == k,
    decreases k,
{
    if k > 0 {
        lemma_agree_self(a, k - 1);
    }
}

/// Signature similarity does not depend on the order of the two signatures,
/// and a signature agrees with itself on every keyword.
pub proof fn law_signature_similarity(a: Seq<char>, b: Seq<char>)
    ensures
        sig_similarity(a, b) == sig_similarity(b, a),
        a.len() > 0 ==> sig_similarity(a, a) == 20,
        sig_similarity(a, b) <= 20,
{
    lemma_agree_symmetric(a, b, 20);
    lemma_agree_self(a, 20);
    lemma_agree_bound(a, b, 20);
}

proof fn lemma_agree_bound(a: Seq<char>, b: Seq<char>, k: int)
    requires
        k >= 0,
    ensures
        agree_count(a, b, k) <= k,
    decreases k,
{
    if k > 0 {
        lemma_agree_bound(a, b, k - 1);
    }
}

proof fn lemma_lev_self(a: Seq<char>, i: int)
    requires
        0 <= i <= a.len(),
    ensures
        lev(a, a, i, i) == 0,
    decreases i,
{
    if i > 0 {
        lemma_lev_self(a, i - 1);
    }
}

proof fn lemma_lev_symmetric(a: Seq<char>, b: Seq<char>, i: int, j: int)
    requires
        i >= 0,
        j >= 0,
    ensures
        lev(a, b, i, j) == lev(b, a, j, i),
    decreases i + j,
{
    if i > 0 && j > 0 {
        lemma_lev_symmetric(a, b, i - 1, j);
        lemma_lev_symmetric(a, b, i, j - 1);
        lemma_lev_symmetric(a, b, i - 1, j - 1);
    }
}

proof fn lemma_lev_lower(a: Seq<char>, b: Seq<char>, i: int, j: int)
    requires
        i >= 0,
        j >= 0,
    ensures
        i - j <= lev(a, b, i, j),
        j - i <= lev(a, b, i, j),
    decreases i + j,
{
    if i > 0 && j > 0 {
        lemma_lev_lower(a, b, i - 1, j);
        lemma_lev_lower(a, b, i, j - 1);
        lemma_lev_lower(a, b, i - 1, j - 1);
    }
}

proof fn lemma_lev_zero(a: Seq<char>, b: Seq<char>, i: int, j: int)
    requires
        0 <= i <= a.len(),
        0 <= j <= b.len(),
        lev(a, b, i, j) == 0,
    ensures
        i == j,
        a.take(i) == b.take(j),
    decreases i + j,
{
    if i > 0 && j > 0 {
        lemma_lev_zero(a, b, i - 1, j - 1);
        assert(a.take(i) =~= a.take(i - 1).push(a[i - 1]));
        assert(b.take(j) =~= b.take(j - 1).push(b[j - 1]));
    } else {
        assert(a.take(0) =~= b.take(0));
    }
}

/// Edit distance does not depend on the order of the two names; it is 0
/// exactly between equal names; and it lies between the difference of their
/// lengths and the larger length.
pub proof fn law_edit_distance(a: Seq<char>, b: Seq<char>)
    ensures
        edit_distance(a, b) == edit_distance(b, a),
        edit_distance(a, b) == 0 <==> a == b,
        a.len() - b.len() <= edit_distance(a, b),
        b.len() - a.len() <= edit_distance(a, b),
        edit_distance(a, b) <= if a.len() >= b.len() {
            a.len()
        } else {
            b.len()
        },
{
    lemma_lev_symmetric(a, b, a.len() as int, b.len() as int);
    lemma_lev_lower(a, b, a.len() as int, b.len() as int);
    crate::query::lemma_lev_bound(a, b, a.len() as int, b.len() as int);
    if edit_distance(a, b) == 0 {
        lemma_lev_zero(a, b, a.len() as int, b.len() as int);
        assert(a.take(a.len() as int) =~= a);
        assert(b.take(b.len() as int) =~= b);
    }
    if a == b {
        lemma_lev_self(a, a.len() as int);
    }
}

/// A name that some node matches exactly (by id or qualified name) designates
/// only such nodes: exact matches win over short names and suffixes.
pub proof fn law_exact_match_wins(graph: CodeGraph, name: Seq<char>, q: int)
    requires
        0 <= q < graph.nodes.len(),
        exact_match(graph.nodes@[q], name),
    ensures
        find_nodes_spec(graph.nodes@, name).len() > 0,
        forall|i: int|
            0 <= i < find_nodes_spec(graph.nodes@, name).len() ==> exact_match(
                graph.nodes@[find_nodes_spec(graph.nodes@, name)[i] as int],
                name,
            ),
{
    let nodes = graph.nodes@;
    let f = |n: Node| exact_match(n, name);
    crate::seqs::lemma_select_members(nodes, nodes.len() as int, f);
    assert(f(nodes[q]));
    assert(crate::seqs::select(nodes, nodes.len() as int, f).contains(q as usize));
}

// ---------------------------------------------------------------------------
// Clusters and reading order
// ---------------------------------------------------------------------------

proof fn lemma_stats_empty(graph: CodeGraph, key: Seq<char>, n: int)
    requires
        0 <= n <= graph.nodes.len(),
        cluster_stats(graph, key, n).1 == 0,
    ensures
        forall|q: int| 0 <= q < n ==> !in_cluster(graph.nodes@, key, q),
    decreases n,
{
    if n > 0 {
        lemma_stats_empty(graph, key, n - 1);
    }
}

/// A cluster holds no more files and no more symbols than nodes, and at least
/// one file as soon as it holds a node.
pub proof fn law_cluster_counts(graph: CodeGraph, key: Seq<char>, n: int)
    requires
        0 <= n <= graph.nodes.len(),
    ensures
        cluster_stats(graph, key, n).0 <= cluster_stats(graph, key, n).1,
        cluster_stats(graph, key, n).2 <= cluster_stats(graph, key, n).1,
        cluster_stats(graph, key, n).1 > 0 ==> cluster_stats(graph, key, n).0 >= 1,
    decreases n,
{
    if n > 0 {
        law_cluster_counts(graph, key, n - 1);
        let p = n - 1;
        if in_cluster(graph.nodes@, key, p) && cluster_stats(graph, key, n - 1).1 == 0 {
            lemma_stats_empty(graph, key, n - 1);
            assert(new_file(graph.nodes@, key, p));
        }
    }
}

proof fn lemma_push_unique(nodes: Seq<Node>, items: Seq<(Seq<char>, usize)>, p: usize, reason: Seq<char>)
    requires
        keys_of(nodes, items).no_duplicates(),
    ensures
        keys_of(nodes, push_read_spec(nodes, items, p, reason)).no_duplicates(),
{
    let after = push_read_spec(nodes, items, p, reason);
    if after != items {
        assert(after.drop_last() =~= items);
        let ks = keys_of(nodes, after);
        assert(ks == keys_of(nodes, items).push(crate::ai::read_key(nodes[p as int])));
        assert forall|a: int, b: int| 0 <= a < ks.len() && 0 <= b < ks.len() && a != b implies ks[a] != ks[b] by {
            let old = keys_of(nodes, items);
            if a < old.len() && b < old.len() {
                assert(ks[a] == old[a] && ks[b] == old[b]);
            } else if a == old.len() {
                assert(ks[b] == old[b]);
                assert(old.contains(old[b]));
            } else {
                assert(ks[a] == old[a]);
                assert(old.contains(old[a]));
            }
        }
    }
}

proof fn lemma_push_all_unique(nodes: Seq<Node>, items: Seq<(Seq<char>, usize)>, ps: Seq<usize>, reason: Seq<char>)
    requires
        keys_of(nodes, items).no_duplicates(),
    ensures
        keys_of(nodes, push_all_spec(nodes, items, ps, reason)).no_duplicates(),
    decreases ps.len(),
{
    if ps.len() > 0 {
        lemma_push_all_unique(nodes, items, ps.drop_last(), reason);
        lemma_push_unique(nodes, push_all_spec(nodes, items, ps.drop_last(), reason), ps.last(), reason);
    }
}

proof fn lemma_fold_unique(graph: CodeGraph, roots: Seq<usize>, limit: nat)
    ensures
        keys_of(graph.nodes@, read_fold(graph, roots, limit)).no_duplicates(),
    decreases roots.len(),
{
    if roots.len() > 0 {
        lemma_fold_unique(graph, roots.drop_last(), limit);
        let prev = read_fold(graph, roots.drop_last(), limit);
        if prev.len() < limit {
            let c = roots.last();
            lemma_push_unique(graph.nodes@, prev, c, "root"@);
            let first = push_read_spec(graph.nodes@, prev, c, "root"@);
            let ds = crate::ai::dep_nodes(graph, crate::index::edges_at(graph.edges@, graph.nodes@[c as int].id@, true));
            lemma_push_all_unique(graph.nodes@, first, first_n(ds, limit), "direct dependency"@);
        }
    }
}

proof fn lemma_keys_take(nodes: Seq<Node>, items: Seq<(Seq<char>, usize)>, n: int)
    requires
        0 <= n <= items.len(),
    ensures
        keys_of(nodes, items.take(n)) == keys_of(nodes, items).take(n),
        keys_of(nodes, items).len() == items.len(),
    decreases items.len(),
{
    if items.len() > 0 {
        lemma_keys_take(nodes, items.drop_last(), if n < items.len() { n } else { items.len() - 1 });
        if n < items.len() {
            assert(items.drop_last().take(n) =~= items.take(n));
            assert(keys_of(nodes, items).drop_last() == keys_of(nodes, items.drop_last()));
            assert(keys_of(nodes, items.drop_last()).take(n) =~= keys_of(nodes, items).take(n));
        } else {
            assert(items.take(n) =~= items);
            assert(keys_of(nodes, items).take(n) =~= keys_of(nodes, items));
        }
    } else {
        assert(items.take(n) =~= items);
    }
}

/// A reading order never lists two items read at the same place (file and
/// first line), nor more items than its limit.
pub proof fn law_read_order_places_unique(graph: CodeGraph, roots: Seq<usize>, limit: nat)
    ensures
        keys_of(graph.nodes@, read_order_spec(graph, roots, limit)).no_duplicates(),
        read_order_spec(graph, roots, limit).len() <= limit,
{
    lemma_fold_unique(graph, roots, limit);
    let all = read_fold(graph, roots, limit);
    if all.len() > limit {
        lemma_keys_take(graph.nodes@, all, limit as int);
        let ks = keys_of(graph.nodes@, all);
        assert forall|a: int, b: int|
            0 <= a < ks.take(limit as int).len() && 0 <= b < ks.take(limit as int).len() && a != b implies ks.take(
            limit as int,
        )[a] != ks.take(limit as int)[b] by {
            assert(ks.take(limit as int)[a] == ks[a]);
            assert(ks.take(limit as int)[b] == ks[b]);
        }
    }
}

// ---------------------------------------------------------------------------
// Node ids
// ---------------------------------------------------------------------------

/// Two ids handed out one after the other (each the first free one for its
/// base, the first then claimed) differ, whatever their bases: an id once
/// given is never given again.
pub proof fn law_ids_never_repeat(
    taken: Set<Seq<char>>,
    base1: Seq<char>,
    id1: Seq<char>,
    base2: Seq<char>,
    id2: Seq<char>,
)
    requires
        is_first_free(base1, taken, id1),
        is_first_free(base2, taken.insert(id1), id2),
    ensures
        id1 != id2,
        !taken.contains(id1),
        !taken.contains(id2),
{
    let k2 = choose|k: nat| #![trigger crate::builder::id_candidate(base2, k)] k >= 1 && id2 == crate::builder::id_candidate(base2, k)
        && !taken.insert(id1).contains(id2) && forall|j: nat|
        1 <= j < k ==> taken.insert(id1).contains(crate::builder::id_candidate(base2, j));
    assert(!taken.insert(id1).contains(id2));
}

// ---------------------------------------------------------------------------
// Names
// ---------------------------------------------------------------------------

/// Each node kind has a name of its own: kinds with the same name are the
/// same kind.
#[verifier::rlimit(60)]
pub proof fn law_node_kind_names_distinct(k1: NodeKind, k2: NodeKind)
    ensures
        k1.name_spec() == k2.name_spec() ==> k1 == k2,
{
    reveal_strlit("project");
    reveal_strlit("crate");
    reveal_strlit("file");
    reveal_strlit("module");
    reveal_strlit("function");
    reveal_strlit("method");
    reveal_strlit("constructor");
    reveal_strlit("variable");
    reveal_strlit("field");
    reveal_strlit("property");
    reveal_strlit("struct");
    reveal_strlit("enum");
    reveal_strlit("enum_member");
    reveal_strlit("trait");
    reveal_strlit("impl");
    reveal_strlit("type_alias");
    reveal_strlit("type_parameter");
    reveal_strlit("const");
    reveal_strlit("static");
    reveal_strlit("macro");
    reveal_strlit("unknown");
    if k1.name_spec() == k2.name_spec() {
        assert(k1.name_spec().len() == k2.name_spec().len());
        assert(k1.name_spec()[0] == k2.name_spec()[0]);
        assert(k1.name_spec()[2] == k2.name_spec()[2]);
        match k1 {
            NodeKind::Project => assert(k2 == NodeKind::Project),
            NodeKind::Crate => assert(k2 == NodeKind::Crate),
            NodeKind::File => assert(k2 == NodeKind::File),
            NodeKind::Module => assert(k2 == NodeKind::Module),
            NodeKind::Function => assert(k2 == NodeKind::Function),
            NodeKind::Method => assert(k2 == NodeKind::Method),
            NodeKind::Constructor => assert(k2 == NodeKind::Constructor),
            NodeKind::Variable => assert(k2 == NodeKind::Variable),
            NodeKind::Field => assert(k2 == NodeKind::Field),
            NodeKind::Property => assert(k2 == NodeKind::Property),
            NodeKind::Struct => assert(k2 == NodeKind::Struct),
            NodeKind::Enum => assert(k2 == NodeKind::Enum),
            NodeKind::EnumMember => assert(k2 == NodeKind::EnumMember),
            NodeKind::Trait => assert(k2 == NodeKind::Trait),
            NodeKind::Impl => assert(k2 == NodeKind::Impl),
            NodeKind::TypeAlias => assert(k2 == NodeKind::TypeAlias),
            NodeKind::TypeParameter => assert(k2 == NodeKind::TypeParameter),
            NodeKind::Const => assert(k2 == NodeKind::Const),
            NodeKind::Static => assert(k2 == NodeKind::Static),
            NodeKind::Macro => assert(k2 == NodeKind::Macro),
            NodeKind::Unknown => assert(k2 == NodeKind::Unknown),
        }
    }
}

// ---------------------------------------------------------------------------
// Statistics
// ---------------------------------------------------------------------------

/// Sum of the counts of `(name, count)` pairs.
pub open spec fn tally_sum(t: Seq<(Seq<char>, nat)>) -> nat
    decreases t.len(),
{
    if t.len() == 0 {
        0
    } else {
        tally_sum(t.drop_last()) + t.last().1
    }
}

pub open spec fn nat_sum(c: Seq<nat>) -> nat
    decreases c.len(),
{
    if c.len() == 0 {
        0
    } else {
        nat_sum(c.drop_last()) + c.last()
    }
}

proof fn lemma_tally(names: Seq<Seq<char>>, counts: Seq<nat>)
    requires
        names.len() == counts.len(),
    ensures
        forall|i: int| 0 <= i < tally(names, counts).len() ==> #[trigger] tally(names, counts)[i].1 > 0,
        tally_sum(tally(names, counts)) == nat_sum(counts),
    decreases names.len(),
{
    if names.len() > 0 {
        lemma_tally(names.drop_last(), counts.drop_last());
        let rest = tally(names.drop_last(), counts.drop_last());
        if counts.last() > 0 {
            assert(tally(names, counts).drop_last() =~= rest);
        }
    }
}

/// How many of the first `m` kinds in name order are `k`.
spec fn kind_hits(k: NodeKind, m: int) -> nat
    decreases m,
{
    if m <= 0 {
        0
    } else {
        kind_hits(k, m - 1) + if alpha_node_kind(m - 1) == k {
            1nat
        } else {
            0nat
        }
    }
}

proof fn lemma_kind_hits(k: NodeKind)
    ensures
        kind_hits(k, 21) == 1,
{
    reveal_with_fuel(kind_hits, 22);
}

/// Nodes counted over the first `m` kinds in name order.
spec fn kinds_total(nodes: Seq<Node>, m: int) -> nat
    decreases m,
{
    if m <= 0 {
        0
    } else {
        kinds_total(nodes, m - 1) + count_node_kind(nodes, alpha_node_kind(m - 1))
    }
}

proof fn lemma_kinds_total_step(nodes: Seq<Node>, m: int)
    requires
        nodes.len() > 0,
    ensures
        kinds_total(nodes, m) == kinds_total(nodes.drop_last(), m) + kind_hits(nodes.last().kind, m),
    decreases m,
{
    if m > 0 {
        lemma_kinds_total_step(nodes, m - 1);
    }
}

proof fn lemma_kinds_total_empty(nodes: Seq<Node>, m: int)
    requires
        nodes.len() == 0,
    ensures
        kinds_total(nodes, m) == 0,
    decreases m,
{
    if m > 0 {
        lemma_kinds_total_empty(nodes, m - 1);
    }
}

proof fn lemma_kinds_total(nodes: Seq<Node>)
    ensures
        kinds_total(nodes, 21) == nodes.len(),
    decreases nodes.len(),
{
    if nodes.len() == 0 {
        lemma_kinds_total_empty(nodes, 21);
    } else {
        lemma_kinds_total(nodes.drop_last());
        lemma_kinds_total_step(nodes, 21);
        lemma_kind_hits(nodes.last().kind);
    }
}

proof fn lemma_kind_counts_sum(nodes: Seq<Node>, m: int)
    requires
        0 <= m <= 21,
    ensures
        nat_sum(Seq::new(m as nat, |i: int| count_node_kind(nodes, alpha_node_kind(i)))) == kinds_total(nodes, m),
    decreases m,
{
    if m > 0 {
        lemma_kind_counts_sum(nodes, m - 1);
        assert(Seq::new(m as nat, |i: int| count_node_kind(nodes, alpha_node_kind(i))).drop_last() =~= Seq::new(
            (m - 1) as nat,
            |i: int| count_node_kind(nodes, alpha_node_kind(i)),
        ));
    }
}

/// How many of the first `m` edge kinds in name order are `k`.
spec fn edge_kind_hits(k: EdgeKind, m: int) -> nat
    decreases m,
{
    if m <= 0 {
        0
    } else {
        edge_kind_hits(k, m - 1) + if crate::model::alpha_edge_kind(m - 1) == k {
            1nat
        } else {
            0nat
        }
    }
}

proof fn lemma_edge_kind_hits(k: EdgeKind)
    ensures
        edge_kind_hits(k, 10) == 1,
{
    reveal_with_fuel(edge_kind_hits, 11);
}

/// Edges counted over the first `m` edge kinds in name order.
spec fn edge_kind_total(edges: Seq<Edge>, m: int) -> nat
    decreases m,
{
    if m <= 0 {
        0
    } else {
        edge_kind_total(edges, m - 1) + crate::model::count_edge_kind(edges, crate::model::alpha_edge_kind(m - 1))
    }
}

proof fn lemma_edge_kind_total_step(edges: Seq<Edge>, m: int)
    requires
        edges.len() > 0,
    ensures
        edge_kind_total(edges, m) == edge_kind_total(edges.drop_last(), m) + edge_kind_hits(edges.last().kind, m),
    decreases m,
{
    if m > 0 {
        lemma_edge_kind_total_step(edges, m - 1);
    }
}

proof fn lemma_edge_kind_total_empty(edges: Seq<Edge>, m: int)
    requires
        edges.len() == 0,
    ensures
        edge_kind_total(edges, m) == 0,
    decreases m,
{
    if m > 0 {
        lemma_edge_kind_total_empty(edges, m - 1);
    }
}

proof fn lemma_edge_kind_total(edges: Seq<Edge>)
    ensures
        edge_kind_total(edges, 10) == edges.len(),
    decreases edges.len(),
{
    if edges.len() == 0 {
        lemma_edge_kind_total_empty(edges, 10);
    } else {
        lemma_edge_kind_total(edges.drop_last());
        lemma_edge_kind_total_step(edges, 10);
        lemma_edge_kind_hits(edges.last().kind);
    }
}

proof fn lemma_edge_kind_counts_sum(edges: Seq<Edge>, m: int)
    requires
        0 <= m <= 10,
    ensures
        nat_sum(Seq::new(m as nat, |i: int| crate::model::count_edge_kind(edges, crate::model::alpha_edge_kind(i)))) == edge_kind_total(edges, m),
    decreases m,
{
    if m > 0 {
        lemma_edge_kind_counts_sum(edges, m - 1);
        assert(Seq::new(m as nat, |i: int| crate::model::count_edge_kind(edges, crate::model::alpha_edge_kind(i))).drop_last() =~= Seq::new(
            (m - 1) as nat,
            |i: int| crate::model::count_edge_kind(edges, crate::model::alpha_edge_kind(i)),
        ));
    }
}

/// How many of the first `m` edge sources in name order are `k`.
spec fn source_hits(k: EdgeSource, m: int) -> nat
    decreases m,
{
    if m <= 0 {
        0
    } else {
        source_hits(k, m - 1) + if crate::model::alpha_source(m - 1) == k {
            1nat
        } else {
            0nat
        }
    }
}

proof fn lemma_source_hits(k: EdgeSource)
    ensures
        source_hits(k, 4) == 1,
{
    reveal_with_fuel(source_hits, 5);
}

/// Edges counted over the first `m` edge sources in name order.
spec fn source_total(edges: Seq<Edge>, m: int) -> nat
    decreases m,
{
    if m <= 0 {
        0
    } else {
        source_total(edges, m - 1) + crate::model::count_edge_source(edges, crate::model::alpha_source(m - 1))
    }
}

proof fn lemma_source_total_step(edges: Seq<Edge>, m: int)
    requires
        edges.len() > 0,
    ensures
        source_total(edges, m) == source_total(edges.drop_last(), m) + source_hits(edges.last().source, m),
    decreases m,
{
    if m > 0 {
        lemma_source_total_step(edges, m - 1);
    }
}

proof fn lemma_source_total_empty(edges: Seq<Edge>, m: int)
    requires
        edges.len() == 0,
    ensures
        source_total(edges, m) == 0,
    decreases m,
{
    if m > 0 {
        lemma_source_total_empty(edges, m - 1);
    }
}

proof fn lemma_source_total(edges: Seq<Edge>)
    ensures
        source_total(edges, 4) == edges.len(),
    decreases edges.len(),
{
    if edges.len() == 0 {
        lemma_source_total_empty(edges, 4);
    } else {
        lemma_source_total(edges.drop_last());
        lemma_source_total_step(edges, 4);
        lemma_source_hits(edges.last().source);
    }
}

proof fn lemma_source_counts_sum(edges: Seq<Edge>, m: int)
    requires
        0 <= m <= 4,
    ensures
        nat_sum(Seq::new(m as nat, |i: int| crate::model::count_edge_source(edges, crate::model::alpha_source(i)))) == source_total(edges, m),
    decreases m,
{
    if m > 0 {
        lemma_source_counts_sum(edges, m - 1);
        assert(Seq::new(m as nat, |i: int| crate::model::count_edge_source(edges, crate::model::alpha_source(i))).drop_last() =~= Seq::new(
            (m - 1) as nat,
            |i: int| crate::model::count_edge_source(edges, crate::model::alpha_source(i)),
        ));
    }
}

/// How many of the first `m` certainties in name order are `k`.
spec fn certainty_hits(k: EdgeCertainty, m: int) -> nat
    decreases m,
{
    if m <= 0 {
        0
    } else {
        certainty_hits(k, m - 1) + if crate::model::alpha_certainty(m - 1) == k {
            1nat
        } else {
            0nat
        }
    }
}

proof fn lemma_certainty_hits(k: EdgeCertainty)
    ensures
        certainty_hits(k, 4) == 1,
{
    reveal_with_fuel(certainty_hits, 5);
}

/// Edges counted over the first `m` certainties in name order.
spec fn certainty_total(edges: Seq<Edge>, m: int) -> nat
    decreases m,
{
    if m <= 0 {
        0
    } else {
        certainty_total(edges, m - 1) + crate::model::count_edge_certainty(edges, crate::model::alpha_certainty(m - 1))
    }
}

proof fn lemma_certainty_total_step(edges: Seq<Edge>, m: int)
    requires
        edges.len() > 0,
    ensures
        certainty_total(edges, m) == certainty_total(edges.drop_last(), m) + certainty_hits(edges.last().certainty, m),
    decreases m,
{
    if m > 0 {
        lemma_certainty_total_step(edges, m - 1);
    }
}

proof fn lemma_certainty_total_empty(edges: Seq<Edge>, m: int)
    requires
        edges.len() == 0,
    ensures
        certainty_total(edges, m) == 0,
    decreases m,
{
    if m > 0 {
        lemma_certainty_total_empty(edges, m - 1);
    }
}

proof fn lemma_certainty_total(edges: Seq<Edge>)
    ensures
        certainty_total(edges, 4) == edges.len(),
    decreases edges.len(),
{
    if edges.len() == 0 {
        lemma_certainty_total_empty(edges, 4);
    } else {
        lemma_certainty_total(edges.drop_last());
        lemma_certainty_total_step(edges, 4);
        lemma_certainty_hits(edges.last().certainty);
    }
}

proof fn lemma_certainty_counts_sum(edges: Seq<Edge>, m: int)
    requires
        0 <= m <= 4,
    ensures
        nat_sum(Seq::new(m as nat, |i: int| crate::model::count_edge_certainty(edges, crate::model::alpha_certainty(i)))) == certainty_total(edges, m),
    decreases m,
{
    if m > 0 {
        lemma_certainty_counts_sum(edges, m - 1);
        assert(Seq::new(m as nat, |i: int| crate::model::count_edge_certainty(edges, crate::model::alpha_certainty(i))).drop_last() =~= Seq::new(
            (m - 1) as nat,
            |i: int| crate::model::count_edge_certainty(edges, crate::model::alpha_certainty(i)),
        ));
    }
}

/// The node counts per kind in the statistics add up to the number of nodes,
/// the edge counts per kind, per source and per certainty each add up to the
/// number of edges, and no kind, edge kind, source or certainty is listed with
/// a count of zero.
pub proof fn law_stats_counts(graph: CodeGraph)
    ensures
        tally_sum(by_kind_spec(graph.nodes@)) == graph.nodes@.len(),
        tally_sum(by_edge_spec(graph.edges@)) == graph.edges@.len(),
        tally_sum(by_source_spec(graph.edges@)) == graph.edges@.len(),
        tally_sum(by_certainty_spec(graph.edges@)) == graph.edges@.len(),
        forall|i: int| 0 <= i < by_kind_spec(graph.nodes@).len() ==> #[trigger] by_kind_spec(graph.nodes@)[i].1 > 0,
        forall|i: int| 0 <= i < by_edge_spec(graph.edges@).len() ==> #[trigger] by_edge_spec(graph.edges@)[i].1 > 0,
        forall|i: int| 0 <= i < by_source_spec(graph.edges@).len() ==> #[trigger] by_source_spec(graph.edges@)[i].1 > 0,
        forall|i: int|
            0 <= i < by_certainty_spec(graph.edges@).len() ==> #[trigger] by_certainty_spec(graph.edges@)[i].1 > 0,
{
    let nodes = graph.nodes@;
    let edges = graph.edges@;
    lemma_tally(
        Seq::new(21, |i: int| alpha_node_kind(i).name_spec()),
        Seq::new(21, |i: int| count_node_kind(nodes, alpha_node_kind(i))),
    );
    lemma_kind_counts_sum(nodes, 21);
    lemma_kinds_total(nodes);
    lemma_tally(
        Seq::new(10, |i: int| crate::model::alpha_edge_kind(i).name_spec()),
        Seq::new(10, |i: int| crate::model::count_edge_kind(edges, crate::model::alpha_edge_kind(i))),
    );
    lemma_tally(
        Seq::new(4, |i: int| crate::model::alpha_source(i).name_spec()),
        Seq::new(4, |i: int| crate::model::count_edge_source(edges, crate::model::alpha_source(i))),
    );
    lemma_tally(
        Seq::new(4, |i: int| crate::model::alpha_certainty(i).name_spec()),
        Seq::new(4, |i: int| crate::model::count_edge_certainty(edges, crate::model::alpha_certainty(i))),
    );
    lemma_edge_kind_counts_sum(edges, 10);
    lemma_edge_kind_total(edges);
    lemma_source_counts_sum(edges, 4);
    lemma_source_total(edges);
    lemma_certainty_counts_sum(edges, 4);
    lemma_certainty_total(edges);
}

// ---------------------------------------------------------------------------
// Compacting whitespace
// ---------------------------------------------------------------------------

/// Every whitespace character of `r` is a plain space followed by a
/// character that is not whitespace.
pub open spec fn single_spaced(r: Seq<char>) -> bool {
    forall|i: int| 0 <= i < r.len() && #[trigger] is_white(r[i]) ==> r[i] == ' ' && i + 1 < r.len() && !is_white(r[i + 1])
}

/// Text as compacting leaves it: no whitespace at either end, and inside
/// only single spaces.
pub open spec fn compacted(r: Seq<char>) -> bool {
    single_spaced(r) && (r.len() > 0 ==> !is_white(r[0]))
}

proof fn lemma_compact_from_shape(s: Seq<char>, k: int, pending: bool, started: bool)
    requires
        0 <= k <= s.len(),
        pending ==> started,
    ensures
        single_spaced(compact_from(s, k, pending, started)),
        !started ==> (compact_from(s, k, pending, started).len() > 0 ==> !is_white(
            compact_from(s, k, pending, started)[0],
        )),
    decreases s.len() - k,
{
    if k < s.len() {
        if is_white(s[k]) {
            lemma_compact_from_shape(s, k + 1, started, started);
        } else {
            lemma_compact_from_shape(s, k + 1, false, true);
            let rest = compact_from(s, k + 1, false, true);
            let pre: Seq<char> = if pending {
                seq![' ']
            } else {
                Seq::empty()
            };
            let r = pre + seq![s[k]] + rest;
            assert(r == compact_from(s, k, pending, started));
            let p = pre.len() as int;
            assert forall|i: int| 0 <= i < r.len() && #[trigger] is_white(r[i]) implies r[i] == ' ' && i + 1 < r.len()
                && !is_white(r[i + 1]) by {
                if i < p {
                    assert(r[i] == ' ');
                    assert(r[i + 1] == s[k]);
                } else if i == p {
                    assert(r[i] == s[k]);
                } else {
                    assert(r[i] == rest[i - p - 1]);
                    assert(is_white(rest[i - p - 1]));
                    assert(r[i + 1] == rest[i - p]);
                }
            }
        }
    }
}

proof fn lemma_compact_fixed(t: Seq<char>, k: int)
    requires
        compacted(t),
        0 <= k <= t.len(),
        k == 0 || !is_white(t[k - 1]),
    ensures
        compact_from(t, k, false, k > 0) == t.skip(k),
    decreases t.len() - k,
{
    if k < t.len() {
        if is_white(t[k]) {
            assert(k > 0);
            assert(t[k] == ' ' && k + 1 < t.len() && !is_white(t[k + 1]));
            lemma_compact_fixed(t, k + 2);
            assert(compact_from(t, k + 1, true, true) == seq![' '] + seq![t[k + 1]] + compact_from(t, k + 2, false, true));
            assert(t.skip(k) =~= seq![' '] + seq![t[k + 1]] + t.skip(k + 2));
        } else {
            lemma_compact_fixed(t, k + 1);
            assert(t.skip(k) =~= seq![t[k]] + t.skip(k + 1));
        }
    } else {
        assert(t.skip(k) =~= Seq::<char>::empty());
    }
}

/// Compacted text has no whitespace at either end and only single spaces
/// inside, so compacting it again changes nothing.
pub proof fn law_compact_idempotent(s: Seq<char>)
    ensures
        compacted(compact_spec(s)),
        compact_spec(compact_spec(s)) == compact_spec(s),
{
    lemma_compact_from_shape(s, 0, false, false);
    let t = compact_spec(s);
    lemma_compact_fixed(t, 0);
    assert(t.skip(0) =~= t);
}

// ---------------------------------------------------------------------------
// Recording edges
// ---------------------------------------------------------------------------

/// No two edges share their ends and kind, and no edge leads back to where it
/// starts.
pub open spec fn edges_keyed(edges: Seq<Edge>) -> bool {
    &&& forall|i: int, j: int|
        0 <= i < j < edges.len() ==> !(#[trigger] edges[i].from@ == #[trigger] edges[j].from@ && edges[i].to@ == edges[j].to@
            && edges[i].kind == edges[j].kind)
    &&& forall|i: int| 0 <= i < edges.len() ==> (#[trigger] edges[i]).from@ != edges[i].to@
}

proof fn lemma_first_match(edges: Seq<Edge>, from: Seq<char>, to: Seq<char>, kind: EdgeKind, w: int)
    requires
        0 <= w < edges.len(),
        edge_matches(edges[w], from, to, kind),
    ensures
        exists|i: int| is_first_edge_match(edges, from, to, kind, i),
    decreases w,
{
    if exists|j: int| 0 <= j < w && edge_matches(#[trigger] edges[j], from, to, kind) {
        let j = choose|j: int| 0 <= j < w && edge_matches(#[trigger] edges[j], from, to, kind);
        lemma_first_match(edges, from, to, kind, j);
    } else {
        assert(is_first_edge_match(edges, from, to, kind, w));
    }
}

/// Recording an edge (`Builder::edge_with_source`) keeps the edges keyed by
/// their ends and kind and free of self-loops: it changes nothing for a
/// self-loop, bumps the one edge with the same key, or appends a new key.
pub proof fn law_recording_keeps_edges_keyed(
    before: Seq<Edge>,
    after: Seq<Edge>,
    from: Seq<char>,
    to: Seq<char>,
    kind: EdgeKind,
    label: Option<Seq<char>>,
    evidence: Option<crate::model::Location>,
    source: crate::model::EdgeSource,
    certainty: EdgeCertainty,
    call_style: Option<Seq<char>>,
    profile: Seq<char>,
)
    requires
        edges_keyed(before),
        edge_recorded(before, after, from, to, kind, label, evidence, source, certainty, call_style, profile),
    ensures
        edges_keyed(after),
{
    if from == to {
    } else if has_edge_match(before, from, to, kind) {
        let m = first_edge_match(before, from, to, kind);
        assert(is_first_edge_match(before, from, to, kind, m)) by {
            let w = choose|w: int| 0 <= w < before.len() && edge_matches(#[trigger] before[w], from, to, kind);
            lemma_first_match(before, from, to, kind, w);
        }
        assert forall|i: int| 0 <= i < after.len() implies after[i].from@ == before[i].from@ && after[i].to@
            == before[i].to@ && after[i].kind == before[i].kind by {
            if i != m {
                assert(after[i] == before[i]);
            }
        }
        assert forall|i: int, j: int|
            0 <= i < j < after.len() implies !(#[trigger] after[i].from@ == #[trigger] after[j].from@ && after[i].to@
            == after[j].to@ && after[i].kind == after[j].kind) by {
            assert(after[i].from@ == before[i].from@ && after[i].to@ == before[i].to@ && after[i].kind == before[i].kind);
            assert(after[j].from@ == before[j].from@ && after[j].to@ == before[j].to@ && after[j].kind == before[j].kind);
        }
        assert forall|i: int| 0 <= i < after.len() implies (#[trigger] after[i]).from@ != after[i].to@ by {
            assert(after[i].from@ == before[i].from@ && after[i].to@ == before[i].to@);
        }
    } else {
        assert forall|i: int, j: int|
            0 <= i < j < after.len() implies !(#[trigger] after[i].from@ == #[trigger] after[j].from@ && after[i].to@
            == after[j].to@ && after[i].kind == after[j].kind) by {
            if j == before.len() {
                assert(after[i] == before[i]);
                if after[i].from@ == after[j].from@ && after[i].to@ == after[j].to@ && after[i].kind == after[j].kind {
                    assert(edge_matches(before[i], from, to, kind));
                }
            } else {
                assert(after[i] == before[i] && after[j] == before[j]);
            }
        }
        assert forall|i: int| 0 <= i < after.len() implies (#[trigger] after[i]).from@ != after[i].to@ by {
            if i < before.len() {
                assert(after[i] == before[i]);
            }
        }
    }
}

// ---------------------------------------------------------------------------
// What names resolve to, what counts as a test, what is comparable, which way
// dependencies point, and what a partial name finds
// ---------------------------------------------------------------------------

/// A direct call (resolved with the callable strategy) can land on a
/// function, a method (such as `Type::method()`), a macro or a constructor,
/// and on nothing else.
pub proof fn law_direct_calls_reach_callables(k: NodeKind)
    ensures
        crate::resolve::admits(crate::builder::ResolutionStrategy::Callable, k) <==> (k == NodeKind::Function || k
            == NodeKind::Method || k == NodeKind::Macro || k == NodeKind::Constructor),
        crate::resolve::admits(crate::builder::ResolutionStrategy::Callable, NodeKind::Method),
{
}

/// A function or method that lives in a file whose path contains `test` is
/// test-like, whatever its name or signature: static discovery lists it, and
/// it is a test for the impact analysis.
pub proof fn law_functions_in_test_files_are_tests(n: Node)
    requires
        n.kind == NodeKind::Function || n.kind == NodeKind::Method,
        n.file matches Some(f) && crate::strs::contains_seq(f@, "test"@),
    ensures
        crate::test_impact::is_test_fn(n),
        (crate::test_impact::static_pick(None))(n),
{
}

/// Only nodes of the target's own kind are similar to it: every item of a
/// similarity listing (a node the listing picks for `t`) has `t`'s kind and
/// is not `t` itself.
pub proof fn law_similar_nodes_share_the_kind(graph: CodeGraph, t: Node, items: Seq<(usize, usize)>)
    requires
        forall|i: int|
            0 <= i < items.len() ==> (#[trigger] items[i]).1 < graph.nodes.len() && (crate::similar::similar_pick(
                graph.edges@,
                t,
            ))(graph.nodes@[items[i].1 as int]),
    ensures
        forall|i: int|
            0 <= i < items.len() ==> graph.nodes@[(#[trigger] items[i]).1 as int].kind == t.kind
                && graph.nodes@[items[i].1 as int].id@ != t.id@,
{
}

/// The edge's source node lies in a file of cluster `a` and its target node
/// in a file of cluster `b`.
pub open spec fn joins_clusters(nodes: Seq<Node>, e: Edge, a: Seq<char>, b: Seq<char>) -> bool {
    match (crate::deps::file_of(nodes, e.from@), crate::deps::file_of(nodes, e.to@)) {
        (Some(x), Some(y)) => crate::deps::cluster_key_spec(x) == a && crate::deps::cluster_key_spec(y) == b,
        _ => false,
    }
}

/// Some dependency edge joins the item's `from` cluster to its `to` cluster.
pub open spec fn joined_by_some_edge(nodes: Seq<Node>, edges: Seq<Edge>, it: crate::deps::DepItem) -> bool {
    exists|k: int|
        0 <= k < edges.len() && crate::refactor::is_dependency_kind((#[trigger] edges[k]).kind) && joins_clusters(
            nodes,
            edges[k],
            it.from@,
            it.to@,
        )
}

/// Dependencies point from the user to what it uses: every item of a cluster
/// listing comes from a dependency edge whose source node's file lies in the
/// item's `from` cluster and whose target node's file lies in its `to`
/// cluster.
pub proof fn law_cluster_links_point_from_user(
    items: Seq<crate::deps::DepItem>,
    nodes: Seq<Node>,
    edges: Seq<Edge>,
    ff: Option<Seq<char>>,
    tf: Option<Seq<char>>,
)
    requires
        crate::deps::tabulates(items, nodes, edges, ff, tf),
    ensures
        forall|i: int| 0 <= i < items.len() ==> joined_by_some_edge(nodes, edges, #[trigger] items[i]),
{
    assert forall|i: int| 0 <= i < items.len() implies joined_by_some_edge(nodes, edges, #[trigger] items[i]) by {
        assert(crate::deps::links(nodes, edges, ff, tf, items[i].from@, items[i].to@));
        let k = choose|k: int|
            0 <= k < edges.len() && crate::deps::cluster_link(nodes, #[trigger] edges[k], ff, tf) == Some(
                (items[i].from@, items[i].to@),
            );
        assert(crate::refactor::is_dependency_kind(edges[k].kind));
    }
}

/// A partly qualified name finds what it ends: when no node matches the name
/// exactly or by its short name, every node whose qualified name ends with
/// `::` and the name is among the nodes it designates, and only such nodes
/// are.
pub proof fn law_partial_names_find_their_ends(graph: CodeGraph, name: Seq<char>)
    requires
        forall|i: int|
            0 <= i < graph.nodes@.len() ==> !exact_match(#[trigger] graph.nodes@[i], name) && graph.nodes@[i].name@ != name,
    ensures
        forall|i: int|
            0 <= i < graph.nodes@.len() && crate::strs::ends_with_seq((#[trigger] graph.nodes@[i]).qualified_name@, "::"@ + name)
                ==> find_nodes_spec(graph.nodes@, name).contains(i as usize),
        forall|k: int|
            0 <= k < find_nodes_spec(graph.nodes@, name).len() ==> crate::strs::ends_with_seq(
                graph.nodes@[#[trigger] find_nodes_spec(graph.nodes@, name)[k] as int].qualified_name@,
                "::"@ + name,
            ),
{
    let nodes = graph.nodes@;
    assert(nodes.len() == graph.nodes.len());
    crate::query::lemma_find_nodes_picks(nodes, name);
    let fe = crate::query::exact_pick(name);
    let fb = crate::query::name_pick(name);
    let fs = crate::query::suffix_pick(name);
    crate::seqs::lemma_select_members(nodes, nodes.len() as int, fe);
    crate::seqs::lemma_select_members(nodes, nodes.len() as int, fb);
    crate::seqs::lemma_select_members(nodes, nodes.len() as int, fs);
    let ex = crate::seqs::select(nodes, nodes.len() as int, fe);
    let bn = crate::seqs::select(nodes, nodes.len() as int, fb);
    if ex.len() > 0 {
        assert(fe(nodes[ex[0] as int]));
        assert(!exact_match(graph.nodes@[ex[0] as int], name));
    }
    if bn.len() > 0 {
        assert(fb(nodes[bn[0] as int]));
        assert(graph.nodes@[bn[0] as int].name@ != name);
    }
    assert(find_nodes_spec(nodes, name) == crate::seqs::select(nodes, nodes.len() as int, fs));
    assert forall|i: int|
        0 <= i < nodes.len() && crate::strs::ends_with_seq((#[trigger] graph.nodes@[i]).qualified_name@, "::"@ + name) implies
        find_nodes_spec(nodes, name).contains(i as usize) by {
        assert(fs(nodes[i]));
    }
    assert forall|k: int| 0 <= k < find_nodes_spec(nodes, name).len() implies crate::strs::ends_with_seq(
        graph.nodes@[#[trigger] find_nodes_spec(nodes, name)[k] as int].qualified_name@,
        "::"@ + name,
    ) by {
        assert(fs(nodes[find_nodes_spec(nodes, name)[k] as int]));
    }
}

} // verus!
