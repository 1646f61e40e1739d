use vstd::prelude::*;
use crate::index::{degree, edges_at, has_id, last_with_id, weights_fit, QueryIndex};
use crate::traversal::{walk, walk_entry, walked_nodes};
use crate::textops::{trim_chars, trim_spec};
use crate::lex::lex_lt;
use crate::model::{CodeGraph, Edge, EdgeCertainty, EdgeKind, Node, NodeKind};
use crate::rank::{kb, top_ranked, RankKey};
use crate::ranking::{cap, haystack, hot_before, node_haystack, opt_text, pick_positions, query_terms, ranked_before, vecs_view, word_runs};
use crate::strs::{contains_chars, contains_seq, lowercase};
use crate::deps::{cluster_key, cluster_key_spec};
use crate::health::is_container_kind;
use crate::seqs::strings_view;
use crate::strs::{cat, chars_of, contains_string, nat_digits, usize_to_string, ends_with_seq, owned, str_ends_with, str_eq, str_starts_with, starts_with_seq};

verus! {

// ---------------------------------------------------------------------------
// Graph quality
// ---------------------------------------------------------------------------

/// Number of edges of certainty `k`.
pub open spec fn certainty_count(edges: Seq<Edge>, k: EdgeCertainty) -> nat
    decreases edges.len(),
{
    if edges.len() == 0 {
        0
    } else {
        certainty_count(edges.drop_last(), k) + if edges.last().certainty == k {
            1nat
        } else {
            0nat
        }
    }
}

pub proof fn lemma_certainty_bound(edges: Seq<Edge>, k: EdgeCertainty)
    ensures
        certainty_count(edges, k) <= edges.len(),
        certainty_count(edges, EdgeCertainty::Definite) + certainty_count(edges, EdgeCertainty::Confirmed)
            + certainty_count(edges, EdgeCertainty::Inferred) + certainty_count(edges, EdgeCertainty::Possible) == edges.len(),
    decreases edges.len(),
{
    if edges.len() > 0 {
        lemma_certainty_bound(edges.drop_last(), k);
    }
}

/// The confidence score: trusted (definite or confirmed) edges count fully,
/// inferred ones 55%, possible ones 25%, as a whole percentage of all edges
/// (0 without edges).
pub open spec fn confidence_spec(edges: Seq<Edge>) -> nat {
    let t = certainty_count(edges, EdgeCertainty::Definite) + certainty_count(edges, EdgeCertainty::Confirmed);
    let i = certainty_count(edges, EdgeCertainty::Inferred);
    let p = certainty_count(edges, EdgeCertainty::Possible);
    if t + i + p == 0 {
        0
    } else {
        ((t * 100 + i * 55 + p * 25) / (t + i + p)) as nat
    }
}

/// The word for a quality score.
pub open spec fn quality_label_spec(score: nat) -> Seq<char> {
    if 85 <= score <= 100 {
        "high"@
    } else if 65 <= score <= 84 {
        "medium"@
    } else if 1 <= score <= 64 {
        "low"@
    } else {
        "empty"@
    }
}

/// The word for a quality score (see [`quality_label_spec`]).
pub fn quality_label(score: usize) -> (s: &'static str)
    ensures
        s@ == quality_label_spec(score as nat),
{
    if 85 <= score && score <= 100 {
        "high"
    } else if 65 <= score && score <= 84 {
        "medium"
    } else if 1 <= score && score <= 64 {
        "low"
    } else {
        "empty"
    }
}

/// The advice on a graph's quality, in order: enable semantic indexing, enable
/// MIR indexing, distrust dispatch guesses when more than a tenth (at least
/// one) of the edges are possible, inspect the warnings, confirm by reading
/// the source when the score is below 65.
pub open spec fn recommendations_spec(
    edge_count: nat,
    warnings: nat,
    score: nat,
    semantic: bool,
    mir: bool,
    possible: nat,
) -> Seq<Seq<char>> {
    (if !semantic {
        seq!["Run `index --semantic` to confirm more call edges with rust-analyzer."@]
    } else {
        Seq::empty()
    }) + (if !mir {
        seq!["Run `index --mir` when lowered call confirmation matters."@]
    } else {
        Seq::empty()
    }) + (if possible > (if edge_count / 10 > 1 { edge_count / 10 } else { 1 }) {
        seq!["Many edges are possible dispatch candidates; treat trait-call paths as hypotheses."@]
    } else {
        Seq::empty()
    }) + (if warnings > 0 {
        seq!["Inspect warnings before trusting missing or sparse regions."@]
    } else {
        Seq::empty()
    }) + (if score < 65 {
        seq!["Use source reads for final confirmation; this graph has a low confidence score."@]
    } else {
        Seq::empty()
    })
}

/// The advice on a graph's quality (see [`recommendations_spec`]).
pub fn quality_recommendations(graph: &CodeGraph, score: usize, semantic: bool, mir: bool, possible: usize) -> (r: Vec<String>)
    ensures
        strings_view(r@) == recommendations_spec(graph.edges@.len(), graph.warnings@.len(), score as nat, semantic, mir, possible as nat),
{
    let mut r: Vec<String> = Vec::new();
    let ghost s0 = strings_view(r@);
    if !semantic {
        r.push(owned("Run `index --semantic` to confirm more call edges with rust-analyzer."));
    }
    let ghost s1 = strings_view(r@);
    if !mir {
        r.push(owned("Run `index --mir` when lowered call confirmation matters."));
    }
    let ghost s2 = strings_view(r@);
    let tenth = graph.edges.len() / 10;
    let floor = if tenth > 1 {
        tenth
    } else {
        1
    };
    if possible > floor {
        r.push(owned("Many edges are possible dispatch candidates; treat trait-call paths as hypotheses."));
    }
    let ghost s3 = strings_view(r@);
    if graph.warnings.len() > 0 {
        r.push(owned("Inspect warnings before trusting missing or sparse regions."));
    }
    let ghost s4 = strings_view(r@);
    if score < 65 {
        r.push(owned("Use source reads for final confirmation; this graph has a low confidence score."));
    }
    assert(strings_view(r@) =~= recommendations_spec(graph.edges@.len(), graph.warnings@.len(), score as nat, semantic, mir, possible as nat));
    r
}

/// The quality report of a graph.
pub struct QualityReport {
    pub score: usize,
    pub interpretation: &'static str,
    pub stats: crate::model::GraphStats,
    pub trusted_edges: usize,
    pub uncertain_edges: usize,
    pub recommendations: Vec<String>,
}

pub open spec fn semantic_on(graph: CodeGraph) -> bool {
    graph.semantic matches Some(s) && s.enabled
}

pub open spec fn mir_on(graph: CodeGraph) -> bool {
    graph.mir matches Some(m) && m.enabled
}

/// How far the graph's edges can be trusted: the confidence score and its
/// word, the trusted and uncertain edge counts, the statistics and advice.
pub fn quality(graph: &CodeGraph) -> (r: QualityReport)
    requires
        graph.edges@.len() * 100 <= usize::MAX,
    ensures
        r.score == confidence_spec(graph.edges@),
        r.interpretation@ == quality_label_spec(r.score as nat),
        r.trusted_edges == certainty_count(graph.edges@, EdgeCertainty::Definite) + certainty_count(graph.edges@, EdgeCertainty::Confirmed),
        r.uncertain_edges == certainty_count(graph.edges@, EdgeCertainty::Inferred) + certainty_count(graph.edges@, EdgeCertainty::Possible),
        strings_view(r.recommendations@) == recommendations_spec(
            graph.edges@.len(),
            graph.warnings@.len(),
            r.score as nat,
            semantic_on(*graph),
            mir_on(*graph),
            certainty_count(graph.edges@, EdgeCertainty::Possible),
        ),
        r.stats.nodes == graph.nodes.len(),
        r.stats.edges == graph.edges.len(),
{
    let ghost edges = graph.edges@;
    let mut d: usize = 0;
    let mut c: usize = 0;
    let mut inf: usize = 0;
    let mut pos: usize = 0;
    let mut k: usize = 0;
    while k < graph.edges.len()
        invariant
            k <= graph.edges.len(),
            edges == graph.edges@,
            d == certainty_count(edges.take(k as int), EdgeCertainty::Definite),
            c == certainty_count(edges.take(k as int), EdgeCertainty::Confirmed),
            inf == certainty_count(edges.take(k as int), EdgeCertainty::Inferred),
            pos == certainty_count(edges.take(k as int), EdgeCertainty::Possible),
            d + c + inf + pos == k,
        decreases graph.edges.len() - k,
    {
        assert(edges.take(k + 1).drop_last() =~= edges.take(k as int));
        assert(edges.take(k + 1).last() == edges[k as int]);
        match graph.edges[k].certainty {
            EdgeCertainty::Definite => d = d + 1,
            EdgeCertainty::Confirmed => c = c + 1,
            EdgeCertainty::Inferred => inf = inf + 1,
            EdgeCertainty::Possible => pos = pos + 1,
        }
        k = k + 1;
    }
    assert(edges.take(graph.edges.len() as int) =~= edges);
    let trusted = d + c;
    let scored = trusted + inf + pos;
    let score = if scored == 0 {
        0
    } else {
        assert(trusted * 100 + inf * 55 + pos * 25 <= scored * 100) by (nonlinear_arith)
            requires
                scored == trusted + inf + pos,
        ;
        assert(scored * 100 <= usize::MAX) by (nonlinear_arith)
            requires
                scored == graph.edges@.len(),
                graph.edges@.len() * 100 <= usize::MAX,
        ;
        (trusted * 100 + inf * 55 + pos * 25) / scored
    };
    let semantic = match &graph.semantic {
        Some(s) => s.enabled,
        None => false,
    };
    let mir = match &graph.mir {
        Some(m) => m.enabled,
        None => false,
    };
    let recommendations = quality_recommendations(graph, score, semantic, mir, pos);
    QualityReport {
        score,
        interpretation: quality_label(score),
        stats: graph.stats(),
        trusted_edges: trusted,
        uncertain_edges: inf + pos,
        recommendations,
    }
}


// ---------------------------------------------------------------------------
// Entry points
// ---------------------------------------------------------------------------

/// The source paths of all build targets, in order.
pub open spec fn target_paths(pkgs: Seq<crate::model::Package>) -> Seq<Seq<char>>
    decreases pkgs.len(),
{
    if pkgs.len() == 0 {
        Seq::empty()
    } else {
        target_paths(pkgs.drop_last()) + pkgs.last().targets@.map_values(|t: crate::model::Target| t.src_path@)
    }
}

pub open spec fn boundary_file(f: Seq<char>) -> bool {
    ends_with_seq(f, "src/main.rs"@) || ends_with_seq(f, "src/lib.rs"@)
}

/// The file is a cargo target's: some target path ends with it, or (when
/// there is any target) it is a crate's main or lib file.
pub open spec fn target_file(f: Seq<char>, targets: Seq<Seq<char>>) -> bool {
    (targets.len() > 0 && boundary_file(f)) || exists|k: int| 0 <= k < targets.len() && ends_with_seq(#[trigger] targets[k], f)
}

pub open spec fn is_main(n: Node) -> bool {
    n.name@ == "main"@
}

pub open spec fn workflow_name(n: Node) -> bool {
    starts_with_seq(n.name@, "run_"@) || ends_with_seq(n.name@, "_handler"@) || ends_with_seq(n.name@, "_route"@)
}

pub open spec fn is_pub(n: Node) -> bool {
    n.visibility matches Some(v) && v@ == "pub"@
}

pub open spec fn in_boundary_file(n: Node) -> bool {
    n.file matches Some(f) && boundary_file(f@)
}

pub open spec fn in_target_file(n: Node, targets: Seq<Seq<char>>) -> bool {
    n.file matches Some(f) && target_file(f@, targets)
}

pub open spec fn is_code_item(n: Node) -> bool {
    n.kind == NodeKind::Function || n.kind == NodeKind::Method || n.kind == NodeKind::Trait || n.kind
        == NodeKind::Struct || n.kind == NodeKind::Enum
}

pub open spec fn one_if(b: bool, s: Seq<char>) -> Seq<Seq<char>> {
    if b {
        seq![s]
    } else {
        Seq::empty()
    }
}

/// Why a node looks like an entry point, in order.
pub open spec fn entry_reasons(n: Node, targets: Seq<Seq<char>>) -> Seq<Seq<char>> {
    one_if(is_main(n), "main function"@) + one_if(workflow_name(n), "workflow-like name"@) + one_if(is_pub(n), "public API"@)
        + one_if(in_boundary_file(n), "crate boundary file"@) + one_if(in_target_file(n, targets), "cargo target"@)
}

pub open spec fn points(b: bool, v: nat) -> nat {
    if b {
        v
    } else {
        0
    }
}

/// The entry score: the degree plus 180 for `main`, 75 for a workflow-like
/// name, 35 for public API, 55 for a crate boundary file, 45 for a target
/// file and 12 for a function, method, trait, struct or enum (saturating).
pub open spec fn entry_score(n: Node, deg: nat, targets: Seq<Seq<char>>) -> nat {
    cap(
        deg + points(is_main(n), 180) + points(workflow_name(n), 75) + points(is_pub(n), 35) + points(in_boundary_file(n), 55)
            + points(in_target_file(n, targets), 45) + points(is_code_item(n), 12),
    )
}

/// The node at `p` is listed as an entry candidate: not the project or a
/// crate, and with a reason or a score of at least ten.
pub open spec fn entry_candidate(graph: CodeGraph, p: int) -> bool {
    let n = graph.nodes@[p];
    let targets = target_paths(graph.project.packages@);
    &&& n.kind != NodeKind::Project
    &&& n.kind != NodeKind::Crate
    &&& (entry_reasons(n, targets).len() > 0 || entry_score(n, degree(graph.edges@, n.id@), targets) >= 10)
}

pub open spec fn file_text(n: Node) -> Seq<char> {
    match n.file {
        Some(f) => f@,
        None => Seq::empty(),
    }
}

/// Among entry candidates, `p` comes first: higher score, then file, then
/// qualified name, then position.
pub open spec fn entry_before(graph: CodeGraph, p: int, q: int) -> bool {
    let targets = target_paths(graph.project.packages@);
    let np = graph.nodes@[p];
    let nq = graph.nodes@[q];
    ranked_before(
        entry_score(np, degree(graph.edges@, np.id@), targets),
        file_text(np),
        np.qualified_name@,
        p,
        entry_score(nq, degree(graph.edges@, nq.id@), targets),
        file_text(nq),
        nq.qualified_name@,
        q,
    )
}

/// An entry candidate: its score, node and reasons.
pub struct EntryItem {
    pub score: usize,
    pub node: usize,
    pub reasons: Vec<String>,
}

pub open spec fn entry_item_ok(graph: CodeGraph, e: EntryItem) -> bool {
    let targets = target_paths(graph.project.packages@);
    let n = graph.nodes@[e.node as int];
    &&& e.node < graph.nodes.len()
    &&& entry_candidate(graph, e.node as int)
    &&& e.score == entry_score(n, degree(graph.edges@, n.id@), targets)
    &&& strings_view(e.reasons@) == entry_reasons(n, targets)
}

fn all_target_paths(graph: &CodeGraph) -> (r: Vec<String>)
    ensures
        strings_view(r@) == target_paths(graph.project.packages@),
{
    let ghost pkgs = graph.project.packages@;
    let mut r: Vec<String> = Vec::new();
    let mut p: usize = 0;
    while p < graph.project.packages.len()
        invariant
            p <= graph.project.packages.len(),
            pkgs == graph.project.packages@,
            strings_view(r@) == target_paths(pkgs.take(p as int)),
        decreases graph.project.packages.len() - p,
    {
        let ts = &graph.project.packages[p].targets;
        let ghost base = strings_view(r@);
        let mut t: usize = 0;
        while t < ts.len()
            invariant
                t <= ts.len(),
                strings_view(r@) == base + ts@.take(t as int).map_values(|x: crate::model::Target| x.src_path@),
            decreases ts.len() - t,
        {
            let ghost before = strings_view(r@);
            r.push(owned(ts[t].src_path.as_str()));
            assert(strings_view(r@) =~= before.push(ts@[t as int].src_path@));
            assert(ts@.take(t + 1).map_values(|x: crate::model::Target| x.src_path@) =~= ts@.take(t as int).map_values(
                |x: crate::model::Target| x.src_path@,
            ).push(ts@[t as int].src_path@));
            t = t + 1;
        }
        assert(ts@.take(ts.len() as int) =~= ts@);
        assert(pkgs.take(p + 1).drop_last() =~= pkgs.take(p as int));
        assert(pkgs.take(p + 1).last() == pkgs[p as int]);
        p = p + 1;
    }
    assert(pkgs.take(graph.project.packages.len() as int) =~= pkgs);
    r
}

fn in_target_file_exec(f: &str, targets: &Vec<String>) -> (b: bool)
    ensures
        b == target_file(f@, strings_view(targets@)),
{
    let ghost tv = strings_view(targets@);
    assert(tv.len() == targets.len());
    let boundary = str_ends_with(f, "src/main.rs") || str_ends_with(f, "src/lib.rs");
    if targets.len() > 0 && boundary {
        return true;
    }
    let mut found = false;
    let mut k: usize = 0;
    while k < targets.len()
        invariant
            k <= targets.len(),
            tv == strings_view(targets@),
            tv.len() == targets.len(),
            found == (exists|j: int| 0 <= j < k && ends_with_seq(#[trigger] tv[j], f@)),
        decreases targets.len() - k,
    {
        assert(tv[k as int] == targets@[k as int]@);
        if str_ends_with(targets[k].as_str(), f) {
            found = true;
        }
        k = k + 1;
    }
    found
}

/// Which entry-point traits node `n` has.
fn entry_flags(n: &Node, targets: &Vec<String>) -> (r: (bool, bool, bool, bool, bool, bool))
    ensures
        r.0 == is_main(*n),
        r.1 == workflow_name(*n),
        r.2 == is_pub(*n),
        r.3 == in_boundary_file(*n),
        r.4 == in_target_file(*n, strings_view(targets@)),
        r.5 == is_code_item(*n),
{
    let main = str_eq(n.name.as_str(), "main");
    let workflow = str_starts_with(n.name.as_str(), "run_") || str_ends_with(n.name.as_str(), "_handler")
        || str_ends_with(n.name.as_str(), "_route");
    let public = match &n.visibility {
        Some(v) => str_eq(v.as_str(), "pub"),
        None => false,
    };
    let boundary = match &n.file {
        Some(f) => str_ends_with(f.as_str(), "src/main.rs") || str_ends_with(f.as_str(), "src/lib.rs"),
        None => false,
    };
    let target = match &n.file {
        Some(f) => in_target_file_exec(f.as_str(), targets),
        None => false,
    };
    let code = n.kind == NodeKind::Function || n.kind == NodeKind::Method || n.kind == NodeKind::Trait || n.kind
        == NodeKind::Struct || n.kind == NodeKind::Enum;
    (main, workflow, public, boundary, target, code)
}

/// The reasons for the given traits, in order.
fn reasons_of(main: bool, workflow: bool, public: bool, boundary: bool, target: bool) -> (r: Vec<String>)
    ensures
        strings_view(r@) == one_if(main, "main function"@) + one_if(workflow, "workflow-like name"@) + one_if(public, "public API"@)
            + one_if(boundary, "crate boundary file"@) + one_if(target, "cargo target"@),
{
    let mut reasons: Vec<String> = Vec::new();
    if main {
        reasons.push(owned("main function"));
    }
    if workflow {
        reasons.push(owned("workflow-like name"));
    }
    if public {
        reasons.push(owned("public API"));
    }
    if boundary {
        reasons.push(owned("crate boundary file"));
    }
    if target {
        reasons.push(owned("cargo target"));
    }
    assert(strings_view(reasons@) =~= one_if(main, "main function"@) + one_if(workflow, "workflow-like name"@) + one_if(
        public,
        "public API"@,
    ) + one_if(boundary, "crate boundary file"@) + one_if(target, "cargo target"@));
    reasons
}

/// The score and reasons of node `n` with degree `deg`.
fn entry_facts(n: &Node, deg: usize, targets: &Vec<String>) -> (r: (usize, Vec<String>))
    ensures
        r.0 == entry_score(*n, deg as nat, strings_view(targets@)),
        strings_view(r.1@) == entry_reasons(*n, strings_view(targets@)),
{
    let (main, workflow, public, boundary, target, code) = entry_flags(n, targets);
    let b1: usize = if main { 180 } else { 0 };
    let b2: usize = if workflow { 75 } else { 0 };
    let b3: usize = if public { 35 } else { 0 };
    let b4: usize = if boundary { 55 } else { 0 };
    let b5: usize = if target { 45 } else { 0 };
    let b6: usize = if code { 12 } else { 0 };
    let bonus = b1 + b2 + b3 + b4 + b5 + b6;
    let score = deg.saturating_add(bonus);
    let reasons = reasons_of(main, workflow, public, boundary, target);
    (score, reasons)
}

/// The likeliest entry points (see [`entry_candidate`]), best first (see
/// [`entry_before`]), at most `limit`.
pub fn entry_candidates(graph: &CodeGraph, index: &QueryIndex, limit: usize) -> (r: Vec<EntryItem>)
    requires
        index.describes(graph),
    ensures
        r.len() <= limit,
        forall|i: int| 0 <= i < r.len() ==> entry_item_ok(*graph, #[trigger] r@[i]),
        forall|i: int, j: int| 0 <= i < j < r.len() ==> entry_before(*graph, r@[i].node as int, r@[j].node as int),
        forall|q: int|
            0 <= q < graph.nodes.len() && entry_candidate(*graph, q) ==> (exists|i: int| 0 <= i < r.len() && r@[i].node == q) || (
            r.len() == limit && forall|i: int| 0 <= i < r.len() ==> entry_before(*graph, r@[i].node as int, q)),
{
    let targets = all_target_paths(graph);
    let n = graph.nodes.len();
    let mut keys: Vec<RankKey> = Vec::new();
    let mut cand: Vec<usize> = Vec::new();
    let mut items: Vec<EntryItem> = Vec::new();
    let mut p: usize = 0;
    while p < n
        invariant
            n == graph.nodes.len(),
            index.describes(graph),
            p <= n,
            strings_view(targets@) == target_paths(graph.project.packages@),
            keys.len() == cand.len(),
            items.len() == cand.len(),
            forall|k: int| 0 <= k < cand.len() ==> cand@[k] < p && entry_candidate(*graph, cand@[k] as int),
            forall|a: int, b: int| 0 <= a < b < cand.len() ==> cand@[a] < cand@[b],
            forall|q: int| 0 <= q < p && entry_candidate(*graph, q) ==> cand@.contains(q as usize),
            forall|k: int|
                #![trigger keys@[k]]
                0 <= k < keys.len() ==> ({
                    let nd = graph.nodes@[cand@[k] as int];
                    &&& keys@[k].hi == entry_score(nd, degree(graph.edges@, nd.id@), target_paths(graph.project.packages@))
                    &&& keys@[k].lo == 0
                    &&& keys@[k].a@ == file_text(nd)
                    &&& keys@[k].b@ == nd.qualified_name@
                    &&& items@[k].node == cand@[k]
                    &&& entry_item_ok(*graph, items@[k])
                }),
        decreases n - p,
    {
        let node = &graph.nodes[p];
        if !(node.kind == NodeKind::Project || node.kind == NodeKind::Crate) {
            let deg = index.degree_of(graph, p);
            let (score, reasons) = entry_facts(node, deg, &targets);
            if reasons.len() > 0 || score >= 10 {
                let file = match &node.file {
                    Some(f) => chars_of(f.as_str()),
                    None => Vec::new(),
                };
                let key = RankKey { hi: score, lo: 0, a: file, b: chars_of(node.qualified_name.as_str()) };
                let ghost old_cand = cand@;
                keys.push(key);
                cand.push(p);
                items.push(EntryItem { score, node: p, reasons });
                proof {
                    assert(keys@[keys.len() - 1].a@ =~= file_text(graph.nodes@[p as int]));
                    assert forall|q: int| 0 <= q < p + 1 && entry_candidate(*graph, q) implies cand@.contains(q as usize) by {
                        if q == p {
                            assert(cand@[old_cand.len() as int] == p);
                        } else {
                            let k = choose|k: int| 0 <= k < old_cand.len() && old_cand[k] == q as usize;
                            assert(cand@[k] == q as usize);
                        }
                    }
                }
            }
        }
        p = p + 1;
    }
    proof {
        assert forall|k: int| 0 <= k < items.len() implies items@[k].node == cand@[k] && entry_item_ok(*graph, #[trigger] items@[k]) by {
            assert(keys@[k].lo == 0);
        }
    }
    let idx = top_ranked(&keys, limit);
    let mut r: Vec<EntryItem> = Vec::new();
    let mut i: usize = 0;
    while i < idx.len()
        invariant
            i <= idx.len(),
            r.len() == i,
            forall|j: int| 0 <= j < idx.len() ==> idx@[j] < keys.len(),
            keys.len() == cand.len(),
            items.len() == cand.len(),
            forall|k: int| 0 <= k < items.len() ==> items@[k].node == cand@[k] && entry_item_ok(*graph, #[trigger] items@[k]),
            forall|j: int| 0 <= j < i ==> entry_item_ok(*graph, #[trigger] r@[j]) && r@[j].node == cand@[idx@[j] as int],
        decreases idx.len() - i,
    {
        let it = &items[idx[i]];
        let copy = EntryItem { score: it.score, node: it.node, reasons: crate::strs::clone_strings(&it.reasons) };
        proof {
            assert(items@[idx@[i as int] as int] == *it);
        }
        r.push(copy);
        i = i + 1;
    }
    proof {
        assert forall|i: int, j: int| 0 <= i < j < r.len() implies entry_before(*graph, r@[i].node as int, r@[j].node as int) by {
            assert(kb(keys@, idx@[i], idx@[j]));
            if idx@[i] < idx@[j] {
                assert(cand@[idx@[i] as int] < cand@[idx@[j] as int]);
            } else if idx@[i] > idx@[j] {
                assert(cand@[idx@[j] as int] < cand@[idx@[i] as int]);
            }
        }
        assert forall|q: int|
            0 <= q < n && entry_candidate(*graph, q) implies (exists|i: int| 0 <= i < r.len() && r@[i].node == q) || (
            r.len() == limit && forall|i: int| 0 <= i < r.len() ==> entry_before(*graph, r@[i].node as int, q)) by {
            assert(cand@.contains(q as usize));
            let k = choose|k: int| 0 <= k < cand.len() && cand@[k] == q as usize;
            let ku = k as usize;
            if idx@.contains(ku) {
                let i = choose|i: int| 0 <= i < idx.len() && idx@[i] == ku;
                assert(r@[i].node == q);
            } else {
                assert forall|i: int| 0 <= i < r.len() implies entry_before(*graph, r@[i].node as int, q) by {
                    assert(kb(keys@, idx@[i], ku));
                    if idx@[i] < ku {
                        assert(cand@[idx@[i] as int] < cand@[k]);
                    } else if idx@[i] > ku {
                        assert(cand@[k] < cand@[idx@[i] as int]);
                    }
                }
            }
        }
    }
    r
}

// ---------------------------------------------------------------------------
// Clusters
// ---------------------------------------------------------------------------

/// Node `p` has a file, and that file falls in cluster `key`.
pub open spec fn in_cluster(nodes: Seq<Node>, key: Seq<char>, p: int) -> bool {
    nodes[p].file is Some && cluster_key_spec(opt_text(nodes[p].file)) == key
}

/// Node `p` is in cluster `key` and no earlier node of the cluster has its file.
pub open spec fn new_file(nodes: Seq<Node>, key: Seq<char>, p: int) -> bool {
    in_cluster(nodes, key, p) && forall|q: int|
        0 <= q < p && #[trigger] in_cluster(nodes, key, q) ==> opt_text(nodes[q].file) != opt_text(nodes[p].file)
}

/// Some node falls in cluster `key`.
pub open spec fn cluster_present(graph: CodeGraph, key: Seq<char>) -> bool {
    exists|p: int| 0 <= p < graph.nodes.len() && #[trigger] in_cluster(graph.nodes@, key, p)
}

/// Among the first `n` nodes, those of cluster `key`: how many distinct files,
/// how many nodes, how many symbols (not containers) and their summed degree.
pub open spec fn cluster_stats(graph: CodeGraph, key: Seq<char>, n: int) -> (nat, nat, nat, nat)
    decreases n,
{
    if n <= 0 {
        (0, 0, 0, 0)
    } else {
        let s = cluster_stats(graph, key, n - 1);
        let p = n - 1;
        let nd = graph.nodes@[p];
        if in_cluster(graph.nodes@, key, p) {
            (
                s.0 + if new_file(graph.nodes@, key, p) { 1nat } else { 0nat },
                s.1 + 1,
                s.2 + if !is_container_kind(nd.kind) { 1nat } else { 0nat },
                s.3 + degree(graph.edges@, nd.id@),
            )
        } else {
            s
        }
    }
}

/// A symbol of cluster `key`: listed among its hot symbols.
pub open spec fn hot_member(graph: CodeGraph, key: Seq<char>, p: int) -> bool {
    in_cluster(graph.nodes@, key, p) && !is_container_kind(graph.nodes@[p].kind)
}

/// `r` lists the `limit` hottest symbols of cluster `key` (see [`hot_before`]).
pub open spec fn hot_listing(graph: CodeGraph, key: Seq<char>, limit: nat, r: Seq<usize>) -> bool {
    &&& r.len() <= limit
    &&& forall|i: int| 0 <= i < r.len() ==> r[i] < graph.nodes.len() && hot_member(graph, key, r[i] as int)
    &&& forall|i: int, j: int| 0 <= i < j < r.len() ==> hot_before(graph, r[i] as int, r[j] as int)
    &&& forall|t: int|
        0 <= t < graph.nodes.len() && hot_member(graph, key, t) ==> r.contains(t as usize) || (r.len() == limit
            && forall|i: int| 0 <= i < r.len() ==> hot_before(graph, r[i] as int, t))
}

/// One cluster of files: its name, how many files, nodes and symbols it
/// holds, their summed degree and its hottest symbols (node positions).
pub struct ClusterItem {
    pub name: String,
    pub files: usize,
    pub nodes: usize,
    pub symbols: usize,
    pub degree: usize,
    pub hot: Vec<usize>,
}

/// `it` describes its cluster of `graph`, with at most eight hot symbols;
/// the degree saturates at `usize::MAX`.
pub open spec fn cluster_item_ok(graph: CodeGraph, it: ClusterItem) -> bool {
    let s = cluster_stats(graph, it.name@, graph.nodes.len() as int);
    &&& cluster_present(graph, it.name@)
    &&& it.files == s.0 && it.nodes == s.1 && it.symbols == s.2 && it.degree == cap(s.3)
    &&& hot_listing(graph, it.name@, 8, it.hot@)
}

/// Clusters are listed by degree, highest first, then by name.
pub open spec fn cluster_before(da: nat, a: Seq<char>, db: nat, b: Seq<char>) -> bool {
    da > db || (da == db && lex_lt(a, b))
}

/// The cluster of node `p`, if it has a file.
fn cluster_of(node: &Node) -> (r: Option<String>)
    ensures
        match r {
            Some(k) => node.file is Some && k@ == cluster_key_spec(opt_text(node.file)),
            None => node.file is None,
        },
{
    match &node.file {
        Some(f) => Some(cluster_key(f.as_str())),
        None => None,
    }
}

/// The clusters that occur among the nodes, each once.
fn cluster_names(graph: &CodeGraph) -> (r: Vec<String>)
    ensures
        strings_view(r@).no_duplicates(),
        forall|i: int| 0 <= i < r.len() ==> cluster_present(*graph, #[trigger] r@[i]@),
        forall|k: Seq<char>| cluster_present(*graph, k) ==> strings_view(r@).contains(k),
{
    let n = graph.nodes.len();
    let mut r: Vec<String> = Vec::new();
    let mut at: Vec<usize> = Vec::new();
    let mut p: usize = 0;
    while p < n
        invariant
            n == graph.nodes.len(),
            p <= n,
            strings_view(r@).no_duplicates(),
            at.len() == r.len(),
            forall|i: int| #![trigger r@[i]] #![trigger at@[i]] 0 <= i < r.len() ==> at@[i] < p && in_cluster(graph.nodes@, r@[i]@, at@[i] as int),
            forall|q: int|
                0 <= q < p && graph.nodes@[q].file is Some ==> strings_view(r@).contains(
                    cluster_key_spec(opt_text(#[trigger] graph.nodes@[q].file)),
                ),
        decreases n - p,
    {
        match cluster_of(&graph.nodes[p]) {
            Some(k) => {
                if !contains_string(&r, k.as_str()) {
                    let ghost old_r = r@;
                    let ghost old_at = at@;
                    r.push(k);
                    at.push(p);
                    proof {
                        assert forall|i: int| #![trigger r@[i]] #![trigger at@[i]] 0 <= i < r.len() implies at@[i] < p + 1 && in_cluster(
                            graph.nodes@,
                            r@[i]@,
                            at@[i] as int,
                        ) by {
                            if i < old_r.len() {
                                assert(r@[i] == old_r[i]);
                                assert(at@[i] == old_at[i]);
                                assert(old_r[i] == old_r[i]);
                            }
                        }
                        assert(strings_view(r@) =~= strings_view(old_r).push(r@[old_r.len() as int]@));
                        assert(in_cluster(graph.nodes@, r@[old_r.len() as int]@, p as int));
                        assert forall|q: int|
                            0 <= q < p + 1 && graph.nodes@[q].file is Some implies strings_view(r@).contains(
                            cluster_key_spec(opt_text(#[trigger] graph.nodes@[q].file)),
                        ) by {
                            if q < p {
                                let j = choose|j: int| 0 <= j < old_r.len() && strings_view(old_r)[j] == cluster_key_spec(opt_text(graph.nodes@[q].file));
                                assert(strings_view(r@)[j] == strings_view(old_r)[j]);
                            } else {
                                assert(strings_view(r@)[old_r.len() as int] == cluster_key_spec(opt_text(graph.nodes@[q].file)));
                            }
                        }
                    }
                }
            },
            None => {},
        }
        p = p + 1;
    }
    proof {
        assert forall|i: int| 0 <= i < r.len() implies cluster_present(*graph, #[trigger] r@[i]@) by {
            assert(in_cluster(graph.nodes@, r@[i]@, at@[i] as int));
        }
        assert forall|k: Seq<char>| cluster_present(*graph, k) implies strings_view(r@).contains(k) by {
            let q = choose|q: int| 0 <= q < graph.nodes.len() && #[trigger] in_cluster(graph.nodes@, k, q);
            assert(graph.nodes@[q].file is Some);
        }
    }
    r
}

/// The counts of cluster `key`, its degree saturating at `usize::MAX`.
fn cluster_facts(graph: &CodeGraph, index: &QueryIndex, key: &str) -> (r: (usize, usize, usize, usize))
    requires
        index.describes(graph),
    ensures
        ({
            let s = cluster_stats(*graph, key@, graph.nodes.len() as int);
            r.0 == s.0 && r.1 == s.1 && r.2 == s.2 && r.3 == cap(s.3)
        }),
{
    let n = graph.nodes.len();
    let mut files: usize = 0;
    let mut count: usize = 0;
    let mut symbols: usize = 0;
    let mut deg: usize = 0;
    let mut seen: Vec<String> = Vec::new();
    let mut seen_at: Vec<usize> = Vec::new();
    let mut p: usize = 0;
    while p < n
        invariant
            n == graph.nodes.len(),
            index.describes(graph),
            p <= n,
            ({
                let s = cluster_stats(*graph, key@, p as int);
                files == s.0 && count == s.1 && symbols == s.2 && deg == cap(s.3)
            }),
            count <= p,
            files <= count,
            symbols <= count,
            seen_at.len() == seen.len(),
            forall|i: int| #![trigger seen@[i]] #![trigger seen_at@[i]] 0 <= i < seen.len() ==> seen_at@[i] < p && in_cluster(graph.nodes@, key@, seen_at@[i] as int)
                && opt_text(graph.nodes@[seen_at@[i] as int].file) == seen@[i]@,
            forall|q: int| 0 <= q < p && #[trigger] in_cluster(graph.nodes@, key@, q) ==> strings_view(seen@).contains(
                opt_text(graph.nodes@[q].file),
            ),
        decreases n - p,
    {
        let node = &graph.nodes[p];
        match cluster_of(node) {
            Some(k) => {
                if str_eq(k.as_str(), key) {
                    let f = match &node.file {
                        Some(f) => f,
                        None => {
                            p = p + 1;
                            continue;
                        },
                    };
                    let fresh = !contains_string(&seen, f.as_str());
                    proof {
                        assert(in_cluster(graph.nodes@, key@, p as int));
                        if fresh {
                            assert forall|q: int| 0 <= q < p && #[trigger] in_cluster(graph.nodes@, key@, q) implies opt_text(
                                graph.nodes@[q].file,
                            ) != opt_text(graph.nodes@[p as int].file) by {
                                assert(strings_view(seen@).contains(opt_text(graph.nodes@[q].file)));
                            }
                            assert(new_file(graph.nodes@, key@, p as int));
                        } else {
                            let j = choose|j: int| 0 <= j < seen.len() && strings_view(seen@)[j] == f@;
                            assert(seen@[j]@ == f@);
                            let q = seen_at@[j] as int;
                            assert(in_cluster(graph.nodes@, key@, q));
                            assert(!new_file(graph.nodes@, key@, p as int));
                        }
                    }
                    if fresh {
                        files = files + 1;
                        let ghost old_seen = seen@;
                        let ghost old_seen_at = seen_at@;
                        seen.push(owned(f.as_str()));
                        seen_at.push(p);
                        proof {
                            assert forall|i: int| #![trigger seen@[i]] #![trigger seen_at@[i]] 0 <= i < seen.len() implies seen_at@[i] < p + 1
                                && in_cluster(graph.nodes@, key@, seen_at@[i] as int) && opt_text(
                                graph.nodes@[seen_at@[i] as int].file,
                            ) == seen@[i]@ by {
                                if i < old_seen.len() {
                                    assert(seen@[i] == old_seen[i]);
                                    assert(seen_at@[i] == old_seen_at[i]);
                                    assert(old_seen[i] == old_seen[i]);
                                } else {
                                    assert(seen_at@[i] == p);
                                    assert(graph.nodes@[p as int].file == Some(*f));
                                }
                            }
                            assert forall|q: int| 0 <= q < p + 1 && #[trigger] in_cluster(graph.nodes@, key@, q) implies strings_view(
                                seen@,
                            ).contains(opt_text(graph.nodes@[q].file)) by {
                                if q < p {
                                    let j = choose|j: int| 0 <= j < old_seen.len() && strings_view(old_seen)[j] == opt_text(graph.nodes@[q].file);
                                    assert(strings_view(seen@)[j] == strings_view(old_seen)[j]);
                                } else {
                                    assert(strings_view(seen@)[old_seen.len() as int] == opt_text(graph.nodes@[q].file));
                                }
                            }
                        }
                    }
                    count = count + 1;
                    let container = match node.kind {
                        NodeKind::Project | NodeKind::Crate | NodeKind::File | NodeKind::Module => true,
                        _ => false,
                    };
                    if !container {
                        symbols = symbols + 1;
                    }
                    let d = index.degree_of(graph, p);
                    deg = deg.saturating_add(d);
                    p = p + 1;
                    continue;
                }
                proof {
                    assert(!in_cluster(graph.nodes@, key@, p as int));
                }
            },
            None => {},
        }
        p = p + 1;
    }
    (files, count, symbols, deg)
}

/// The hottest symbols of cluster `key`, at most `limit` (see [`hot_listing`]).
fn cluster_hot(graph: &CodeGraph, index: &QueryIndex, key: &str, limit: usize) -> (r: Vec<usize>)
    requires
        index.describes(graph),
    ensures
        hot_listing(*graph, key@, limit as nat, r@),
{
    let n = graph.nodes.len();
    let mut keys: Vec<RankKey> = Vec::new();
    let mut cand: Vec<usize> = Vec::new();
    let mut p: usize = 0;
    while p < n
        invariant
            n == graph.nodes.len(),
            index.describes(graph),
            p <= n,
            keys.len() == cand.len(),
            forall|k: int| 0 <= k < cand.len() ==> cand@[k] < p && hot_member(*graph, key@, cand@[k] as int),
            forall|a: int, b: int| 0 <= a < b < cand.len() ==> cand@[a] < cand@[b],
            forall|q: int| 0 <= q < p && hot_member(*graph, key@, q) ==> cand@.contains(q as usize),
            forall|k: int|
                #![trigger keys@[k]]
                0 <= k < keys.len() ==> keys@[k].hi == degree(graph.edges@, graph.nodes@[cand@[k] as int].id@)
                    && keys@[k].lo == 0 && keys@[k].a@ == graph.nodes@[cand@[k] as int].qualified_name@
                    && keys@[k].b@ == Seq::<char>::empty(),
        decreases n - p,
    {
        let node = &graph.nodes[p];
        let container = match node.kind {
            NodeKind::Project | NodeKind::Crate | NodeKind::File | NodeKind::Module => true,
            _ => false,
        };
        let member = match cluster_of(node) {
            Some(k) => !container && str_eq(k.as_str(), key),
            None => false,
        };
        if member {
            let deg = index.degree_of(graph, p);
            let rk = RankKey { hi: deg, lo: 0, a: chars_of(node.qualified_name.as_str()), b: Vec::new() };
            let ghost old_cand = cand@;
            keys.push(rk);
            cand.push(p);
            proof {
                assert(keys@[keys.len() - 1].b@ =~= Seq::<char>::empty());
                assert forall|q: int| 0 <= q < p + 1 && hot_member(*graph, key@, q) implies cand@.contains(q as usize) by {
                    if q == p {
                        assert(cand@[old_cand.len() as int] == p);
                    } else {
                        let k = choose|k: int| 0 <= k < old_cand.len() && old_cand[k] == q as usize;
                        assert(cand@[k] == q as usize);
                    }
                }
            }
        }
        p = p + 1;
    }
    let idx = top_ranked(&keys, limit);
    let r = pick_positions(&idx, &cand);
    proof {
        assert forall|i: int, j: int| 0 <= i < j < r.len() implies hot_before(*graph, r@[i] as int, r@[j] as int) by {
            assert(kb(keys@, idx@[i], idx@[j]));
            if idx@[i] < idx@[j] {
                assert(cand@[idx@[i] as int] < cand@[idx@[j] as int]);
            } else if idx@[i] > idx@[j] {
                assert(cand@[idx@[j] as int] < cand@[idx@[i] as int]);
            }
        }
        assert forall|t: int|
            0 <= t < graph.nodes.len() && hot_member(*graph, key@, t) implies r@.contains(t as usize) || (r.len() == limit
                && forall|i: int| 0 <= i < r.len() ==> hot_before(*graph, r@[i] as int, t)) by {
            assert(cand@.contains(t as usize));
            let k = choose|k: int| 0 <= k < cand.len() && cand@[k] == t as usize;
            let ku = k as usize;
            if idx@.contains(ku) {
                let i = choose|i: int| 0 <= i < idx.len() && idx@[i] == ku;
                assert(r@[i] == t as usize);
            } else {
                assert forall|i: int| 0 <= i < r.len() implies hot_before(*graph, r@[i] as int, t) by {
                    assert(kb(keys@, idx@[i], ku));
                    if idx@[i] < ku {
                        assert(cand@[idx@[i] as int] < cand@[k]);
                    } else if idx@[i] > ku {
                        assert(cand@[k] < cand@[idx@[i] as int]);
                    }
                }
            }
        }
    }
    r
}

/// The clusters of the graph's files (see [`cluster_item_ok`]), by degree,
/// highest first, then by name (see [`cluster_before`]), at most `limit`.
pub fn clusters(graph: &CodeGraph, limit: usize) -> (r: Vec<ClusterItem>)
    requires
        weights_fit(graph.edges@),
    ensures
        r.len() <= limit,
        forall|i: int| 0 <= i < r.len() ==> cluster_item_ok(*graph, #[trigger] r@[i]),
        forall|i: int, j: int|
            0 <= i < j < r.len() ==> cluster_before(
                r@[i].degree as nat,
                r@[i].name@,
                r@[j].degree as nat,
                r@[j].name@,
            ),
        forall|k: Seq<char>|
            cluster_present(*graph, k) ==> (exists|i: int| 0 <= i < r.len() && (#[trigger] r@[i]).name@ == k) || (r.len()
                == limit && forall|i: int|
                0 <= i < r.len() ==> cluster_before(
                    r@[i].degree as nat,
                    r@[i].name@,
                    cap(cluster_stats(*graph, k, graph.nodes.len() as int).3),
                    k,
                )),
{
    let index = QueryIndex::new(graph);
    let names = cluster_names(graph);
    let ghost nv = strings_view(names@);
    let mut keys: Vec<RankKey> = Vec::new();
    let mut facts: Vec<(usize, usize, usize, usize)> = Vec::new();
    let mut j: usize = 0;
    while j < names.len()
        invariant
            index.describes(graph),
            j <= names.len(),
            nv == strings_view(names@),
            keys.len() == j,
            facts.len() == j,
            forall|t: int|
                #![trigger keys@[t]]
                0 <= t < j ==> ({
                    let s = cluster_stats(*graph, names@[t]@, graph.nodes.len() as int);
                    &&& keys@[t].hi == cap(s.3) && keys@[t].lo == 0 && keys@[t].a@ == names@[t]@ && keys@[t].b@ == Seq::<char>::empty()
                    &&& facts@[t].0 == s.0 && facts@[t].1 == s.1 && facts@[t].2 == s.2 && facts@[t].3 == cap(s.3)
                }),
        decreases names.len() - j,
    {
        let f = cluster_facts(graph, &index, names[j].as_str());
        keys.push(RankKey { hi: f.3, lo: 0, a: chars_of(names[j].as_str()), b: Vec::new() });
        facts.push(f);
        proof {
            assert(keys@[j as int].b@ =~= Seq::<char>::empty());
        }
        j = j + 1;
    }
    let idx = top_ranked(&keys, limit);
    let mut r: Vec<ClusterItem> = Vec::new();
    let mut i: usize = 0;
    while i < idx.len()
        invariant
            index.describes(graph),
            nv == strings_view(names@),
            keys.len() == names.len(),
            facts.len() == names.len(),
            forall|t: int| 0 <= t < idx.len() ==> idx@[t] < keys.len(),
            forall|t: int|
                #![trigger keys@[t]]
                0 <= t < names.len() ==> ({
                    let s = cluster_stats(*graph, names@[t]@, graph.nodes.len() as int);
                    &&& keys@[t].hi == cap(s.3) && keys@[t].lo == 0 && keys@[t].a@ == names@[t]@ && keys@[t].b@ == Seq::<char>::empty()
                    &&& facts@[t].0 == s.0 && facts@[t].1 == s.1 && facts@[t].2 == s.2 && facts@[t].3 == cap(s.3)
                }),
            forall|t: int| 0 <= t < names.len() ==> cluster_present(*graph, #[trigger] names@[t]@),
            i <= idx.len(),
            r.len() == i,
            forall|t: int|
                0 <= t < i ==> cluster_item_ok(*graph, #[trigger] r@[t]) && r@[t].name@ == names@[idx@[t] as int]@
                    && r@[t].degree == keys@[idx@[t] as int].hi,
        decreases idx.len() - i,
    {
        let c = idx[i];
        let f = facts[c];
        let hot = cluster_hot(graph, &index, names[c].as_str(), 8);
        let item = ClusterItem { name: owned(names[c].as_str()), files: f.0, nodes: f.1, symbols: f.2, degree: f.3, hot };
        proof {
            assert(keys@[c as int].hi == facts@[c as int].3);
        }
        r.push(item);
        i = i + 1;
    }
    proof {
        assert forall|a: int, b: int| 0 <= a < b < r.len() implies cluster_before(
            r@[a].degree as nat,
            r@[a].name@,
            r@[b].degree as nat,
            r@[b].name@,
        ) by {
            assert(kb(keys@, idx@[a], idx@[b]));
            let x = keys@[idx@[a] as int];
            let y = keys@[idx@[b] as int];
            assert(nv[idx@[a] as int] == names@[idx@[a] as int]@);
            assert(nv[idx@[b] as int] == names@[idx@[b] as int]@);
            if idx@[a] == idx@[b] {
                crate::rank::lemma_key_irreflexive(x, idx@[a] as int);
            }
            assert(names@[idx@[a] as int]@ != names@[idx@[b] as int]@);
        }
        assert forall|k: Seq<char>| cluster_present(*graph, k) implies (exists|i: int| 0 <= i < r.len() && (#[trigger] r@[i]).name@ == k) || (r.len()
            == limit && forall|i: int|
            0 <= i < r.len() ==> cluster_before(
                r@[i].degree as nat,
                r@[i].name@,
                cap(cluster_stats(*graph, k, graph.nodes.len() as int).3),
                k,
            )) by {
            assert(nv.contains(k));
            let t = choose|t: int| 0 <= t < nv.len() && nv[t] == k;
            assert(names@[t]@ == k);
            let tu = t as usize;
            if idx@.contains(tu) {
                let i = choose|i: int| 0 <= i < idx.len() && idx@[i] == tu;
                assert(r@[i].name@ == k);
            } else {
                assert forall|i: int| 0 <= i < r.len() implies cluster_before(
                    r@[i].degree as nat,
                    r@[i].name@,
                    cap(cluster_stats(*graph, k, graph.nodes.len() as int).3),
                    k,
                ) by {
                    assert(kb(keys@, idx@[i], tu));
                    assert(keys@[t].hi == cap(cluster_stats(*graph, k, graph.nodes.len() as int).3));
                    assert(nv[idx@[i] as int] == names@[idx@[i] as int]@);
                    assert(names@[idx@[i] as int]@ != names@[t]@);
                }
            }
        }
    }
    r
}

// ---------------------------------------------------------------------------
// Reading order
// ---------------------------------------------------------------------------

/// Kinds of node worth reading: files, modules and items.
pub open spec fn is_readable_kind(k: NodeKind) -> bool {
    k == NodeKind::File || k == NodeKind::Module || k == NodeKind::Function || k == NodeKind::Method
        || k == NodeKind::Struct || k == NodeKind::Enum || k == NodeKind::Trait || k == NodeKind::Impl
        || k == NodeKind::TypeAlias || k == NodeKind::Const || k == NodeKind::Static || k == NodeKind::Macro
}

/// Whether a node is worth reading (see [`is_readable_kind`]).
pub fn is_readable_node(node: &Node) -> (b: bool)
    ensures
        b == is_readable_kind(node.kind),
{
    match node.kind {
        NodeKind::File | NodeKind::Module | NodeKind::Function | NodeKind::Method | NodeKind::Struct | NodeKind::Enum
        | NodeKind::Trait | NodeKind::Impl | NodeKind::TypeAlias | NodeKind::Const | NodeKind::Static
        | NodeKind::Macro => true,
        _ => false,
    }
}

/// The first line of a node, 0 without a range.
pub open spec fn start_line_of(n: Node) -> nat {
    match n.range {
        Some(r) => r.start_line as nat,
        None => 0,
    }
}

/// Where a node is read: its file, `:` and its first line.
pub open spec fn read_key(n: Node) -> Seq<char> {
    opt_text(n.file) + ":"@ + nat_digits(start_line_of(n))
}

/// One step of a reading order: why, and which node (a position).
pub struct ReadItem {
    pub reason: String,
    pub node: usize,
}

pub open spec fn items_view(v: Seq<ReadItem>) -> Seq<(Seq<char>, usize)>
    decreases v.len(),
{
    if v.len() == 0 {
        Seq::empty()
    } else {
        items_view(v.drop_last()).push((v.last().reason@, v.last().node))
    }
}

/// The places of the nodes of `items`, in order.
pub open spec fn keys_of(nodes: Seq<Node>, items: Seq<(Seq<char>, usize)>) -> Seq<Seq<char>>
    decreases items.len(),
{
    if items.len() == 0 {
        Seq::empty()
    } else {
        keys_of(nodes, items.drop_last()).push(read_key(nodes[items.last().1 as int]))
    }
}

/// `items` with node `p` added for `reason`, if it has a file, is worth
/// reading, and no item is read at its place yet.
pub open spec fn push_read_spec(nodes: Seq<Node>, items: Seq<(Seq<char>, usize)>, p: usize, reason: Seq<char>) -> Seq<(Seq<char>, usize)> {
    if nodes[p as int].file is Some && is_readable_kind(nodes[p as int].kind) && !keys_of(nodes, items).contains(
        read_key(nodes[p as int]),
    ) {
        items.push((reason, p))
    } else {
        items
    }
}

/// `items` with the nodes `ps` added in turn for `reason`.
pub open spec fn push_all_spec(nodes: Seq<Node>, items: Seq<(Seq<char>, usize)>, ps: Seq<usize>, reason: Seq<char>) -> Seq<(Seq<char>, usize)>
    decreases ps.len(),
{
    if ps.len() == 0 {
        items
    } else {
        push_read_spec(nodes, push_all_spec(nodes, items, ps.drop_last(), reason), ps.last(), reason)
    }
}

/// Edges that lead to something to read next: declarations, module files and calls.
pub open spec fn is_read_edge(k: EdgeKind) -> bool {
    k == EdgeKind::Declares || k == EdgeKind::ModuleFile || k == EdgeKind::Calls
}

/// The nodes worth reading that the edges `es` (positions) lead to, in order.
pub open spec fn dep_nodes(graph: CodeGraph, es: Seq<usize>) -> Seq<usize>
    decreases es.len(),
{
    if es.len() == 0 {
        Seq::empty()
    } else {
        let prev = dep_nodes(graph, es.drop_last());
        let e = graph.edges@[es.last() as int];
        if is_read_edge(e.kind) && has_id(graph.nodes@, e.to@) && is_readable_kind(
            graph.nodes@[last_with_id(graph.nodes@, e.to@)].kind,
        ) {
            prev.push(last_with_id(graph.nodes@, e.to@) as usize)
        } else {
            prev
        }
    }
}

/// The first `limit` of `s`.
pub open spec fn first_n<T>(s: Seq<T>, limit: nat) -> Seq<T> {
    if s.len() <= limit {
        s
    } else {
        s.take(limit as int)
    }
}

/// Reading from root `c`: the root itself, then at most `limit` of what it
/// leads to (see [`dep_nodes`]).
pub open spec fn root_step(graph: CodeGraph, items: Seq<(Seq<char>, usize)>, c: usize, limit: nat) -> Seq<(Seq<char>, usize)> {
    let first = push_read_spec(graph.nodes@, items, c, "root"@);
    let ds = dep_nodes(graph, edges_at(graph.edges@, graph.nodes@[c as int].id@, true));
    push_all_spec(graph.nodes@, first, first_n(ds, limit), "direct dependency"@)
}

/// The roots read in turn until `limit` items are reached.
pub open spec fn read_fold(graph: CodeGraph, roots: Seq<usize>, limit: nat) -> Seq<(Seq<char>, usize)>
    decreases roots.len(),
{
    if roots.len() == 0 {
        Seq::empty()
    } else {
        let prev = read_fold(graph, roots.drop_last(), limit);
        if prev.len() >= limit {
            prev
        } else {
            root_step(graph, prev, roots.last(), limit)
        }
    }
}

/// The order in which to read the code around `roots`, at most `limit` items.
pub open spec fn read_order_spec(graph: CodeGraph, roots: Seq<usize>, limit: nat) -> Seq<(Seq<char>, usize)> {
    first_n(read_fold(graph, roots, limit), limit)
}

proof fn lemma_items_push(v: Seq<ReadItem>, x: ReadItem)
    ensures
        items_view(v.push(x)) == items_view(v).push((x.reason@, x.node)),
{
    assert(v.push(x).drop_last() =~= v);
}

proof fn lemma_items_len(v: Seq<ReadItem>)
    ensures
        items_view(v).len() == v.len(),
    decreases v.len(),
{
    if v.len() > 0 {
        lemma_items_len(v.drop_last());
    }
}

proof fn lemma_items_take(v: Seq<ReadItem>, n: int)
    requires
        0 <= n <= v.len(),
    ensures
        items_view(v.take(n)) == items_view(v).take(n),
    decreases v.len(),
{
    lemma_items_len(v);
    if n < v.len() {
        assert(v.drop_last().take(n) =~= v.take(n));
        lemma_items_take(v.drop_last(), n);
        lemma_items_len(v.drop_last());
        assert(items_view(v).drop_last() == items_view(v.drop_last()));
        assert(items_view(v.drop_last()).take(n) =~= items_view(v).take(n));
    } else {
        assert(v.take(n) =~= v);
        assert(items_view(v).take(n) =~= items_view(v));
    }
}

/// Adds node `p` for `reason` (see [`push_read_spec`]); `keys` holds the
/// places of the items.
fn push_read_item(graph: &CodeGraph, items: &mut Vec<ReadItem>, keys: &mut Vec<String>, p: usize, reason: &str)
    requires
        p < graph.nodes.len(),
        strings_view(old(keys)@) == keys_of(graph.nodes@, items_view(old(items)@)),
    ensures
        items_view(final(items)@) == push_read_spec(graph.nodes@, items_view(old(items)@), p, reason@),
        strings_view(final(keys)@) == keys_of(graph.nodes@, items_view(final(items)@)),
{
    proof {
        reveal_strlit(":");
    }
    let node = &graph.nodes[p];
    let file = match &node.file {
        Some(f) => f,
        None => return,
    };
    if !is_readable_node(node) {
        return;
    }
    let line: usize = match &node.range {
        Some(r) => r.start_line,
        None => 0,
    };
    let head = cat(file.as_str(), ":");
    let digits = usize_to_string(line);
    let key = cat(head.as_str(), digits.as_str());
    assert(key@ == read_key(graph.nodes@[p as int]));
    if contains_string(keys, key.as_str()) {
        return;
    }
    let ghost old_items = items@;
    let ghost old_keys = keys@;
    items.push(ReadItem { reason: owned(reason), node: p });
    keys.push(key);
    proof {
        assert(items@ == old_items.push(items@[items.len() - 1]));
        lemma_items_push(old_items, items@[items.len() - 1]);
        let iv = items_view(items@);
        assert(iv.drop_last() =~= items_view(old_items));
        assert(strings_view(keys@) =~= strings_view(old_keys).push(read_key(graph.nodes@[p as int])));
    }
}

proof fn lemma_first_n_push(s: Seq<usize>, x: usize, limit: nat)
    ensures
        s.len() < limit ==> first_n(s.push(x), limit) == first_n(s, limit).push(x),
        s.len() >= limit ==> first_n(s.push(x), limit) == first_n(s, limit),
{
    if s.len() >= limit {
        assert(s.push(x).take(limit as int) =~= s.take(limit as int));
        if s.len() == limit {
            assert(s.take(limit as int) =~= s);
        }
    }
}

/// Reads root `c` (see [`root_step`]).
fn read_root(graph: &CodeGraph, index: &QueryIndex, items: &mut Vec<ReadItem>, keys: &mut Vec<String>, c: usize, limit: usize)
    requires
        index.describes(graph),
        c < graph.nodes.len(),
        strings_view(old(keys)@) == keys_of(graph.nodes@, items_view(old(items)@)),
    ensures
        items_view(final(items)@) == root_step(*graph, items_view(old(items)@), c, limit as nat),
        strings_view(final(keys)@) == keys_of(graph.nodes@, items_view(final(items)@)),
{
    proof {
        reveal_strlit("root");
        reveal_strlit("direct dependency");
    }
    push_read_item(graph, items, keys, c, "root");
    let ghost first = items_view(items@);
    let es = index.edges_of(graph, c, true);
    let ghost esv = es@;
    let mut t: usize = 0;
    let mut taken: usize = 0;
    assert(esv.take(0) =~= Seq::<usize>::empty());
    while t < es.len()
        invariant
            index.describes(graph),
            taken == first_n(dep_nodes(*graph, esv.take(t as int)), limit as nat).len(),
            taken <= t,
            t <= es.len(),
            esv == es@,
            esv == edges_at(graph.edges@, graph.nodes@[c as int].id@, true),
            forall|u: int| 0 <= u < es.len() ==> es@[u] < graph.edges.len(),
            strings_view(keys@) == keys_of(graph.nodes@, items_view(items@)),
            items_view(items@) == push_all_spec(
                graph.nodes@,
                first,
                first_n(dep_nodes(*graph, esv.take(t as int)), limit as nat),
                "direct dependency"@,
            ),
        decreases es.len() - t,
    {
        let e = &graph.edges[es[t]];
        let ghost prev = dep_nodes(*graph, esv.take(t as int));
        proof {
            assert(esv.take(t + 1).drop_last() =~= esv.take(t as int));
            assert(esv.take(t + 1).last() == es@[t as int]);
        }
        let kind_ok = match e.kind {
            EdgeKind::Declares | EdgeKind::ModuleFile | EdgeKind::Calls => true,
            _ => false,
        };
        if kind_ok {
            let to = chars_of(e.to.as_str());
            match index.lookup(graph, &to) {
                Some(q) => {
                    if is_readable_node(&graph.nodes[q]) {
                        proof {
                            crate::index::lemma_last_with_id(graph.nodes@, e.to@, q as int);
                            assert(dep_nodes(*graph, esv.take(t + 1)) == prev.push(q));
                            lemma_first_n_push(prev, q, limit as nat);
                        }
                        if taken < limit {
                            push_read_item(graph, items, keys, q, "direct dependency");
                            taken = taken + 1;
                            proof {
                                let ps = first_n(dep_nodes(*graph, esv.take(t + 1)), limit as nat);
                                assert(ps.drop_last() == first_n(prev, limit as nat));
                                assert(ps.last() == q);
                            }
                        }
                    } else {
                        proof {
                            crate::index::lemma_last_with_id(graph.nodes@, e.to@, q as int);
                        }
                    }
                },
                None => {},
            }
        }
        t = t + 1;
    }
    assert(esv.take(es.len() as int) =~= esv);
}

/// The order in which to read the code around `roots` (node positions), at
/// most `limit` items (see [`read_order_spec`]).
pub fn read_order(graph: &CodeGraph, index: &QueryIndex, roots: &Vec<usize>, limit: usize) -> (r: Vec<ReadItem>)
    requires
        index.describes(graph),
        forall|i: int| 0 <= i < roots.len() ==> roots@[i] < graph.nodes.len(),
    ensures
        items_view(r@) == read_order_spec(*graph, roots@, limit as nat),
{
    let mut items: Vec<ReadItem> = Vec::new();
    let mut keys: Vec<String> = Vec::new();
    let mut k: usize = 0;
    assert(roots@.take(0) =~= Seq::<usize>::empty());
    loop
        invariant_except_break
            k <= roots.len(),
            index.describes(graph),
            forall|i: int| 0 <= i < roots.len() ==> roots@[i] < graph.nodes.len(),
            strings_view(keys@) == keys_of(graph.nodes@, items_view(items@)),
            items_view(items@) == read_fold(*graph, roots@.take(k as int), limit as nat),
        ensures
            items_view(items@) == read_fold(*graph, roots@, limit as nat),
        decreases roots.len() - k,
    {
        if k >= roots.len() {
            assert(roots@.take(k as int) =~= roots@);
            break;
        }
        proof {
            assert(roots@.take(k + 1).drop_last() =~= roots@.take(k as int));
            assert(roots@.take(k + 1).last() == roots@[k as int]);
            lemma_items_len(items@);
        }
        if items.len() >= limit {
            proof {
                lemma_read_fold_stays(*graph, roots@, k as int, limit as nat);
            }
            break;
        }
        read_root(graph, index, &mut items, &mut keys, roots[k], limit);
        k = k + 1;
    }
    let ghost all = items@;
    proof {
        lemma_items_len(all);
    }
    if items.len() > limit {
        items.truncate(limit);
        proof {
            assert(items@ =~= all.take(limit as int));
            lemma_items_take(all, limit as int);
        }
    }
    items
}

/// Once `limit` items are read, later roots add nothing.
proof fn lemma_read_fold_stays(graph: CodeGraph, roots: Seq<usize>, k: int, limit: nat)
    requires
        0 <= k <= roots.len(),
        read_fold(graph, roots.take(k), limit).len() >= limit,
    ensures
        read_fold(graph, roots, limit) == read_fold(graph, roots.take(k), limit),
    decreases roots.len() - k,
{
    if k < roots.len() {
        let t = roots.take(k + 1);
        assert(t.drop_last() =~= roots.take(k));
        lemma_read_fold_stays(graph, roots, k + 1, limit);
    } else {
        assert(roots.take(k) =~= roots);
    }
}

// ---------------------------------------------------------------------------
// Guide roots by text
// ---------------------------------------------------------------------------

/// 100 for a term equal to the whole text, 25 for one inside it, else 0.
pub open spec fn guide_term_score(h: Seq<char>, t: Seq<char>) -> nat {
    if h == t {
        100
    } else if contains_seq(h, t) {
        25
    } else {
        0
    }
}

/// The sum of the term scores.
pub open spec fn guide_text_score(h: Seq<char>, ts: Seq<Seq<char>>) -> nat
    decreases ts.len(),
{
    if ts.len() == 0 {
        0
    } else {
        guide_text_score(h, ts.drop_last()) + guide_term_score(h, ts.last())
    }
}

/// A node's score in a guide search: 0 when no term matches, else its text
/// score plus its degree (saturating).
pub open spec fn guide_score_at(graph: CodeGraph, ts: Seq<Seq<char>>, p: int) -> nat {
    let t = guide_text_score(haystack(graph.nodes@[p]), ts);
    if t == 0 {
        0
    } else {
        cap(t + degree(graph.edges@, graph.nodes@[p].id@))
    }
}

/// In a guide search, node `p` comes before node `q`: higher score, then
/// qualified name, then position.
pub open spec fn guide_before(graph: CodeGraph, ts: Seq<Seq<char>>, p: int, q: int) -> bool {
    ranked_before(
        guide_score_at(graph, ts, p),
        graph.nodes@[p].qualified_name@,
        Seq::empty(),
        p,
        guide_score_at(graph, ts, q),
        graph.nodes@[q].qualified_name@,
        Seq::empty(),
        q,
    )
}

fn guide_node_score(graph: &CodeGraph, index: &QueryIndex, p: usize, ts: &Vec<Vec<char>>) -> (s: usize)
    requires
        index.describes(graph),
        p < graph.nodes.len(),
    ensures
        s == guide_score_at(*graph, vecs_view(ts@), p as int),
{
    let h = node_haystack(&graph.nodes[p]);
    let ghost tv = vecs_view(ts@);
    let mut acc: usize = 0;
    let mut k: usize = 0;
    while k < ts.len()
        invariant
            k <= ts.len(),
            tv == vecs_view(ts@),
            h@ == haystack(graph.nodes@[p as int]),
            acc == cap(guide_text_score(h@, tv.take(k as int))),
        decreases ts.len() - k,
    {
        let t = &ts[k];
        let v: usize = if crate::lex::lex_compare(&h, t) == 0 {
            100
        } else if contains_chars(&h, t) {
            25
        } else {
            0
        };
        proof {
            assert(tv.take(k + 1).drop_last() =~= tv.take(k as int));
            assert(tv[k as int] == t@);
        }
        acc = acc.saturating_add(v);
        k = k + 1;
    }
    assert(tv.take(ts.len() as int) =~= tv);
    if acc == 0 {
        0
    } else {
        let d = index.degree_of(graph, p);
        acc.saturating_add(d)
    }
}

/// `r` lists, best first (see [`guide_before`]), the first `limit` nodes that
/// some term of `ts` matches.
pub open spec fn guide_search_listing(graph: CodeGraph, ts: Seq<Seq<char>>, limit: nat, r: Seq<usize>) -> bool {
    &&& r.len() <= limit
    &&& forall|i: int| 0 <= i < r.len() ==> r[i] < graph.nodes.len() && guide_score_at(graph, ts, r[i] as int) > 0
    &&& forall|i: int, j: int| 0 <= i < j < r.len() ==> guide_before(graph, ts, r[i] as int, r[j] as int)
    &&& forall|t: int|
        0 <= t < graph.nodes.len() && guide_score_at(graph, ts, t) > 0 ==> r.contains(t as usize) || (r.len() == limit
            && forall|i: int| 0 <= i < r.len() ==> guide_before(graph, ts, r[i] as int, t))
}

/// The nodes that best match `query` for a guide, best first, at most
/// `limit`: every node some term of the query matches, ordered by
/// [`guide_before`].
pub fn search_nodes(graph: &CodeGraph, index: &QueryIndex, query: &str, limit: usize) -> (r: Vec<usize>)
    requires
        index.describes(graph),
    ensures
        guide_search_listing(*graph, word_runs(lowercase(query@)), limit as nat, r@),
{
    let ts = query_terms(query);
    let ghost tv = word_runs(lowercase(query@));
    let n = graph.nodes.len();
    let mut keys: Vec<RankKey> = Vec::new();
    let mut cand: Vec<usize> = Vec::new();
    let mut p: usize = 0;
    while p < n
        invariant
            n == graph.nodes.len(),
            index.describes(graph),
            p <= n,
            vecs_view(ts@) == tv,
            keys.len() == cand.len(),
            forall|k: int| 0 <= k < cand.len() ==> cand@[k] < p && guide_score_at(*graph, tv, cand@[k] as int) > 0,
            forall|a: int, b: int| 0 <= a < b < cand.len() ==> cand@[a] < cand@[b],
            forall|q: int| 0 <= q < p && guide_score_at(*graph, tv, q) > 0 ==> cand@.contains(q as usize),
            forall|k: int|
                #![trigger keys@[k]]
                0 <= k < keys.len() ==> keys@[k].hi == guide_score_at(*graph, tv, cand@[k] as int) && keys@[k].lo == 0
                    && keys@[k].a@ == graph.nodes@[cand@[k] as int].qualified_name@ && keys@[k].b@ == Seq::<char>::empty(),
        decreases n - p,
    {
        let sc = guide_node_score(graph, index, p, &ts);
        if sc > 0 {
            let rk = RankKey { hi: sc, lo: 0, a: chars_of(graph.nodes[p].qualified_name.as_str()), b: Vec::new() };
            let ghost old_cand = cand@;
            keys.push(rk);
            cand.push(p);
            proof {
                assert(keys@[keys.len() - 1].b@ =~= Seq::<char>::empty());
                assert forall|q: int| 0 <= q < p + 1 && guide_score_at(*graph, tv, q) > 0 implies cand@.contains(q as usize) by {
                    if q == p {
                        assert(cand@[old_cand.len() as int] == p);
                    } else {
                        let k = choose|k: int| 0 <= k < old_cand.len() && old_cand[k] == q as usize;
                        assert(cand@[k] == q as usize);
                    }
                }
            }
        }
        p = p + 1;
    }
    let idx = top_ranked(&keys, limit);
    let r = pick_positions(&idx, &cand);
    proof {
        assert forall|i: int, j: int| 0 <= i < j < r.len() implies guide_before(*graph, tv, r@[i] as int, r@[j] as int) by {
            assert(kb(keys@, idx@[i], idx@[j]));
            if idx@[i] < idx@[j] {
                assert(cand@[idx@[i] as int] < cand@[idx@[j] as int]);
            } else if idx@[i] > idx@[j] {
                assert(cand@[idx@[j] as int] < cand@[idx@[i] as int]);
            }
        }
        assert forall|t: int|
            0 <= t < graph.nodes.len() && guide_score_at(*graph, tv, t) > 0 implies r@.contains(t as usize) || (r.len()
                == limit && forall|i: int| 0 <= i < r.len() ==> guide_before(*graph, tv, r@[i] as int, t)) by {
            assert(cand@.contains(t as usize));
            let k = choose|k: int| 0 <= k < cand.len() && cand@[k] == t as usize;
            let ku = k as usize;
            if idx@.contains(ku) {
                let i = choose|i: int| 0 <= i < idx.len() && idx@[i] == ku;
                assert(r@[i] == t as usize);
            } else {
                assert forall|i: int| 0 <= i < r.len() implies guide_before(*graph, tv, r@[i] as int, t) by {
                    assert(kb(keys@, idx@[i], ku));
                    if idx@[i] < ku {
                        assert(cand@[idx@[i] as int] < cand@[k]);
                    } else if idx@[i] > ku {
                        assert(cand@[k] < cand@[idx@[i] as int]);
                    }
                }
            }
        }
    }
    r
}

// ---------------------------------------------------------------------------
// Guides
// ---------------------------------------------------------------------------

/// `r` lists, best first (see [`entry_before`]), the first `limit` likely
/// entry points.
pub open spec fn entry_listing(graph: CodeGraph, limit: nat, r: Seq<usize>) -> bool {
    &&& r.len() <= limit
    &&& forall|i: int| 0 <= i < r.len() ==> r[i] < graph.nodes.len() && entry_candidate(graph, r[i] as int)
    &&& forall|i: int, j: int| 0 <= i < j < r.len() ==> entry_before(graph, r[i] as int, r[j] as int)
    &&& forall|q: int|
        0 <= q < graph.nodes.len() && entry_candidate(graph, q) ==> r.contains(q as usize) || (r.len() == limit
            && forall|i: int| 0 <= i < r.len() ==> entry_before(graph, r[i] as int, q))
}

/// `w` is a walk from `p` as a guide takes it: the start's id never listed.
pub open spec fn guide_walk(
    graph: CodeGraph,
    p: usize,
    outbound: bool,
    kind: Option<EdgeKind>,
    depth: nat,
    w: Seq<(usize, usize, usize)>,
) -> bool {
    &&& forall|i: int| 0 <= i < w.len() ==> walk_entry(graph, p, outbound, kind, depth, w, i)
    &&& walked_nodes(w).no_duplicates()
    &&& forall|i: int| 0 <= i < w.len() ==> graph.nodes@[w[i].2 as int].id@ != graph.nodes@[p as int].id@
}

/// A guide to some code: where it starts (`roots`, node positions), the order
/// to read it in, and for each root its callers, its callees and what depends
/// on it, walked to some depth; with the graph's quality.
pub struct GuideReport {
    pub root_source: String,
    pub roots: Vec<usize>,
    pub read_order: Vec<ReadItem>,
    pub callers: Vec<Vec<(usize, usize, usize)>>,
    pub callees: Vec<Vec<(usize, usize, usize)>>,
    pub impact: Vec<Vec<(usize, usize, usize)>>,
    pub quality: QualityReport,
}

/// The guide's parts beyond its roots are those of `roots`.
pub open spec fn guide_parts_ok(graph: CodeGraph, depth: nat, limit: nat, g: GuideReport) -> bool {
    &&& items_view(g.read_order@) == read_order_spec(graph, g.roots@, limit)
    &&& g.callers.len() == g.roots.len() && g.callees.len() == g.roots.len() && g.impact.len() == g.roots.len()
    &&& forall|i: int|
        0 <= i < g.roots.len() ==> guide_walk(graph, #[trigger] g.roots@[i], false, Some(EdgeKind::Calls), depth, g.callers@[i]@)
            && guide_walk(graph, g.roots@[i], true, Some(EdgeKind::Calls), depth, g.callees@[i]@)
            && guide_walk(graph, g.roots@[i], false, None, depth, g.impact@[i]@)
    &&& g.quality.score == confidence_spec(graph.edges@)
}

fn guide_from_roots(graph: &CodeGraph, index: &QueryIndex, roots: Vec<usize>, depth: usize, limit: usize, source: &str) -> (g: GuideReport)
    requires
        index.describes(graph),
        graph.edges@.len() * 100 <= usize::MAX,
        forall|i: int| 0 <= i < roots.len() ==> roots@[i] < graph.nodes.len(),
    ensures
        g.roots@ == roots@,
        g.root_source@ == source@,
        guide_parts_ok(*graph, depth as nat, limit as nat, g),
{
    let read = read_order(graph, index, &roots, limit);
    let mut callers: Vec<Vec<(usize, usize, usize)>> = Vec::new();
    let mut callees: Vec<Vec<(usize, usize, usize)>> = Vec::new();
    let mut impact: Vec<Vec<(usize, usize, usize)>> = Vec::new();
    let mut i: usize = 0;
    while i < roots.len()
        invariant
            index.describes(graph),
            forall|t: int| 0 <= t < roots.len() ==> roots@[t] < graph.nodes.len(),
            i <= roots.len(),
            callers.len() == i && callees.len() == i && impact.len() == i,
            forall|t: int|
                0 <= t < i ==> guide_walk(*graph, #[trigger] roots@[t], false, Some(EdgeKind::Calls), depth as nat, callers@[t]@)
                    && guide_walk(*graph, roots@[t], true, Some(EdgeKind::Calls), depth as nat, callees@[t]@)
                    && guide_walk(*graph, roots@[t], false, None, depth as nat, impact@[t]@),
        decreases roots.len() - i,
    {
        let c = roots[i];
        callers.push(walk(index, graph, c, false, Some(EdgeKind::Calls), depth, limit, true));
        callees.push(walk(index, graph, c, true, Some(EdgeKind::Calls), depth, limit, true));
        impact.push(walk(index, graph, c, false, None, depth, limit, true));
        i = i + 1;
    }
    let quality = quality(graph);
    GuideReport { root_source: owned(source), roots, read_order: read, callers, callees, impact, quality }
}

/// The query is given and not blank.
pub open spec fn has_query(query: Option<&str>) -> bool {
    query matches Some(q) && trim_spec(q@).len() > 0
}

/// A guide to the code around `query`: its roots are the six best matches
/// of the query (see [`search_nodes`]) or, without a query, the six likeliest
/// entry points (see [`entry_candidates`]).
pub fn guide(graph: &CodeGraph, query: Option<&str>, depth: usize, limit: usize) -> (g: GuideReport)
    requires
        weights_fit(graph.edges@),
        graph.edges@.len() * 100 <= usize::MAX,
    ensures
        g.root_source@ == "lexical"@,
        match query {
            Some(q) => has_query(query) ==> guide_search_listing(*graph, word_runs(lowercase(q@)), 6, g.roots@),
            None => true,
        },
        !has_query(query) ==> entry_listing(*graph, 6, g.roots@),
        guide_parts_ok(*graph, depth as nat, limit as nat, g),
{
    let index = QueryIndex::new(graph);
    let searched = match query {
        Some(q) => {
            let qv = chars_of(q);
            let t = trim_chars(&qv);
            if t.len() > 0 {
                Some(search_nodes(graph, &index, q, 6))
            } else {
                None
            }
        },
        None => None,
    };
    let roots = match searched {
        Some(r) => r,
        None => {
            let items = entry_candidates(graph, &index, 6);
            let mut r: Vec<usize> = Vec::new();
            let mut i: usize = 0;
            while i < items.len()
                invariant
                    i <= items.len(),
                    r.len() == i,
                    forall|t: int| 0 <= t < i ==> r@[t] == items@[t].node,
                decreases items.len() - i,
            {
                r.push(items[i].node);
                i = i + 1;
            }
            proof {
                assert forall|q: int|
                    0 <= q < graph.nodes.len() && entry_candidate(*graph, q) implies r@.contains(q as usize) || (r.len() == 6
                        && forall|i: int| 0 <= i < r.len() ==> entry_before(*graph, r@[i] as int, q)) by {
                    if exists|i: int| 0 <= i < items.len() && items@[i].node == q {
                        let i = choose|i: int| 0 <= i < items.len() && items@[i].node == q;
                        assert(r@[i] == q as usize);
                    }
                }
                assert forall|i: int| 0 <= i < r.len() implies r@[i] < graph.nodes.len() && entry_candidate(*graph, r@[i] as int) by {
                    assert(entry_item_ok(*graph, items@[i]));
                }
            }
            r
        },
    };
    proof {
        reveal_strlit("lexical");
    }
    guide_from_roots(graph, &index, roots, depth, limit, "lexical")
}

/// The nodes the ids stand for (the last node with each id), skipping unknown ids.
pub open spec fn nodes_of_ids(graph: CodeGraph, ids: Seq<Seq<char>>) -> Seq<usize>
    decreases ids.len(),
{
    if ids.len() == 0 {
        Seq::empty()
    } else {
        let prev = nodes_of_ids(graph, ids.drop_last());
        if has_id(graph.nodes@, ids.last()) {
            prev.push(last_with_id(graph.nodes@, ids.last()) as usize)
        } else {
            prev
        }
    }
}

/// A guide whose roots are the nodes `root_ids` name (at most `limit`, at
/// least one), said to come from `root_source`; when none of the ids names a
/// node, the guide for `query` (see [`guide`]).
pub fn guide_with_root_ids(
    graph: &CodeGraph,
    query: Option<&str>,
    root_ids: &Vec<String>,
    depth: usize,
    limit: usize,
    root_source: &str,
) -> (g: GuideReport)
    requires
        weights_fit(graph.edges@),
        graph.edges@.len() * 100 <= usize::MAX,
    ensures
        ({
            let found = nodes_of_ids(*graph, strings_view(root_ids@));
            &&& found.len() > 0 ==> g.roots@ == first_n(found, if limit >= 1 { limit as nat } else { 1nat })
                && g.root_source@ == root_source@
            &&& found.len() == 0 ==> g.root_source@ == "lexical"@ && (!has_query(query) ==> entry_listing(*graph, 6, g.roots@))
                && match query {
                Some(q) => has_query(query) ==> guide_search_listing(*graph, word_runs(lowercase(q@)), 6, g.roots@),
                None => true,
            }
        }),
        guide_parts_ok(*graph, depth as nat, limit as nat, g),
{
    let index = QueryIndex::new(graph);
    let ghost ids = strings_view(root_ids@);
    let cap_n: usize = if limit >= 1 { limit } else { 1 };
    let mut roots: Vec<usize> = Vec::new();
    let mut i: usize = 0;
    assert(ids.take(0) =~= Seq::<Seq<char>>::empty());
    while i < root_ids.len()
        invariant
            index.describes(graph),
            ids == strings_view(root_ids@),
            i <= root_ids.len(),
            cap_n >= 1,
            roots@ == first_n(nodes_of_ids(*graph, ids.take(i as int)), cap_n as nat),
            forall|t: int| 0 <= t < roots.len() ==> roots@[t] < graph.nodes.len(),
        decreases root_ids.len() - i,
    {
        let ghost prev = nodes_of_ids(*graph, ids.take(i as int));
        proof {
            assert(ids.take(i + 1).drop_last() =~= ids.take(i as int));
            assert(ids.take(i + 1).last() == root_ids@[i as int]@);
        }
        let id = chars_of(root_ids[i].as_str());
        match index.lookup(graph, &id) {
            Some(q) => {
                proof {
                    crate::index::lemma_last_with_id(graph.nodes@, id@, q as int);
                    assert(nodes_of_ids(*graph, ids.take(i + 1)) == prev.push(q));
                    lemma_first_n_push(prev, q, cap_n as nat);
                }
                if roots.len() < cap_n {
                    roots.push(q);
                }
            },
            None => {},
        }
        i = i + 1;
    }
    assert(ids.take(root_ids.len() as int) =~= ids);
    if roots.len() == 0 {
        proof {
            if nodes_of_ids(*graph, ids).len() > 0 {
                assert(first_n(nodes_of_ids(*graph, ids), cap_n as nat).len() > 0);
            }
        }
        return guide(graph, query, depth, limit);
    }
    guide_from_roots(graph, &index, roots, depth, limit, root_source)
}

} // verus!
