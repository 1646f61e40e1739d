use vstd::prelude::*;
use crate::index::QueryIndex;
use crate::builder::opt_view;
use crate::index::{has_id, last_with_id};
use crate::model::{CodeGraph, Edge, EdgeKind, Node};
use crate::query::{find_nodes_spec, require_unique_node};
use crate::seqs::strings_view;
use crate::strs::{cat, chars_of, contains_seq, contains_string, nat_digits, owned, str_contains, str_eq, usize_to_string};
use crate::test_impact::{tests, TestCandidate, TestsReport};
use crate::text::{append_str, join, join_strings};
use crate::traversal::walk;

verus! {

// ---------------------------------------------------------------------------
// Risk of changing a symbol
// ---------------------------------------------------------------------------

/// `e` is a call into the node with id `id`.
pub open spec fn incoming_call(e: Edge, id: Seq<char>) -> bool {
    e.kind == EdgeKind::Calls && e.to@ == id
}

/// The number of calls into `id` among the first `n` edges.
pub open spec fn calls_into(edges: Seq<Edge>, id: Seq<char>, n: int) -> nat
    decreases n,
{
    if n <= 0 {
        0
    } else {
        calls_into(edges, id, n - 1) + if incoming_call(edges[n - 1], id) {
            1nat
        } else {
            0nat
        }
    }
}

/// The file of the caller of edge `e`: that of the last node with its source id.
pub open spec fn caller_file(nodes: Seq<Node>, e: Edge) -> Option<Seq<char>> {
    if has_id(nodes, e.from@) {
        opt_view(nodes[last_with_id(nodes, e.from@)].file)
    } else {
        None
    }
}

/// The files of the callers of `id` among the first `n` edges, each once, in
/// edge order.
pub open spec fn caller_files(nodes: Seq<Node>, edges: Seq<Edge>, id: Seq<char>, n: int) -> Seq<Seq<char>>
    decreases n,
{
    if n <= 0 {
        Seq::empty()
    } else {
        let rest = caller_files(nodes, edges, id, n - 1);
        let e = edges[n - 1];
        if incoming_call(e, id) && caller_file(nodes, e) is Some && !rest.contains(caller_file(nodes, e)->0) {
            rest.push(caller_file(nodes, e)->0)
        } else {
            rest
        }
    }
}

/// Some call into `id` among the first `n` edges is a method call.
pub open spec fn method_called(edges: Seq<Edge>, id: Seq<char>, n: int) -> bool {
    exists|k: int| 0 <= k < n && incoming_call(#[trigger] edges[k], id) && opt_view(edges[k].call_style) == Some("method"@)
}

/// The risk score: three per file affected, one per direct caller, three for
/// a public symbol that has callers, two when it is called as a method
/// (saturating).
pub open spec fn risk_score_spec(files: nat, callers: nat, public: bool, method: bool) -> nat {
    crate::ranking::cap(3 * files + callers + (if public && callers > 0 { 3nat } else { 0nat }) + (if method { 2nat } else { 0nat }))
}

/// The risk level of a score: `critical` from 15, `high` from 8, `medium`
/// from 3, else `low`.
pub open spec fn risk_level_spec(score: nat) -> Seq<char> {
    if score >= 15 {
        "critical"@
    } else if score >= 8 {
        "high"@
    } else if score >= 3 {
        "medium"@
    } else {
        "low"@
    }
}

/// The factors and score of the risk of changing a symbol.
pub struct ImpactRisk {
    pub score: usize,
    pub level: &'static str,
    pub files_affected: usize,
    pub direct_callers: usize,
    pub is_public: bool,
    pub has_method_callers: bool,
}

/// `r` is the risk of changing node `p`: the files of its callers, its calls,
/// whether it is `pub` and whether it is called as a method.
pub open spec fn risk_of(r: ImpactRisk, nodes: Seq<Node>, edges: Seq<Edge>, p: int) -> bool {
    let id = nodes[p].id@;
    &&& r.files_affected == caller_files(nodes, edges, id, edges.len() as int).len()
    &&& r.direct_callers == calls_into(edges, id, edges.len() as int)
    &&& r.is_public == (opt_view(nodes[p].visibility) == Some("pub"@))
    &&& r.has_method_callers == method_called(edges, id, edges.len() as int)
    &&& r.score == risk_score_spec(r.files_affected as nat, r.direct_callers as nat, r.is_public, r.has_method_callers)
    &&& r.level@ == risk_level_spec(r.score as nat)
}

proof fn lemma_caller_files_bound(nodes: Seq<Node>, edges: Seq<Edge>, id: Seq<char>, n: int)
    requires
        0 <= n <= edges.len(),
    ensures
        caller_files(nodes, edges, id, n).len() <= n,
    decreases n,
{
    if n > 0 {
        lemma_caller_files_bound(nodes, edges, id, n - 1);
    }
}

fn level_for(score: usize) -> (l: &'static str)
    ensures
        l@ == risk_level_spec(score as nat),
{
    proof {
        reveal_strlit("critical");
        reveal_strlit("high");
        reveal_strlit("medium");
        reveal_strlit("low");
    }
    if score >= 15 {
        "critical"
    } else if score >= 8 {
        "high"
    } else if score >= 3 {
        "medium"
    } else {
        "low"
    }
}

/// The risk of changing node `p` (see [`risk_of`]).
pub fn impact_risk(graph: &CodeGraph, index: &QueryIndex, p: usize) -> (r: ImpactRisk)
    requires
        index.id_tables(graph.nodes@),
        p < graph.nodes.len(),
    ensures
        risk_of(r, graph.nodes@, graph.edges@, p as int),
{
    let nodes = &graph.nodes;
    let id = nodes[p].id.as_str();
    let mut files: Vec<String> = Vec::new();
    let mut calls: usize = 0;
    let mut method = false;
    let mut k: usize = 0;
    while k < graph.edges.len()
        invariant
            k <= graph.edges.len(),
            index.id_tables(graph.nodes@),
            id@ == graph.nodes@[p as int].id@,
            calls == calls_into(graph.edges@, id@, k as int),
            calls <= k,
            crate::seqs::strings_view(files@) == caller_files(graph.nodes@, graph.edges@, id@, k as int),
            method == method_called(graph.edges@, id@, k as int),
        decreases graph.edges.len() - k,
    {
        let e = &graph.edges[k];
        if e.kind == EdgeKind::Calls && str_eq(e.to.as_str(), id) {
            calls = calls + 1;
            match &e.call_style {
                Some(s) => {
                    if str_eq(s.as_str(), "method") {
                        method = true;
                    }
                },
                None => {},
            }
            match index.lookup(graph, &chars_of(e.from.as_str())) {
                Some(q) => {
                    proof {
                        crate::index::lemma_last_with_id(graph.nodes@, e.from@, q as int);
                    }
                    match &graph.nodes[q].file {
                        Some(f) => {
                            if !contains_string(&files, f.as_str()) {
                                let ghost before = files@;
                                files.push(owned(f.as_str()));
                                assert(crate::seqs::strings_view(files@) =~= crate::seqs::strings_view(before).push(f@));
                            }
                        },
                        None => {},
                    }
                },
                None => {},
            }
        }
        proof {
            reveal_strlit("method");
            if method_called(graph.edges@, id@, k + 1) && !method_called(graph.edges@, id@, k as int) {
                let j = choose|j: int| 0 <= j < k + 1 && incoming_call(#[trigger] graph.edges@[j], id@) && opt_view(graph.edges@[j].call_style) == Some("method"@);
                assert(j == k);
            }
        }
        k = k + 1;
    }
    proof {
        lemma_caller_files_bound(graph.nodes@, graph.edges@, id@, graph.edges@.len() as int);
        reveal_strlit("pub");
    }
    let nfiles = files.len();
    let is_public = match &nodes[p].visibility {
        Some(v) => str_eq(v.as_str(), "pub"),
        None => false,
    };
    let wide: u128 = 3 * (nfiles as u128) + (calls as u128) + if is_public && calls > 0 { 3 } else { 0 } + if method { 2 } else { 0 };
    let score: usize = if wide > usize::MAX as u128 { usize::MAX } else { wide as usize };
    ImpactRisk { score, level: level_for(score), files_affected: nfiles, direct_callers: calls, is_public, has_method_callers: method }
}

/// The advice that comes with an impact report: the spread over files, the
/// method calls, the public callers, or that the change stays local.
pub open spec fn hints_spec(r: ImpactRisk) -> Seq<Seq<char>> {
    let a = if r.files_affected > 1 {
        seq!["Touches "@ + nat_digits(r.files_affected as nat) + " files: update the callers in each file"@]
    } else {
        Seq::empty()
    };
    let b = if r.has_method_callers {
        seq!["Called as a method: check every receiver type"@]
    } else {
        Seq::empty()
    };
    let c = if r.is_public && r.direct_callers > 0 {
        seq!["Public API with "@ + nat_digits(r.direct_callers as nat) + " call site(s): keep the signature or update them all"@]
    } else {
        Seq::empty()
    };
    let d = if r.direct_callers == 0 {
        seq!["No direct callers: the change stays local"@]
    } else {
        Seq::empty()
    };
    a + b + c + d
}

/// The advice for a risk (see [`hints_spec`]).
pub fn change_hints(r: &ImpactRisk) -> (h: Vec<String>)
    ensures
        crate::seqs::strings_view(h@) == hints_spec(*r),
{
    let mut h: Vec<String> = Vec::new();
    if r.files_affected > 1 {
        let mut s = cat("Touches ", usize_to_string(r.files_affected).as_str());
        append_str(&mut s, " files: update the callers in each file");
        h.push(s);
    }
    let ghost ha = crate::seqs::strings_view(h@);
    if r.has_method_callers {
        h.push(owned("Called as a method: check every receiver type"));
    }
    let ghost hb = crate::seqs::strings_view(h@);
    if r.is_public && r.direct_callers > 0 {
        let mut s = cat("Public API with ", usize_to_string(r.direct_callers).as_str());
        append_str(&mut s, " call site(s): keep the signature or update them all");
        h.push(s);
    }
    let ghost hc = crate::seqs::strings_view(h@);
    if r.direct_callers == 0 {
        h.push(owned("No direct callers: the change stays local"));
    }
    proof {
        let sa = if r.files_affected > 1 {
            seq!["Touches "@ + nat_digits(r.files_affected as nat) + " files: update the callers in each file"@]
        } else {
            Seq::<Seq<char>>::empty()
        };
        assert(ha =~= sa);
        assert(hb =~= sa + if r.has_method_callers {
            seq!["Called as a method: check every receiver type"@]
        } else {
            Seq::<Seq<char>>::empty()
        });
        assert(crate::seqs::strings_view(h@) =~= hints_spec(*r));
    }
    h
}

// ---------------------------------------------------------------------------
// Impact
// ---------------------------------------------------------------------------

/// What changing a symbol touches: its callers, everything that depends on it
/// and everything it depends on, as walks of `(depth, edge, node)` entries,
/// with the risk of the change and advice for it.
pub struct ImpactReport {
    pub root: usize,
    pub callers: Vec<(usize, usize, usize)>,
    pub dependents: Vec<(usize, usize, usize)>,
    pub dependencies: Vec<(usize, usize, usize)>,
    pub risk: ImpactRisk,
    pub change_hints: Vec<String>,
}

/// The impact of changing the node `name` designates: walks of up to `depth`
/// levels over incoming calls, over all incoming edges and over all outgoing
/// edges, with the risk of changing it (see [`risk_of`]) and advice (see
/// [`hints_spec`]). Fails as [`require_unique_node`] does. A walk that lists
/// fewer than `limit` nodes lists every node within `depth` levels.
pub fn impact(graph: &CodeGraph, name: &str, depth: usize, limit: usize) -> (r: Result<ImpactReport, String>)
    requires
        crate::index::weights_fit(graph.edges@),
    ensures
        r is Ok <==> find_nodes_spec(graph.nodes@, name@).len() == 1,
        r matches Ok(rep) ==> ({
            let p = rep.root;
            &&& p == find_nodes_spec(graph.nodes@, name@)[0] && p < graph.nodes.len()
            &&& forall|i: int| 0 <= i < rep.callers.len() ==> crate::traversal::walk_entry(*graph, p, false, Some(EdgeKind::Calls), depth as nat, rep.callers@, i)
            &&& crate::traversal::walked_nodes(rep.callers@).no_duplicates()
            &&& forall|i: int| 0 <= i < rep.dependents.len() ==> crate::traversal::walk_entry(*graph, p, false, None, depth as nat, rep.dependents@, i)
            &&& crate::traversal::walked_nodes(rep.dependents@).no_duplicates()
            &&& forall|i: int| 0 <= i < rep.dependencies.len() ==> crate::traversal::walk_entry(*graph, p, true, None, depth as nat, rep.dependencies@, i)
            &&& crate::traversal::walked_nodes(rep.dependencies@).no_duplicates()
            &&& rep.callers.len() < limit ==> crate::traversal::walk_complete(*graph, p, false, Some(EdgeKind::Calls), depth as nat, rep.callers@)
            &&& rep.dependents.len() < limit ==> crate::traversal::walk_complete(*graph, p, false, None, depth as nat, rep.dependents@)
            &&& rep.dependencies.len() < limit ==> crate::traversal::walk_complete(*graph, p, true, None, depth as nat, rep.dependencies@)
            &&& risk_of(rep.risk, graph.nodes@, graph.edges@, p as int)
            &&& crate::seqs::strings_view(rep.change_hints@) == hints_spec(rep.risk)
        }),
        r matches Err(msg) ==> crate::query::lookup_failed(graph.nodes@, "symbol"@, name@, name.len() as nat, msg@),
{
    let index = QueryIndex::new(graph);
    let p = match require_unique_node(graph, name, "symbol") {
        Ok(p) => p,
        Err(e) => return Err(e),
    };
    let callers = walk(&index, graph, p, false, Some(EdgeKind::Calls), depth, limit, false);
    let dependents = walk(&index, graph, p, false, None, depth, limit, false);
    let dependencies = walk(&index, graph, p, true, None, depth, limit, false);
    let risk = impact_risk(graph, &index, p);
    let change_hints = change_hints(&risk);
    Ok(ImpactReport { root: p, callers, dependents, dependencies, risk, change_hints })
}

// ---------------------------------------------------------------------------
// Recommendations
// ---------------------------------------------------------------------------

/// The advice for a risk level, given the files affected, whether the symbol
/// is public, its direct callers and the tests found.
pub open spec fn recommendation_spec(level: Seq<char>, files: nat, is_pub: bool, callers: nat, tests: nat) -> Seq<char> {
    if level == "low"@ {
        if tests == 0 {
            "Low risk, no tests found — safe to change, consider adding a test"@
        } else {
            "Low risk — run "@ + nat_digits(tests) + " test(s) to verify, then ship"@
        }
    } else if level == "medium"@ {
        "Medium risk — "@ + nat_digits(files) + " file(s) affected"@ + (if is_pub {
            ", public API change"@
        } else {
            Seq::empty()
        }) + (if tests > 0 {
            ", run "@ + nat_digits(tests) + " test(s) before merging"@
        } else {
            ", no tests found — consider adding one"@
        })
    } else if level == "high"@ {
        "High risk — "@ + nat_digits(files) + " file(s) affected"@ + (if is_pub {
            ", public API with callers"@
        } else {
            Seq::empty()
        }) + ", review all call sites manually"@ + (if tests > 0 {
            ", run "@ + nat_digits(tests) + " test(s) + full suite"@
        } else {
            ", NO tests found — high priority to add"@
        })
    } else if level == "critical"@ {
        "Critical risk — core infrastructure ("@ + nat_digits(files) + " files, "@ + nat_digits(callers)
            + " callers). Staged rollout recommended. Review every call site. Run full test suite + integration tests."@
    } else {
        "Unknown risk level — proceed with caution"@
    }
}

/// The advice for a risk level (see [`recommendation_spec`]).
pub fn generate_recommendation(level: &str, files: usize, is_pub: bool, callers: usize, test_count: usize) -> (r: String)
    ensures
        r@ == recommendation_spec(level@, files as nat, is_pub, callers as nat, test_count as nat),
{
    if str_eq(level, "low") {
        if test_count == 0 {
            owned("Low risk, no tests found — safe to change, consider adding a test")
        } else {
            let mut r = cat("Low risk — run ", usize_to_string(test_count).as_str());
            append_str(&mut r, " test(s) to verify, then ship");
            r
        }
    } else if str_eq(level, "medium") {
        let mut r = cat("Medium risk — ", usize_to_string(files).as_str());
        append_str(&mut r, " file(s) affected");
        let ghost a = r@;
        if is_pub {
            append_str(&mut r, ", public API change");
        } else {
            assert(a + Seq::<char>::empty() =~= a);
        }
        if test_count > 0 {
            append_str(&mut r, ", run ");
            append_str(&mut r, usize_to_string(test_count).as_str());
            append_str(&mut r, " test(s) before merging");
        } else {
            append_str(&mut r, ", no tests found — consider adding one");
        }
        proof {
            assert(r@ =~= recommendation_spec(level@, files as nat, is_pub, callers as nat, test_count as nat));
        }
        r
    } else if str_eq(level, "high") {
        let mut r = cat("High risk — ", usize_to_string(files).as_str());
        append_str(&mut r, " file(s) affected");
        let ghost a = r@;
        if is_pub {
            append_str(&mut r, ", public API with callers");
        } else {
            assert(a + Seq::<char>::empty() =~= a);
        }
        append_str(&mut r, ", review all call sites manually");
        if test_count > 0 {
            append_str(&mut r, ", run ");
            append_str(&mut r, usize_to_string(test_count).as_str());
            append_str(&mut r, " test(s) + full suite");
        } else {
            append_str(&mut r, ", NO tests found — high priority to add");
        }
        proof {
            assert(r@ =~= recommendation_spec(level@, files as nat, is_pub, callers as nat, test_count as nat));
        }
        r
    } else if str_eq(level, "critical") {
        let mut r = cat("Critical risk — core infrastructure (", usize_to_string(files).as_str());
        append_str(&mut r, " files, ");
        append_str(&mut r, usize_to_string(callers).as_str());
        append_str(&mut r, " callers). Staged rollout recommended. Review every call site. Run full test suite + integration tests.");
        r
    } else {
        owned("Unknown risk level — proceed with caution")
    }
}

// ---------------------------------------------------------------------------
// Test commands
// ---------------------------------------------------------------------------

/// Some node lies in a file under `tests/` whose path mentions `test`.
pub open spec fn has_integration_tests(nodes: Seq<Node>) -> bool {
    exists|k: int|
        0 <= k < nodes.len() && ((#[trigger] nodes[k]).file matches Some(f) && contains_seq(f@, "tests/"@)
            && contains_seq(f@, "test"@))
}

/// The names of the nodes of the first `n` candidates.
pub open spec fn candidate_names(nodes: Seq<Node>, cs: Seq<TestCandidate>, n: int) -> Seq<Seq<char>> {
    Seq::new(n as nat, |i: int| nodes[cs[i].node as int].name@)
}

/// The commands suggested for a risk level: `cargo test` with the names of
/// the first five candidate tests (when a candidate's node has a file), then
/// the whole suite for medium risk, and the suite, clippy and the integration
/// tests (when there are some) for high or critical risk.
pub open spec fn test_commands_spec(level: Seq<char>, report: TestsReport, nodes: Seq<Node>) -> Seq<Seq<char>> {
    let first = match report {
        TestsReport::Impact { tests, .. } => if exists|i: int|
            0 <= i < tests@.len() && (#[trigger] nodes[tests@[i].node as int]).file is Some {
            seq![
                "cargo test "@ + join(
                    candidate_names(nodes, tests@, if tests@.len() < 5 { tests@.len() as int } else { 5 }),
                    " "@,
                ),
            ]
        } else {
            Seq::empty()
        },
        TestsReport::Static { .. } => Seq::empty(),
    };
    let rest = if level == "medium"@ {
        seq!["cargo test"@]
    } else if level == "high"@ || level == "critical"@ {
        seq!["cargo test"@, "cargo clippy -- -D warnings"@] + if has_integration_tests(nodes) {
            seq!["cargo test --test '*'"@]
        } else {
            Seq::empty()
        }
    } else {
        Seq::empty()
    };
    first + rest
}

/// The commands to run before changing a symbol (see [`test_commands_spec`]).
pub fn generate_test_commands(level: &str, report: &TestsReport, graph: &CodeGraph) -> (r: Vec<String>)
    requires
        report matches TestsReport::Impact { tests, .. } ==> forall|i: int| 0 <= i < tests@.len() ==> tests@[i].node < graph.nodes.len(),
    ensures
        strings_view(r@) == test_commands_spec(level@, *report, graph.nodes@),
{
    let ghost nodes = graph.nodes@;
    let mut r: Vec<String> = Vec::new();
    match report {
        TestsReport::Impact { tests, .. } => {
            let mut any_file = false;
            let mut i: usize = 0;
            while i < tests.len()
                invariant
                    i <= tests.len(),
                    nodes == graph.nodes@,
                    forall|j: int| 0 <= j < tests@.len() ==> tests@[j].node < graph.nodes.len(),
                    any_file <==> exists|j: int| 0 <= j < i && (#[trigger] nodes[tests@[j].node as int]).file is Some,
                decreases tests.len() - i,
            {
                if graph.nodes[tests[i].node].file.is_some() {
                    any_file = true;
                }
                i = i + 1;
            }
            if any_file {
                let n = if tests.len() < 5 {
                    tests.len()
                } else {
                    5
                };
                let mut names: Vec<String> = Vec::new();
                let mut j: usize = 0;
                while j < n
                    invariant
                        j <= n,
                        n <= tests.len(),
                        nodes == graph.nodes@,
                        forall|k: int| 0 <= k < tests@.len() ==> tests@[k].node < graph.nodes.len(),
                        strings_view(names@) == candidate_names(nodes, tests@, j as int),
                    decreases n - j,
                {
                    let ghost prev = names@;
                    names.push(owned(graph.nodes[tests[j].node].name.as_str()));
                    assert(strings_view(names@) =~= candidate_names(nodes, tests@, j + 1)) by {
                        assert(strings_view(names@) =~= strings_view(prev).push(nodes[tests@[j as int].node as int].name@));
                    }
                    j = j + 1;
                }
                let joined = join_strings(&names, " ");
                r.push(cat("cargo test ", joined.as_str()));
            }
        },
        TestsReport::Static { .. } => {},
    }
    let ghost first = strings_view(r@);
    assert(first == test_commands_spec(level@, *report, nodes).take(first.len() as int)) by {
        let full = test_commands_spec(level@, *report, nodes);
        assert(full.take(first.len() as int) =~= first);
    }
    if str_eq(level, "medium") {
        r.push(owned("cargo test"));
    } else if str_eq(level, "high") || str_eq(level, "critical") {
        r.push(owned("cargo test"));
        r.push(owned("cargo clippy -- -D warnings"));
        let mut k: usize = 0;
        let mut found = false;
        while k < graph.nodes.len()
            invariant
                k <= graph.nodes.len(),
                nodes == graph.nodes@,
                found <==> exists|j: int|
                    0 <= j < k && ((#[trigger] nodes[j]).file matches Some(f) && contains_seq(f@, "tests/"@) && contains_seq(f@, "test"@)),
            decreases graph.nodes.len() - k,
        {
            match &graph.nodes[k].file {
                Some(f) => {
                    if str_contains(f.as_str(), "tests/") && str_contains(f.as_str(), "test") {
                        found = true;
                    }
                },
                None => {},
            }
            k = k + 1;
        }
        if found {
            r.push(owned("cargo test --test '*'"));
        }
    }
    assert(strings_view(r@) =~= test_commands_spec(level@, *report, nodes));
    r
}

// ---------------------------------------------------------------------------
// Risk
// ---------------------------------------------------------------------------

/// The risk report of a symbol.
pub struct RiskReport {
    pub root: usize,
    pub score: usize,
    pub level: &'static str,
    pub recommendation: String,
    pub files_affected: usize,
    pub direct_callers: usize,
    pub dependency_count: usize,
    pub tests: TestsReport,
    pub commands: Vec<String>,
}

/// What changing the symbol `name` designates risks: the score, level, files
/// affected and direct callers of its impact report (see [`risk_of`]), advice
/// for that level, the dependencies counted, the candidate tests found and
/// the matching commands suggested. Fails as [`require_unique_node`] does.
pub fn risk(graph: &CodeGraph, name: &str, depth: usize, limit: usize) -> (r: Result<RiskReport, String>)
    requires
        crate::index::weights_fit(graph.edges@),
    ensures
        r is Ok <==> find_nodes_spec(graph.nodes@, name@).len() == 1,
        r matches Ok(rep) ==> ({
            let p = rep.root as int;
            &&& rep.root == find_nodes_spec(graph.nodes@, name@)[0]
            &&& exists|ir: ImpactRisk|
                #[trigger] risk_of(ir, graph.nodes@, graph.edges@, p) && rep.score == ir.score && rep.level@ == ir.level@
                    && rep.files_affected == ir.files_affected && rep.direct_callers == ir.direct_callers
                    && rep.recommendation@ == recommendation_spec(ir.level@, ir.files_affected as nat, ir.is_public, ir.direct_callers as nat, match rep.tests {
                    TestsReport::Impact { tests, .. } => tests@.len() as nat,
                    TestsReport::Static { tests } => tests@.len() as nat,
                }) && strings_view(rep.commands@) == test_commands_spec(ir.level@, rep.tests, graph.nodes@)
        }),
{
    let root = match require_unique_node(graph, name, "symbol") {
        Ok(p) => p,
        Err(e) => return Err(e),
    };
    let imp = match impact(graph, name, depth, limit) {
        Ok(i) => i,
        Err(e) => return Err(e),
    };
    let report = tests(graph, Some(name), limit);
    let count = match &report {
        TestsReport::Impact { tests, .. } => tests.len(),
        TestsReport::Static { tests } => tests.len(),
    };
    let ir = &imp.risk;
    proof {
        assert(imp.root == root);
        assert(risk_of(imp.risk, graph.nodes@, graph.edges@, root as int));
    }
    let recommendation = generate_recommendation(ir.level, ir.files_affected, ir.is_public, ir.direct_callers, count);
    let commands = generate_test_commands(ir.level, &report, graph);
    let rep = RiskReport {
        root,
        score: ir.score,
        level: ir.level,
        recommendation,
        files_affected: ir.files_affected,
        direct_callers: ir.direct_callers,
        dependency_count: imp.dependencies.len(),
        tests: report,
        commands,
    };
    proof {
        assert(rep.level@ == imp.risk.level@);
        assert(rep.recommendation@ == recommendation_spec(imp.risk.level@, imp.risk.files_affected as nat, imp.risk.is_public, imp.risk.direct_callers as nat, count as nat));
        assert(strings_view(rep.commands@) == test_commands_spec(imp.risk.level@, rep.tests, graph.nodes@));
        assert(count as nat == match rep.tests {
            TestsReport::Impact { tests, .. } => tests@.len() as nat,
            TestsReport::Static { tests } => tests@.len() as nat,
        });
        let ir0 = imp.risk;
        assert(risk_of(ir0, graph.nodes@, graph.edges@, rep.root as int) && rep.score == ir0.score && rep.level@ == ir0.level@
            && rep.files_affected == ir0.files_affected && rep.direct_callers == ir0.direct_callers);
    }
    Ok(rep)
}

} // verus!
