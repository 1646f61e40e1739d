use vstd::prelude::*;
use crate::model::{CodeGraph, Edge, EdgeKind, Node, NodeKind};
use crate::namegraph::{
    occurs_exec, graph_from_pairs, is_peeling, names_of, occurs, paired, strictly_sorted, topological_order, NameGraph,
};
use crate::plan_text::{
    cycle_hint, cycle_hint_spec, generate_step_reason, generate_summary, reason_parts, summary_parts,
};
use crate::index::QueryIndex;
use crate::query::{find_nodes, find_nodes_spec};
use crate::risk::{impact_risk, risk_of, ImpactRisk};
use crate::seqs::strings_view;
use crate::strs::{owned, str_eq};
use crate::tarjan::{disjoint_groups, find_sccs, flat, lemma_flat_bounded};
use crate::text::join;
use crate::dispatch::pairs_of;

verus! {

// ---------------------------------------------------------------------------
// Choosing the nodes of the symbols to refactor
// ---------------------------------------------------------------------------

pub open spec fn is_callable_kind(k: NodeKind) -> bool {
    k == NodeKind::Function || k == NodeKind::Method || k == NodeKind::Constructor
}

/// The first of the positions `m[i..]` whose node is a function, method or constructor.
pub open spec fn first_callable(nodes: Seq<Node>, m: Seq<usize>, i: int) -> Option<usize>
    decreases m.len() - i,
{
    if i < 0 || i >= m.len() {
        None
    } else if is_callable_kind(nodes[m[i] as int].kind) {
        Some(m[i])
    } else {
        first_callable(nodes, m, i + 1)
    }
}

/// The node chosen for `name`: among the nodes it designates, the first function,
/// method or constructor, else the first.
pub open spec fn pick(nodes: Seq<Node>, name: Seq<char>) -> Option<usize> {
    let m = find_nodes_spec(nodes, name);
    if m.len() == 0 {
        None
    } else {
        match first_callable(nodes, m, 0) {
            Some(p) => Some(p),
            None => Some(m[0]),
        }
    }
}

/// The names that designate a node, each with its chosen node, in input order.
pub open spec fn resolved_spec(nodes: Seq<Node>, names: Seq<Seq<char>>) -> Seq<(Seq<char>, usize)>
    decreases names.len(),
{
    if names.len() == 0 {
        Seq::empty()
    } else {
        let rest = resolved_spec(nodes, names.drop_last());
        match pick(nodes, names.last()) {
            Some(p) => rest.push((names.last(), p)),
            None => rest,
        }
    }
}

/// The names that designate no node, in input order.
pub open spec fn unresolved_spec(nodes: Seq<Node>, names: Seq<Seq<char>>) -> Seq<Seq<char>>
    decreases names.len(),
{
    if names.len() == 0 {
        Seq::empty()
    } else {
        let rest = unresolved_spec(nodes, names.drop_last());
        match pick(nodes, names.last()) {
            Some(p) => rest,
            None => rest.push(names.last()),
        }
    }
}

pub open spec fn resolved_view(v: Seq<(String, usize)>) -> Seq<(Seq<char>, usize)> {
    v.map_values(|r: (String, usize)| (r.0@, r.1))
}

/// The node chosen for `name` (see [`pick`]).
fn pick_node(graph: &CodeGraph, name: &str) -> (r: Option<usize>)
    ensures
        r == pick(graph.nodes@, name@),
        r matches Some(p) ==> p < graph.nodes@.len(),
{
    let m = find_nodes(graph, name);
    if m.len() == 0 {
        return None;
    }
    let mut i: usize = 0;
    while i < m.len()
        invariant
            i <= m.len(),
            m@ == find_nodes_spec(graph.nodes@, name@),
            forall|t: int| 0 <= t < m.len() ==> m@[t] < graph.nodes.len(),
            first_callable(graph.nodes@, m@, 0) == first_callable(graph.nodes@, m@, i as int),
        decreases m.len() - i,
    {
        let k = graph.nodes[m[i]].kind;
        if k == NodeKind::Function || k == NodeKind::Method || k == NodeKind::Constructor {
            return Some(m[i]);
        }
        i = i + 1;
    }
    Some(m[0])
}

/// Splits `names` into those that designate a node, with the node chosen, and
/// those that designate none.
pub fn resolve_symbols(graph: &CodeGraph, names: &Vec<String>) -> (r: (Vec<(String, usize)>, Vec<String>))
    ensures
        resolved_view(r.0@) == resolved_spec(graph.nodes@, strings_view(names@)),
        strings_view(r.1@) == unresolved_spec(graph.nodes@, strings_view(names@)),
        forall|k: int| 0 <= k < r.0@.len() ==> (#[trigger] r.0@[k]).1 < graph.nodes@.len(),
{
    let ghost nv = strings_view(names@);
    let mut resolved: Vec<(String, usize)> = Vec::new();
    let mut unresolved: Vec<String> = Vec::new();
    let mut i: usize = 0;
    while i < names.len()
        invariant
            i <= names.len(),
            nv == strings_view(names@),
            resolved_view(resolved@) == resolved_spec(graph.nodes@, nv.take(i as int)),
            strings_view(unresolved@) == unresolved_spec(graph.nodes@, nv.take(i as int)),
            forall|k: int| 0 <= k < resolved@.len() ==> (#[trigger] resolved@[k]).1 < graph.nodes@.len(),
        decreases names.len() - i,
    {
        assert(nv.take(i + 1).drop_last() =~= nv.take(i as int));
        assert(nv.take(i + 1).last() == names@[i as int]@);
        let ghost rb = resolved@;
        let ghost ub = unresolved@;
        match pick_node(graph, names[i].as_str()) {
            Some(p) => {
                resolved.push((names[i].clone(), p));
                assert(resolved_view(resolved@) =~= resolved_view(rb).push((names@[i as int]@, p)));
            },
            None => {
                unresolved.push(names[i].clone());
                assert(strings_view(unresolved@) =~= strings_view(ub).push(names@[i as int]@));
            },
        }
        i = i + 1;
    }
    assert(nv.take(names.len() as int) =~= nv);
    (resolved, unresolved)
}

// ---------------------------------------------------------------------------
// Dependencies among the chosen symbols
// ---------------------------------------------------------------------------

/// The input name last chosen for the node with id `id`.
pub open spec fn name_of_id(nodes: Seq<Node>, res: Seq<(Seq<char>, usize)>, id: Seq<char>) -> Option<Seq<char>>
    decreases res.len(),
{
    if res.len() == 0 {
        None
    } else if nodes[res.last().1 as int].id@ == id {
        Some(res.last().0)
    } else {
        name_of_id(nodes, res.drop_last(), id)
    }
}

/// Calls, imports and type uses make one symbol depend on another.
pub open spec fn is_dependency_kind(k: EdgeKind) -> bool {
    k == EdgeKind::Calls || k == EdgeKind::UsesType || k == EdgeKind::Returns || k == EdgeKind::Imports
}

/// `(dependency, dependent)` for each dependency edge between two chosen symbols
/// of different names, in edge order.
pub open spec fn dependency_pairs(nodes: Seq<Node>, edges: Seq<Edge>, res: Seq<(Seq<char>, usize)>) -> Seq<
    (Seq<char>, Seq<char>),
>
    decreases edges.len(),
{
    if edges.len() == 0 {
        Seq::empty()
    } else {
        let rest = dependency_pairs(nodes, edges.drop_last(), res);
        let e = edges.last();
        if is_dependency_kind(e.kind) {
            match (name_of_id(nodes, res, e.from@), name_of_id(nodes, res, e.to@)) {
                (Some(f), Some(t)) => if f != t {
                    rest.push((t, f))
                } else {
                    rest
                },
                _ => rest,
            }
        } else {
            rest
        }
    }
}

/// The resolved input names, in input order: the keys of the plan.
pub open spec fn chosen_names(res: Seq<(Seq<char>, usize)>) -> Seq<Seq<char>> {
    res.map_values(|r: (Seq<char>, usize)| r.0)
}

/// Every input name is either resolved or unresolved.
pub proof fn lemma_resolution_counts(nodes: Seq<Node>, names: Seq<Seq<char>>)
    ensures
        resolved_spec(nodes, names).len() + unresolved_spec(nodes, names).len() == names.len(),
    decreases names.len(),
{
    if names.len() > 0 {
        lemma_resolution_counts(nodes, names.drop_last());
    }
}

fn name_for_id(nodes: &Vec<Node>, res: &Vec<(String, usize)>, id: &str) -> (r: Option<String>)
    requires
        forall|k: int| 0 <= k < res@.len() ==> (#[trigger] res@[k]).1 < nodes@.len(),
    ensures
        match r {
            Some(s) => name_of_id(nodes@, resolved_view(res@), id@) == Some(s@),
            None => name_of_id(nodes@, resolved_view(res@), id@) is None,
        },
{
    let ghost rv = resolved_view(res@);
    let mut k: usize = res.len();
    assert(rv.take(k as int) =~= rv);
    while k > 0
        invariant
            k <= res.len(),
            rv == resolved_view(res@),
            forall|q: int| 0 <= q < res@.len() ==> (#[trigger] res@[q]).1 < nodes@.len(),
            name_of_id(nodes@, rv, id@) == name_of_id(nodes@, rv.take(k as int), id@),
        decreases k,
    {
        assert(rv.take(k as int).drop_last() =~= rv.take(k - 1));
        assert(rv.take(k as int).last() == (res@[k - 1].0@, res@[k - 1].1));
        if str_eq(nodes[res[k - 1].1].id.as_str(), id) {
            return Some(res[k - 1].0.clone());
        }
        k = k - 1;
    }
    None
}

/// The dependency pairs among the chosen symbols (see [`dependency_pairs`]).
fn dependencies(graph: &CodeGraph, res: &Vec<(String, usize)>) -> (r: Vec<(String, String)>)
    requires
        forall|k: int| 0 <= k < res@.len() ==> (#[trigger] res@[k]).1 < graph.nodes@.len(),
    ensures
        pairs_of(r@) == dependency_pairs(graph.nodes@, graph.edges@, resolved_view(res@)),
{
    let ghost rv = resolved_view(res@);
    let edges = &graph.edges;
    let mut out: Vec<(String, String)> = Vec::new();
    let mut i: usize = 0;
    while i < edges.len()
        invariant
            i <= edges.len(),
            rv == resolved_view(res@),
            edges@ == graph.edges@,
            forall|k: int| 0 <= k < res@.len() ==> (#[trigger] res@[k]).1 < graph.nodes@.len(),
            pairs_of(out@) == dependency_pairs(graph.nodes@, edges@.take(i as int), rv),
        decreases edges.len() - i,
    {
        assert(edges@.take(i + 1).drop_last() =~= edges@.take(i as int));
        let e = &edges[i];
        let k = e.kind;
        if k == EdgeKind::Calls || k == EdgeKind::UsesType || k == EdgeKind::Returns || k == EdgeKind::Imports {
            let f = name_for_id(&graph.nodes, res, e.from.as_str());
            let t = name_for_id(&graph.nodes, res, e.to.as_str());
            match (f, t) {
                (Some(f), Some(t)) => {
                    if !str_eq(f.as_str(), t.as_str()) {
                        let ghost ob = out@;
                        let ghost fv = f@;
                        let ghost tv = t@;
                        out.push((t, f));
                        assert(pairs_of(out@) =~= pairs_of(ob).push((tv, fv)));
                    }
                },
                _ => {},
            }
        }
        i = i + 1;
    }
    assert(edges@.take(edges.len() as int) =~= edges@);
    out
}


// ---------------------------------------------------------------------------
// The plan
// ---------------------------------------------------------------------------

/// One step of a refactoring plan.
pub struct RefactorStep {
    pub step: usize,
    pub symbol: String,
    pub risk_score: usize,
    pub risk_level: String,
    pub files_affected: usize,
    pub depends_on: Vec<String>,
    pub depended_by: Vec<String>,
    pub reason: String,
}

/// A dependency cycle among the symbols of a plan.
pub struct RefactorCycle {
    pub symbols: Vec<String>,
    pub length: usize,
    pub hint: String,
}

/// The order in which to refactor a set of symbols, dependencies first.
pub struct RefactorPlan {
    pub input_count: usize,
    pub resolved_count: usize,
    pub unresolved: Vec<String>,
    pub order: Vec<RefactorStep>,
    pub cycles: Vec<RefactorCycle>,
    pub has_cycles: bool,
    pub max_risk_score: usize,
    pub summary: String,
}

/// `b` depends on `a` through one of the pairs.
pub open spec fn linked(ps: Seq<(Seq<char>, Seq<char>)>, a: Seq<char>, b: Seq<char>) -> bool {
    exists|k: int| 0 <= k < ps.len() && #[trigger] ps[k] == (a, b)
}

/// The symbols of a plan: the chosen names and every name in a pair.
pub open spec fn symbol_set(keys: Seq<Seq<char>>, ps: Seq<(Seq<char>, Seq<char>)>) -> Set<Seq<char>> {
    Set::new(
        |x: Seq<char>|
            keys.contains(x) || exists|k: int| 0 <= k < ps.len() && ((#[trigger] ps[k]).0 == x || ps[k].1 == x),
    )
}

/// The names of the vertices at positions `r`.
pub open spec fn index_names(g: NameGraph, r: Seq<usize>) -> Seq<Seq<char>> {
    r.map_values(|i: usize| g.names@[i as int]@)
}

/// The symbols in the cycles, counted cycle by cycle.
pub open spec fn cycle_total(cycles: Seq<RefactorCycle>) -> nat
    decreases cycles.len(),
{
    if cycles.len() == 0 {
        0
    } else {
        cycle_total(cycles.drop_last()) + cycles.last().symbols@.len()
    }
}

/// The steps of `order` put the symbols of `v` in dependency order: each once,
/// each after everything it depends on; a symbol left out depends on another one
/// left out.
pub open spec fn orders_symbols(
    syms: Seq<Seq<char>>,
    v: Set<Seq<char>>,
    ps: Seq<(Seq<char>, Seq<char>)>,
) -> bool {
    &&& forall|i: int, j: int| 0 <= i < j < syms.len() ==> syms[i] != syms[j]
    &&& forall|i: int| 0 <= i < syms.len() ==> v.contains(#[trigger] syms[i])
    &&& forall|i: int, d: Seq<char>|
        0 <= i < syms.len() && #[trigger] linked(ps, d, syms[i]) ==> syms.take(i).contains(d)
    &&& forall|x: Seq<char>|
        v.contains(x) && !syms.contains(x) ==> exists|d: Seq<char>|
            v.contains(d) && #[trigger] linked(ps, d, x) && !syms.contains(d)
}

/// What each step says of its symbol `sym`, the `i`-th of `total`.
pub open spec fn step_fits(st: RefactorStep, i: int, total: nat, ps: Seq<(Seq<char>, Seq<char>)>) -> bool {
    let sym = st.symbol@;
    let deps = strings_view(st.depends_on@);
    let dependents = strings_view(st.depended_by@);
    &&& st.step == i + 1
    &&& strictly_sorted(deps)
    &&& forall|d: Seq<char>| deps.contains(d) <==> linked(ps, d, sym)
    &&& strictly_sorted(dependents)
    &&& forall|d: Seq<char>| dependents.contains(d) <==> linked(ps, sym, d)
    &&& st.reason@ == join(reason_parts(i as nat, total, deps, dependents.len(), st.risk_level@), "; "@)
}

/// The node chosen for the symbol `sym`: that of the first resolved name
/// equal to it, from position `i` on.
pub open spec fn first_resolved(res: Seq<(Seq<char>, usize)>, sym: Seq<char>, i: int) -> Option<usize>
    decreases res.len() - i,
{
    if i < 0 || i >= res.len() {
        None
    } else if res[i].0 == sym {
        Some(res[i].1)
    } else {
        first_resolved(res, sym, i + 1)
    }
}

/// The risk figures of the step for `sym`: those of the impact of the node
/// that the name of its chosen node designates (see [`risk_of`]), when that
/// name designates exactly one; else a score of 0, level `unknown` and no
/// files.
pub open spec fn risk_triple(
    nodes: Seq<Node>,
    edges: Seq<Edge>,
    res: Seq<(Seq<char>, usize)>,
    sym: Seq<char>,
    score: usize,
    level: Seq<char>,
    files: usize,
) -> bool {
    match first_resolved(res, sym, 0) {
        Some(q) => {
            let m = find_nodes_spec(nodes, nodes[q as int].name@);
            if m.len() == 1 {
                exists|ir: ImpactRisk|
                    #[trigger] risk_of(ir, nodes, edges, m[0] as int) && score == ir.score && level == ir.level@
                        && files == ir.files_affected
            } else {
                score == 0 && level == "unknown"@ && files == 0
            }
        },
        None => score == 0 && level == "unknown"@ && files == 0,
    }
}

/// The risk figures of a step (see [`risk_triple`]).
pub open spec fn step_risk(nodes: Seq<Node>, edges: Seq<Edge>, res: Seq<(Seq<char>, usize)>, st: RefactorStep) -> bool {
    risk_triple(nodes, edges, res, st.symbol@, st.risk_score, st.risk_level@, st.files_affected)
}

fn symbol_risk(graph: &CodeGraph, index: &QueryIndex, resolved: &Vec<(String, usize)>, sym: &str) -> (r: (usize, &'static str, usize))
    requires
        index.id_tables(graph.nodes@),
        forall|k: int| 0 <= k < resolved@.len() ==> (#[trigger] resolved@[k]).1 < graph.nodes@.len(),
    ensures
        risk_triple(graph.nodes@, graph.edges@, resolved_view(resolved@), sym@, r.0, r.1@, r.2),
{
    proof {
        reveal_strlit("unknown");
    }
    let ghost rv = resolved_view(resolved@);
    let mut k: usize = 0;
    while k < resolved.len()
        invariant
            k <= resolved.len(),
            rv == resolved_view(resolved@),
            index.id_tables(graph.nodes@),
            forall|q: int| 0 <= q < resolved@.len() ==> (#[trigger] resolved@[q]).1 < graph.nodes@.len(),
            first_resolved(rv, sym@, 0) == first_resolved(rv, sym@, k as int),
        decreases resolved.len() - k,
    {
        assert(rv[k as int] == (resolved@[k as int].0@, resolved@[k as int].1));
        if str_eq(resolved[k].0.as_str(), sym) {
            let q = resolved[k].1;
            let m = find_nodes(graph, graph.nodes[q].name.as_str());
            if m.len() == 1 {
                let ir = impact_risk(graph, index, m[0]);
                assert(risk_of(ir, graph.nodes@, graph.edges@, m@[0] as int));
                return (ir.score, ir.level, ir.files_affected);
            }
            return (0, "unknown", 0);
        }
        k = k + 1;
    }
    (0, "unknown", 0)
}

/// The highest risk score of the steps, 0 when there are none.
pub open spec fn max_step_risk(order: Seq<RefactorStep>) -> nat
    decreases order.len(),
{
    if order.len() == 0 {
        0
    } else {
        let m = max_step_risk(order.drop_last());
        if order.last().risk_score > m {
            order.last().risk_score as nat
        } else {
            m
        }
    }
}

/// What each cycle says: distinct symbols, none of them ordered, a real cycle
/// (two or more symbols, or one that depends on itself), its length and hint.
pub open spec fn cycle_fits(c: RefactorCycle, syms: Seq<Seq<char>>, v: Set<Seq<char>>, ps: Seq<(Seq<char>, Seq<char>)>) -> bool {
    let cs = strings_view(c.symbols@);
    &&& cs.len() > 0
    &&& cs.no_duplicates()
    &&& forall|k: int| 0 <= k < cs.len() ==> v.contains(#[trigger] cs[k]) && !syms.contains(cs[k])
    &&& (cs.len() > 1 || linked(ps, cs[0], cs[0]))
    &&& c.length == cs.len()
    &&& c.hint@ == cycle_hint_spec(cs)
}


/// The symbols of the steps, in order.
pub open spec fn step_symbols(order: Seq<RefactorStep>) -> Seq<Seq<char>> {
    order.map_values(|st: RefactorStep| st.symbol@)
}

pub proof fn lemma_name_injective(g: NameGraph, a: int, b: int)
    requires
        g.wf(),
        0 <= a < g.n(),
        0 <= b < g.n(),
        g.name(a) == g.name(b),
    ensures
        a == b,
{
    let names = strings_view(g.names@);
    assert(names[a] == g.name(a));
    assert(names[b] == g.name(b));
    if a < b {
        crate::lex::lemma_lex_irreflexive(names[a]);
    } else if b < a {
        crate::lex::lemma_lex_irreflexive(names[b]);
    }
}

pub proof fn lemma_paired_linked(pairs: Seq<(String, String)>, a: Seq<char>, b: Seq<char>)
    ensures
        paired(pairs, pairs.len() as int, a, b) <==> linked(pairs_of(pairs), a, b),
{
    let ps = pairs_of(pairs);
    if paired(pairs, pairs.len() as int, a, b) {
        let k = choose|k: int| 0 <= k < pairs.len() && (#[trigger] pairs[k]).0@ == a && pairs[k].1@ == b;
        assert(ps[k] == (a, b));
    }
    if linked(ps, a, b) {
        let k = choose|k: int| 0 <= k < ps.len() && #[trigger] ps[k] == (a, b);
        assert(pairs[k].0@ == a && pairs[k].1@ == b);
    }
}

/// What building the graph from `keys` and `pairs` guarantees.
pub open spec fn built_from(g: NameGraph, keys: Seq<String>, pairs: Seq<(String, String)>) -> bool {
    &&& g.wf()
    &&& strings_view(g.names@).to_set() == names_of(keys, pairs)
    &&& forall|i: int, j: int|
        0 <= i < g.n() && 0 <= j < g.n() ==> (g.edge(i, j) <==> paired(pairs, pairs.len() as int, g.name(i), g.name(j)))
}

pub proof fn lemma_symbol_set(keys: Seq<String>, pairs: Seq<(String, String)>)
    ensures
        names_of(keys, pairs) == symbol_set(strings_view(keys), pairs_of(pairs)),
{
    let ks = strings_view(keys);
    let ps = pairs_of(pairs);
    assert forall|x: Seq<char>| names_of(keys, pairs).contains(x) <==> symbol_set(ks, ps).contains(x) by {
        if exists|k: int| 0 <= k < keys.len() && (#[trigger] keys[k])@ == x {
            let k = choose|k: int| 0 <= k < keys.len() && (#[trigger] keys[k])@ == x;
            assert(ks[k] == x);
        }
        if ks.contains(x) {
            let k = choose|k: int| 0 <= k < ks.len() && ks[k] == x;
            assert(keys[k]@ == x);
        }
        if exists|k: int| 0 <= k < pairs.len() && ((#[trigger] pairs[k]).0@ == x || pairs[k].1@ == x) {
            let k = choose|k: int| 0 <= k < pairs.len() && ((#[trigger] pairs[k]).0@ == x || pairs[k].1@ == x);
            assert(ps[k].0 == x || ps[k].1 == x);
        }
        if exists|k: int| 0 <= k < ps.len() && ((#[trigger] ps[k]).0 == x || ps[k].1 == x) {
            let k = choose|k: int| 0 <= k < ps.len() && ((#[trigger] ps[k]).0 == x || ps[k].1 == x);
            assert(pairs[k].0@ == x || pairs[k].1@ == x);
        }
    }
    assert(names_of(keys, pairs) =~= symbol_set(ks, ps));
}

/// Every symbol is the name of a vertex.
pub proof fn lemma_vertex_of(g: NameGraph, keys: Seq<String>, pairs: Seq<(String, String)>, x: Seq<char>) -> (v: int)
    requires
        built_from(g, keys, pairs),
        symbol_set(strings_view(keys), pairs_of(pairs)).contains(x),
    ensures
        0 <= v < g.n(),
        g.name(v) == x,
{
    lemma_symbol_set(keys, pairs);
    assert(strings_view(g.names@).to_set().contains(x));
    let v = choose|v: int| 0 <= v < strings_view(g.names@).len() && strings_view(g.names@)[v] == x;
    v
}

pub proof fn lemma_in_symbols(g: NameGraph, keys: Seq<String>, pairs: Seq<(String, String)>, v: int)
    requires
        built_from(g, keys, pairs),
        0 <= v < g.n(),
    ensures
        symbol_set(strings_view(keys), pairs_of(pairs)).contains(g.name(v)),
{
    lemma_symbol_set(keys, pairs);
    assert(strings_view(g.names@)[v] == g.name(v));
    assert(strings_view(g.names@).to_set().contains(g.name(v)));
}

/// A peeling order of the graph puts the symbols in dependency order.
proof fn lemma_peeling_orders(g: NameGraph, keys: Seq<String>, pairs: Seq<(String, String)>, order: Seq<usize>)
    requires
        built_from(g, keys, pairs),
        is_peeling(g, order),
    ensures
        orders_symbols(index_names(g, order), symbol_set(strings_view(keys), pairs_of(pairs)), pairs_of(pairs)),
{
    let syms = index_names(g, order);
    let v = symbol_set(strings_view(keys), pairs_of(pairs));
    let ps = pairs_of(pairs);
    assert forall|i: int, j: int| 0 <= i < j < syms.len() implies syms[i] != syms[j] by {
        if syms[i] == syms[j] {
            lemma_name_injective(g, order[i] as int, order[j] as int);
        }
    }
    assert forall|i: int| 0 <= i < syms.len() implies v.contains(#[trigger] syms[i]) by {
        lemma_in_symbols(g, keys, pairs, order[i] as int);
    }
    assert forall|i: int, d: Seq<char>| 0 <= i < syms.len() && #[trigger] linked(ps, d, syms[i]) implies syms.take(
        i,
    ).contains(d) by {
        let k = choose|k: int| 0 <= k < ps.len() && #[trigger] ps[k] == (d, syms[i]);
        assert(v.contains(d)) by {
            assert(ps[k].0 == d);
        }
        let x = lemma_vertex_of(g, keys, pairs, d);
        lemma_paired_linked(pairs, d, syms[i]);
        assert(g.edge(x, order[i] as int));
        assert(occurs(order.take(i), x));
        let b = choose|b: int| 0 <= b < order.take(i).len() && order.take(i)[b] == x;
        assert(syms.take(i)[b] == d);
    }
    assert forall|x: Seq<char>| v.contains(x) && !syms.contains(x) implies exists|d: Seq<char>|
        v.contains(d) && #[trigger] linked(ps, d, x) && !syms.contains(d) by {
        let w = lemma_vertex_of(g, keys, pairs, x);
        assert(!occurs(order, w)) by {
            if occurs(order, w) {
                let b = choose|b: int| 0 <= b < order.len() && order[b] == w;
                assert(syms[b] == x);
            }
        }
        let i = choose|i: int| 0 <= i < g.n() && #[trigger] g.edge(i, w) && !occurs(order, i);
        let d = g.name(i);
        lemma_paired_linked(pairs, d, x);
        lemma_in_symbols(g, keys, pairs, i);
        assert(!syms.contains(d)) by {
            if syms.contains(d) {
                let b = choose|b: int| 0 <= b < syms.len() && syms[b] == d;
                lemma_name_injective(g, order[b] as int, i);
                assert(order[b] == i);
            }
        }
        assert(linked(ps, d, x));
    }
}

/// The vertices with an edge to `j`, in increasing order.
fn dependencies_of(g: &NameGraph, j: usize) -> (r: Vec<usize>)
    requires
        g.wf(),
        j < g.n(),
    ensures
        crate::namegraph::increasing(r@),
        forall|k: int| 0 <= k < r@.len() ==> r@[k] < g.n(),
        forall|x: int| occurs(r@, x) <==> (0 <= x < g.n() && g.edge(x, j as int)),
{
    let mut r: Vec<usize> = Vec::new();
    let mut x: usize = 0;
    while x < g.names.len()
        invariant
            g.wf(),
            j < g.n(),
            x <= g.n(),
            crate::namegraph::increasing(r@),
            forall|k: int| 0 <= k < r@.len() ==> r@[k] < x,
            forall|y: int| occurs(r@, y) <==> (0 <= y < x && g.edge(y, j as int)),
        decreases g.n() - x,
    {
        let ghost rb = r@;
        if occurs_exec(&g.succ[x], j) {
            r.push(x);
        }
        proof {
            assert forall|y: int| occurs(r@, y) <==> (0 <= y < x + 1 && g.edge(y, j as int)) by {
                if r@ != rb {
                    crate::namegraph::lemma_occurs_push(rb, x, y);
                }
                if y == x && occurs(rb, y) {
                    let q = choose|q: int| 0 <= q < rb.len() && rb[q] == y;
                }
            }
        }
        x = x + 1;
    }
    r
}

/// The names of the vertices at positions `r`.
pub fn names_at(g: &NameGraph, r: &Vec<usize>) -> (out: Vec<String>)
    requires
        forall|k: int| 0 <= k < r@.len() ==> r@[k] < g.n(),
    ensures
        strings_view(out@) == index_names(*g, r@),
{
    let mut out: Vec<String> = Vec::new();
    let mut k: usize = 0;
    while k < r.len()
        invariant
            k <= r.len(),
            forall|q: int| 0 <= q < r@.len() ==> r@[q] < g.n(),
            strings_view(out@) == index_names(*g, r@.take(k as int)),
        decreases r.len() - k,
    {
        let ghost ob = out@;
        assert(strings_view(ob).len() == ob.len());
        let nm = g.names[r[k]].clone();
        out.push(nm);
        assert(out@ == ob.push(nm));
        assert forall|q: int| 0 <= q < k + 1 implies #[trigger] strings_view(out@)[q] == index_names(*g, r@.take(k + 1))[q] by {
            if q < k {
                assert(strings_view(ob)[q] == index_names(*g, r@.take(k as int))[q]);
            }
        }
        assert(strings_view(out@) =~= index_names(*g, r@.take(k + 1)));
        k = k + 1;
    }
    assert(r@.take(r.len() as int) =~= r@);
    out
}

pub proof fn lemma_sorted_names(g: NameGraph, r: Seq<usize>)
    requires
        g.wf(),
        crate::namegraph::increasing(r),
        forall|k: int| 0 <= k < r.len() ==> r[k] < g.n(),
    ensures
        strictly_sorted(index_names(g, r)),
{
    let names = strings_view(g.names@);
    assert forall|a: int, b: int| 0 <= a < b < r.len() implies crate::lex::lex_lt(index_names(g, r)[a], index_names(g, r)[b]) by {
        assert(names[r[a] as int] == index_names(g, r)[a]);
        assert(names[r[b] as int] == index_names(g, r)[b]);
    }
}

pub proof fn lemma_names_contain(g: NameGraph, r: Seq<usize>, d: Seq<char>)
    requires
        forall|k: int| 0 <= k < r.len() ==> r[k] < g.n(),
    ensures
        index_names(g, r).contains(d) <==> exists|x: int| occurs(r, x) && g.name(x) == d,
{
    if index_names(g, r).contains(d) {
        let q = choose|q: int| 0 <= q < index_names(g, r).len() && index_names(g, r)[q] == d;
        assert(occurs(r, r[q] as int));
    }
    if exists|x: int| occurs(r, x) && g.name(x) == d {
        let x = choose|x: int| occurs(r, x) && g.name(x) == d;
        let q = choose|q: int| 0 <= q < r.len() && r[q] == x;
        assert(index_names(g, r)[q] == d);
    }
}


/// The vertices of a component form a cycle: two or more of them, or one
/// with an edge to itself.
pub open spec fn cycle_group(g: NameGraph, c: Seq<usize>) -> bool {
    c.len() > 1 || (c.len() == 1 && g.edge(c[0] as int, c[0] as int))
}

/// Some symbol of `v` is missing from `syms`.
pub open spec fn leaves_out(v: Set<Seq<char>>, syms: Seq<Seq<char>>) -> bool {
    exists|x: Seq<char>| #[trigger] v.contains(x) && !syms.contains(x)
}

/// A symbol of the plan that the order leaves out is a vertex left out of it.
proof fn lemma_left_out_remains(
    g: NameGraph,
    keys: Seq<String>,
    pairs: Seq<(String, String)>,
    order: Seq<usize>,
    remaining: Seq<usize>,
    x: Seq<char>,
)
    requires
        built_from(g, keys, pairs),
        symbol_set(strings_view(keys), pairs_of(pairs)).contains(x),
        !index_names(g, order).contains(x),
        forall|y: int| occurs(remaining, y) <==> (0 <= y < g.n() && !occurs(order, y)),
    ensures
        remaining.len() > 0,
{
    let j = lemma_vertex_of(g, keys, pairs, x);
    if occurs(order, j) {
        let q = choose|q: int| 0 <= q < order.len() && order[q] == j;
        assert(index_names(g, order)[q] == g.name(j));
    }
    assert(occurs(remaining, j));
    let q = choose|q: int| 0 <= q < remaining.len() && remaining[q] == j;
}

/// When a peeling order (as `topological_order` gives it) leaves vertices
/// out, the components that `find_sccs` finds among them hold a cycle: the
/// last one found is one, since a vertex in it has a predecessor left out too,
/// and edges out of a component only lead back to it or to earlier ones.
pub proof fn law_left_out_vertices_hold_a_cycle(
    g: NameGraph,
    order: Seq<usize>,
    remaining: Seq<usize>,
    sccs: Seq<Vec<usize>>,
)
    requires
        g.wf(),
        is_peeling(g, order),
        forall|y: int| occurs(remaining, y) <==> (0 <= y < g.n() && !occurs(order, y)),
        disjoint_groups(sccs, g.n()),
        forall|k: int| 0 <= k < remaining.len() ==> crate::tarjan::grouped(sccs, #[trigger] remaining[k] as int),
        forall|y: int| crate::tarjan::grouped(sccs, y) ==> occurs(remaining, y),
        crate::tarjan::edges_lead_back(sccs, g),
        remaining.len() > 0,
    ensures
        sccs.len() > 0,
        cycle_group(g, sccs[sccs.len() - 1]@),
{
    reveal(crate::tarjan::edges_lead_back);
    let n = g.n();
    let x0 = remaining[0] as int;
    assert(occurs(remaining, x0));
    assert(crate::tarjan::grouped(sccs, x0)) by {
        assert(remaining[0] as int == x0);
    }
    let last = sccs.len() - 1;
    assert(sccs[last]@.len() > 0);
    let x = sccs[last]@[0] as int;
    assert(occurs(sccs[last]@, x));
    assert(crate::tarjan::grouped(sccs, x));
    assert(occurs(remaining, x));
    assert(0 <= x < n && !occurs(order, x));
    let i = choose|i: int| 0 <= i < g.n() && #[trigger] g.edge(i, x) && !occurs(order, i);
    assert(occurs(remaining, i));
    let qi = choose|qi: int| 0 <= qi < remaining.len() && remaining[qi] == i;
    assert(crate::tarjan::grouped(sccs, remaining[qi] as int));
    let k2 = choose|k2: int| 0 <= k2 < sccs.len() && occurs(#[trigger] sccs[k2]@, i);
    assert(crate::tarjan::edges_lead_back(sccs, g));
    assert(occurs(sccs[k2]@, i) && g.edge(i, x));
    let k3 = choose|k3: int| 0 <= k3 <= k2 && occurs(#[trigger] sccs[k3]@, x);
    if k3 < last {
        assert(!occurs(sccs[last]@, x));
    }
    assert(k2 == last);
    if sccs[last]@.len() == 1 {
        let qq = choose|qq: int| 0 <= qq < sccs[last]@.len() && sccs[last]@[qq] == i;
        assert(i == x);
    }
}


/// The cycles among the components `sccs` found among the vertices left out
/// of `order`: each component with two or more vertices, or one with an edge to
/// itself, as a cycle of its symbols, with the total count of their symbols.
fn collect_cycles(
    g: NameGraph,
    sccs: &Vec<Vec<usize>>,
    Ghost(keys): Ghost<Seq<String>>,
    Ghost(pairs): Ghost<Seq<(String, String)>>,
    Ghost(order): Ghost<Seq<usize>>,
    Ghost(remaining): Ghost<Seq<usize>>,
) -> (r: (Vec<RefactorCycle>, usize))
    requires
        built_from(g, keys, pairs),
        is_peeling(g, order),
        disjoint_groups(sccs@, g.n()),
        forall|y: int| crate::tarjan::grouped(sccs@, y) ==> occurs(remaining, y),
        forall|y: int| occurs(remaining, y) <==> (0 <= y < g.n() && !occurs(order, y)),
    ensures
        ({
            let ps = pairs_of(pairs);
            let syms = index_names(g, order);
            let v = symbol_set(strings_view(keys), ps);
            &&& forall|k: int| 0 <= k < r.0@.len() ==> cycle_fits(#[trigger] r.0@[k], syms, v, ps)
            &&& forall|k1: int, k2: int, x: Seq<char>|
                0 <= k1 < k2 < r.0@.len() && strings_view(r.0@[k1].symbols@).contains(x) ==> !strings_view(
                    r.0@[k2].symbols@,
                ).contains(x)
        }),
        r.1 == cycle_total(r.0@),
        (exists|c: int| 0 <= c < sccs@.len() && cycle_group(g, #[trigger] sccs@[c]@)) ==> r.0@.len() > 0,
{
    let n = g.names.len();
    let ghost ps = pairs_of(pairs);
    let ghost syms = index_names(g, order);
    let ghost v = symbol_set(strings_view(keys), ps);
    let mut cycles: Vec<RefactorCycle> = Vec::new();
    let ghost mut picked: Seq<int> = Seq::empty();
    let mut cyc_total: usize = 0;
    let mut kk: usize = 0;
    while kk < sccs.len()
        invariant
            kk <= sccs.len(),
            n == g.n(),
            built_from(g, keys, pairs),
            ps == pairs_of(pairs),
            v == symbol_set(strings_view(keys), ps),
            syms == index_names(g, order),
            is_peeling(g, order),
            disjoint_groups(sccs@, n as nat),
            forall|y: int| crate::tarjan::grouped(sccs@, y) ==> occurs(remaining, y),
            forall|y: int| occurs(remaining, y) <==> (0 <= y < n && !occurs(order, y)),
            cycles@.len() == picked.len(),
            forall|c: int| 0 <= c < picked.len() ==> 0 <= #[trigger] picked[c] < kk,
            forall|c1: int, c2: int| 0 <= c1 < c2 < picked.len() ==> picked[c1] < picked[c2],
            forall|c: int| 0 <= c < picked.len() ==> strings_view(cycles@[c].symbols@) == index_names(g, sccs@[#[trigger] picked[c]]@),
            forall|c: int| 0 <= c < picked.len() ==> cycle_fits(#[trigger] cycles@[c], syms, v, ps),
            cyc_total == cycle_total(cycles@),
            cycle_total(cycles@) == flat(picked.map_values(|s: int| sccs@[s])).len(),
            (exists|c: int| 0 <= c < kk && cycle_group(g, #[trigger] sccs@[c]@)) ==> cycles@.len() > 0,
        decreases sccs.len() - kk,
    {
        let c = &sccs[kk];
        assert(c@.len() > 0);
        assert(c@[0] < n);
        let is_cycle = c.len() > 1 || occurs_exec(&g.succ[c[0]], c[0]);
        assert(is_cycle == cycle_group(g, sccs@[kk as int]@));
        if is_cycle {
            let symbols = names_at(&g, c);
            let hint = cycle_hint(&symbols);
            let ghost groups = picked.map_values(|s: int| sccs@[s]);
            let ghost groups2 = picked.push(kk as int).map_values(|s: int| sccs@[s]);
            proof {
                assert(groups2 =~= groups.push(sccs@[kk as int]));
                assert(groups2.drop_last() =~= groups);
                assert(disjoint_groups(groups2, n as nat)) by {
                    assert forall|k1: int, k2: int, y: int|
                        0 <= k1 < k2 < groups2.len() && #[trigger] occurs(groups2[k1]@, y) implies !#[trigger] occurs(groups2[k2]@, y) by {
                        let s1 = picked.push(kk as int)[k1];
                        let s2 = picked.push(kk as int)[k2];
                        assert(s1 < s2);
                        assert(groups2[k1] == sccs@[s1]);
                        assert(groups2[k2] == sccs@[s2]);
                    }
                    assert forall|k1: int| 0 <= k1 < groups2.len() implies (#[trigger] groups2[k1]@).len() > 0 by {
                        assert(groups2[k1] == sccs@[picked.push(kk as int)[k1]]);
                    }
                    assert forall|k1: int| 0 <= k1 < groups2.len() implies (#[trigger] groups2[k1]@).no_duplicates() by {
                        assert(groups2[k1] == sccs@[picked.push(kk as int)[k1]]);
                    }
                    assert forall|k1: int, a: int| 0 <= k1 < groups2.len() && 0 <= a < groups2[k1]@.len() implies (#[trigger] groups2[k1]@[a]) < n by {
                        assert(groups2[k1] == sccs@[picked.push(kk as int)[k1]]);
                    }
                }
                lemma_flat_bounded(groups2, n as nat);
            }
            let cs = RefactorCycle { symbols, length: c.len(), hint };
            proof {
                let names = strings_view(cs.symbols@);
                assert(names == index_names(g, c@));
                assert(names.no_duplicates()) by {
                    assert forall|a: int, b: int| 0 <= a < names.len() && 0 <= b < names.len() && a != b implies names[a] != names[b] by {
                        if names[a] == names[b] {
                            lemma_name_injective(g, c@[a] as int, c@[b] as int);
                        }
                    }
                }
                assert forall|t: int| 0 <= t < names.len() implies v.contains(#[trigger] names[t]) && !syms.contains(names[t]) by {
                    let y = c@[t] as int;
                    lemma_in_symbols(g, keys, pairs, y);
                    assert(occurs(c@, y));
                    assert(crate::tarjan::grouped(sccs@, y));
                    assert(occurs(remaining, y));
                    if syms.contains(names[t]) {
                        let b = choose|b: int| 0 <= b < syms.len() && syms[b] == names[t];
                        lemma_name_injective(g, order[b] as int, y);
                        assert(occurs(order, y));
                    }
                }
                if c@.len() <= 1 {
                    let s0 = c@[0] as int;
                    assert(g.edge(s0, s0));
                    lemma_paired_linked(pairs, g.name(s0), g.name(s0));
                    assert(names[0] == g.name(s0));
                }
                assert(cycle_fits(cs, syms, v, ps));
            }
            let ghost cb = cycles@;
            cycles.push(cs);
            cyc_total = cyc_total + c.len();
            proof {
                assert(cycles@.drop_last() =~= cb);
                picked = picked.push(kk as int);
                assert forall|cc: int| 0 <= cc < picked.len() implies strings_view(cycles@[cc].symbols@) == index_names(g, sccs@[#[trigger] picked[cc]]@) by {
                    if cc < cb.len() {
                        assert(cycles@[cc] == cb[cc]);
                    }
                }
                assert forall|cc: int| 0 <= cc < picked.len() implies cycle_fits(#[trigger] cycles@[cc], syms, v, ps) by {
                    if cc < cb.len() {
                        assert(cycles@[cc] == cb[cc]);
                    }
                }
            }
        }
        proof {
            if exists|c: int| 0 <= c < kk + 1 && cycle_group(g, #[trigger] sccs@[c]@) {
                let c = choose|c: int| 0 <= c < kk + 1 && cycle_group(g, #[trigger] sccs@[c]@);
                if c < kk {
                    assert(exists|c2: int| 0 <= c2 < kk && cycle_group(g, #[trigger] sccs@[c2]@));
                }
            }
        }
        kk = kk + 1;
    }
    proof {
        let groups = picked.map_values(|s: int| sccs@[s]);
        assert forall|k1: int, k2: int, y: Seq<char>|
            0 <= k1 < k2 < cycles@.len() && strings_view(cycles@[k1].symbols@).contains(y) implies !strings_view(
                cycles@[k2].symbols@,
            ).contains(y) by {
            let s1 = picked[k1];
            let s2 = picked[k2];
            lemma_names_contain(g, sccs@[s1]@, y);
            if strings_view(cycles@[k2].symbols@).contains(y) {
                lemma_names_contain(g, sccs@[s2]@, y);
                let a = choose|a: int| occurs(sccs@[s1]@, a) && g.name(a) == y;
                let b = choose|b: int| occurs(sccs@[s2]@, b) && g.name(b) == y;
                let qa = choose|qa: int| 0 <= qa < sccs@[s1]@.len() && sccs@[s1]@[qa] == a;
                let qb = choose|qb: int| 0 <= qb < sccs@[s2]@.len() && sccs@[s2]@[qb] == b;
                lemma_name_injective(g, a, b);
                assert(occurs(sccs@[s1]@, a));
                assert(occurs(sccs@[s2]@, a));
            }
        }
    }
    (cycles, cyc_total)
}

/// The refactoring plan for the symbols `names`: each name is resolved to a node
/// (see [`pick`]) and stands in the plan under that input name; a symbol depends on another when one of its calls, imports or
/// type uses reaches it (see [`dependency_pairs`]); the symbols come in
/// dependency order (Kahn's algorithm), and those caught in cycles are reported
/// as the strongly connected components found among them. Each step carries
/// the risk figures of the impact of its symbol (see [`step_risk`]), and the
/// plan the highest score among them; `limit` plays no part in them.
#[verifier::rlimit(60)]
pub fn refactor_order(graph: &CodeGraph, names: &Vec<String>, limit: usize) -> (plan: RefactorPlan)
    ensures
        plan.input_count == names@.len(),
        plan.resolved_count == resolved_spec(graph.nodes@, strings_view(names@)).len(),
        plan.resolved_count + plan.unresolved@.len() == plan.input_count,
        strings_view(plan.unresolved@) == unresolved_spec(graph.nodes@, strings_view(names@)),
        ({
            let res = resolved_spec(graph.nodes@, strings_view(names@));
            let ps = dependency_pairs(graph.nodes@, graph.edges@, res);
            let v = symbol_set(chosen_names(res), ps);
            let syms = step_symbols(plan.order@);
            &&& orders_symbols(syms, v, ps)
            &&& forall|i: int| 0 <= i < plan.order@.len() ==> step_fits(#[trigger] plan.order@[i], i, plan.order@.len(), ps)
            &&& forall|i: int| 0 <= i < plan.order@.len() ==> step_risk(graph.nodes@, graph.edges@, res, #[trigger] plan.order@[i])
            &&& forall|k: int| 0 <= k < plan.cycles@.len() ==> cycle_fits(#[trigger] plan.cycles@[k], syms, v, ps)
            &&& leaves_out(v, syms) ==> plan.cycles@.len() > 0
            &&& forall|k1: int, k2: int, x: Seq<char>|
                0 <= k1 < k2 < plan.cycles@.len() && strings_view(plan.cycles@[k1].symbols@).contains(x) ==> !strings_view(
                    plan.cycles@[k2].symbols@,
                ).contains(x)
        }),
        plan.has_cycles == (plan.cycles@.len() > 0),
        plan.max_risk_score == max_step_risk(plan.order@),
        plan.summary@ == join(
            summary_parts(plan.order@.len(), plan.cycles@.len(), cycle_total(plan.cycles@), plan.has_cycles, plan.max_risk_score as nat),
            ". "@,
        ),
{
    let (resolved, unresolved) = resolve_symbols(graph, names);
    proof {
        lemma_resolution_counts(graph.nodes@, strings_view(names@));
    }
    let pairs = dependencies(graph, &resolved);
    let ghost res = resolved_view(resolved@);
    let ghost ps = pairs_of(pairs@);
    let mut keys: Vec<String> = Vec::new();
    let mut k: usize = 0;
    while k < resolved.len()
        invariant
            k <= resolved.len(),
            res == resolved_view(resolved@),
            forall|q: int| 0 <= q < resolved@.len() ==> (#[trigger] resolved@[q]).1 < graph.nodes@.len(),
            strings_view(keys@) == chosen_names(res.take(k as int)),
        decreases resolved.len() - k,
    {
        let ghost kb = keys@;
        assert(strings_view(kb).len() == kb.len());
        let nm = resolved[k].0.clone();
        keys.push(nm);
        assert forall|q: int| 0 <= q < k + 1 implies #[trigger] strings_view(keys@)[q] == chosen_names(
            res.take(k + 1),
        )[q] by {
            if q < k {
                assert(strings_view(kb)[q] == chosen_names(res.take(k as int))[q]);
            }
        }
        assert(strings_view(keys@) =~= chosen_names(res.take(k + 1)));
        k = k + 1;
    }
    assert(res.take(resolved.len() as int) =~= res);
    let g = graph_from_pairs(&keys, &pairs);
    proof {
        lemma_symbol_set(keys@, pairs@);
    }
    let order = topological_order(&g);
    proof {
        lemma_peeling_orders(g, keys@, pairs@, order@);
    }
    let n = g.names.len();
    let total = order.len();
    let index = QueryIndex::ids_only(graph);
    let mut steps: Vec<RefactorStep> = Vec::new();
    let mut max_risk: usize = 0;
    let mut i: usize = 0;
    while i < order.len()
        invariant
            i <= order.len(),
            total == order.len(),
            index.id_tables(graph.nodes@),
            res == resolved_view(resolved@),
            forall|q: int| 0 <= q < resolved@.len() ==> (#[trigger] resolved@[q]).1 < graph.nodes@.len(),
            forall|q: int| 0 <= q < i ==> step_risk(graph.nodes@, graph.edges@, res, #[trigger] steps@[q]),
            max_risk == max_step_risk(steps@),
            built_from(g, keys@, pairs@),
            is_peeling(g, order@),
            ps == pairs_of(pairs@),
            steps@.len() == i,
            step_symbols(steps@) == index_names(g, order@.take(i as int)),
            forall|q: int| 0 <= q < i ==> step_fits(#[trigger] steps@[q], q, total as nat, ps),
        decreases order.len() - i,
    {
        let j = order[i];
        let deps = dependencies_of(&g, j);
        let dep_names = names_at(&g, &deps);
        let after = &g.succ[j];
        let dby_names = names_at(&g, after);
        let (risk_score, risk_level, files_affected) = symbol_risk(graph, &index, &resolved, g.names[j].as_str());
        let reason = generate_step_reason(i, total, &dep_names, &dby_names, risk_level);
        let st = RefactorStep {
            step: i + 1,
            symbol: g.names[j].clone(),
            risk_score,
            risk_level: owned(risk_level),
            files_affected,
            depends_on: dep_names,
            depended_by: dby_names,
            reason,
        };
        proof {
            let sym = g.name(j as int);
            lemma_sorted_names(g, deps@);
            lemma_sorted_names(g, after@);
            assert forall|d: Seq<char>| strings_view(st.depends_on@).contains(d) <==> linked(ps, d, sym) by {
                lemma_names_contain(g, deps@, d);
                lemma_paired_linked(pairs@, d, sym);
                if linked(ps, d, sym) {
                    let kk = choose|kk: int| 0 <= kk < ps.len() && #[trigger] ps[kk] == (d, sym);
                    assert(symbol_set(strings_view(keys@), ps).contains(d)) by {
                        assert(ps[kk].0 == d);
                    }
                    let x = lemma_vertex_of(g, keys@, pairs@, d);
                    assert(g.edge(x, j as int));
                    assert(occurs(deps@, x));
                }
            }
            assert forall|d: Seq<char>| strings_view(st.depended_by@).contains(d) <==> linked(ps, sym, d) by {
                lemma_names_contain(g, after@, d);
                lemma_paired_linked(pairs@, sym, d);
                if linked(ps, sym, d) {
                    let kk = choose|kk: int| 0 <= kk < ps.len() && #[trigger] ps[kk] == (sym, d);
                    assert(symbol_set(strings_view(keys@), ps).contains(d)) by {
                        assert(ps[kk].1 == d);
                    }
                    let x = lemma_vertex_of(g, keys@, pairs@, d);
                    assert(g.edge(j as int, x));
                    assert(occurs(after@, x));
                }
                if strings_view(st.depended_by@).contains(d) {
                    let x = choose|x: int| occurs(after@, x) && g.name(x) == d;
                    let q = choose|q: int| 0 <= q < after@.len() && after@[q] == x;
                    assert(after@[q] < g.n());
                    assert(g.edge(j as int, x));
                }
            }
            assert(step_fits(st, i as int, total as nat, ps));
        }
        let ghost sb = steps@;
        steps.push(st);
        proof {
            assert(order@.take(i + 1) =~= order@.take(i as int).push(j));
            assert(step_symbols(steps@) =~= index_names(g, order@.take(i + 1))) by {
                assert forall|q: int| 0 <= q < i + 1 implies #[trigger] step_symbols(steps@)[q] == index_names(
                    g,
                    order@.take(i + 1),
                )[q] by {
                    if q < i {
                        assert(steps@[q] == sb[q]);
                        assert(step_symbols(sb)[q] == index_names(g, order@.take(i as int))[q]);
                    }
                }
            }
            assert forall|q: int| 0 <= q < i + 1 implies step_fits(#[trigger] steps@[q], q, total as nat, ps) by {
                if q < i {
                    assert(steps@[q] == sb[q]);
                }
            }
            assert forall|q: int| 0 <= q < i + 1 implies step_risk(graph.nodes@, graph.edges@, res, #[trigger] steps@[q]) by {
                if q < i {
                    assert(steps@[q] == sb[q]);
                }
            }
            assert(steps@.drop_last() =~= sb);
        }
        if risk_score > max_risk {
            max_risk = risk_score;
        }
        i = i + 1;
    }
    assert(order@.take(order.len() as int) =~= order@);
    // The vertices left out of the order, in increasing order.
    let mut taken = crate::namegraph::flags(n);
    let mut q: usize = 0;
    while q < order.len()
        invariant
            q <= order.len(),
            taken@.len() == n,
            n == g.n(),
            is_peeling(g, order@),
            forall|x: int| 0 <= x < n ==> (taken@[x] <==> occurs(order@.take(q as int), x)),
        decreases order.len() - q,
    {
        let o = order[q];
        taken.set(o, true);
        proof {
            assert forall|x: int| 0 <= x < n implies (taken@[x] <==> occurs(order@.take(q + 1), x)) by {
                crate::namegraph::lemma_occurs_take(order@, q as int, x);
            }
        }
        q = q + 1;
    }
    assert(order@.take(order.len() as int) =~= order@);
    let mut remaining: Vec<usize> = Vec::new();
    let mut x: usize = 0;
    while x < n
        invariant
            x <= n,
            n == g.n(),
            taken@.len() == n,
            forall|y: int| 0 <= y < n ==> (taken@[y] <==> occurs(order@, y)),
            forall|kk: int| 0 <= kk < remaining@.len() ==> remaining@[kk] < x,
            forall|y: int| occurs(remaining@, y) <==> (0 <= y < x && !occurs(order@, y)),
        decreases n - x,
    {
        let ghost rb = remaining@;
        if !taken[x] {
            remaining.push(x);
        }
        proof {
            assert forall|y: int| occurs(remaining@, y) <==> (0 <= y < x + 1 && !occurs(order@, y)) by {
                if remaining@ != rb {
                    crate::namegraph::lemma_occurs_push(rb, x, y);
                }
                if y == x && occurs(rb, y) {
                    let qq = choose|qq: int| 0 <= qq < rb.len() && rb[qq] == y;
                }
            }
        }
        x = x + 1;
    }
    proof {
        assert forall|a: int, b: int| occurs(remaining@, a) && #[trigger] g.edge(a, b) implies occurs(remaining@, b) by {
            assert(0 <= b < g.n()) by {
                let qq = choose|qq: int| 0 <= qq < g.succ@[a]@.len() && g.succ@[a]@[qq] == b;
                assert(g.succ@[a]@[qq] < g.n());
            }
            if occurs(order@, b) {
                let pos = choose|pos: int| 0 <= pos < order@.len() && order@[pos] == b;
                assert(g.edge(a, order@[pos] as int));
                assert(occurs(order@.take(pos), a));
                let qq = choose|qq: int| 0 <= qq < order@.take(pos).len() && order@.take(pos)[qq] == a;
                assert(order@[qq] == a);
            }
        }
    }
    let sccs = find_sccs(&g, &remaining);
    let ghost syms = index_names(g, order@);
    let ghost v = symbol_set(strings_view(keys@), ps);
    proof {
        assert(leaves_out(v, syms) ==> (exists|c: int| 0 <= c < sccs@.len() && cycle_group(g, #[trigger] sccs@[c]@))) by {
            if leaves_out(v, syms) {
                let x = choose|x: Seq<char>| #[trigger] v.contains(x) && !syms.contains(x);
                lemma_left_out_remains(g, keys@, pairs@, order@, remaining@, x);
                law_left_out_vertices_hold_a_cycle(g, order@, remaining@, sccs@);
                assert(cycle_group(g, sccs@[sccs@.len() - 1]@));
            }
        }
    }
    let (cycles, cyc_total) = collect_cycles(g, &sccs, Ghost(keys@), Ghost(pairs@), Ghost(order@), Ghost(remaining@));
    let has = cycles.len() > 0;
    let summary = generate_summary(total, cycles.len(), cyc_total, has, max_risk);
    RefactorPlan {
        input_count: names.len(),
        resolved_count: resolved.len(),
        unresolved,
        order: steps,
        cycles,
        has_cycles: has,
        max_risk_score: max_risk,
        summary,
    }
}

proof fn lemma_ranked_symbols_ordered(
    syms: Seq<Seq<char>>,
    v: Set<Seq<char>>,
    ps: Seq<(Seq<char>, Seq<char>)>,
    rank: spec_fn(Seq<char>) -> nat,
    x: Seq<char>,
)
    requires
        orders_symbols(syms, v, ps),
        forall|a: Seq<char>, b: Seq<char>| #[trigger] linked(ps, a, b) ==> rank(a) < rank(b),
        v.contains(x),
    ensures
        syms.contains(x),
    decreases rank(x),
{
    if !syms.contains(x) {
        let d = choose|d: Seq<char>| v.contains(d) && #[trigger] linked(ps, d, x) && !syms.contains(d);
        lemma_ranked_symbols_ordered(syms, v, ps, rank, d);
    }
}

/// When the dependencies among the resolved symbols never lead back to where
/// they started (some ranking puts every symbol above everything it depends
/// on), a plan as `refactor_order` gives it orders every symbol, each once,
/// with steps numbered from 1, each after all it depends on, and reports no
/// cycle.
pub proof fn law_refactor_acyclic(
    graph: CodeGraph,
    names: Seq<Seq<char>>,
    plan: RefactorPlan,
    rank: spec_fn(Seq<char>) -> nat,
)
    requires
        ({
            let res = resolved_spec(graph.nodes@, names);
            let ps = dependency_pairs(graph.nodes@, graph.edges@, res);
            let v = symbol_set(chosen_names(res), ps);
            let syms = step_symbols(plan.order@);
            &&& orders_symbols(syms, v, ps)
            &&& forall|i: int| 0 <= i < plan.order@.len() ==> step_fits(#[trigger] plan.order@[i], i, plan.order@.len(), ps)
            &&& forall|k: int| 0 <= k < plan.cycles@.len() ==> cycle_fits(#[trigger] plan.cycles@[k], syms, v, ps)
            &&& forall|a: Seq<char>, b: Seq<char>| #[trigger] linked(ps, a, b) ==> rank(a) < rank(b)
        }),
        plan.has_cycles == (plan.cycles@.len() > 0),
    ensures
        ({
            let res = resolved_spec(graph.nodes@, names);
            let ps = dependency_pairs(graph.nodes@, graph.edges@, res);
            let v = symbol_set(chosen_names(res), ps);
            let syms = step_symbols(plan.order@);
            &&& forall|x: Seq<char>| v.contains(x) ==> syms.contains(x)
            &&& forall|i: int, j: int| 0 <= i < j < syms.len() ==> syms[i] != syms[j]
            &&& forall|i: int| 0 <= i < plan.order@.len() ==> (#[trigger] plan.order@[i]).step == i + 1
            &&& forall|i: int, j: int|
                0 <= i < syms.len() && 0 <= j < syms.len() && #[trigger] linked(ps, syms[j], syms[i]) ==> j < i
        }),
        !plan.has_cycles,
{
    let res = resolved_spec(graph.nodes@, names);
    let ps = dependency_pairs(graph.nodes@, graph.edges@, res);
    let v = symbol_set(chosen_names(res), ps);
    let syms = step_symbols(plan.order@);
    assert forall|x: Seq<char>| v.contains(x) implies syms.contains(x) by {
        lemma_ranked_symbols_ordered(syms, v, ps, rank, x);
    }
    assert forall|i: int| 0 <= i < plan.order@.len() implies (#[trigger] plan.order@[i]).step == i + 1 by {
        assert(step_fits(plan.order@[i], i, plan.order@.len(), ps));
    }
    assert forall|i: int, j: int|
        0 <= i < syms.len() && 0 <= j < syms.len() && #[trigger] linked(ps, syms[j], syms[i]) implies j < i by {
        assert(syms.take(i).contains(syms[j]));
        let q = choose|q: int| 0 <= q < syms.take(i).len() && syms.take(i)[q] == syms[j];
        assert(syms[q] == syms[j]);
        if q != j {
            if q < j {
                assert(syms[q] != syms[j]);
            } else {
                assert(syms[j] != syms[q]);
            }
        }
    }
    if plan.cycles@.len() > 0 {
        let c = plan.cycles@[0];
        assert(cycle_fits(c, syms, v, ps));
        let cs = strings_view(c.symbols@);
        assert(v.contains(cs[0]) && !syms.contains(cs[0]));
        lemma_ranked_symbols_ordered(syms, v, ps, rank, cs[0]);
    }
}

proof fn lemma_first_on(syms: Seq<Seq<char>>, c: Seq<Seq<char>>, p: int) -> (m: int)
    requires
        0 <= p < syms.len(),
        c.contains(syms[p]),
    ensures
        0 <= m <= p,
        c.contains(syms[m]),
        forall|q: int| 0 <= q < m ==> !c.contains(#[trigger] syms[q]),
    decreases p,
{
    if exists|q: int| 0 <= q < p && c.contains(#[trigger] syms[q]) {
        let q = choose|q: int| 0 <= q < p && c.contains(#[trigger] syms[q]);
        lemma_first_on(syms, c, q)
    } else {
        p
    }
}

/// The symbols of a dependency cycle (each depending on the one before it,
/// the first on the last) are all left out of the order.
pub proof fn law_cycle_symbols_unordered(
    syms: Seq<Seq<char>>,
    v: Set<Seq<char>>,
    ps: Seq<(Seq<char>, Seq<char>)>,
    c: Seq<Seq<char>>,
)
    requires
        orders_symbols(syms, v, ps),
        c.len() > 0,
        forall|i: int| 0 <= i < c.len() - 1 ==> linked(ps, #[trigger] c[i], c[i + 1]),
        linked(ps, c.last(), c[0]),
    ensures
        forall|i: int| 0 <= i < c.len() ==> !syms.contains(#[trigger] c[i]),
{
    if exists|i: int| 0 <= i < c.len() && syms.contains(#[trigger] c[i]) {
        let i = choose|i: int| 0 <= i < c.len() && syms.contains(#[trigger] c[i]);
        let p = choose|p: int| 0 <= p < syms.len() && syms[p] == c[i];
        assert(c.contains(syms[p]));
        let m = lemma_first_on(syms, c, p);
        let j = choose|j: int| 0 <= j < c.len() && c[j] == syms[m];
        let pred = if j > 0 {
            c[j - 1]
        } else {
            c.last()
        };
        if j > 0 {
            assert(linked(ps, c[j - 1], c[j - 1 + 1]));
        }
        assert(linked(ps, pred, syms[m]));
        assert(syms.take(m).contains(pred));
        let q = choose|q: int| 0 <= q < syms.take(m).len() && syms.take(m)[q] == pred;
        assert(syms[q] == pred);
        if j > 0 {
            assert(c.contains(c[j - 1]));
        } else {
            assert(c.contains(c[c.len() - 1]));
        }
        assert(!c.contains(syms[q]));
    }
}

} // verus!
