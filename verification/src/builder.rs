use vstd::prelude::*;
use crate::model::{Edge, EdgeCertainty, EdgeKind, EdgeSource, Location, Node, NodeKind, Range};
use crate::helpers::{compact, compact_spec, location};
use crate::lines::{find_line, find_line_spec};
use crate::paths::{relative_path, relative_spec};
use crate::split::{replace_char, replace_char_exec};
use crate::seqs::strings_view;
use crate::strs::{
    chars_of, clone_strings, contains_string, str_eq, lemma_digits_injective, lemma_digits_len, nat_digits, owned,
    string_from_chars, usize_to_string,
};
use crate::text::{join, join_strings};
use crate::strset::StrSet;
use crate::resolve::{resolve_in, resolve_spec};
use crate::dispatch::{dispatch_links, dispatch_links_exec, triple_view};

verus! {

/// How a pending edge's target name may be resolved to a node.
#[derive(Clone, Copy, Debug, PartialEq, Eq, Structural)]
pub enum ResolutionStrategy {
    Any,
    Callable,
    MethodOnly,
    MacroOnly,
}

/// An edge whose target is still a name, to be resolved once all nodes exist.
pub struct PendingEdge {
    pub from: String,
    pub target: String,
    pub kind: EdgeKind,
    pub label: Option<String>,
    pub evidence: Option<Location>,
    pub source_file: Option<String>,
    pub resolution: ResolutionStrategy,
    pub call_style: Option<String>,
}

/// The description of a node to add.
pub struct NodeInput {
    pub kind: NodeKind,
    pub name: String,
    pub qualified_name: String,
    pub file: Option<String>,
    pub range: Option<Range>,
    pub visibility: Option<String>,
    pub signature: Option<String>,
    pub docs: Vec<String>,
    pub metrics: Vec<(String, usize)>,
}

/// What to index and under which build profile.
pub struct IndexOptions {
    pub include_tests: bool,
    pub features: Vec<String>,
    pub all_features: bool,
    pub no_default_features: bool,
    pub target: Option<String>,
    pub profile: String,
}

/// The `k`-th id tried for `base`: `base` itself for `k == 1`, then `base#k`.
pub open spec fn id_candidate(base: Seq<char>, k: nat) -> Seq<char> {
    if k < 2 {
        base
    } else {
        base + seq!['#'] + nat_digits(k)
    }
}

proof fn lemma_candidates_differ(base: Seq<char>, j: nat, k: nat)
    requires
        1 <= j < k,
    ensures
        id_candidate(base, j) != id_candidate(base, k),
{
    lemma_digits_len(k);
    if j >= 2 {
        if id_candidate(base, j) == id_candidate(base, k) {
            lemma_digits_len(j);
            let a = id_candidate(base, j);
            let b = id_candidate(base, k);
            assert(a.len() == b.len());
            assert(a.skip((base.len() + 1) as int) =~= nat_digits(j));
            assert(b.skip((base.len() + 1) as int) =~= nat_digits(k));
            lemma_digits_injective(j, k);
        }
    } else {
        assert(id_candidate(base, k).len() > base.len());
    }
}

/// `id` is the first candidate for `base` that is not in `taken`.
pub open spec fn is_first_free(base: Seq<char>, taken: Set<Seq<char>>, id: Seq<char>) -> bool {
    exists|k: nat|
        #![trigger id_candidate(base, k)]
        k >= 1 && id == id_candidate(base, k) && !taken.contains(id) && forall|j: nat|
            1 <= j < k ==> taken.contains(id_candidate(base, j))
}

/// Claims the first free id for `base` in `ids` (`base`, else `base#2`, `base#3`, ...).
pub fn claim_id(ids: &mut StrSet, base: String) -> (id: String)
    requires
        old(ids).wf(),
        old(ids).size() < usize::MAX - 2,
    ensures
        final(ids).wf(),
        is_first_free(base@, old(ids).members(), id@),
        final(ids).members() == old(ids).members().insert(id@),
        final(ids).size() == old(ids).size() + 1,
{
    let ghost taken = ids.members();
    proof {
        ids.lemma_size();
    }
    if ids.insert(chars_of(base.as_str())) {
        assert(id_candidate(base@, 1) == base@);
        return base;
    }
    assert(ids.members() =~= taken);
    let ghost mut tried: Set<Seq<char>> = Set::empty().insert(base@);
    let mut index: usize = 2;
    assert(id_candidate(base@, 1) == base@);
    loop
        invariant
            ids.wf(),
            ids.members() == taken,
            taken == old(ids).members(),
            ids.size() == old(ids).size(),
            taken.finite(),
            taken.len() == ids.size(),
            ids.size() < usize::MAX - 2,
            2 <= index,
            tried.finite(),
            tried.len() == index - 1,
            tried.subset_of(taken),
            forall|j: nat| 1 <= j < index ==> tried.contains(id_candidate(base@, j)),
            forall|y: Seq<char>|
                tried.contains(y) ==> exists|j: nat| 1 <= j < index && y == id_candidate(base@, j),
        decreases ids.size() + 2 - index,
    {
        proof {
            vstd::set_lib::lemma_len_subset(tried, taken);
        }
        let mut cand = base.clone();
        proof {
            reveal_strlit("#");
        }
        cand.append("#");
        let digits = usize_to_string(index);
        cand.append(digits.as_str());
        assert(cand@ == id_candidate(base@, index as nat));
        let ghost before = ids.members();
        if ids.insert(chars_of(cand.as_str())) {
            proof {
                assert forall|j: nat| 1 <= j < index implies taken.contains(id_candidate(base@, j)) by {
                    assert(tried.contains(id_candidate(base@, j)));
                }
                assert(!taken.contains(cand@));
                assert(cand@ == id_candidate(base@, index as nat));
            }
            return cand;
        }
        proof {
            assert(!tried.contains(cand@)) by {
                if tried.contains(cand@) {
                    let j = choose|j: nat| 1 <= j < index && cand@ == id_candidate(base@, j);
                    lemma_candidates_differ(base@, j, index as nat);
                }
            }
            tried = tried.insert(cand@);
            assert(ids.members() =~= taken);
        }
        index = index + 1;
    }
}


/// `e` runs from `from` to `to` with relation `kind`.
pub open spec fn edge_matches(e: Edge, from: Seq<char>, to: Seq<char>, kind: EdgeKind) -> bool {
    e.from@ == from && e.to@ == to && e.kind == kind
}

/// `i` is the first position of an edge from `from` to `to` of kind `kind`.
pub open spec fn is_first_edge_match(
    edges: Seq<Edge>,
    from: Seq<char>,
    to: Seq<char>,
    kind: EdgeKind,
    i: int,
) -> bool {
    &&& 0 <= i < edges.len()
    &&& edge_matches(edges[i], from, to, kind)
    &&& forall|j: int| 0 <= j < i ==> !edge_matches(#[trigger] edges[j], from, to, kind)
}

/// Some edge runs from `from` to `to` with relation `kind`.
pub open spec fn has_edge_match(edges: Seq<Edge>, from: Seq<char>, to: Seq<char>, kind: EdgeKind) -> bool {
    exists|i: int| 0 <= i < edges.len() && edge_matches(#[trigger] edges[i], from, to, kind)
}

/// The position of the first edge from `from` to `to` of kind `kind`.
pub open spec fn first_edge_match(edges: Seq<Edge>, from: Seq<char>, to: Seq<char>, kind: EdgeKind) -> int {
    choose|i: int| is_first_edge_match(edges, from, to, kind, i)
}

/// `profiles` with `p` appended unless it is already there.
pub open spec fn profile_added(profiles: Seq<Seq<char>>, p: Seq<char>) -> Seq<Seq<char>> {
    if profiles.contains(p) {
        profiles
    } else {
        profiles.push(p)
    }
}

/// `new` is `old` seen once more, from `source`, while building `profile`: its weight
/// grows by one (staying at `usize::MAX` once there), a sighting by rust-analyzer
/// confirms it, and the profile is recorded once.
pub open spec fn edge_bumped(old: Edge, new: Edge, source: EdgeSource, profile: Seq<char>) -> bool {
    &&& new.from == old.from
    &&& new.to == old.to
    &&& new.kind == old.kind
    &&& new.label == old.label
    &&& new.evidence == old.evidence
    &&& new.call_style == old.call_style
    &&& new.weight == (if old.weight == usize::MAX { old.weight as int } else { old.weight + 1 })
    &&& (if source == EdgeSource::RustAnalyzer {
        new.source == EdgeSource::RustAnalyzer && new.certainty == EdgeCertainty::Confirmed
    } else {
        new.source == old.source && new.certainty == old.certainty
    })
    &&& strings_view(new.profiles@) == profile_added(strings_view(old.profiles@), profile)
}

/// `e` is a new edge of weight one with the given fields, seen while building `profile`.
pub open spec fn fresh_edge(
    e: Edge,
    from: Seq<char>,
    to: Seq<char>,
    kind: EdgeKind,
    label: Option<Seq<char>>,
    evidence: Option<Location>,
    source: EdgeSource,
    certainty: EdgeCertainty,
    call_style: Option<Seq<char>>,
    profile: Seq<char>,
) -> bool {
    &&& e.from@ == from
    &&& e.to@ == to
    &&& e.kind == kind
    &&& opt_view(e.label) == label
    &&& e.evidence == evidence
    &&& e.weight == 1
    &&& e.source == source
    &&& e.certainty == certainty
    &&& opt_view(e.call_style) == call_style
    &&& strings_view(e.profiles@) == seq![profile]
}

/// What recording an edge does to the edge list: nothing for a self-loop; the first
/// edge with the same ends and kind is bumped; otherwise a fresh edge is appended.
pub open spec fn edge_recorded(
    before: Seq<Edge>,
    after: Seq<Edge>,
    from: Seq<char>,
    to: Seq<char>,
    kind: EdgeKind,
    label: Option<Seq<char>>,
    evidence: Option<Location>,
    source: EdgeSource,
    certainty: EdgeCertainty,
    call_style: Option<Seq<char>>,
    profile: Seq<char>,
) -> bool {
    if from == to {
        after == before
    } else if has_edge_match(before, from, to, kind) {
        let i = first_edge_match(before, from, to, kind);
        &&& after.len() == before.len()
        &&& forall|j: int| 0 <= j < before.len() && j != i ==> after[j] == before[j]
        &&& edge_bumped(before[i], after[i], source, profile)
    } else {
        &&& after.len() == before.len() + 1
        &&& after.drop_last() == before
        &&& fresh_edge(after.last(), from, to, kind, label, evidence, source, certainty, call_style, profile)
    }
}

/// The position of the first edge from `from` to `to` of kind `kind`, if any.
pub fn find_edge(edges: &Vec<Edge>, from: &str, to: &str, kind: EdgeKind) -> (r: Option<usize>)
    ensures
        match r {
            Some(i) => is_first_edge_match(edges@, from@, to@, kind, i as int),
            None => !has_edge_match(edges@, from@, to@, kind),
        },
{
    let mut i: usize = 0;
    while i < edges.len()
        invariant
            i <= edges.len(),
            forall|j: int| 0 <= j < i ==> !edge_matches(#[trigger] edges@[j], from@, to@, kind),
        decreases edges.len() - i,
    {
        if edges[i].kind == kind && str_eq(edges[i].from.as_str(), from) && str_eq(
            edges[i].to.as_str(),
            to,
        ) {
            return Some(i);
        }
        i = i + 1;
    }
    None
}


/// `i` is the first position of a node whose id is `id`.
pub open spec fn is_first_node_with_id(nodes: Seq<Node>, id: Seq<char>, i: int) -> bool {
    &&& 0 <= i < nodes.len()
    &&& nodes[i].id@ == id
    &&& forall|j: int| 0 <= j < i ==> (#[trigger] nodes[j]).id@ != id
}

/// Some node has id `id`.
pub open spec fn has_node_with_id(nodes: Seq<Node>, id: Seq<char>) -> bool {
    exists|i: int| 0 <= i < nodes.len() && (#[trigger] nodes[i]).id@ == id
}

/// The position of the first node whose id is `id`.
pub open spec fn node_position(nodes: Seq<Node>, id: Seq<char>) -> int {
    choose|i: int| is_first_node_with_id(nodes, id, i)
}

pub proof fn lemma_first_node_unique(nodes: Seq<Node>, id: Seq<char>, i: int, k: int)
    requires
        is_first_node_with_id(nodes, id, i),
        k == node_position(nodes, id),
    ensures
        k == i,
{
    assert(is_first_node_with_id(nodes, id, k));
    if k < i {
        assert(nodes[k].id@ != id);
    } else if i < k {
        assert(nodes[i].id@ != id);
    }
}

/// The position of the first node whose id is `id`, if any.
pub fn find_node(nodes: &Vec<Node>, id: &str) -> (r: Option<usize>)
    ensures
        match r {
            Some(i) => is_first_node_with_id(nodes@, id@, i as int),
            None => !has_node_with_id(nodes@, id@),
        },
{
    let mut i: usize = 0;
    while i < nodes.len()
        invariant
            i <= nodes.len(),
            forall|j: int| 0 <= j < i ==> (#[trigger] nodes@[j]).id@ != id@,
        decreases nodes.len() - i,
    {
        if str_eq(nodes[i].id.as_str(), id) {
            return Some(i);
        }
        i = i + 1;
    }
    None
}

// ---------------------------------------------------------------------------
// The builder
// ---------------------------------------------------------------------------

/// Accumulates the nodes and edges of a graph while a project is indexed.
pub struct Builder {
    pub root: String,
    pub profile: String,
    pub nodes: Vec<Node>,
    pub edges: Vec<Edge>,
    pub pending: Vec<PendingEdge>,
    pub warnings: Vec<String>,
    pub ids: StrSet,
}

/// `ids` of the nodes are pairwise distinct.
pub open spec fn distinct_ids(nodes: Seq<Node>) -> bool {
    forall|i: int, j: int| 0 <= i < j < nodes.len() ==> nodes[i].id@ != nodes[j].id@
}

/// The id a node of kind `kind` and qualified name `qname` is based on:
/// `kind:qname` with spaces, newlines and tabs turned into `_`.
pub open spec fn id_base(kind: NodeKind, qname: Seq<char>) -> Seq<char> {
    kind.name_spec() + ":"@ + replace_char(replace_char(replace_char(qname, ' ', '_'), '\n', '_'), '\t', '_')
}

/// Documentation lines joined by newlines, or nothing when there are none.
pub open spec fn docs_text(docs: Seq<String>) -> Option<Seq<char>> {
    if docs.len() == 0 {
        None
    } else {
        Some(join(docs.map_values(|d: String| d@), "\n"@))
    }
}

pub open spec fn opt_view(o: Option<String>) -> Option<Seq<char>> {
    match o {
        Some(s) => Some(s@),
        None => None,
    }
}


/// `n` is the node made under id `id` from the given description: the signature
/// is compacted and the documentation lines are joined.
pub open spec fn node_fields(
    n: Node,
    id: Seq<char>,
    kind: NodeKind,
    name: Seq<char>,
    qualified_name: Seq<char>,
    file: Option<Seq<char>>,
    range: Option<Range>,
    visibility: Option<Seq<char>>,
    signature: Option<Seq<char>>,
    docs: Seq<String>,
    metrics: Seq<(String, usize)>,
) -> bool {
    &&& n.id@ == id
    &&& n.kind == kind
    &&& n.name@ == name
    &&& n.qualified_name@ == qualified_name
    &&& opt_view(n.file) == file
    &&& n.range == range
    &&& opt_view(n.visibility) == visibility
    &&& opt_view(n.signature) == match signature {
        Some(s) => Some(compact_spec(s)),
        None => None,
    }
    &&& opt_view(n.docs) == docs_text(docs)
    &&& n.metrics@ == metrics
}


/// An edge to record, its strings seen as character sequences.
pub struct EdgeRequest {
    pub from: Seq<char>,
    pub to: Seq<char>,
    pub kind: EdgeKind,
    pub label: Option<Seq<char>>,
    pub evidence: Option<Location>,
    pub source: EdgeSource,
    pub certainty: EdgeCertainty,
    pub call_style: Option<Seq<char>>,
}

/// `after` is `before` once the request `r` has been recorded (see [`edge_recorded`]).
pub open spec fn request_recorded(before: Seq<Edge>, r: EdgeRequest, after: Seq<Edge>, profile: Seq<char>) -> bool {
    edge_recorded(
        before,
        after,
        r.from,
        r.to,
        r.kind,
        r.label,
        r.evidence,
        r.source,
        r.certainty,
        r.call_style,
        profile,
    )
}

/// `states` leads from `before` to `after`, recording `reqs` one after the other.
pub open spec fn is_chain(
    states: Seq<Seq<Edge>>,
    before: Seq<Edge>,
    reqs: Seq<EdgeRequest>,
    after: Seq<Edge>,
    profile: Seq<char>,
) -> bool {
    &&& states.len() == reqs.len() + 1
    &&& states[0] == before
    &&& states.last() == after
    &&& forall|i: int|
        #![trigger reqs[i]]
        0 <= i < reqs.len() ==> request_recorded(states[i], reqs[i], states[i + 1], profile)
}

/// `after` is what recording `reqs`, in order, makes of `before`.
pub open spec fn records_all(before: Seq<Edge>, reqs: Seq<EdgeRequest>, after: Seq<Edge>, profile: Seq<char>) -> bool {
    exists|states: Seq<Seq<Edge>>| is_chain(states, before, reqs, after, profile)
}

pub proof fn lemma_chain_step(
    states: Seq<Seq<Edge>>,
    before: Seq<Edge>,
    reqs: Seq<EdgeRequest>,
    mid: Seq<Edge>,
    r: EdgeRequest,
    after: Seq<Edge>,
    profile: Seq<char>,
)
    requires
        is_chain(states, before, reqs, mid, profile),
        request_recorded(mid, r, after, profile),
    ensures
        is_chain(states.push(after), before, reqs.push(r), after, profile),
{
    let s2 = states.push(after);
    let r2 = reqs.push(r);
    assert forall|i: int| #![trigger r2[i]] 0 <= i < r2.len() implies request_recorded(
        s2[i],
        r2[i],
        s2[i + 1],
        profile,
    ) by {
        if i < reqs.len() {
            assert(r2[i] == reqs[i]);
            assert(s2[i] == states[i]);
            assert(s2[i + 1] == states[i + 1]);
        }
    }
}

/// The edge a pending edge becomes once its target is resolved among `nodes`.
pub open spec fn pending_request(nodes: Seq<Node>, p: PendingEdge) -> Option<EdgeRequest> {
    match resolve_spec(nodes, p.target@, opt_view(p.source_file), p.resolution) {
        Some(to) => Some(
            EdgeRequest {
                from: p.from@,
                to,
                kind: p.kind,
                label: opt_view(p.label),
                evidence: p.evidence,
                source: EdgeSource::Ast,
                certainty: EdgeCertainty::Definite,
                call_style: opt_view(p.call_style),
            },
        ),
        None => None,
    }
}

/// The edges that the pending edges `ps` become, in order; those whose target
/// does not resolve are dropped.
pub open spec fn pending_requests(nodes: Seq<Node>, ps: Seq<PendingEdge>) -> Seq<EdgeRequest>
    decreases ps.len(),
{
    if ps.len() == 0 {
        Seq::empty()
    } else {
        let rest = pending_requests(nodes, ps.drop_last());
        match pending_request(nodes, ps.last()) {
            Some(r) => rest.push(r),
            None => rest,
        }
    }
}

/// The possible-dispatch edge from a trait method to an impl method.
pub open spec fn dispatch_request(t: (Seq<char>, Seq<char>, Seq<char>)) -> EdgeRequest {
    EdgeRequest {
        from: t.0,
        to: t.1,
        kind: EdgeKind::PossibleDispatch,
        label: Some(t.2),
        evidence: None,
        source: EdgeSource::Inferred,
        certainty: EdgeCertainty::Possible,
        call_style: None,
    }
}


/// The pending edge made for a type named `name` used by `from` in the file
/// `relative`: its evidence is the first line of `source` mentioning the name.
pub open spec fn type_use_edge(
    p: PendingEdge,
    from: Seq<char>,
    relative: Seq<char>,
    source: Seq<char>,
    name: Seq<char>,
    kind: EdgeKind,
) -> bool {
    &&& p.from@ == from
    &&& p.target@ == name
    &&& p.kind == kind
    &&& opt_view(p.label) == Some(name)
    &&& p.evidence matches Some(loc) && loc.file@ == relative && loc.line == find_line_spec(source, name)
    &&& opt_view(p.source_file) == Some(relative)
    &&& p.resolution == ResolutionStrategy::Any
    &&& p.call_style is None
}

/// `after` is `before` with one node appended under `id`, the first free id for
/// `base`; edges, pending edges, warnings, root and profile are unchanged.
pub open spec fn node_appended(before: Builder, after: Builder, base: Seq<char>, id: Seq<char>) -> bool {
    &&& after.wf()
    &&& after.claimed() == before.claimed() + 1
    &&& is_first_free(base, before.claimed_ids(), id)
    &&& after.claimed_ids() == before.claimed_ids().insert(id)
    &&& after.nodes@.len() == before.nodes@.len() + 1
    &&& after.nodes@.drop_last() == before.nodes@
    &&& after.edges == before.edges
    &&& after.pending == before.pending
    &&& after.warnings == before.warnings
    &&& after.root == before.root
    &&& after.profile == before.profile
}

/// Two builders with the same nodes and ids are alike in well-formedness and
/// in the ids they have claimed.
/// A well-formed builder holds nodes with distinct ids.
pub proof fn lemma_wf_distinct(b: Builder)
    requires
        b.wf(),
    ensures
        distinct_ids(b.nodes@),
{
}

pub proof fn lemma_frame(a: Builder, b: Builder)
    requires
        a.ids == b.ids,
        a.nodes == b.nodes,
    ensures
        a.wf() == b.wf(),
        a.claimed() == b.claimed(),
        a.claimed_ids() == b.claimed_ids(),
{
}

impl Builder {
    /// The ids claimed so far.
    pub closed spec fn claimed_ids(&self) -> Set<Seq<char>> {
        self.ids.members()
    }

    /// Every node id is claimed, and node ids are distinct.
    pub closed spec fn wf(&self) -> bool {
        &&& self.ids.wf()
        &&& distinct_ids(self.nodes@)
        &&& forall|i: int| 0 <= i < self.nodes.len() ==> self.ids.members().contains(#[trigger] self.nodes@[i].id@)
    }

    /// Number of ids claimed so far.
    pub closed spec fn claimed(&self) -> nat {
        self.ids.size()
    }

    /// Number of ids claimed so far.
    pub fn claimed_count(&self) -> (n: usize)
        ensures
            n == self.claimed(),
    {
        self.ids.len()
    }

    /// An empty builder for the project at `root`, recording edges under `profile`.
    pub fn new(root: String, profile: String) -> (b: Builder)
        ensures
            b.wf(),
            b.root@ == root@,
            b.profile@ == profile@,
            b.nodes@.len() == 0,
            b.edges@.len() == 0,
            b.pending@.len() == 0,
            b.warnings@.len() == 0,
            b.claimed() == 0,
            b.claimed_ids() == Set::<Seq<char>>::empty(),
    {
        Builder {
            root,
            profile,
            nodes: Vec::new(),
            edges: Vec::new(),
            pending: Vec::new(),
            warnings: Vec::new(),
            ids: StrSet::new(),
        }
    }

    /// Claims a fresh id derived from `base` (see [`is_first_free`]).
    pub fn unique_id(&mut self, base: String) -> (id: String)
        requires
            old(self).wf(),
            old(self).claimed() < usize::MAX - 2,
        ensures
            final(self).wf(),
            is_first_free(base@, old(self).claimed_ids(), id@),
            final(self).claimed() == old(self).claimed() + 1,
            final(self).claimed_ids() == old(self).claimed_ids().insert(id@),
            final(self).nodes == old(self).nodes,
            final(self).edges == old(self).edges,
            final(self).pending == old(self).pending,
            final(self).warnings == old(self).warnings,
            final(self).root == old(self).root,
            final(self).profile == old(self).profile,
    {
        let id = claim_id(&mut self.ids, base);
        id
    }

    /// Adds a node for `input` under a fresh id, and returns the id.
    pub fn add_node(&mut self, input: NodeInput) -> (id: String)
        requires
            old(self).wf(),
            old(self).claimed() < usize::MAX - 2,
        ensures
            node_appended(*old(self), *final(self), id_base(input.kind, input.qualified_name@), id@),
            node_fields(
                final(self).nodes@.last(),
                id@,
                input.kind,
                input.name@,
                input.qualified_name@,
                opt_view(input.file),
                input.range,
                opt_view(input.visibility),
                opt_view(input.signature),
                input.docs@,
                input.metrics@,
            ),
    {
        let q = chars_of(input.qualified_name.as_str());
        let q1 = replace_char_exec(&q, ' ', '_');
        let q2 = replace_char_exec(&q1, '\n', '_');
        let q3 = replace_char_exec(&q2, '\t', '_');
        let mut base = owned(input.kind.as_str());
        base.append(":");
        let tail = string_from_chars(&q3);
        base.append(tail.as_str());
        let ghost old_ids = self.ids.members();
        let id = claim_id(&mut self.ids, base);
        let docs = if input.docs.len() == 0 {
            None
        } else {
            Some(join_strings(&input.docs, "\n"))
        };
        let signature = match input.signature {
            Some(s) => Some(compact(s)),
            None => None,
        };
        let node = Node {
            id: id.clone(),
            kind: input.kind,
            name: input.name,
            qualified_name: input.qualified_name,
            file: input.file,
            range: input.range,
            visibility: input.visibility,
            signature,
            docs,
            metrics: input.metrics,
        };
        let ghost old_nodes = self.nodes@;
        self.nodes.push(node);
        proof {
            assert(self.nodes@.drop_last() =~= old_nodes);
            assert forall|i: int, j: int| 0 <= i < j < self.nodes@.len() implies self.nodes@[i].id@
                != self.nodes@[j].id@ by {
                if j == old_nodes.len() {
                    assert(old_ids.contains(old_nodes[i].id@));
                }
            }
            assert forall|i: int| 0 <= i < self.nodes.len() implies self.ids.members().contains(
                #[trigger] self.nodes@[i].id@,
            ) by {
                if i < old_nodes.len() {
                    assert(old_ids.contains(old_nodes[i].id@));
                }
            }
        }
        id
    }

    /// Records an AST edge (see [`edge_recorded`]).
    pub fn edge(
        &mut self,
        from: &str,
        to: &str,
        kind: EdgeKind,
        label: Option<String>,
        evidence: Option<Location>,
        call_style: Option<String>,
    )
        ensures
            edge_recorded(
                old(self).edges@,
                final(self).edges@,
                from@,
                to@,
                kind,
                opt_view(label),
                evidence,
                EdgeSource::Ast,
                EdgeCertainty::Definite,
                opt_view(call_style),
                old(self).profile@,
            ),
            final(self).nodes == old(self).nodes,
            final(self).ids == old(self).ids,
            final(self).pending == old(self).pending,
            final(self).warnings == old(self).warnings,
            final(self).root == old(self).root,
            final(self).profile == old(self).profile,
    {
        self.edge_with_source(
            from,
            to,
            kind,
            label,
            evidence,
            EdgeSource::Ast,
            EdgeCertainty::Definite,
            call_style,
        )
    }

    /// Records an edge seen by `source` with `certainty` (see [`edge_recorded`]).
    pub fn edge_with_source(
        &mut self,
        from: &str,
        to: &str,
        kind: EdgeKind,
        label: Option<String>,
        evidence: Option<Location>,
        source: EdgeSource,
        certainty: EdgeCertainty,
        call_style: Option<String>,
    )
        ensures
            edge_recorded(
                old(self).edges@,
                final(self).edges@,
                from@,
                to@,
                kind,
                opt_view(label),
                evidence,
                source,
                certainty,
                opt_view(call_style),
                old(self).profile@,
            ),
            final(self).nodes == old(self).nodes,
            final(self).ids == old(self).ids,
            final(self).pending == old(self).pending,
            final(self).warnings == old(self).warnings,
            final(self).root == old(self).root,
            final(self).profile == old(self).profile,
    {
        if str_eq(from, to) {
            return ;
        }
        match find_edge(&self.edges, from, to, kind) {
            Some(i) => {
                let ghost before = self.edges@;
                let seen = contains_string(&self.edges[i].profiles, self.profile.as_str());
                let profile = self.profile.clone();
                let e = &mut self.edges[i];
                e.weight = e.weight.saturating_add(1);
                if source == EdgeSource::RustAnalyzer {
                    e.source = EdgeSource::RustAnalyzer;
                    e.certainty = EdgeCertainty::Confirmed;
                }
                if !seen {
                    e.profiles.push(profile);
                }
                proof {
                    let k = first_edge_match(before, from@, to@, kind);
                    assert(is_first_edge_match(before, from@, to@, kind, i as int));
                    if k != i as int {
                        if k < i as int {
                            assert(!edge_matches(before[k], from@, to@, kind));
                        } else {
                            assert(!edge_matches(before[i as int], from@, to@, kind));
                        }
                    }
                    assert(strings_view(self.edges@[i as int].profiles@) =~= profile_added(
                        strings_view(before[i as int].profiles@),
                        self.profile@,
                    ));
                }
            },
            None => {
                let e = Edge {
                    from: owned(from),
                    to: owned(to),
                    kind,
                    label,
                    evidence,
                    weight: 1,
                    source,
                    certainty,
                    call_style,
                    profiles: vec![self.profile.clone()],
                };
                let ghost before = self.edges@;
                self.edges.push(e);
                proof {
                    assert(self.edges@.drop_last() =~= before);
                    assert(strings_view(self.edges@.last().profiles@) =~= seq![self.profile@]);
                }
            },
        }
    }

    /// Adds a symbol found in the file `relative`; its line is the first line of
    /// `source` that mentions `name` (see [`find_line_spec`]).
    pub fn symbol(
        &mut self,
        kind: NodeKind,
        name: String,
        qualified_name: String,
        relative: &str,
        source: &str,
        signature: Option<String>,
        visibility: Option<String>,
        docs: Vec<String>,
        end_line: Option<usize>,
    ) -> (id: String)
        requires
            old(self).wf(),
            old(self).claimed() < usize::MAX - 2,
        ensures
            node_appended(*old(self), *final(self), id_base(kind, qualified_name@), id@),
            ({
                let line = find_line_spec(source@, name@) as usize;
                node_fields(
                    final(self).nodes@.last(),
                    id@,
                    kind,
                    name@,
                    qualified_name@,
                    Some(relative@),
                    Some(Range { start_line: line, end_line: match end_line { Some(e) => e, None => line } }),
                    opt_view(visibility),
                    opt_view(signature),
                    docs@,
                    Seq::empty(),
                )
            }),
    {
        let line = find_line(source, name.as_str());
        self.symbol_at_line(kind, name, qualified_name, relative, line, signature, visibility, docs, end_line)
    }

    /// Adds a symbol of the file `relative` starting at line `line`; it ends at
    /// `end_line`, or on the same line.
    pub fn symbol_at_line(
        &mut self,
        kind: NodeKind,
        name: String,
        qualified_name: String,
        relative: &str,
        line: usize,
        signature: Option<String>,
        visibility: Option<String>,
        docs: Vec<String>,
        end_line: Option<usize>,
    ) -> (id: String)
        requires
            old(self).wf(),
            old(self).claimed() < usize::MAX - 2,
        ensures
            node_appended(*old(self), *final(self), id_base(kind, qualified_name@), id@),
            node_fields(
                final(self).nodes@.last(),
                id@,
                kind,
                name@,
                qualified_name@,
                Some(relative@),
                Some(Range { start_line: line, end_line: match end_line { Some(e) => e, None => line } }),
                opt_view(visibility),
                opt_view(signature),
                docs@,
                Seq::empty(),
            ),
    {
        let end = match end_line {
            Some(e) => e,
            None => line,
        };
        self.add_node(
            NodeInput {
                kind,
                name,
                qualified_name,
                file: Some(owned(relative)),
                range: Some(Range { start_line: line, end_line: end }),
                visibility,
                signature,
                docs,
                metrics: Vec::new(),
            },
        )
    }

    /// The first node whose id is `id`.
    pub fn node(&self, id: &str) -> (r: Option<&Node>)
        ensures
            match r {
                Some(n) => is_first_node_with_id(self.nodes@, id@, node_position(self.nodes@, id@))
                    && *n == self.nodes@[node_position(self.nodes@, id@)],
                None => !has_node_with_id(self.nodes@, id@),
            },
    {
        match find_node(&self.nodes, id) {
            Some(i) => {
                proof {
                    lemma_first_node_unique(self.nodes@, id@, i as int, node_position(self.nodes@, id@));
                }
                Some(&self.nodes[i])
            },
            None => None,
        }
    }

    /// `path` relative to the builder's root (see [`relative_spec`]).
    pub fn relative(&self, path: &str) -> (r: String)
        requires
            self.root@.len() >= 1,
            path@.len() >= 1,
        ensures
            r@ == relative_spec(self.root@, path@),
    {
        relative_path(self.root.as_str(), path)
    }

    /// What `target` resolves to among the nodes (see [`resolve_spec`]).
    fn resolve(&self, target: &str, source_file: &Option<String>, resolution: ResolutionStrategy) -> (r:
        Option<String>)
        ensures
            match r {
                Some(id) => resolve_spec(self.nodes@, target@, opt_view(*source_file), resolution) == Some(id@),
                None => resolve_spec(self.nodes@, target@, opt_view(*source_file), resolution) is None,
            },
    {
        resolve_in(&self.nodes, target, source_file, resolution)
    }

    /// What the target of a pending edge resolves to.
    fn resolve_pending_edge(&self, edge: &PendingEdge) -> (r: Option<String>)
        ensures
            match r {
                Some(id) => resolve_spec(self.nodes@, edge.target@, opt_view(edge.source_file), edge.resolution)
                    == Some(id@),
                None => resolve_spec(self.nodes@, edge.target@, opt_view(edge.source_file), edge.resolution) is None,
            },
    {
        self.resolve(edge.target.as_str(), &edge.source_file, edge.resolution)
    }

    /// Turns every pending edge whose target resolves into an edge, in order, and
    /// empties the pending list.
    pub fn resolve_pending(&mut self)
        ensures
            final(self).pending@.len() == 0,
            records_all(
                old(self).edges@,
                pending_requests(old(self).nodes@, old(self).pending@),
                final(self).edges@,
                old(self).profile@,
            ),
            final(self).nodes == old(self).nodes,
            final(self).ids == old(self).ids,
            final(self).warnings == old(self).warnings,
            final(self).root == old(self).root,
            final(self).profile == old(self).profile,
    {
        let mut pending: Vec<PendingEdge> = Vec::new();
        std::mem::swap(&mut pending, &mut self.pending);
        let ghost orig = pending@;
        let ghost n = orig.len();
        let mut rev: Vec<PendingEdge> = Vec::new();
        while pending.len() > 0
            invariant
                pending@ == orig.take(pending.len() as int),
                pending.len() + rev.len() == n,
                n == orig.len(),
                forall|j: int| 0 <= j < rev.len() ==> rev@[j] == orig[n - 1 - j],
            decreases pending.len(),
        {
            let ghost before = pending@;
            let p = pending.pop().unwrap();
            assert(pending@ =~= orig.take(pending.len() as int));
            rev.push(p);
        }
        let ghost start = self.edges@;
        let ghost mut states: Seq<Seq<Edge>> = seq![self.edges@];
        assert(orig.take(0) =~= Seq::<PendingEdge>::empty());
        while rev.len() > 0
            invariant
                rev.len() <= n,
                n == orig.len(),
                forall|j: int| 0 <= j < rev.len() ==> rev@[j] == orig[n - 1 - j],
                is_chain(
                    states,
                    start,
                    pending_requests(self.nodes@, orig.take(n - rev.len())),
                    self.edges@,
                    self.profile@,
                ),
                self.pending@.len() == 0,
                self.nodes == old(self).nodes,
                self.ids == old(self).ids,
                self.warnings == old(self).warnings,
                self.root == old(self).root,
                self.profile == old(self).profile,
                start == old(self).edges@,
                orig == old(self).pending@,
            decreases rev.len(),
        {
            let ghost k = n - rev.len();
            let p = rev.pop().unwrap();
            assert(p == orig[k]);
            assert(orig.take(k + 1).drop_last() =~= orig.take(k));
            let ghost mid = self.edges@;
            let ghost reqs = pending_requests(self.nodes@, orig.take(k));
            match self.resolve_pending_edge(&p) {
                Some(to) => {
                    self.edge(p.from.as_str(), to.as_str(), p.kind, p.label, p.evidence, p.call_style);
                    proof {
                        let r = pending_request(self.nodes@, orig[k]).unwrap();
                        lemma_chain_step(states, start, reqs, mid, r, self.edges@, self.profile@);
                        states = states.push(self.edges@);
                    }
                },
                None => {},
            }
        }
        assert(orig.take(n as int) =~= orig);
    }

    /// Links each method of a trait to each same-named method of every impl of
    /// that trait with a possible-dispatch edge (see [`dispatch_links`]).
    pub fn add_trait_dispatch_edges(&mut self)
        ensures
            records_all(
                old(self).edges@,
                dispatch_links(old(self).nodes@, old(self).edges@).map_values(
                    |t: (Seq<char>, Seq<char>, Seq<char>)| dispatch_request(t),
                ),
                final(self).edges@,
                old(self).profile@,
            ),
            final(self).nodes == old(self).nodes,
            final(self).ids == old(self).ids,
            final(self).pending == old(self).pending,
            final(self).warnings == old(self).warnings,
            final(self).root == old(self).root,
            final(self).profile == old(self).profile,
    {
        let links = dispatch_links_exec(&self.nodes, &self.edges);
        let ghost reqs = dispatch_links(self.nodes@, self.edges@).map_values(
            |t: (Seq<char>, Seq<char>, Seq<char>)| dispatch_request(t),
        );
        let ghost start = self.edges@;
        let ghost mut states: Seq<Seq<Edge>> = seq![self.edges@];
        let mut i: usize = 0;
        assert(reqs.take(0) =~= Seq::<EdgeRequest>::empty());
        while i < links.len()
            invariant
                i <= links.len(),
                reqs.len() == links.len(),
                forall|j: int| 0 <= j < links.len() ==> reqs[j] == dispatch_request(triple_view(#[trigger] links@[j])),
                is_chain(states, start, reqs.take(i as int), self.edges@, self.profile@),
                self.nodes == old(self).nodes,
                self.ids == old(self).ids,
                self.pending == old(self).pending,
                self.warnings == old(self).warnings,
                self.root == old(self).root,
                self.profile == old(self).profile,
                start == old(self).edges@,
            decreases links.len() - i,
        {
            let ghost mid = self.edges@;
            let t = &links[i];
            self.edge_with_source(
                t.0.as_str(),
                t.1.as_str(),
                EdgeKind::PossibleDispatch,
                Some(t.2.clone()),
                None,
                EdgeSource::Inferred,
                EdgeCertainty::Possible,
                None,
            );
            proof {
                assert(reqs[i as int] == dispatch_request(triple_view(links@[i as int])));
                lemma_chain_step(states, start, reqs.take(i as int), mid, reqs[i as int], self.edges@, self.profile@);
                states = states.push(self.edges@);
                assert(reqs.take(i as int).push(reqs[i as int]) =~= reqs.take(i + 1));
            }
            i = i + 1;
        }
        assert(reqs.take(links.len() as int) =~= reqs);
    }

    /// Queues an edge from `from` to each type named in `names` (the type paths
    /// mentioned by a type), to be resolved later by any node of that name.
    pub fn type_use(&mut self, from: &str, relative: &str, source: &str, names: &Vec<String>, kind: EdgeKind)
        ensures
            final(self).pending@.len() == old(self).pending@.len() + names@.len(),
            final(self).pending@.take(old(self).pending@.len() as int) == old(self).pending@,
            forall|i: int|
                0 <= i < names@.len() ==> type_use_edge(
                    #[trigger] final(self).pending@[old(self).pending@.len() + i],
                    from@,
                    relative@,
                    source@,
                    names@[i]@,
                    kind,
                ),
            final(self).nodes == old(self).nodes,
            final(self).edges == old(self).edges,
            final(self).ids == old(self).ids,
            final(self).warnings == old(self).warnings,
            final(self).root == old(self).root,
            final(self).profile == old(self).profile,
    {
        let ghost n0 = self.pending@.len();
        let mut i: usize = 0;
        while i < names.len()
            invariant
                i <= names.len(),
                n0 == old(self).pending@.len(),
                self.pending@.len() == n0 + i,
                self.pending@.take(n0 as int) == old(self).pending@,
                forall|j: int|
                    0 <= j < i ==> type_use_edge(
                        #[trigger] self.pending@[n0 + j],
                        from@,
                        relative@,
                        source@,
                        names@[j]@,
                        kind,
                    ),
                self.nodes == old(self).nodes,
                self.edges == old(self).edges,
                self.ids == old(self).ids,
                self.warnings == old(self).warnings,
                self.root == old(self).root,
                self.profile == old(self).profile,
            decreases names.len() - i,
        {
            let name = &names[i];
            let p = PendingEdge {
                from: owned(from),
                target: name.clone(),
                kind,
                label: Some(name.clone()),
                evidence: Some(location(relative, source, name.as_str())),
                source_file: Some(owned(relative)),
                resolution: ResolutionStrategy::Any,
                call_style: None,
            };
            let ghost before = self.pending@;
            self.pending.push(p);
            proof {
                assert(self.pending@.take(n0 as int) =~= before.take(n0 as int));
                assert forall|j: int| 0 <= j < i + 1 implies type_use_edge(
                    #[trigger] self.pending@[n0 + j],
                    from@,
                    relative@,
                    source@,
                    names@[j]@,
                    kind,
                ) by {
                    if j < i {
                        assert(self.pending@[n0 + j] == before[n0 + j]);
                    }
                }
            }
            i = i + 1;
        }
    }
}

} // verus!
