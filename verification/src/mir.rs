use vstd::prelude::*;
use crate::helpers::trim_start_spec;
use crate::index::has_id;
use crate::lines::{lines_of, split_lines};
use crate::model::{CodeGraph, Edge, EdgeCertainty, EdgeKind, EdgeSource, Location, MirInfo, Node, Target};
use crate::resolve::{last_segment, last_segment_exec};
use crate::strs::{cat, chars_of, contains_seq, owned, starts_with_seq, str_eq, str_starts_with, string_from_chars};
use crate::textops::{
    find_first, find_last, first_occ, last_occ, slice_chars, trim_chars, trim_end_char, trim_end_char_exec,
    trim_spec, trim_start_char, trim_start_char_exec, trim_start_chars,
};

verus! {

// ---------------------------------------------------------------------------
// Reading MIR text
// ---------------------------------------------------------------------------

/// The short name of a path as printed in MIR: the part after the last `>::`,
/// else after the last `::`, else the text without angle brackets at its ends;
/// trimmed in each case.
pub open spec fn normalize_spec(value: Seq<char>) -> Seq<char> {
    let t = trim_spec(value);
    let a = last_occ(t, ">::"@);
    let b = last_occ(t, "::"@);
    if a >= 0 {
        trim_spec(t.skip(a + 3))
    } else if b >= 0 {
        trim_spec(t.skip(b + 2))
    } else {
        trim_spec(trim_end_char(trim_start_char(t, '<'), '>'))
    }
}

/// The short name of `value` (see [`normalize_spec`]).
pub fn normalize_symbol(value: &Vec<char>) -> (r: Vec<char>)
    ensures
        r@ == normalize_spec(value@),
{
    proof {
        reveal_strlit(">::");
        reveal_strlit("::");
    }
    let t = trim_chars(value);
    let gt = chars_of(">::");
    let cc = chars_of("::");
    match find_last(&t, &gt) {
        Some(a) => {
            let rest = slice_chars(&t, a + 3, t.len());
            assert(rest@ =~= t@.skip(a + 3));
            trim_chars(&rest)
        },
        None => match find_last(&t, &cc) {
            Some(b) => {
                let rest = slice_chars(&t, b + 2, t.len());
                assert(rest@ =~= t@.skip(b + 2));
                trim_chars(&rest)
            },
            None => {
                let a = trim_start_char_exec(&t, '<');
                let c = trim_end_char_exec(&a, '>');
                trim_chars(&c)
            },
        },
    }
}

/// The function a MIR line starts, if it starts one: after optional
/// indentation, `fn ` and a name that is not a closure body (`{{`) or a
/// `<... as Fn...>` shim; its text up to the first `(`, trimmed and shortened.
pub open spec fn function_name_spec(line: Seq<char>) -> Option<Seq<char>> {
    let t = trim_start_spec(line);
    if !starts_with_seq(t, "fn "@) {
        None
    } else {
        let rest = t.skip(3);
        if starts_with_seq(rest, "{{"@) || (starts_with_seq(rest, "<"@) && contains_seq(rest, " as Fn"@)) {
            None
        } else {
            let p = first_occ(rest, "("@);
            let head = if p >= 0 { rest.take(p) } else { rest };
            Some(normalize_spec(trim_spec(head)))
        }
    }
}

/// The function a MIR line starts (see [`function_name_spec`]).
pub fn mir_function_name(line: &Vec<char>) -> (r: Option<Vec<char>>)
    ensures
        match r {
            Some(v) => function_name_spec(line@) == Some(v@),
            None => function_name_spec(line@) is None,
        },
{
    proof {
        reveal_strlit("fn ");
        reveal_strlit("(");
    }
    let t = trim_start_chars(line);
    let fnk = chars_of("fn ");
    if !(fnk.len() <= t.len() && crate::strs::occurs_at_exec(&t, &fnk, 0)) {
        return None;
    }
    let rest = slice_chars(&t, 3, t.len());
    assert(rest@ =~= t@.skip(3));
    let rs = string_from_chars(&rest);
    if str_starts_with(rs.as_str(), "{{") || (str_starts_with(rs.as_str(), "<") && crate::strs::str_contains(rs.as_str(), " as Fn")) {
        return None;
    }
    let paren = chars_of("(");
    let head = match find_first(&rest, &paren) {
        Some(p) => slice_chars(&rest, 0, p),
        None => slice_chars(&rest, 0, rest.len()),
    };
    assert(head@ =~= if first_occ(rest@, "("@) >= 0 { rest@.take(first_occ(rest@, "("@)) } else { rest@ });
    let trimmed = trim_chars(&head);
    Some(normalize_symbol(&trimmed))
}

/// The function a MIR call line calls, if it is one: the line (trimmed) has
/// ` -> `; before the first ` -> ` and the last `(` after it, the text after
/// the last `=`, trimmed and shortened.
pub open spec fn call_name_spec(line: Seq<char>) -> Option<Seq<char>> {
    let t = trim_spec(line);
    let arrow = first_occ(t, " -> "@);
    if arrow < 0 {
        None
    } else {
        let before = trim_spec(t.take(arrow));
        let p = last_occ(before, "("@);
        if p < 0 {
            None
        } else {
            let args = before.take(p);
            let q = last_occ(args, "="@);
            if q < 0 {
                None
            } else {
                Some(normalize_spec(trim_spec(args.skip(q + 1))))
            }
        }
    }
}

/// The function a MIR call line calls (see [`call_name_spec`]).
pub fn mir_call_name(line: &Vec<char>) -> (r: Option<Vec<char>>)
    ensures
        match r {
            Some(v) => call_name_spec(line@) == Some(v@),
            None => call_name_spec(line@) is None,
        },
{
    proof {
        reveal_strlit(" -> ");
        reveal_strlit("(");
        reveal_strlit("=");
    }
    let t = trim_chars(line);
    let arrow = chars_of(" -> ");
    let a = match find_first(&t, &arrow) {
        Some(a) => a,
        None => return None,
    };
    let b0 = slice_chars(&t, 0, a);
    assert(b0@ =~= t@.take(a as int));
    let before = trim_chars(&b0);
    let paren = chars_of("(");
    let p = match find_last(&before, &paren) {
        Some(p) => p,
        None => return None,
    };
    let args = slice_chars(&before, 0, p);
    assert(args@ =~= before@.take(p as int));
    let eq = chars_of("=");
    let q = match find_last(&args, &eq) {
        Some(q) => q,
        None => return None,
    };
    let callee = slice_chars(&args, q + 1, args.len());
    assert(callee@ =~= args@.skip(q + 1));
    let trimmed = trim_chars(&callee);
    Some(normalize_symbol(&trimmed))
}

/// Calls not worth an edge: `drop`, `clone`, `into`, `from`, `default` and
/// anything in `std` or `core`.
pub open spec fn skip_call_spec(call: Seq<char>) -> bool {
    call == "drop"@ || call == "clone"@ || call == "into"@ || call == "from"@ || call == "default"@ || starts_with_seq(
        call,
        "std::"@,
    ) || starts_with_seq(call, "core::"@)
}

/// Whether a call is not worth an edge (see [`skip_call_spec`]).
pub fn should_skip_call(call: &str) -> (b: bool)
    ensures
        b == skip_call_spec(call@),
{
    str_eq(call, "drop") || str_eq(call, "clone") || str_eq(call, "into") || str_eq(call, "from") || str_eq(call, "default")
        || str_starts_with(call, "std::") || str_starts_with(call, "core::")
}

// ---------------------------------------------------------------------------
// Resolving names
// ---------------------------------------------------------------------------

/// Positions of the nodes whose name is `name`, in order.
pub open spec fn named(nodes: Seq<Node>, name: Seq<char>) -> Seq<usize>
    decreases nodes.len(),
{
    if nodes.len() == 0 {
        Seq::empty()
    } else if nodes.last().name@ == name {
        named(nodes.drop_last(), name).push((nodes.len() - 1) as usize)
    } else {
        named(nodes.drop_last(), name)
    }
}

/// Some node has qualified name `q`.
pub open spec fn has_qname(nodes: Seq<Node>, q: Seq<char>) -> bool {
    exists|k: int| 0 <= k < nodes.len() && (#[trigger] nodes[k]).qualified_name@ == q
}

/// The last node with qualified name `q`.
pub open spec fn last_with_qname(nodes: Seq<Node>, q: Seq<char>) -> int {
    choose|p: int| 0 <= p < nodes.len() && nodes[p].qualified_name@ == q && forall|k: int| p < k < nodes.len() ==> nodes[k].qualified_name@ != q
}

proof fn lemma_last_qname(nodes: Seq<Node>, q: Seq<char>, p: int)
    requires
        0 <= p < nodes.len(),
        nodes[p].qualified_name@ == q,
        forall|j: int| p < j < nodes.len() ==> nodes[j].qualified_name@ != q,
    ensures
        has_qname(nodes, q),
        last_with_qname(nodes, q) == p,
{
    assert(nodes[p].qualified_name@ == q);
    let c = last_with_qname(nodes, q);
    if c != p {
        if c < p {
            assert(nodes[p].qualified_name@ != q);
        } else {
            assert(nodes[c].qualified_name@ != q);
        }
    }
}

/// The node id a MIR name stands for: the last node with that qualified name;
/// else the only node named like its last `::` piece; else none.
pub open spec fn mir_resolve_spec(nodes: Seq<Node>, name: Seq<char>) -> Option<Seq<char>> {
    if has_qname(nodes, name) {
        Some(nodes[last_with_qname(nodes, name)].id@)
    } else if named(nodes, last_segment(name)).len() == 1 {
        Some(nodes[named(nodes, last_segment(name))[0] as int].id@)
    } else {
        None
    }
}

/// Lookup of node ids by qualified name and by name.
pub struct SymbolIndex {
    pub qnames: Vec<Vec<char>>,
    pub names: Vec<Vec<char>>,
    pub ids: Vec<String>,
}

impl SymbolIndex {
    /// The index describes `nodes`.
    pub open spec fn describes(&self, nodes: Seq<Node>) -> bool {
        &&& self.qnames.len() == nodes.len()
        &&& self.names.len() == nodes.len()
        &&& self.ids.len() == nodes.len()
        &&& forall|k: int| 0 <= k < nodes.len() ==> (#[trigger] self.qnames@[k])@ == nodes[k].qualified_name@
        &&& forall|k: int| 0 <= k < nodes.len() ==> (#[trigger] self.names@[k])@ == nodes[k].name@
        &&& forall|k: int| 0 <= k < nodes.len() ==> (#[trigger] self.ids@[k])@ == nodes[k].id@
    }

    /// The index of `graph`'s nodes.
    pub fn new(graph: &CodeGraph) -> (r: SymbolIndex)
        ensures
            r.describes(graph.nodes@),
    {
        let mut r = SymbolIndex { qnames: Vec::new(), names: Vec::new(), ids: Vec::new() };
        let mut k: usize = 0;
        while k < graph.nodes.len()
            invariant
                k <= graph.nodes.len(),
                r.qnames.len() == k,
                r.names.len() == k,
                r.ids.len() == k,
                forall|j: int| 0 <= j < k ==> (#[trigger] r.qnames@[j])@ == graph.nodes@[j].qualified_name@,
                forall|j: int| 0 <= j < k ==> (#[trigger] r.names@[j])@ == graph.nodes@[j].name@,
                forall|j: int| 0 <= j < k ==> (#[trigger] r.ids@[j])@ == graph.nodes@[j].id@,
            decreases graph.nodes.len() - k,
        {
            let n = &graph.nodes[k];
            r.qnames.push(chars_of(n.qualified_name.as_str()));
            r.names.push(chars_of(n.name.as_str()));
            r.ids.push(owned(n.id.as_str()));
            k = k + 1;
        }
        r
    }

    /// The node id `name` stands for (see [`mir_resolve_spec`]).
    pub fn resolve(&self, graph: &CodeGraph, name: &Vec<char>) -> (r: Option<String>)
        requires
            self.describes(graph.nodes@),
        ensures
            match r {
                Some(id) => mir_resolve_spec(graph.nodes@, name@) == Some(id@),
                None => mir_resolve_spec(graph.nodes@, name@) is None,
            },
            r matches Some(id) ==> has_id(graph.nodes@, id@),
    {
        let ghost nodes = graph.nodes@;
        let n = self.qnames.len();
        let mut k: usize = n;
        while k > 0
            invariant
                k <= n,
                n == nodes.len(),
                nodes == graph.nodes@,
                self.describes(nodes),
                forall|j: int| k <= j < n ==> nodes[j].qualified_name@ != name@,
            decreases k,
        {
            if crate::lex::lex_compare(&self.qnames[k - 1], name) == 0 {
                proof {
                    let p = (k - 1) as int;
                    assert(self.qnames@[p]@ == nodes[p].qualified_name@);
                    lemma_last_qname(nodes, name@, p);
                    assert(self.ids@[p]@ == nodes[p].id@);
                }
                return Some(owned(self.ids[k - 1].as_str()));
            }
            k = k - 1;
        }
        assert(!has_qname(nodes, name@));
        let name_s = string_from_chars(name);
        let short = chars_of(last_segment_exec(name_s.as_str()).as_str());
        let mut found: Option<usize> = None;
        let mut count: usize = 0;
        let mut i: usize = 0;
        while i < n
            invariant
                i <= n,
                n == nodes.len(),
                nodes == graph.nodes@,
                self.describes(nodes),
                short@ == last_segment(name@),
                count == named(nodes.take(i as int), short@).len(),
                count <= i,
                count >= 1 ==> (found matches Some(f) && f == named(nodes.take(i as int), short@)[0] && f < n),
            decreases n - i,
        {
            assert(nodes.take(i + 1).drop_last() =~= nodes.take(i as int));
            assert(nodes.take(i + 1).last() == nodes[i as int]);
            assert(nodes.take(i + 1).len() - 1 == i);
            assert(self.qnames@[i as int]@ == nodes[i as int].qualified_name@);
            if crate::lex::lex_compare(&self.names[i], &short) == 0 {
                if count == 0 {
                    found = Some(i);
                }
                count = count + 1;
            }
            proof {
                let a = named(nodes.take(i as int), short@);
                let b = named(nodes.take(i + 1), short@);
                if nodes[i as int].name@ == short@ {
                    assert(b == a.push(i as usize));
                    if a.len() >= 1 {
                        assert(b[0] == a[0]);
                    }
                }
            }
            i = i + 1;
        }
        assert(nodes.take(n as int) =~= nodes);
        if count == 1 {
            match found {
                Some(f) => {
                    assert(self.ids@[f as int]@ == nodes[f as int].id@);
                    Some(owned(self.ids[f].as_str()))
                },
                None => None,
            }
        } else {
            None
        }
    }
}

// ---------------------------------------------------------------------------
// Recording MIR calls
// ---------------------------------------------------------------------------

/// What recording a call did.
pub enum EdgeResult {
    Inserted,
    Confirmed,
    Skipped,
}

/// The first call edge from `from` to `to`, if any.
pub open spec fn is_first_call(edges: Seq<Edge>, from: Seq<char>, to: Seq<char>, k: int) -> bool {
    &&& 0 <= k < edges.len()
    &&& edges[k].from@ == from && edges[k].to@ == to && edges[k].kind == EdgeKind::Calls
    &&& forall|j: int| 0 <= j < k ==> !(edges[j].from@ == from && edges[j].to@ == to && edges[j].kind == EdgeKind::Calls)
}

pub open spec fn has_call(edges: Seq<Edge>, from: Seq<char>, to: Seq<char>) -> bool {
    exists|k: int| 0 <= k < edges.len() && (#[trigger] edges[k]).from@ == from && edges[k].to@ == to && edges[k].kind == EdgeKind::Calls
}

pub open spec fn profiles_view(v: Seq<String>) -> Seq<Seq<char>> {
    v.map_values(|s: String| s@)
}

/// Recording a MIR call from `from` to `to`: nothing for a call to itself;
/// else the first such call edge gains weight (saturating), becomes a MIR
/// edge, confirmed, and lists the profile once; else a new confirmed MIR call
/// edge of weight one is appended.
pub open spec fn mir_edge_recorded(before: Seq<Edge>, after: Seq<Edge>, from: Seq<char>, to: Seq<char>, label: Seq<char>, profile: Seq<char>, r: EdgeResult) -> bool {
    if from == to {
        r is Skipped && after == before
    } else if has_call(before, from, to) {
        &&& r is Confirmed
        &&& exists|k: int| #![trigger is_first_call(before, from, to, k)] is_first_call(before, from, to, k) && {
            let e = before[k];
            let f = after[k];
            &&& after.len() == before.len()
            &&& forall|j: int| 0 <= j < before.len() && j != k ==> after[j] == before[j]
            &&& f.from == e.from && f.to == e.to && f.kind == e.kind && f.label == e.label && f.evidence == e.evidence
            &&& f.call_style == e.call_style
            &&& f.weight == (if e.weight < usize::MAX { e.weight + 1 } else { e.weight as int })
            &&& f.source == EdgeSource::Mir
            &&& f.certainty == EdgeCertainty::Confirmed
            &&& profiles_view(f.profiles@) == if profiles_view(e.profiles@).contains(profile) {
                profiles_view(e.profiles@)
            } else {
                profiles_view(e.profiles@).push(profile)
            }
        }
    } else {
        &&& r is Inserted
        &&& after.len() == before.len() + 1
        &&& after.drop_last() == before
        &&& {
            let f = after.last();
            &&& f.from@ == from && f.to@ == to && f.kind == EdgeKind::Calls
            &&& (f.label matches Some(l) && l@ == label)
            &&& (f.evidence matches Some(ev) && ev.file@ == "mir"@ && ev.line == 0)
            &&& f.weight == 1 && f.source == EdgeSource::Mir && f.certainty == EdgeCertainty::Confirmed
            &&& f.call_style is None
            &&& profiles_view(f.profiles@) == seq![profile]
        }
    }
}

fn contains_profile(v: &Vec<String>, p: &str) -> (b: bool)
    ensures
        b == profiles_view(v@).contains(p@),
{
    let mut i: usize = 0;
    while i < v.len()
        invariant
            i <= v.len(),
            forall|j: int| 0 <= j < i ==> v@[j]@ != p@,
        decreases v.len() - i,
    {
        if str_eq(v[i].as_str(), p) {
            assert(profiles_view(v@)[i as int] == p@);
            return true;
        }
        i = i + 1;
    }
    proof {
        if profiles_view(v@).contains(p@) {
            let j = choose|j: int| 0 <= j < profiles_view(v@).len() && profiles_view(v@)[j] == p@;
            assert(v@[j]@ == p@);
        }
    }
    false
}

/// Records a MIR call (see [`mir_edge_recorded`]).
pub fn add_edge(edges: &mut Vec<Edge>, from: &str, to: &str, label: &str, profile: &str) -> (r: EdgeResult)
    ensures
        mir_edge_recorded(old(edges)@, final(edges)@, from@, to@, label@, profile@, r),
{
    if str_eq(from, to) {
        return EdgeResult::Skipped;
    }
    let mut k: usize = 0;
    while k < edges.len()
        invariant
            k <= edges.len(),
            edges@ == old(edges)@,
            from@ != to@,
            forall|j: int| 0 <= j < k ==> !(edges@[j].from@ == from@ && edges@[j].to@ == to@ && edges@[j].kind == EdgeKind::Calls),
        decreases edges.len() - k,
    {
        if str_eq(edges[k].from.as_str(), from) && str_eq(edges[k].to.as_str(), to) && edges[k].kind == EdgeKind::Calls {
            let ghost before = edges@;
            let present = contains_profile(&edges[k].profiles, profile);
            let e = &mut edges[k];
            e.weight = e.weight.saturating_add(1);
            e.source = EdgeSource::Mir;
            e.certainty = EdgeCertainty::Confirmed;
            if !present {
                e.profiles.push(owned(profile));
            }
            proof {
                assert(is_first_call(before, from@, to@, k as int));
                assert(has_call(before, from@, to@));
                assert(edges@.len() == before.len());
                assert(forall|j: int| 0 <= j < before.len() && j != k ==> edges@[j] == before[j]);
                assert(profiles_view(edges@[k as int].profiles@) =~= if profiles_view(before[k as int].profiles@).contains(profile@) {
                    profiles_view(before[k as int].profiles@)
                } else {
                    profiles_view(before[k as int].profiles@).push(profile@)
                });
            }
            return EdgeResult::Confirmed;
        }
        k = k + 1;
    }
    proof {
        reveal_strlit("mir");
        if has_call(edges@, from@, to@) {
            let j = choose|j: int| 0 <= j < edges@.len() && (#[trigger] edges@[j]).from@ == from@ && edges@[j].to@ == to@ && edges@[j].kind == EdgeKind::Calls;
            assert(!(edges@[j].from@ == from@ && edges@[j].to@ == to@ && edges@[j].kind == EdgeKind::Calls));
        }
    }
    let mut profiles: Vec<String> = Vec::new();
    profiles.push(owned(profile));
    let ghost before = edges@;
    edges.push(Edge {
        from: owned(from),
        to: owned(to),
        kind: EdgeKind::Calls,
        label: Some(owned(label)),
        evidence: Some(Location { file: owned("mir"), line: 0 }),
        weight: 1,
        source: EdgeSource::Mir,
        certainty: EdgeCertainty::Confirmed,
        call_style: None,
        profiles,
    });
    assert(edges@.drop_last() =~= before);
    assert(profiles_view(edges@.last().profiles@) =~= seq![profile@]);
    EdgeResult::Inserted
}

// ---------------------------------------------------------------------------
// Reading a whole MIR listing
// ---------------------------------------------------------------------------

/// Counters of one MIR listing read.
pub struct MirStats {
    pub scanned_functions: usize,
    pub enriched_edges: usize,
    pub confirmed_edges: usize,
    pub unresolved_items: usize,
}

/// How many of `lines` start a function.
pub open spec fn function_lines(lines: Seq<Seq<char>>) -> nat
    decreases lines.len(),
{
    if lines.len() == 0 {
        0
    } else {
        function_lines(lines.drop_last()) + if function_name_spec(lines.last()) is Some {
            1nat
        } else {
            0nat
        }
    }
}

pub proof fn lemma_function_lines_prefix(lines: Seq<Seq<char>>, i: int)
    requires
        0 <= i <= lines.len(),
    ensures
        function_lines(lines.take(i)) <= function_lines(lines),
    decreases lines.len(),
{
    if i < lines.len() {
        assert(lines.drop_last().take(i) =~= lines.take(i));
        lemma_function_lines_prefix(lines.drop_last(), i);
    } else {
        assert(lines.take(i) =~= lines);
    }
}

/// What a MIR listing leaves of the edges it started from: the old edges keep
/// their ends, kind and label; each added edge is a confirmed MIR call between
/// two nodes of the graph.
pub open spec fn mir_edges_kept(nodes: Seq<Node>, before: Seq<Edge>, after: Seq<Edge>) -> bool {
    &&& before.len() <= after.len()
    &&& forall|j: int|
        0 <= j < before.len() ==> (#[trigger] after[j]).from == before[j].from && after[j].to == before[j].to
            && after[j].kind == before[j].kind && after[j].label == before[j].label && (after[j].source
            == before[j].source || after[j].source == EdgeSource::Mir) && (after[j].certainty == before[j].certainty
            || after[j].certainty == EdgeCertainty::Confirmed)
    &&& forall|j: int|
        before.len() <= j < after.len() ==> (#[trigger] after[j]).kind == EdgeKind::Calls && after[j].source
            == EdgeSource::Mir && after[j].certainty == EdgeCertainty::Confirmed && has_id(nodes, after[j].from@)
            && has_id(nodes, after[j].to@)
}

proof fn lemma_recorded_keeps(
    nodes: Seq<Node>,
    start: Seq<Edge>,
    before: Seq<Edge>,
    after: Seq<Edge>,
    from: Seq<char>,
    to: Seq<char>,
    label: Seq<char>,
    profile: Seq<char>,
    r: EdgeResult,
)
    requires
        mir_edges_kept(nodes, start, before),
        mir_edge_recorded(before, after, from, to, label, profile, r),
        has_id(nodes, from),
        has_id(nodes, to),
    ensures
        mir_edges_kept(nodes, start, after),
        after.len() == before.len() + if r is Inserted { 1int } else { 0int },
{
    if from == to {
    } else if has_call(before, from, to) {
        let k = choose|k: int| #![trigger is_first_call(before, from, to, k)] is_first_call(before, from, to, k) && {
            let e = before[k];
            let f = after[k];
            &&& after.len() == before.len()
            &&& forall|j: int| 0 <= j < before.len() && j != k ==> after[j] == before[j]
            &&& f.from == e.from && f.to == e.to && f.kind == e.kind && f.label == e.label && f.evidence == e.evidence
            &&& f.call_style == e.call_style
            &&& f.weight == (if e.weight < usize::MAX { e.weight + 1 } else { e.weight as int })
            &&& f.source == EdgeSource::Mir
            &&& f.certainty == EdgeCertainty::Confirmed
            &&& profiles_view(f.profiles@) == if profiles_view(e.profiles@).contains(profile) {
                profiles_view(e.profiles@)
            } else {
                profiles_view(e.profiles@).push(profile)
            }
        };
        assert forall|j: int| 0 <= j < start.len() implies (#[trigger] after[j]).from == start[j].from && after[j].to
            == start[j].to && after[j].kind == start[j].kind && after[j].label == start[j].label && (after[j].source
            == start[j].source || after[j].source == EdgeSource::Mir) && (after[j].certainty == start[j].certainty
            || after[j].certainty == EdgeCertainty::Confirmed) by {
            assert(before[j].from == start[j].from);
        }
        assert forall|j: int| start.len() <= j < after.len() implies (#[trigger] after[j]).kind == EdgeKind::Calls
            && after[j].source == EdgeSource::Mir && after[j].certainty == EdgeCertainty::Confirmed && has_id(
            nodes,
            after[j].from@,
        ) && has_id(nodes, after[j].to@) by {
            if j != k {
                assert(after[j] == before[j]);
            }
            assert(before[j].kind == EdgeKind::Calls);
        }
    } else {
        assert forall|j: int| 0 <= j < start.len() implies (#[trigger] after[j]).from == start[j].from && after[j].to
            == start[j].to && after[j].kind == start[j].kind && after[j].label == start[j].label && (after[j].source
            == start[j].source || after[j].source == EdgeSource::Mir) && (after[j].certainty == start[j].certainty
            || after[j].certainty == EdgeCertainty::Confirmed) by {
            assert(after[j] == after.drop_last()[j]);
            assert(before[j].from == start[j].from);
        }
        assert forall|j: int| start.len() <= j < after.len() implies (#[trigger] after[j]).kind == EdgeKind::Calls
            && after[j].source == EdgeSource::Mir && after[j].certainty == EdgeCertainty::Confirmed && has_id(
            nodes,
            after[j].from@,
        ) && has_id(nodes, after[j].to@) by {
            if j < before.len() {
                assert(after[j] == after.drop_last()[j]);
                assert(before[j].kind == EdgeKind::Calls);
            }
        }
    }
}

fn seen_contains(seen: &Vec<(String, String, String)>, a: &str, b: &str, c: &str) -> (r: bool)
    ensures
        r == exists|j: int| 0 <= j < seen.len() && (#[trigger] seen@[j]).0@ == a@ && seen@[j].1@ == b@ && seen@[j].2@ == c@,
{
    let mut i: usize = 0;
    while i < seen.len()
        invariant
            i <= seen.len(),
            forall|j: int| 0 <= j < i ==> !((#[trigger] seen@[j]).0@ == a@ && seen@[j].1@ == b@ && seen@[j].2@ == c@),
        decreases seen.len() - i,
    {
        if str_eq(seen[i].0.as_str(), a) && str_eq(seen[i].1.as_str(), b) && str_eq(seen[i].2.as_str(), c) {
            return true;
        }
        i = i + 1;
    }
    false
}

/// Reads a MIR listing into call edges: each function line sets the caller
/// (the node it resolves to, if any) and uses up one of `remaining`; each call
/// line under a resolved caller, to a call worth an edge that resolves to a
/// node, is recorded once per caller, callee and call text. Reading stops when
/// `remaining` reaches zero.
pub fn ingest_mir(graph: &mut CodeGraph, index: &SymbolIndex, output: &str, remaining: &mut usize, profile: &str) -> (stats: MirStats)
    requires
        index.describes(old(graph).nodes@),
    ensures
        final(graph).nodes@ == old(graph).nodes@,
        final(graph).project == old(graph).project,
        final(graph).warnings == old(graph).warnings,
        final(graph).semantic == old(graph).semantic,
        final(graph).profiles == old(graph).profiles,
        final(graph).mir == old(graph).mir,
        stats.scanned_functions + *final(remaining) == *old(remaining),
        stats.scanned_functions <= function_lines(lines_of(output@)),
        *final(remaining) > 0 ==> stats.scanned_functions == function_lines(lines_of(output@)),
        final(graph).edges@.len() == old(graph).edges@.len() + stats.enriched_edges,
        mir_edges_kept(old(graph).nodes@, old(graph).edges@, final(graph).edges@),
{
    let lines = split_lines(output);
    let ghost ls = lines@.map_values(|l: Vec<char>| l@);
    assert(ls =~= lines_of(output@));
    let mut stats = MirStats { scanned_functions: 0, enriched_edges: 0, confirmed_edges: 0, unresolved_items: 0 };
    let mut current_owner: Option<String> = None;
    let mut seen: Vec<(String, String, String)> = Vec::new();
    let ghost nodes = graph.nodes@;
    let ghost start = graph.edges@;
    let ghost g0 = *graph;
    let mut i: usize = 0;
    assert(ls.take(0) =~= Seq::<Seq<char>>::empty());
    loop
        invariant_except_break
            i <= lines.len(),
            ls == lines@.map_values(|l: Vec<char>| l@),
            graph.nodes@ == nodes,
            graph.project == g0.project && graph.warnings == g0.warnings && graph.semantic == g0.semantic
                && graph.profiles == g0.profiles && graph.mir == g0.mir,
            index.describes(nodes),
            stats.scanned_functions == function_lines(ls.take(i as int)),
            stats.scanned_functions + *remaining == *old(remaining),
            stats.scanned_functions + stats.enriched_edges + stats.confirmed_edges + stats.unresolved_items <= i,
            graph.edges@.len() == start.len() + stats.enriched_edges,
            mir_edges_kept(nodes, start, graph.edges@),
            current_owner matches Some(o) ==> has_id(nodes, o@),
        ensures
            graph.nodes@ == nodes,
            graph.project == g0.project && graph.warnings == g0.warnings && graph.semantic == g0.semantic
                && graph.profiles == g0.profiles && graph.mir == g0.mir,
            stats.scanned_functions <= function_lines(ls),
            stats.scanned_functions + *remaining == *old(remaining),
            *remaining > 0 ==> stats.scanned_functions == function_lines(ls),
            graph.edges@.len() == start.len() + stats.enriched_edges,
            mir_edges_kept(nodes, start, graph.edges@),
        decreases lines.len() - i,
    {
        if i >= lines.len() {
            assert(ls.take(i as int) =~= ls);
            break;
        }
        proof {
            lemma_function_lines_prefix(ls, i as int);
            assert(ls.take(i + 1).drop_last() =~= ls.take(i as int));
            assert(ls.take(i + 1).last() == lines@[i as int]@);
        }
        if *remaining == 0 {
            break;
        }
        let line = &lines[i];
        match mir_function_name(line) {
            Some(name) => {
                current_owner = index.resolve(graph, &name);
                stats.scanned_functions = stats.scanned_functions + 1;
                *remaining = *remaining - 1;
                i = i + 1;
                continue;
            },
            None => {},
        }
        let owner = match &current_owner {
            Some(o) => o,
            None => {
                i = i + 1;
                continue;
            },
        };
        let call = match mir_call_name(line) {
            Some(c) => string_from_chars(&c),
            None => {
                i = i + 1;
                continue;
            },
        };
        if should_skip_call(call.as_str()) {
            i = i + 1;
            continue;
        }
        let call_chars = chars_of(call.as_str());
        let target = match index.resolve(graph, &call_chars) {
            Some(t) => t,
            None => {
                stats.unresolved_items = stats.unresolved_items + 1;
                i = i + 1;
                continue;
            },
        };
        if seen_contains(&seen, owner.as_str(), target.as_str(), call.as_str()) {
            i = i + 1;
            continue;
        }
        seen.push((owned(owner.as_str()), owned(target.as_str()), owned(call.as_str())));
        let ghost before = graph.edges@;
        let r = add_edge(&mut graph.edges, owner.as_str(), target.as_str(), call.as_str(), profile);
        proof {
            lemma_recorded_keeps(nodes, start, before, graph.edges@, owner@, target@, call@, profile@, r);
        }
        match r {
            EdgeResult::Inserted => {
                stats.enriched_edges = stats.enriched_edges + 1;
            },
            EdgeResult::Confirmed => {
                stats.confirmed_edges = stats.confirmed_edges + 1;
            },
            EdgeResult::Skipped => {},
        }
        i = i + 1;
    }
    stats
}

// ---------------------------------------------------------------------------
// Which targets to compile
// ---------------------------------------------------------------------------

/// A target kind that builds a library.
pub open spec fn is_lib_kind(k: Seq<char>) -> bool {
    k == "lib"@ || k == "rlib"@ || k == "proc-macro"@
}

/// The `cargo rustc` arguments that select `target`: `--lib` for a library
/// (also an rlib or a proc macro), `--bin` and its name for a binary, none for
/// any other target.
pub open spec fn target_args_spec(target: Target) -> Option<Seq<Seq<char>>> {
    if exists|i: int| 0 <= i < target.kind.len() && is_lib_kind(#[trigger] target.kind@[i]@) {
        Some(seq!["--lib"@])
    } else if exists|i: int| 0 <= i < target.kind.len() && (#[trigger] target.kind@[i])@ == "bin"@ {
        Some(seq!["--bin"@, target.name@])
    } else {
        None
    }
}

/// The `cargo rustc` arguments that select `target` (see [`target_args_spec`]).
pub fn target_args(target: &Target) -> (r: Option<Vec<String>>)
    ensures
        match r {
            Some(v) => target_args_spec(*target) == Some(v@.map_values(|s: String| s@)),
            None => target_args_spec(*target) is None,
        },
{
    let mut lib = false;
    let mut bin = false;
    let mut i: usize = 0;
    while i < target.kind.len()
        invariant
            i <= target.kind.len(),
            lib == exists|j: int| 0 <= j < i && is_lib_kind(#[trigger] target.kind@[j]@),
            bin == exists|j: int| 0 <= j < i && (#[trigger] target.kind@[j])@ == "bin"@,
        decreases target.kind.len() - i,
    {
        let k = target.kind[i].as_str();
        if str_eq(k, "lib") || str_eq(k, "rlib") || str_eq(k, "proc-macro") {
            lib = true;
        }
        if str_eq(k, "bin") {
            bin = true;
        }
        i = i + 1;
    }
    if lib {
        let mut v: Vec<String> = Vec::new();
        v.push(owned("--lib"));
        assert(v@.map_values(|s: String| s@) =~= seq!["--lib"@]);
        Some(v)
    } else if bin {
        let mut v: Vec<String> = Vec::new();
        v.push(owned("--bin"));
        v.push(owned(target.name.as_str()));
        assert(v@.map_values(|s: String| s@) =~= seq!["--bin"@, target.name@]);
        Some(v)
    } else {
        None
    }
}

// ---------------------------------------------------------------------------
// Enriching a graph from the MIR of its targets
// ---------------------------------------------------------------------------

/// The MIR listing of one compiled target, or why compiling it failed.
pub struct TargetRun {
    pub name: String,
    pub output: Result<String, String>,
}

/// The profile MIR edges are recorded under: the graph's first build
/// profile, else `default`.
pub open spec fn profile_name_spec(graph: CodeGraph) -> Seq<char> {
    if graph.profiles.len() > 0 {
        graph.profiles@[0].name@
    } else {
        "default"@
    }
}

/// What reading the first `n` targets of one package leaves, starting with
/// `used` functions scanned out of `limit`: the functions scanned, the warnings
/// added (`name: reason` for each failed target), whether reading stopped at a
/// listing with no function left to scan, and the targets looked at.
pub open spec fn package_reading(ts: Seq<TargetRun>, n: int, used: nat, limit: nat) -> (nat, Seq<Seq<char>>, bool, nat)
    decreases n,
{
    if n <= 0 {
        (used, Seq::empty(), false, 0)
    } else {
        let (u, w, stop, c) = package_reading(ts, n - 1, used, limit);
        if stop {
            (u, w, true, c)
        } else {
            match ts[n - 1].output {
                Err(e) => (u, w.push(ts[n - 1].name@ + ": "@ + e@), false, c + 1),
                Ok(o) => if u >= limit {
                    (u, w, true, c + 1)
                } else {
                    let f = function_lines(lines_of(o@));
                    (if f < limit - u { u + f } else { limit }, w, false, c + 1)
                },
            }
        }
    }
}

/// What reading the first `p` packages leaves: the functions scanned, the
/// warnings and the targets looked at, package after package.
pub open spec fn enrich_reading(pkgs: Seq<Vec<TargetRun>>, p: int, limit: nat) -> (nat, Seq<Seq<char>>, nat)
    decreases p,
{
    if p <= 0 {
        (0, Seq::empty(), 0)
    } else {
        let (u, w, c) = enrich_reading(pkgs, p - 1, limit);
        let r = package_reading(pkgs[p - 1]@, pkgs[p - 1]@.len() as int, u, limit);
        (r.0, w + r.1, c + r.3)
    }
}

/// `n`, but at most `usize::MAX`.
pub open spec fn capped(n: nat) -> nat {
    if n < usize::MAX {
        n
    } else {
        usize::MAX as nat
    }
}

proof fn lemma_reading_stopped(ts: Seq<TargetRun>, n: int, m: int, used: nat, limit: nat)
    requires
        0 <= n <= m,
        package_reading(ts, n, used, limit).2,
    ensures
        package_reading(ts, m, used, limit) == package_reading(ts, n, used, limit),
    decreases m - n,
{
    if m > n {
        lemma_reading_stopped(ts, n, m - 1, used, limit);
    }
}

/// Adds MIR call edges to `graph` from the listings of the workspace's targets,
/// one list per package, read in order: a failed target adds a warning
/// `name: reason`; each listing may scan the functions that `limit` has left,
/// and a package's later targets are passed over once none is left. The graph
/// then records what was read, under the provider `rustc -Z unpretty=mir`: the
/// functions scanned and the warnings are those of [`enrich_reading`].
pub fn enrich(graph: &mut CodeGraph, packages: &Vec<Vec<TargetRun>>, limit: usize)
    ensures
        final(graph).nodes@ == old(graph).nodes@,
        final(graph).project == old(graph).project,
        final(graph).warnings == old(graph).warnings,
        final(graph).semantic == old(graph).semantic,
        final(graph).profiles == old(graph).profiles,
        mir_edges_kept(old(graph).nodes@, old(graph).edges@, final(graph).edges@),
        final(graph).mir matches Some(info) && info.provider@ == "rustc -Z unpretty=mir"@ && info.enabled
            && info.enriched_edges == final(graph).edges.len() - old(graph).edges.len() && info.scanned_functions
            <= limit,
        final(graph).mir matches Some(info) && info.scanned_functions == enrich_reading(packages@, packages@.len() as int, limit as nat).0
            && crate::seqs::strings_view(info.warnings@) == enrich_reading(packages@, packages@.len() as int, limit as nat).1
            && info.scanned_targets == capped(enrich_reading(packages@, packages@.len() as int, limit as nat).2),
        packages.len() == 0 ==> (final(graph).mir matches Some(info) && info.scanned_targets == 0
            && info.warnings.len() == 0 && final(graph).edges@ == old(graph).edges@),
{
    proof {
        reveal_strlit("default");
        reveal_strlit("rustc -Z unpretty=mir");
    }
    let pname = if graph.profiles.len() > 0 {
        owned(graph.profiles[0].name.as_str())
    } else {
        owned("default")
    };
    let index = SymbolIndex::new(graph);
    let ghost nodes = graph.nodes@;
    let ghost start = graph.edges@;
    let ghost g0 = *graph;
    let mut scanned_targets: usize = 0;
    let mut scanned_functions: usize = 0;
    let mut enriched_edges: usize = 0;
    let mut confirmed_edges: usize = 0;
    let mut unresolved_items: usize = 0;
    let mut warnings: Vec<String> = Vec::new();
    let mut p: usize = 0;
    while p < packages.len()
        invariant
            p <= packages.len(),
            graph.nodes@ == nodes,
            graph.project == g0.project && graph.warnings == g0.warnings && graph.semantic == g0.semantic
                && graph.profiles == g0.profiles,
            index.describes(nodes),
            scanned_functions <= limit,
            graph.edges@.len() == start.len() + enriched_edges,
            mir_edges_kept(nodes, start, graph.edges@),
            p == 0 ==> scanned_targets == 0 && warnings.len() == 0 && graph.edges@ == start,
            scanned_functions == enrich_reading(packages@, p as int, limit as nat).0,
            crate::seqs::strings_view(warnings@) == enrich_reading(packages@, p as int, limit as nat).1,
            scanned_targets == capped(enrich_reading(packages@, p as int, limit as nat).2),
        decreases packages.len() - p,
    {
        let targets = &packages[p];
        let mut t: usize = 0;
        let ghost u0: nat = scanned_functions as nat;
        let ghost w0 = crate::seqs::strings_view(warnings@);
        let ghost c0: nat = enrich_reading(packages@, p as int, limit as nat).2;
        let ghost ts = packages@[p as int]@;
        loop
            invariant_except_break
                t <= targets.len(),
                targets == packages[p as int],
                ts == targets@,
                scanned_functions == package_reading(ts, t as int, u0, limit as nat).0,
                crate::seqs::strings_view(warnings@) == w0 + package_reading(ts, t as int, u0, limit as nat).1,
                !package_reading(ts, t as int, u0, limit as nat).2,
                scanned_targets == capped(c0 + package_reading(ts, t as int, u0, limit as nat).3),
            invariant
                graph.nodes@ == nodes,
                graph.project == g0.project && graph.warnings == g0.warnings && graph.semantic == g0.semantic
                    && graph.profiles == g0.profiles,
                index.describes(nodes),
                scanned_functions <= limit,
                graph.edges@.len() == start.len() + enriched_edges,
                mir_edges_kept(nodes, start, graph.edges@),
            ensures
                scanned_functions == package_reading(ts, ts.len() as int, u0, limit as nat).0,
                crate::seqs::strings_view(warnings@) == w0 + package_reading(ts, ts.len() as int, u0, limit as nat).1,
                scanned_targets == capped(c0 + package_reading(ts, ts.len() as int, u0, limit as nat).3),
            decreases targets.len() - t,
        {
            if t >= targets.len() {
                break;
            }
            let run = &targets[t];
            scanned_targets = scanned_targets.saturating_add(1);
            let output = match &run.output {
                Ok(o) => o,
                Err(e) => {
                    let head = cat(run.name.as_str(), ": ");
                    let ghost wb = warnings@;
                    warnings.push(cat(head.as_str(), e.as_str()));
                    proof {
                        assert(crate::seqs::strings_view(warnings@) =~= crate::seqs::strings_view(wb).push(run.name@ + ": "@ + e@));
                        assert(w0 + package_reading(ts, t + 1, u0, limit as nat).1 =~= (w0 + package_reading(ts, t as int, u0, limit as nat).1).push(run.name@ + ": "@ + e@));
                    }
                    t = t + 1;
                    continue;
                },
            };
            let mut remaining: usize = limit - scanned_functions;
            if remaining == 0 {
                proof {
                    lemma_reading_stopped(ts, t + 1, ts.len() as int, u0, limit as nat);
                }
                break;
            }
            let ghost before = graph.edges@;
            let stats = ingest_mir(graph, &index, output.as_str(), &mut remaining, pname.as_str());
            proof {
                assert forall|j: int| 0 <= j < start.len() implies (#[trigger] graph.edges@[j]).from == start[j].from
                    && graph.edges@[j].to == start[j].to && graph.edges@[j].kind == start[j].kind
                    && graph.edges@[j].label == start[j].label && (graph.edges@[j].source == start[j].source
                    || graph.edges@[j].source == EdgeSource::Mir) && (graph.edges@[j].certainty == start[j].certainty
                    || graph.edges@[j].certainty == EdgeCertainty::Confirmed) by {
                    assert(before[j].from == start[j].from);
                }
                assert forall|j: int| start.len() <= j < graph.edges@.len() implies (#[trigger] graph.edges@[j]).kind
                    == EdgeKind::Calls && graph.edges@[j].source == EdgeSource::Mir && graph.edges@[j].certainty
                    == EdgeCertainty::Confirmed && has_id(nodes, graph.edges@[j].from@) && has_id(
                    nodes,
                    graph.edges@[j].to@,
                ) by {
                    if j < before.len() {
                        assert(before[j].kind == EdgeKind::Calls);
                    }
                }
            }
            assert(graph.edges@.len() == graph.edges.len());
            scanned_functions = scanned_functions + stats.scanned_functions;
            enriched_edges = enriched_edges + stats.enriched_edges;
            confirmed_edges = confirmed_edges.saturating_add(stats.confirmed_edges);
            unresolved_items = unresolved_items.saturating_add(stats.unresolved_items);
            t = t + 1;
        }
        proof {
            assert(crate::seqs::strings_view(warnings@) =~= enrich_reading(packages@, p + 1, limit as nat).1);
        }
        p = p + 1;
    }
    graph.mir = Some(
        MirInfo {
            provider: owned("rustc -Z unpretty=mir"),
            enabled: true,
            scanned_targets,
            scanned_functions,
            enriched_edges,
            confirmed_edges,
            unresolved_items,
            warnings,
        },
    );
}

} // verus!
