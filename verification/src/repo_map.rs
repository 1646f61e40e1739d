//! The repository map: a short Markdown overview of a graph (its counts and
//! scores, entry points, feature clusters and hot symbols) kept within a
//! byte budget.
use crate::ai::{cluster_before, cluster_item_ok, cluster_present, cluster_stats, entry_before, entry_candidate, entry_item_ok, ClusterItem, EntryItem};
use crate::health::{cyclic_modules, god_count, looks_dead, score_spec};
use crate::index::{degree, QueryIndex};
use crate::model::{count_node_kind, count_symbols, CodeGraph, Node, NodeKind, Range};
use crate::ranking::{cap, hot_before, hot_candidate};
use crate::similar::opt_text;
use crate::split::{first_index, index_from};
use crate::strs::{chars_of, nat_digits, owned, push_char, string_from_chars, string_from_range, usize_to_string};
use crate::text::{append_str, join, join_strings};
use vstd::prelude::*;

verus! {

// ---------------------------------------------------------------------------
// Bytes of UTF-8 text
// ---------------------------------------------------------------------------

/// The number of bytes of `c` in UTF-8.
pub open spec fn char_width(c: char) -> nat {
    let u = c as u32;
    if u < 0x80 {
        1
    } else if u < 0x800 {
        2
    } else if u < 0x10000 {
        3
    } else {
        4
    }
}

/// The number of bytes of `s` in UTF-8.
pub open spec fn utf8_len(s: Seq<char>) -> nat
    decreases s.len(),
{
    if s.len() == 0 {
        0
    } else {
        utf8_len(s.drop_last()) + char_width(s.last())
    }
}

fn char_width_exec(c: char) -> (w: usize)
    ensures
        w == char_width(c),
{
    let u = c as u32;
    if u < 0x80 {
        1
    } else if u < 0x800 {
        2
    } else if u < 0x10000 {
        3
    } else {
        4
    }
}

/// The bytes of `v`.
fn utf8_len_exec(v: &Vec<char>) -> (n: u128)
    ensures
        n == utf8_len(v@),
{
    let mut n: u128 = 0;
    let mut i: usize = 0;
    while i < v.len()
        invariant
            i <= v.len(),
            n == utf8_len(v@.take(i as int)),
            n <= 4 * i,
        decreases v.len() - i,
    {
        assert(v@.take(i + 1).drop_last() =~= v@.take(i as int));
        let w = char_width_exec(v[i]);
        n = n + w as u128;
        i = i + 1;
    }
    assert(v@.take(v.len() as int) =~= v@);
    n
}

/// How many leading characters of `s` (from `j`, `off` bytes in) start at a
/// byte offset that leaves room for three more bytes within `max`.
pub open spec fn kept_chars(s: Seq<char>, j: int, off: nat, max: nat) -> int
    decreases s.len() - j,
{
    if j >= s.len() || off + 3 > max {
        j
    } else {
        kept_chars(s, j + 1, off + char_width(s[j]), max)
    }
}

/// A text cut to fit about `max` bytes: whole when it fits, else the
/// characters that start with room for `...` left, then `...`.
pub open spec fn trunc_spec(s: Seq<char>, max: nat) -> Seq<char> {
    if utf8_len(s) <= max {
        s
    } else {
        s.take(kept_chars(s, 0, 0, max)) + "..."@
    }
}

fn trunc_exec(v: &Vec<char>, max: usize) -> (r: String)
    requires
        max <= 1000,
    ensures
        r@ == trunc_spec(v@, max as nat),
{
    let n = utf8_len_exec(v);
    if n <= max as u128 {
        string_from_chars(v)
    } else {
        let mut j: usize = 0;
        let mut off: usize = 0;
        let ghost k = kept_chars(v@, 0, 0, max as nat);
        while j < v.len() && off + 3 <= max
            invariant
                j <= v.len(),
                off <= max + 1,
                max <= 1000,
                kept_chars(v@, j as int, off as nat, max as nat) == k,
            decreases v.len() - j,
        {
            let w = char_width_exec(v[j]);
            off = off + w;
            j = j + 1;
        }
        let mut r = string_from_range(v, 0, j);
        append_str(&mut r, "...");
        assert(r@ =~= v@.take(k) + "..."@);
        r
    }
}

// ---------------------------------------------------------------------------
// Lines
// ---------------------------------------------------------------------------

/// `:start-end` for a range over several lines, `:start` for one, nothing
/// without a range.
pub open spec fn range_part(r: Option<Range>) -> Seq<char> {
    match r {
        Some(r) => if r.start_line < r.end_line {
            ":"@ + nat_digits(r.start_line as nat) + "-"@ + nat_digits(r.end_line as nat)
        } else {
            ":"@ + nat_digits(r.start_line as nat)
        },
        None => Seq::empty(),
    }
}

/// The signature on a line of its own, cut after about 120 bytes.
pub open spec fn sig_part(o: Option<String>) -> Seq<char> {
    match o {
        Some(s) => if s@.len() > 0 {
            "\n  sig: `"@ + trunc_spec(s@, 120) + "`"@
        } else {
            Seq::empty()
        },
        None => Seq::empty(),
    }
}

/// The first line of a text (`str::lines`): up to the first newline, without
/// a carriage return before it.
pub open spec fn first_line(d: Seq<char>) -> Seq<char> {
    let i = index_from(d, 0, '\n');
    if i < d.len() {
        let l = d.take(i);
        if l.len() > 0 && l.last() == '\r' {
            l.drop_last()
        } else {
            l
        }
    } else {
        d
    }
}

/// The first line of the docs on a line of its own, cut after about 120 bytes.
pub open spec fn docs_part(o: Option<String>) -> Seq<char> {
    match o {
        Some(d) => if d@.len() > 0 && first_line(d@).len() > 0 {
            "\n  docs: "@ + trunc_spec(first_line(d@), 120)
        } else {
            Seq::empty()
        },
        None => Seq::empty(),
    }
}

pub open spec fn entry_line(n: Node) -> Seq<char> {
    "- "@ + n.kind.name_spec() + " `"@ + n.qualified_name@ + "` in `"@ + opt_text(n.file) + range_part(n.range) + "`"@
        + sig_part(n.signature)
}

pub open spec fn cluster_line(c: ClusterItem) -> Seq<char> {
    "- `"@ + c.name@ + "` files="@ + nat_digits(c.files as nat) + " symbols="@ + nat_digits(c.symbols as nat)
        + " degree="@ + nat_digits(c.degree as nat)
}

pub open spec fn hot_line(n: Node, d: nat) -> Seq<char> {
    "- "@ + n.kind.name_spec() + " `"@ + n.qualified_name@ + "` in `"@ + opt_text(n.file) + range_part(n.range)
        + "` degree="@ + nat_digits(d) + sig_part(n.signature) + docs_part(n.docs)
}

pub open spec fn section(title: Seq<char>, body: Seq<char>) -> Seq<char> {
    "## "@ + title + "\n\n"@ + body + "\n\n"@
}

/// The counts and scores at the top of the map.
pub open spec fn map_header(graph: CodeGraph, quality: nat, health: nat) -> Seq<char> {
    "# Codegraph Map\n\nProject: `"@ + graph.project.root@ + "`\nNodes: "@ + nat_digits(graph.nodes@.len())
        + " Edges: "@ + nat_digits(graph.edges@.len()) + " Files: "@ + nat_digits(
        count_node_kind(graph.nodes@, NodeKind::File),
    ) + " Symbols: "@ + nat_digits(count_symbols(graph.nodes@)) + "\nQuality: "@ + nat_digits(quality) + "\nHealth: "@
        + nat_digits(health) + "\n\n"@
}

/// The whole map before the budget is applied: the header, then (in full) the
/// entry points and feature clusters, then the hot symbols.
pub open spec fn map_text(
    graph: CodeGraph,
    quality: nat,
    health: nat,
    full: bool,
    entries: Seq<EntryItem>,
    clusters: Seq<ClusterItem>,
    hot: Seq<usize>,
) -> Seq<char> {
    let nodes = graph.nodes@;
    map_header(graph, quality, health) + (if full {
        section("Entry Points"@, join(entries.map_values(|e: EntryItem| entry_line(nodes[e.node as int])), "\n"@))
            + section("Feature Clusters"@, join(clusters.map_values(|c: ClusterItem| cluster_line(c)), "\n"@))
    } else {
        Seq::empty()
    }) + section(
        "Hot Symbols"@,
        join(hot.map_values(|p: usize| hot_line(nodes[p as int], degree(graph.edges@, nodes[p as int].id@))), "\n"@),
    )
}

/// The character count of the longest prefix of `s` (from `j`, `off` bytes
/// in) that ends exactly `at` bytes in, if there is one.
pub open spec fn boundary(s: Seq<char>, j: int, off: nat, at: nat) -> Option<int>
    decreases s.len() - j,
{
    if off == at {
        Some(j)
    } else if off > at || j >= s.len() {
        None
    } else {
        boundary(s, j + 1, off + char_width(s[j]), at)
    }
}

/// The map within `budget` bytes: whole when it fits, else cut 16 bytes
/// short of the budget with `\n...[truncated]\n` added; nothing when the cut
/// would fall inside a character.
pub open spec fn budget_cut(s: Seq<char>, budget: nat) -> Option<Seq<char>> {
    if utf8_len(s) <= budget {
        Some(s)
    } else {
        let at: nat = if budget >= 16 { (budget - 16) as nat } else { 0 };
        match boundary(s, 0, 0, at) {
            Some(k) => Some(s.take(k) + "\n...[truncated]\n"@),
            None => None,
        }
    }
}

fn budget_exec(v: &Vec<char>, budget: usize) -> (r: Option<String>)
    ensures
        match r {
            Some(t) => budget_cut(v@, budget as nat) == Some(t@),
            None => budget_cut(v@, budget as nat) is None,
        },
{
    let n = utf8_len_exec(v);
    if n <= budget as u128 {
        return Some(string_from_chars(v));
    }
    let at: usize = if budget >= 16 { budget - 16 } else { 0 };
    let ghost b0 = boundary(v@, 0, 0, at as nat);
    assert(utf8_len(v@) > budget);
    let mut j: usize = 0;
    let mut off: usize = 0;
    while off < at && j < v.len()
        invariant
            j <= v.len(),
            off <= at,
            boundary(v@, j as int, off as nat, at as nat) == b0,
            b0 == boundary(v@, 0, 0, at as nat),
            utf8_len(v@) > budget,
            at == (if budget >= 16 { budget - 16 } else { 0 }),
        decreases v.len() - j,
    {
        let w = char_width_exec(v[j]);
        j = j + 1;
        if w > at - off {
            assert(boundary(v@, j as int, (off + w) as nat, at as nat) is None);
            assert(boundary(v@, (j - 1) as int, off as nat, at as nat) is None);
            return None;
        }
        off = off + w;
    }
    if off == at {
        let mut r = string_from_range(v, 0, j);
        append_str(&mut r, "\n...[truncated]\n");
        assert(r@ =~= v@.take(j as int) + "\n...[truncated]\n"@);
        Some(r)
    } else {
        None
    }
}

// ---------------------------------------------------------------------------
// Building the lines
// ---------------------------------------------------------------------------

fn range_exec(r: &Option<Range>) -> (s: String)
    ensures
        s@ == range_part(*r),
{
    match r {
        Some(r) => {
            let mut s = owned(":");
            let a = usize_to_string(r.start_line);
            append_str(&mut s, a.as_str());
            if r.start_line < r.end_line {
                append_str(&mut s, "-");
                let b = usize_to_string(r.end_line);
                append_str(&mut s, b.as_str());
            }
            s
        },
        None => String::new(),
    }
}

fn sig_exec(o: &Option<String>) -> (s: String)
    ensures
        s@ == sig_part(*o),
{
    match o {
        Some(t) => {
            let v = chars_of(t.as_str());
            if v.len() > 0 {
                let mut s = owned("\n  sig: `");
                let c = trunc_exec(&v, 120);
                append_str(&mut s, c.as_str());
                append_str(&mut s, "`");
                s
            } else {
                String::new()
            }
        },
        None => String::new(),
    }
}

fn first_line_exec(d: &Vec<char>) -> (r: Vec<char>)
    ensures
        r@ == first_line(d@),
{
    let i = first_index(d, '\n');
    if i < d.len() {
        let mut k = i;
        if i > 0 && d[i - 1] == '\r' {
            k = i - 1;
        }
        let s = string_from_range(d, 0, k);
        let r = chars_of(s.as_str());
        assert(r@ =~= first_line(d@));
        r
    } else {
        let s = string_from_chars(d);
        chars_of(s.as_str())
    }
}

fn docs_exec(o: &Option<String>) -> (s: String)
    ensures
        s@ == docs_part(*o),
{
    match o {
        Some(t) => {
            let v = chars_of(t.as_str());
            let f = first_line_exec(&v);
            if v.len() > 0 && f.len() > 0 {
                let mut s = owned("\n  docs: ");
                let c = trunc_exec(&f, 120);
                append_str(&mut s, c.as_str());
                s
            } else {
                String::new()
            }
        },
        None => String::new(),
    }
}

fn node_head(n: &Node) -> (s: String)
    ensures
        s@ == "- "@ + n.kind.name_spec() + " `"@ + n.qualified_name@ + "` in `"@ + opt_text(n.file) + range_part(n.range),
{
    let mut s = owned("- ");
    append_str(&mut s, n.kind.as_str());
    append_str(&mut s, " `");
    append_str(&mut s, n.qualified_name.as_str());
    append_str(&mut s, "` in `");
    match &n.file {
        Some(f) => append_str(&mut s, f.as_str()),
        None => {},
    }
    let r = range_exec(&n.range);
    append_str(&mut s, r.as_str());
    s
}

fn entry_line_exec(n: &Node) -> (s: String)
    ensures
        s@ == entry_line(*n),
{
    let mut s = node_head(n);
    append_str(&mut s, "`");
    let g = sig_exec(&n.signature);
    append_str(&mut s, g.as_str());
    s
}

fn cluster_line_exec(c: &ClusterItem) -> (s: String)
    ensures
        s@ == cluster_line(*c),
{
    let mut s = owned("- `");
    append_str(&mut s, c.name.as_str());
    append_str(&mut s, "` files=");
    let a = usize_to_string(c.files);
    append_str(&mut s, a.as_str());
    append_str(&mut s, " symbols=");
    let b = usize_to_string(c.symbols);
    append_str(&mut s, b.as_str());
    append_str(&mut s, " degree=");
    let d = usize_to_string(c.degree);
    append_str(&mut s, d.as_str());
    s
}

fn hot_line_exec(n: &Node, d: usize) -> (s: String)
    ensures
        s@ == hot_line(*n, d as nat),
{
    let mut s = node_head(n);
    append_str(&mut s, "` degree=");
    let ds = usize_to_string(d);
    append_str(&mut s, ds.as_str());
    let g = sig_exec(&n.signature);
    append_str(&mut s, g.as_str());
    let o = docs_exec(&n.docs);
    append_str(&mut s, o.as_str());
    s
}

fn push_section(out: &mut String, title: &str, body: &str)
    ensures
        final(out)@ == old(out)@ + section(title@, body@),
{
    append_str(out, "## ");
    append_str(out, title);
    append_str(out, "\n\n");
    append_str(out, body);
    append_str(out, "\n\n");
}

// ---------------------------------------------------------------------------
// The map
// ---------------------------------------------------------------------------

proof fn lemma_map_push<A, B>(a: Seq<A>, b: Seq<B>, f: spec_fn(A) -> Seq<char>, g: spec_fn(B) -> Seq<char>, x: A, y: B)
    requires
        a.map_values(f) == b.map_values(g),
        f(x) == g(y),
    ensures
        a.push(x).map_values(f) == b.push(y).map_values(g),
{
    assert(a.push(x).map_values(f) =~= a.map_values(f).push(f(x)));
    assert(b.push(y).map_values(g) =~= b.map_values(g).push(g(y)));
}

fn entry_lines(graph: &CodeGraph, entries: &Vec<EntryItem>) -> (lines: Vec<String>)
    requires
        forall|k: int| 0 <= k < entries.len() ==> entry_item_ok(*graph, #[trigger] entries@[k]),
    ensures
        lines@.map_values(|s: String| s@) == entries@.map_values(|e: EntryItem| entry_line(graph.nodes@[e.node as int])),
{
    let mut lines: Vec<String> = Vec::new();
    let mut i: usize = 0;
    while i < entries.len()
        invariant
            i <= entries.len(),
            forall|k: int| 0 <= k < entries.len() ==> entry_item_ok(*graph, #[trigger] entries@[k]),
            lines@.map_values(|s: String| s@) == entries@.take(i as int).map_values(
                |e: EntryItem| entry_line(graph.nodes@[e.node as int]),
            ),
        decreases entries.len() - i,
    {
        assert(entry_item_ok(*graph, entries@[i as int]));
        let l = entry_line_exec(&graph.nodes[entries[i].node]);
        proof {
            lemma_map_push(lines@, entries@.take(i as int), |s: String| s@, |e: EntryItem| entry_line(graph.nodes@[e.node as int]), l, entries@[i as int]);
            assert(entries@.take(i + 1) =~= entries@.take(i as int).push(entries@[i as int]));
        }
        lines.push(l);
        i = i + 1;
    }
    assert(entries@.take(entries.len() as int) =~= entries@);
    lines
}

fn cluster_lines(clusters: &Vec<ClusterItem>) -> (lines: Vec<String>)
    ensures
        lines@.map_values(|s: String| s@) == clusters@.map_values(|c: ClusterItem| cluster_line(c)),
{
    let mut lines: Vec<String> = Vec::new();
    let mut j: usize = 0;
    while j < clusters.len()
        invariant
            j <= clusters.len(),
            lines@.map_values(|s: String| s@) == clusters@.take(j as int).map_values(|c: ClusterItem| cluster_line(c)),
        decreases clusters.len() - j,
    {
        let l = cluster_line_exec(&clusters[j]);
        proof {
            lemma_map_push(lines@, clusters@.take(j as int), |s: String| s@, |c: ClusterItem| cluster_line(c), l, clusters@[j as int]);
            assert(clusters@.take(j + 1) =~= clusters@.take(j as int).push(clusters@[j as int]));
        }
        lines.push(l);
        j = j + 1;
    }
    assert(clusters@.take(clusters.len() as int) =~= clusters@);
    lines
}

fn hot_lines(graph: &CodeGraph, index: &QueryIndex, hot: &Vec<usize>) -> (lines: Vec<String>)
    requires
        index.describes(graph),
        forall|q: int| 0 <= q < hot@.len() ==> hot@[q] < graph.nodes.len(),
    ensures
        lines@.map_values(|s: String| s@) == hot@.map_values(
            |p: usize| hot_line(graph.nodes@[p as int], degree(graph.edges@, graph.nodes@[p as int].id@)),
        ),
{
    let mut lines: Vec<String> = Vec::new();
    let mut k: usize = 0;
    while k < hot.len()
        invariant
            k <= hot.len(),
            index.describes(graph),
            forall|q: int| 0 <= q < hot@.len() ==> hot@[q] < graph.nodes.len(),
            lines@.map_values(|s: String| s@) == hot@.take(k as int).map_values(
                |p: usize| hot_line(graph.nodes@[p as int], degree(graph.edges@, graph.nodes@[p as int].id@)),
            ),
        decreases hot.len() - k,
    {
        let p = hot[k];
        let d = index.degree_of(graph, p);
        let l = hot_line_exec(&graph.nodes[p], d);
        proof {
            lemma_map_push(
                lines@,
                hot@.take(k as int),
                |s: String| s@,
                |p: usize| hot_line(graph.nodes@[p as int], degree(graph.edges@, graph.nodes@[p as int].id@)),
                l,
                p,
            );
            assert(hot@.take(k + 1) =~= hot@.take(k as int).push(p));
        }
        lines.push(l);
        k = k + 1;
    }
    assert(hot@.take(hot.len() as int) =~= hot@);
    lines
}

/// The entry listing that `entry_candidates` gives with this limit.
pub open spec fn entry_listing(graph: CodeGraph, r: Seq<EntryItem>, limit: nat) -> bool {
    &&& r.len() <= limit
    &&& forall|i: int| 0 <= i < r.len() ==> entry_item_ok(graph, #[trigger] r[i])
    &&& forall|i: int, j: int| 0 <= i < j < r.len() ==> entry_before(graph, r[i].node as int, r[j].node as int)
    &&& forall|q: int|
        0 <= q < graph.nodes.len() && entry_candidate(graph, q) ==> (exists|i: int| 0 <= i < r.len() && r[i].node == q) || (
        r.len() == limit && forall|i: int| 0 <= i < r.len() ==> entry_before(graph, r[i].node as int, q))
}

/// The cluster listing that `clusters` gives with this limit.
pub open spec fn cluster_listing(graph: CodeGraph, r: Seq<ClusterItem>, limit: nat) -> bool {
    &&& r.len() <= limit
    &&& forall|i: int| 0 <= i < r.len() ==> cluster_item_ok(graph, #[trigger] r[i])
    &&& forall|i: int, j: int|
        0 <= i < j < r.len() ==> cluster_before(r[i].degree as nat, r[i].name@, r[j].degree as nat, r[j].name@)
    &&& forall|k: Seq<char>|
        cluster_present(graph, k) ==> (exists|i: int| 0 <= i < r.len() && (#[trigger] r[i]).name@ == k) || (r.len()
            == limit && forall|i: int|
            0 <= i < r.len() ==> cluster_before(
                r[i].degree as nat,
                r[i].name@,
                cap(cluster_stats(graph, k, graph.nodes.len() as int).3),
                k,
            ))
}

/// The hot-symbol listing that `health` gives with this limit.
pub open spec fn hot_listing(graph: CodeGraph, r: Seq<usize>, limit: nat) -> bool {
    &&& r.len() <= limit
    &&& forall|i: int| 0 <= i < r.len() ==> r[i] < graph.nodes.len() && hot_candidate(graph, 20, r[i] as int)
    &&& forall|i: int, j: int| 0 <= i < j < r.len() ==> hot_before(graph, r[i] as int, r[j] as int)
    &&& forall|t: int|
        0 <= t < graph.nodes.len() && hot_candidate(graph, 20, t) ==> r.contains(t as usize) || (r.len() == limit
            && forall|i: int| 0 <= i < r.len() ==> hot_before(graph, r[i] as int, t))
}

/// The health score of a graph.
pub open spec fn health_score(graph: CodeGraph) -> nat {
    score_spec(
        cyclic_modules(graph.nodes@, graph.edges@).len(),
        god_count(graph.nodes@),
        crate::seqs::select(graph.nodes@, graph.nodes@.len() as int, looks_dead(graph.edges@)).len(),
        graph.warnings@.len(),
    ) as nat
}

/// The map of a graph within `budget` bytes (see [`map_text`] and
/// [`budget_cut`]), with ten entry points, ten clusters and ten hot symbols;
/// `None` when the cut would fall inside a character.
pub fn map(graph: &CodeGraph, budget: usize, full: bool) -> (r: Option<String>)
    requires
        crate::index::weights_fit(graph.edges@),
        graph.edges@.len() * 100 <= usize::MAX,
    ensures
        exists|e: Seq<EntryItem>, c: Seq<ClusterItem>, h: Seq<usize>|
            #![trigger entry_listing(*graph, e, 10), cluster_listing(*graph, c, 10), hot_listing(*graph, h, 10)]
            entry_listing(*graph, e, 10) && cluster_listing(*graph, c, 10) && hot_listing(*graph, h, 10) && match r {
                Some(t) => budget_cut(
                    map_text(*graph, crate::ai::confidence_spec(graph.edges@), health_score(*graph), full, e, c, h),
                    budget as nat,
                ) == Some(t@),
                None => budget_cut(
                    map_text(*graph, crate::ai::confidence_spec(graph.edges@), health_score(*graph), full, e, c, h),
                    budget as nat,
                ) is None,
            },
{
    let ghost nodes = graph.nodes@;
    let stats = graph.stats();
    let quality = crate::ai::quality(graph);
    let health = crate::health::health(graph, 10);
    let index = QueryIndex::new(graph);
    let entries = crate::ai::entry_candidates(graph, &index, 10);
    let clusters = crate::ai::clusters(graph, 10);
    let hot = &health.hot_symbols;
    let mut out = owned("# Codegraph Map\n\nProject: `");
    append_str(&mut out, graph.project.root.as_str());
    append_str(&mut out, "`\nNodes: ");
    let t1 = usize_to_string(stats.nodes);
    append_str(&mut out, t1.as_str());
    append_str(&mut out, " Edges: ");
    let t2 = usize_to_string(stats.edges);
    append_str(&mut out, t2.as_str());
    append_str(&mut out, " Files: ");
    let t3 = usize_to_string(stats.files);
    append_str(&mut out, t3.as_str());
    append_str(&mut out, " Symbols: ");
    let t4 = usize_to_string(stats.symbols);
    append_str(&mut out, t4.as_str());
    append_str(&mut out, "\nQuality: ");
    let t5 = usize_to_string(quality.score);
    append_str(&mut out, t5.as_str());
    append_str(&mut out, "\nHealth: ");
    let t6 = usize_to_string(health.score);
    append_str(&mut out, t6.as_str());
    append_str(&mut out, "\n\n");
    let ghost header = out@;
    assert(header =~= map_header(*graph, crate::ai::confidence_spec(graph.edges@), health_score(*graph)));
    if full {
        let lines = entry_lines(graph, &entries);
        let body = join_strings(&lines, "\n");
        push_section(&mut out, "Entry Points", body.as_str());
        let clines = cluster_lines(&clusters);
        let cbody = join_strings(&clines, "\n");
        push_section(&mut out, "Feature Clusters", cbody.as_str());
    }
    let hlines = hot_lines(graph, &index, hot);
    let hbody = join_strings(&hlines, "\n");
    push_section(&mut out, "Hot Symbols", hbody.as_str());
    let ghost text = map_text(*graph, crate::ai::confidence_spec(graph.edges@), health_score(*graph), full, entries@, clusters@, hot@);
    assert(out@ =~= text);
    let v = chars_of(out.as_str());
    let r = budget_exec(&v, budget);
    assert(entry_listing(*graph, entries@, 10));
    assert(cluster_listing(*graph, clusters@, 10));
    assert(hot_listing(*graph, hot@, 10));
    r
}

proof fn lemma_utf8_len_concat(a: Seq<char>, b: Seq<char>)
    ensures
        utf8_len(a + b) == utf8_len(a) + utf8_len(b),
    decreases b.len(),
{
    if b.len() > 0 {
        lemma_utf8_len_concat(a, b.drop_last());
        assert((a + b).drop_last() =~= a + b.drop_last());
    } else {
        assert(a + b =~= a);
    }
}

proof fn lemma_boundary(s: Seq<char>, j: int, off: nat, at: nat)
    requires
        0 <= j <= s.len(),
        off == utf8_len(s.take(j)),
    ensures
        boundary(s, j, off, at) matches Some(k) ==> 0 <= k <= s.len() && utf8_len(s.take(k)) == at,
    decreases s.len() - j,
{
    if off != at && !(off > at || j >= s.len()) {
        assert(s.take(j + 1).drop_last() =~= s.take(j));
        lemma_boundary(s, j + 1, off + char_width(s[j]), at);
    }
}

/// Whenever the budget leaves room for the truncation mark (16 bytes or
/// more), the map never takes more bytes than the budget.
pub proof fn law_map_within_budget(s: Seq<char>, budget: nat)
    requires
        budget >= 16,
    ensures
        budget_cut(s, budget) matches Some(t) ==> utf8_len(t) <= budget,
{
    if utf8_len(s) > budget {
        assert(s.take(0) =~= Seq::<char>::empty());
        lemma_boundary(s, 0, 0, (budget - 16) as nat);
        if let Some(k) = boundary(s, 0, 0, (budget - 16) as nat) {
            reveal_strlit("\n...[truncated]\n");
            lemma_utf8_len_concat(s.take(k), "\n...[truncated]\n"@);
            reveal_with_fuel(utf8_len, 17);
            assert(utf8_len("\n...[truncated]\n"@) == 16);
        }
    }
}

} // verus!
