use vstd::prelude::*;
use crate::model::{CodeGraph, Edge, Node};
use crate::seqs::strings_view;
use crate::strs::{char_is_ascii_alnum, chars_of, is_ascii_alnum, owned, push_char, str_eq, string_from_chars};
use crate::text::{append_str, join, join_strings};

verus! {

// ---------------------------------------------------------------------------
// Escaping
// ---------------------------------------------------------------------------

/// A character as it appears inside a double-quoted label: backslashes and
/// double quotes get a backslash in front.
pub open spec fn escape_char(c: char) -> Seq<char> {
    if c == '\\' {
        seq!['\\', '\\']
    } else if c == '"' {
        seq!['\\', '"']
    } else {
        seq![c]
    }
}

pub open spec fn escape_spec(s: Seq<char>) -> Seq<char>
    decreases s.len(),
{
    if s.len() == 0 {
        Seq::empty()
    } else {
        escape_spec(s.drop_last()) + escape_char(s.last())
    }
}

/// `s` with backslashes and double quotes escaped (see [`escape_char`]).
pub fn escape(s: &str) -> (r: String)
    ensures
        r@ == escape_spec(s@),
{
    let v = chars_of(s);
    let mut r = owned("");
    proof {
        reveal_strlit("");
    }
    let mut i: usize = 0;
    while i < v.len()
        invariant
            i <= v.len(),
            v@ == s@,
            r@ == escape_spec(v@.take(i as int)),
        decreases v.len() - i,
    {
        assert(v@.take(i + 1).drop_last() =~= v@.take(i as int));
        assert(v@.take(i + 1).last() == v@[i as int]);
        let c = v[i];
        let ghost before = r@;
        if c == '\\' {
            push_char(&mut r, '\\');
            push_char(&mut r, '\\');
        } else if c == '"' {
            push_char(&mut r, '\\');
            push_char(&mut r, '"');
        } else {
            push_char(&mut r, c);
        }
        assert(r@ =~= before + escape_char(c));
        i = i + 1;
    }
    assert(v@.take(v.len() as int) =~= v@);
    r
}

/// A node id usable in Mermaid: ASCII letters and digits kept, anything else `_`.
pub open spec fn mermaid_id_spec(s: Seq<char>) -> Seq<char> {
    Seq::new(s.len(), |i: int| if is_ascii_alnum(s[i]) { s[i] } else { '_' })
}

/// `s` as a Mermaid id (see [`mermaid_id_spec`]).
pub fn id(s: &str) -> (r: String)
    ensures
        r@ == mermaid_id_spec(s@),
{
    let v = chars_of(s);
    let mut out: Vec<char> = Vec::new();
    let mut i: usize = 0;
    while i < v.len()
        invariant
            i <= v.len(),
            v@ == s@,
            out@ == mermaid_id_spec(s@).take(i as int),
        decreases v.len() - i,
    {
        let c = v[i];
        if char_is_ascii_alnum(c) {
            out.push(c);
        } else {
            out.push('_');
        }
        assert(out@ =~= mermaid_id_spec(s@).take(i + 1));
        i = i + 1;
    }
    assert(mermaid_id_spec(s@).take(v.len() as int) =~= mermaid_id_spec(s@));
    string_from_chars(&out)
}

/// The name of the first node with id `id`, or `id` itself, escaped.
pub open spec fn label_spec(nodes: Seq<Node>, id: Seq<char>) -> Seq<char>
    decreases nodes.len(),
{
    escape_spec(first_name(nodes, id))
}

/// The name of the first node with id `id`, or `id` when there is none.
pub open spec fn first_name(nodes: Seq<Node>, id: Seq<char>) -> Seq<char>
    decreases nodes.len(),
{
    if nodes.len() == 0 {
        id
    } else if nodes[0].id@ == id {
        nodes[0].name@
    } else {
        first_name(nodes.drop_first(), id)
    }
}

/// The label of `id` (see [`label_spec`]).
pub fn label(graph: &CodeGraph, id: &str) -> (r: String)
    ensures
        r@ == label_spec(graph.nodes@, id@),
{
    let mut i: usize = 0;
    assert(graph.nodes@.skip(0) =~= graph.nodes@);
    while i < graph.nodes.len()
        invariant
            i <= graph.nodes.len(),
            first_name(graph.nodes@, id@) == first_name(graph.nodes@.skip(i as int), id@),
        decreases graph.nodes.len() - i,
    {
        let ghost tail = graph.nodes@.skip(i as int);
        assert(tail[0] == graph.nodes@[i as int]);
        if str_eq(graph.nodes[i].id.as_str(), id) {
            return escape(graph.nodes[i].name.as_str());
        }
        assert(tail.drop_first() =~= graph.nodes@.skip(i + 1));
        i = i + 1;
    }
    assert(graph.nodes@.skip(graph.nodes.len() as int) =~= Seq::<Node>::empty());
    escape(id)
}

// ---------------------------------------------------------------------------
// Graphviz and Mermaid
// ---------------------------------------------------------------------------

pub open spec fn dot_node_line(n: Node) -> Seq<char> {
    "  \""@ + escape_spec(n.id@) + "\" [label=\""@ + escape_spec(n.name@) + "\\n"@ + n.kind.name_spec() + "\"]"@
}

pub open spec fn dot_edge_line(e: Edge) -> Seq<char> {
    "  \""@ + escape_spec(e.from@) + "\" -> \""@ + escape_spec(e.to@) + "\" [label=\""@ + e.kind.name_spec() + "\"]"@
}

pub open spec fn dot_node_lines(nodes: Seq<Node>) -> Seq<Seq<char>>
    decreases nodes.len(),
{
    if nodes.len() == 0 {
        Seq::empty()
    } else {
        dot_node_lines(nodes.drop_last()).push(dot_node_line(nodes.last()))
    }
}

pub open spec fn dot_edge_lines(edges: Seq<Edge>) -> Seq<Seq<char>>
    decreases edges.len(),
{
    if edges.len() == 0 {
        Seq::empty()
    } else {
        dot_edge_lines(edges.drop_last()).push(dot_edge_line(edges.last()))
    }
}

/// The Graphviz text of a graph: a header, one line per node (id, name and
/// kind), one line per edge (ends and kind), and a closing brace.
pub open spec fn dot_spec(graph: CodeGraph) -> Seq<char> {
    join(
        seq!["digraph codegraph {"@, "  rankdir=LR;"@] + dot_node_lines(graph.nodes@) + dot_edge_lines(graph.edges@) + seq!["}"@],
        "\n"@,
    )
}

/// The graph in Graphviz form (see [`dot_spec`]).
pub fn dot(graph: &CodeGraph) -> (r: String)
    ensures
        r@ == dot_spec(*graph),
{
    let mut lines: Vec<String> = Vec::new();
    lines.push(owned("digraph codegraph {"));
    lines.push(owned("  rankdir=LR;"));
    let ghost head = seq!["digraph codegraph {"@, "  rankdir=LR;"@];
    assert(strings_view(lines@) =~= head);
    let mut i: usize = 0;
    while i < graph.nodes.len()
        invariant
            i <= graph.nodes.len(),
            strings_view(lines@) == head + dot_node_lines(graph.nodes@.take(i as int)),
        decreases graph.nodes.len() - i,
    {
        let n = &graph.nodes[i];
        let mut l = owned("  \"");
        append_str(&mut l, escape(n.id.as_str()).as_str());
        append_str(&mut l, "\" [label=\"");
        append_str(&mut l, escape(n.name.as_str()).as_str());
        append_str(&mut l, "\\n");
        append_str(&mut l, n.kind.as_str());
        append_str(&mut l, "\"]");
        let ghost before = lines@;
        lines.push(l);
        proof {
            assert(graph.nodes@.take(i + 1).drop_last() =~= graph.nodes@.take(i as int));
            assert(strings_view(lines@) =~= strings_view(before).push(dot_node_line(graph.nodes@[i as int])));
        }
        i = i + 1;
    }
    assert(graph.nodes@.take(graph.nodes.len() as int) =~= graph.nodes@);
    let ghost mid = head + dot_node_lines(graph.nodes@);
    let mut k: usize = 0;
    assert(mid + dot_edge_lines(graph.edges@.take(0)) =~= mid);
    while k < graph.edges.len()
        invariant
            k <= graph.edges.len(),
            mid == head + dot_node_lines(graph.nodes@),
            strings_view(lines@) == mid + dot_edge_lines(graph.edges@.take(k as int)),
        decreases graph.edges.len() - k,
    {
        let e = &graph.edges[k];
        let mut l = owned("  \"");
        append_str(&mut l, escape(e.from.as_str()).as_str());
        append_str(&mut l, "\" -> \"");
        append_str(&mut l, escape(e.to.as_str()).as_str());
        append_str(&mut l, "\" [label=\"");
        append_str(&mut l, e.kind.as_str());
        append_str(&mut l, "\"]");
        let ghost before = lines@;
        lines.push(l);
        proof {
            assert(graph.edges@.take(k + 1).drop_last() =~= graph.edges@.take(k as int));
            assert(strings_view(lines@) =~= strings_view(before).push(dot_edge_line(graph.edges@[k as int])));
        }
        k = k + 1;
    }
    assert(graph.edges@.take(graph.edges.len() as int) =~= graph.edges@);
    let ghost before = lines@;
    lines.push(owned("}"));
    assert(strings_view(lines@) =~= strings_view(before).push("}"@));
    assert(strings_view(lines@) =~= seq!["digraph codegraph {"@, "  rankdir=LR;"@] + dot_node_lines(graph.nodes@)
        + dot_edge_lines(graph.edges@) + seq!["}"@]);
    join_strings(&lines, "\n")
}

pub open spec fn mermaid_line(nodes: Seq<Node>, e: Edge) -> Seq<char> {
    "  "@ + mermaid_id_spec(e.from@) + "[\""@ + label_spec(nodes, e.from@) + "\"] -->|"@ + e.kind.name_spec() + "| "@
        + mermaid_id_spec(e.to@) + "[\""@ + label_spec(nodes, e.to@) + "\"]"@
}

pub open spec fn mermaid_lines(nodes: Seq<Node>, edges: Seq<Edge>) -> Seq<Seq<char>>
    decreases edges.len(),
{
    if edges.len() == 0 {
        Seq::empty()
    } else {
        mermaid_lines(nodes, edges.drop_last()).push(mermaid_line(nodes, edges.last()))
    }
}

/// The Mermaid text of a graph: a header and one line per edge, each end
/// shown with its id and label.
pub open spec fn mermaid_spec(graph: CodeGraph) -> Seq<char> {
    join(seq!["graph LR"@] + mermaid_lines(graph.nodes@, graph.edges@), "\n"@)
}

/// The graph in Mermaid form (see [`mermaid_spec`]).
pub fn mermaid(graph: &CodeGraph) -> (r: String)
    ensures
        r@ == mermaid_spec(*graph),
{
    let mut lines: Vec<String> = Vec::new();
    lines.push(owned("graph LR"));
    let ghost head = seq!["graph LR"@];
    assert(strings_view(lines@) =~= head + mermaid_lines(graph.nodes@, graph.edges@.take(0)));
    let mut k: usize = 0;
    while k < graph.edges.len()
        invariant
            k <= graph.edges.len(),
            head == seq!["graph LR"@],
            strings_view(lines@) == head + mermaid_lines(graph.nodes@, graph.edges@.take(k as int)),
        decreases graph.edges.len() - k,
    {
        let e = &graph.edges[k];
        let mut l = owned("  ");
        append_str(&mut l, id(e.from.as_str()).as_str());
        append_str(&mut l, "[\"");
        append_str(&mut l, label(graph, e.from.as_str()).as_str());
        append_str(&mut l, "\"] -->|");
        append_str(&mut l, e.kind.as_str());
        append_str(&mut l, "| ");
        append_str(&mut l, id(e.to.as_str()).as_str());
        append_str(&mut l, "[\"");
        append_str(&mut l, label(graph, e.to.as_str()).as_str());
        append_str(&mut l, "\"]");
        let ghost before = lines@;
        lines.push(l);
        proof {
            assert(graph.edges@.take(k + 1).drop_last() =~= graph.edges@.take(k as int));
            assert(strings_view(lines@) =~= strings_view(before).push(mermaid_line(graph.nodes@, graph.edges@[k as int])));
        }
        k = k + 1;
    }
    assert(graph.edges@.take(graph.edges.len() as int) =~= graph.edges@);
    join_strings(&lines, "\n")
}

} // verus!
