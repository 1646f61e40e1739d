use vstd::prelude::*;
use crate::builder::{opt_view, ResolutionStrategy};
use crate::model::{Node, NodeKind};
use crate::seqs::{lemma_select_members, select};
use crate::strs::{chars_of, contains_seq, ends_with_seq, str_contains, owned, str_ends_with, str_eq, string_from_range};

verus! {

// ---------------------------------------------------------------------------
// Resolving a name to a node
// ---------------------------------------------------------------------------

/// Whether a node of kind `k` may be the target of a name resolved with `res`.
pub open spec fn admits(res: ResolutionStrategy, k: NodeKind) -> bool {
    match res {
        ResolutionStrategy::Any => true,
        ResolutionStrategy::Callable => k == NodeKind::Function || k == NodeKind::Method || k
            == NodeKind::Macro || k == NodeKind::Constructor,
        ResolutionStrategy::MethodOnly => k == NodeKind::Method,
        ResolutionStrategy::MacroOnly => k == NodeKind::Macro,
    }
}

/// Whether a node of kind `k` may be the target of a name resolved with `res`.
pub fn matches_resolution(k: NodeKind, res: ResolutionStrategy) -> (b: bool)
    ensures
        b == admits(res, k),
{
    match res {
        ResolutionStrategy::Any => true,
        ResolutionStrategy::Callable => k == NodeKind::Function || k == NodeKind::Method || k
            == NodeKind::Macro || k == NodeKind::Constructor,
        ResolutionStrategy::MethodOnly => k == NodeKind::Method,
        ResolutionStrategy::MacroOnly => k == NodeKind::Macro,
    }
}

/// Where the last `::`-separated piece of `t` starts, scanning from `i` with the
/// current piece starting at `start` (as `str::split("::")` cuts, left to right).
pub open spec fn piece_start(t: Seq<char>, start: int, i: int) -> int
    decreases t.len() - i,
{
    if i < 0 || i + 2 > t.len() {
        start
    } else if t[i] == ':' && t[i + 1] == ':' {
        piece_start(t, i + 2, i + 2)
    } else {
        piece_start(t, start, i + 1)
    }
}

/// The last piece of `t` split at `::` (`t.split("::").last()`).
pub open spec fn last_segment(t: Seq<char>) -> Seq<char> {
    t.skip(piece_start(t, 0, 0))
}

proof fn lemma_piece_start_bounds(t: Seq<char>, start: int, i: int)
    requires
        0 <= start <= i <= t.len(),
    ensures
        0 <= piece_start(t, start, i) <= t.len(),
    decreases t.len() - i,
{
    if i + 2 <= t.len() {
        if t[i] == ':' && t[i + 1] == ':' {
            lemma_piece_start_bounds(t, i + 2, i + 2);
        } else {
            lemma_piece_start_bounds(t, start, i + 1);
        }
    }
}

/// The last `::`-separated piece of `t`.
pub fn last_segment_exec(t: &str) -> (r: String)
    ensures
        r@ == last_segment(t@),
{
    let v = chars_of(t);
    let mut start: usize = 0;
    let mut i: usize = 0;
    while v.len() - i >= 2
        invariant
            v@ == t@,
            start <= i <= v.len(),
            piece_start(t@, start as int, i as int) == piece_start(t@, 0, 0),
        decreases v.len() - i,
    {
        if v[i] == ':' && v[i + 1] == ':' {
            i = i + 2;
            start = i;
        } else {
            i = i + 1;
        }
    }
    let s = string_from_range(&v, start, v.len());
    assert(s@ =~= last_segment(t@));
    s
}

/// The node is named `short` and admitted by `res`.
pub open spec fn named(short: Seq<char>, res: ResolutionStrategy) -> spec_fn(Node) -> bool {
    |n: Node| n.name@ == short && admits(res, n.kind)
}

/// The node is named `short`, admitted by `res`, and lives in the file `file`.
pub open spec fn named_in(short: Seq<char>, res: ResolutionStrategy, file: Seq<char>) -> spec_fn(
    Node,
) -> bool {
    |n: Node| n.name@ == short && admits(res, n.kind) && opt_view(n.file) == Some(file)
}

/// The node's qualified name ends with `::target` and `res` admits it.
pub open spec fn qualified_tail(target: Seq<char>, res: ResolutionStrategy) -> spec_fn(Node) -> bool {
    |n: Node| ends_with_seq(n.qualified_name@, "::"@ + target) && admits(res, n.kind)
}

/// `i` is the last node whose qualified name is `q`.
pub open spec fn is_last_qualified(nodes: Seq<Node>, q: Seq<char>, i: int) -> bool {
    &&& 0 <= i < nodes.len()
    &&& nodes[i].qualified_name@ == q
    &&& forall|j: int| i < j < nodes.len() ==> (#[trigger] nodes[j]).qualified_name@ != q
}

/// `i` is the first node that satisfies `p`.
pub open spec fn is_first_where(nodes: Seq<Node>, p: spec_fn(Node) -> bool, i: int) -> bool {
    &&& 0 <= i < nodes.len()
    &&& p(nodes[i])
    &&& forall|j: int| 0 <= j < i ==> !p(#[trigger] nodes[j])
}

/// The id a name resolves to among `nodes`: the node last registered under the
/// qualified name `target` if `res` admits it; else, for a path, the first node
/// whose qualified name ends with `::target`; else the only node named like the
/// last piece of `target` (for a callable, the only such node in `source_file`,
/// if there is exactly one there).
pub open spec fn resolve_spec(
    nodes: Seq<Node>,
    target: Seq<char>,
    source_file: Option<Seq<char>>,
    res: ResolutionStrategy,
) -> Option<Seq<char>> {
    let short = last_segment(target);
    let candidates = select(nodes, nodes.len() as int, named(short, res));
    if exists|i: int| is_last_qualified(nodes, target, i) && admits(res, nodes[i].kind) {
        let i = choose|i: int| is_last_qualified(nodes, target, i) && admits(res, nodes[i].kind);
        Some(nodes[i].id@)
    } else if contains_double_colon(target) && exists|i: int|
        is_first_where(nodes, qualified_tail(target, res), i) {
        let i = choose|i: int| is_first_where(nodes, qualified_tail(target, res), i);
        Some(nodes[i].id@)
    } else {
        let same_file = match source_file {
            Some(f) => select(nodes, nodes.len() as int, named_in(short, res, f)),
            None => Seq::empty(),
        };
        if res == ResolutionStrategy::Callable && source_file is Some && same_file.len() == 1 {
            Some(nodes[same_file[0] as int].id@)
        } else if candidates.len() == 1 {
            Some(nodes[candidates[0] as int].id@)
        } else {
            None
        }
    }
}

/// `t` contains `::`.
pub open spec fn contains_double_colon(t: Seq<char>) -> bool {
    contains_seq(t, "::"@)
}

/// The last node whose qualified name is `q`, if any.
fn last_qualified(nodes: &Vec<Node>, q: &str) -> (r: Option<usize>)
    ensures
        match r {
            Some(i) => is_last_qualified(nodes@, q@, i as int),
            None => forall|i: int| 0 <= i < nodes.len() ==> (#[trigger] nodes@[i]).qualified_name@ != q@,
        },
{
    let mut found: Option<usize> = None;
    let mut i: usize = 0;
    while i < nodes.len()
        invariant
            i <= nodes.len(),
            match found {
                Some(k) => k < i && nodes@[k as int].qualified_name@ == q@ && forall|j: int|
                    k < j < i ==> (#[trigger] nodes@[j]).qualified_name@ != q@,
                None => forall|j: int| 0 <= j < i ==> (#[trigger] nodes@[j]).qualified_name@ != q@,
            },
        decreases nodes.len() - i,
    {
        if str_eq(nodes[i].qualified_name.as_str(), q) {
            found = Some(i);
        }
        i = i + 1;
    }
    found
}

/// The positions of the nodes named `short` that `res` admits (and, with `file`,
/// that live in that file), in order.
fn named_positions(nodes: &Vec<Node>, short: &str, res: ResolutionStrategy, file: Option<&str>) -> (r:
    Vec<usize>)
    ensures
        r@ == match file {
            Some(f) => select(nodes@, nodes.len() as int, named_in(short@, res, f@)),
            None => select(nodes@, nodes.len() as int, named(short@, res)),
        },
{
    let ghost p = match file {
        Some(f) => named_in(short@, res, f@),
        None => named(short@, res),
    };
    let mut r: Vec<usize> = Vec::new();
    let mut i: usize = 0;
    while i < nodes.len()
        invariant
            i <= nodes.len(),
            p == match file {
                Some(f) => named_in(short@, res, f@),
                None => named(short@, res),
            },
            r@ == select(nodes@, i as int, p),
        decreases nodes.len() - i,
    {
        let n = &nodes[i];
        let mut ok = str_eq(n.name.as_str(), short) && matches_resolution(n.kind, res);
        match file {
            Some(f) => {
                let in_file = match &n.file {
                    Some(nf) => str_eq(nf.as_str(), f),
                    None => false,
                };
                ok = ok && in_file;
            },
            None => {},
        }
        assert(ok == p(nodes@[i as int]));
        if ok {
            r.push(i);
        }
        i = i + 1;
    }
    r
}

/// Resolves `target` among `nodes` (see [`resolve_spec`]).
pub fn resolve_in(
    nodes: &Vec<Node>,
    target: &str,
    source_file: &Option<String>,
    res: ResolutionStrategy,
) -> (r: Option<String>)
    ensures
        match r {
            Some(id) => resolve_spec(nodes@, target@, opt_view(*source_file), res) == Some(id@),
            None => resolve_spec(nodes@, target@, opt_view(*source_file), res) is None,
        },
{
    let ghost sf = opt_view(*source_file);
    let ghost tq = qualified_tail(target@, res);
    match last_qualified(nodes, target) {
        Some(i) => {
            if matches_resolution(nodes[i].kind, res) {
                proof {
                    let k = choose|k: int| is_last_qualified(nodes@, target@, k) && admits(res, nodes@[k].kind);
                    if k < i {
                        assert(nodes@[i as int].qualified_name@ != target@);
                    } else if i < k {
                        assert(nodes@[k].qualified_name@ != target@);
                    }
                }
                return Some(nodes[i].id.clone());
            }
            proof {
                assert forall|k: int| !(is_last_qualified(nodes@, target@, k) && admits(res, nodes@[k].kind)) by {
                    if is_last_qualified(nodes@, target@, k) {
                        if k < i {
                            assert(nodes@[i as int].qualified_name@ != target@);
                        } else if i < k {
                            assert(nodes@[k].qualified_name@ != target@);
                        }
                    }
                }
            }
        },
        None => {},
    }
    assert(!(exists|k: int| is_last_qualified(nodes@, target@, k) && admits(res, nodes@[k].kind)));
    if str_contains(target, "::") {
        let mut pat = owned("::");
        pat.append(target);
        proof {
            reveal_strlit("::");
        }
        let mut i: usize = 0;
        while i < nodes.len()
            invariant
                i <= nodes.len(),
                pat@ == "::"@ + target@,
                tq == qualified_tail(target@, res),
                contains_double_colon(target@),
                !(exists|k: int| is_last_qualified(nodes@, target@, k) && admits(res, nodes@[k].kind)),
                forall|j: int| 0 <= j < i ==> !tq(#[trigger] nodes@[j]),
            decreases nodes.len() - i,
        {
            if str_ends_with(nodes[i].qualified_name.as_str(), pat.as_str()) && matches_resolution(
                nodes[i].kind,
                res,
            ) {
                proof {
                    assert(is_first_where(nodes@, tq, i as int));
                    assert(contains_double_colon(target@));
                    let k = choose|k: int| is_first_where(nodes@, tq, k);
                    if k < i {
                        assert(!tq(nodes@[k]));
                    } else if i < k {
                        assert(!tq(nodes@[i as int]));
                    }
                }
                return Some(nodes[i].id.clone());
            }
            i = i + 1;
        }
    }
    let short = last_segment_exec(target);
    let candidates = named_positions(nodes, short.as_str(), res, None);
    proof {
        lemma_select_members(nodes@, nodes.len() as int, named(short@, res));
        assert(!(contains_double_colon(target@) && exists|i: int| is_first_where(nodes@, tq, i))) by {
            if contains_double_colon(target@) && exists|i: int| is_first_where(nodes@, tq, i) {
                let i = choose|i: int| is_first_where(nodes@, tq, i);
                assert(tq(nodes@[i]));
            }
        }
    }
    if res == ResolutionStrategy::Callable {
        match source_file {
            Some(f) => {
                let same = named_positions(nodes, short.as_str(), res, Some(f.as_str()));
                if same.len() == 1 {
                    proof {
                        lemma_select_members(nodes@, nodes.len() as int, named_in(short@, res, f@));
                    }
                    return Some(nodes[same[0]].id.clone());
                }
            },
            None => {},
        }
    }
    if candidates.len() == 1 {
        return Some(nodes[candidates[0]].id.clone());
    }
    None
}

} // verus!
