use vstd::prelude::*;
use crate::builder::{find_node, has_node_with_id, is_first_node_with_id, lemma_first_node_unique, node_position};
use crate::model::{Edge, EdgeKind, Node, NodeKind};

verus! {

// ---------------------------------------------------------------------------
// Possible dispatch from trait methods to the methods of their impls
// ---------------------------------------------------------------------------

/// Three strings, as their character sequences.
pub open spec fn triple_view(t: (String, String, String)) -> (Seq<char>, Seq<char>, Seq<char>) {
    (t.0@, t.1@, t.2@)
}

pub open spec fn triples_view(v: Seq<(String, String, String)>) -> Seq<(Seq<char>, Seq<char>, Seq<char>)> {
    v.map_values(|t: (String, String, String)| triple_view(t))
}

pub open spec fn pairs_of(v: Seq<(String, String)>) -> Seq<(Seq<char>, Seq<char>)> {
    v.map_values(|t: (String, String)| (t.0@, t.1@))
}

/// `(owner id, method name, method id)` for each `HasMethod` edge, in edge order,
/// whose two ends are nodes and whose owner is of kind `owner`.
pub open spec fn method_entries(nodes: Seq<Node>, edges: Seq<Edge>, owner: NodeKind) -> Seq<
    (Seq<char>, Seq<char>, Seq<char>),
>
    decreases edges.len(),
{
    if edges.len() == 0 {
        Seq::empty()
    } else {
        let rest = method_entries(nodes, edges.drop_last(), owner);
        let e = edges.last();
        if e.kind == EdgeKind::HasMethod && has_node_with_id(nodes, e.from@) && has_node_with_id(
            nodes,
            e.to@,
        ) && nodes[node_position(nodes, e.from@)].kind == owner {
            rest.push((e.from@, nodes[node_position(nodes, e.to@)].name@, e.to@))
        } else {
            rest
        }
    }
}

/// `(impl id, trait id)` for each `Implements` edge, in edge order.
pub open spec fn implements_pairs(edges: Seq<Edge>) -> Seq<(Seq<char>, Seq<char>)>
    decreases edges.len(),
{
    if edges.len() == 0 {
        Seq::empty()
    } else {
        let rest = implements_pairs(edges.drop_last());
        let e = edges.last();
        if e.kind == EdgeKind::Implements {
            rest.push((e.from@, e.to@))
        } else {
            rest
        }
    }
}

/// For the trait method `tm`, `(trait method id, impl method id, name)` for each
/// method of the impl `impl_id` with the same name, in order.
pub open spec fn impl_hits(
    ims: Seq<(Seq<char>, Seq<char>, Seq<char>)>,
    impl_id: Seq<char>,
    tm: (Seq<char>, Seq<char>, Seq<char>),
) -> Seq<(Seq<char>, Seq<char>, Seq<char>)>
    decreases ims.len(),
{
    if ims.len() == 0 {
        Seq::empty()
    } else {
        let rest = impl_hits(ims.drop_last(), impl_id, tm);
        let im = ims.last();
        if im.0 == impl_id && im.1 == tm.1 {
            rest.push((tm.2, im.2, tm.1))
        } else {
            rest
        }
    }
}

/// The hits of every method of the trait `trait_id` in the impl `impl_id`.
pub open spec fn trait_hits(
    tms: Seq<(Seq<char>, Seq<char>, Seq<char>)>,
    ims: Seq<(Seq<char>, Seq<char>, Seq<char>)>,
    impl_id: Seq<char>,
    trait_id: Seq<char>,
) -> Seq<(Seq<char>, Seq<char>, Seq<char>)>
    decreases tms.len(),
{
    if tms.len() == 0 {
        Seq::empty()
    } else {
        let rest = trait_hits(tms.drop_last(), ims, impl_id, trait_id);
        let tm = tms.last();
        if tm.0 == trait_id {
            rest + impl_hits(ims, impl_id, tm)
        } else {
            rest
        }
    }
}

/// The hits of every `(impl, trait)` pair, in order.
pub open spec fn dispatch_triples(
    imps: Seq<(Seq<char>, Seq<char>)>,
    tms: Seq<(Seq<char>, Seq<char>, Seq<char>)>,
    ims: Seq<(Seq<char>, Seq<char>, Seq<char>)>,
) -> Seq<(Seq<char>, Seq<char>, Seq<char>)>
    decreases imps.len(),
{
    if imps.len() == 0 {
        Seq::empty()
    } else {
        dispatch_triples(imps.drop_last(), tms, ims) + trait_hits(tms, ims, imps.last().0, imps.last().1)
    }
}

/// The possible-dispatch links of a graph: for each impl of a trait, each method
/// of the trait to each method of the impl with the same name.
pub open spec fn dispatch_links(nodes: Seq<Node>, edges: Seq<Edge>) -> Seq<(Seq<char>, Seq<char>, Seq<char>)> {
    dispatch_triples(
        implements_pairs(edges),
        method_entries(nodes, edges, NodeKind::Trait),
        method_entries(nodes, edges, NodeKind::Impl),
    )
}

/// `method_entries` computed.
pub fn method_entries_exec(nodes: &Vec<Node>, edges: &Vec<Edge>, owner: NodeKind) -> (r: Vec<
    (String, String, String),
>)
    ensures
        triples_view(r@) == method_entries(nodes@, edges@, owner),
{
    let mut r: Vec<(String, String, String)> = Vec::new();
    let mut i: usize = 0;
    while i < edges.len()
        invariant
            i <= edges.len(),
            triples_view(r@) == method_entries(nodes@, edges@.take(i as int), owner),
        decreases edges.len() - i,
    {
        let ghost before = r@;
        assert(edges@.take(i + 1).drop_last() =~= edges@.take(i as int));
        let e = &edges[i];
        if e.kind == EdgeKind::HasMethod {
            match find_node(nodes, e.from.as_str()) {
                Some(o) => match find_node(nodes, e.to.as_str()) {
                    Some(m) => {
                        proof {
                            lemma_first_node_unique(nodes@, e.from@, o as int, node_position(nodes@, e.from@));
                            lemma_first_node_unique(nodes@, e.to@, m as int, node_position(nodes@, e.to@));
                        }
                        if nodes[o].kind == owner {
                            r.push((e.from.clone(), nodes[m].name.clone(), e.to.clone()));
                            assert(triples_view(r@) =~= triples_view(before).push(
                                (e.from@, nodes@[m as int].name@, e.to@),
                            ));
                        }
                    },
                    None => {},
                },
                None => {},
            }
        }
        i = i + 1;
    }
    assert(edges@.take(edges.len() as int) =~= edges@);
    r
}

/// `implements_pairs` computed.
pub fn implements_exec(edges: &Vec<Edge>) -> (r: Vec<(String, String)>)
    ensures
        pairs_of(r@) == implements_pairs(edges@),
{
    let mut r: Vec<(String, String)> = Vec::new();
    let mut i: usize = 0;
    while i < edges.len()
        invariant
            i <= edges.len(),
            pairs_of(r@) == implements_pairs(edges@.take(i as int)),
        decreases edges.len() - i,
    {
        let ghost before = r@;
        assert(edges@.take(i + 1).drop_last() =~= edges@.take(i as int));
        if edges[i].kind == EdgeKind::Implements {
            r.push((edges[i].from.clone(), edges[i].to.clone()));
            assert(pairs_of(r@) =~= pairs_of(before).push((edges@[i as int].from@, edges@[i as int].to@)));
        }
        i = i + 1;
    }
    assert(edges@.take(edges.len() as int) =~= edges@);
    r
}

fn push_impl_hits(
    out: &mut Vec<(String, String, String)>,
    ims: &Vec<(String, String, String)>,
    impl_id: &String,
    tm: &(String, String, String),
)
    ensures
        triples_view(final(out)@) == triples_view(old(out)@) + impl_hits(
            triples_view(ims@),
            impl_id@,
            triple_view(*tm),
        ),
{
    let ghost start = triples_view(out@);
    let ghost iv = triples_view(ims@);
    let mut c: usize = 0;
    while c < ims.len()
        invariant
            c <= ims.len(),
            iv == triples_view(ims@),
            triples_view(out@) == start + impl_hits(iv.take(c as int), impl_id@, triple_view(*tm)),
        decreases ims.len() - c,
    {
        let ghost before = out@;
        assert(iv.take(c + 1).drop_last() =~= iv.take(c as int));
        let im = &ims[c];
        if im.0 == *impl_id && im.1 == tm.1 {
            out.push((tm.2.clone(), im.2.clone(), tm.1.clone()));
            assert(triples_view(out@) =~= triples_view(before).push((tm.2@, im.2@, tm.1@)));
        }
        c = c + 1;
    }
    assert(iv.take(ims.len() as int) =~= iv);
}

/// `dispatch_links` computed.
pub fn dispatch_links_exec(nodes: &Vec<Node>, edges: &Vec<Edge>) -> (r: Vec<(String, String, String)>)
    ensures
        triples_view(r@) == dispatch_links(nodes@, edges@),
{
    let tms = method_entries_exec(nodes, edges, NodeKind::Trait);
    let ims = method_entries_exec(nodes, edges, NodeKind::Impl);
    let imps = implements_exec(edges);
    let ghost tv = triples_view(tms@);
    let ghost iv = triples_view(ims@);
    let ghost pv = pairs_of(imps@);
    let mut out: Vec<(String, String, String)> = Vec::new();
    let mut a: usize = 0;
    while a < imps.len()
        invariant
            a <= imps.len(),
            tv == triples_view(tms@),
            iv == triples_view(ims@),
            pv == pairs_of(imps@),
            triples_view(out@) == dispatch_triples(pv.take(a as int), tv, iv),
        decreases imps.len() - a,
    {
        let impl_id = &imps[a].0;
        let trait_id = &imps[a].1;
        let ghost start = triples_view(out@);
        let mut b: usize = 0;
        while b < tms.len()
            invariant
                b <= tms.len(),
                a < imps.len(),
                tv == triples_view(tms@),
                iv == triples_view(ims@),
                impl_id@ == pv[a as int].0,
                trait_id@ == pv[a as int].1,
                triples_view(out@) == start + trait_hits(tv.take(b as int), iv, impl_id@, trait_id@),
            decreases tms.len() - b,
        {
            assert(tv.take(b + 1).drop_last() =~= tv.take(b as int));
            let ghost mid = triples_view(out@);
            if tms[b].0 == *trait_id {
                push_impl_hits(&mut out, &ims, impl_id, &tms[b]);
                assert(triples_view(out@) =~= start + trait_hits(tv.take(b + 1), iv, impl_id@, trait_id@));
            }
            b = b + 1;
        }
        assert(tv.take(tms.len() as int) =~= tv);
        assert(pv.take(a + 1).drop_last() =~= pv.take(a as int));
        a = a + 1;
    }
    assert(pv.take(imps.len() as int) =~= pv);
    out
}

} // verus!
