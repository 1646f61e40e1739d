use vstd::prelude::*;
use crate::builder::{id_base, is_first_free, node_fields, 
    is_chain, lemma_chain_step, lemma_frame, opt_view, records_all, request_recorded, Builder,
    EdgeRequest, PendingEdge, ResolutionStrategy,
};
use crate::helpers::location;
use crate::lines::{find_line, find_line_after};
use crate::model::{EdgeCertainty, EdgeKind, EdgeSource, Location, Node, NodeKind};
use crate::strs::{cat, owned};
use crate::text::append_str;

verus! {

// ---------------------------------------------------------------------------
// Items of a source file, as plain values
// ---------------------------------------------------------------------------

/// How a call is written.
pub enum CallStyle {
    Direct,
    Method,
    Macro,
}

/// A call found in a function body: the name called and how.
pub struct CallSite {
    pub target: String,
    pub style: CallStyle,
}

/// What a function's signature and body refer to: the type names of its typed
/// parameters, of its return type, and its calls, each in source order.
pub struct FnBody {
    pub params: Vec<String>,
    pub returns: Vec<String>,
    pub calls: Vec<CallSite>,
}

/// A struct field: its name (none for tuple fields), type text, visibility,
/// docs and the type names it uses.
pub struct FieldInfo {
    pub name: Option<String>,
    pub signature: String,
    pub visibility: Option<String>,
    pub docs: Vec<String>,
    pub types: Vec<String>,
}

/// An enum variant and the type names its fields use.
pub struct VariantInfo {
    pub name: String,
    pub signature: String,
    pub docs: Vec<String>,
    pub types: Vec<String>,
}

/// A function declared in a trait and the type names of its typed parameters.
pub struct TraitFnInfo {
    pub name: String,
    pub signature: String,
    pub docs: Vec<String>,
    pub params: Vec<String>,
}

/// A function of an impl block.
pub struct MethodInfo {
    pub name: String,
    pub signature: String,
    pub visibility: Option<String>,
    pub docs: Vec<String>,
    pub body: FnBody,
}

/// A top-level item of a source file. The items of an inline module follow
/// the module itself (see [`ItemEntry`]).
pub enum ItemInfo {
    Function { name: String, signature: String, visibility: Option<String>, docs: Vec<String>, body: FnBody },
    Struct { name: String, signature: String, visibility: Option<String>, docs: Vec<String>, fields: Vec<FieldInfo> },
    Enum { name: String, visibility: Option<String>, docs: Vec<String>, variants: Vec<VariantInfo> },
    Trait { name: String, visibility: Option<String>, docs: Vec<String>, methods: Vec<TraitFnInfo> },
    Impl { self_ty: String, trait_name: Option<String>, signature: String, functions: Vec<MethodInfo> },
    Use { paths: Vec<String> },
    Mod { name: String, visibility: Option<String>, docs: Vec<String> },
    TypeAlias { name: String, signature: String, visibility: Option<String>, docs: Vec<String>, types: Vec<String> },
    Const { name: String, signature: String, visibility: Option<String>, docs: Vec<String> },
    Static { name: String, signature: String, visibility: Option<String>, docs: Vec<String> },
    Macro { name: String, signature: String },
    Other,
}

// ---------------------------------------------------------------------------
// What indexing an item adds
// ---------------------------------------------------------------------------

/// A symbol an item declares: its kind, name and qualified name, where the
/// edge that declares it starts (-1 for the owner, -2 for the file, else the
/// position of an earlier symbol of the same item), its signature, visibility
/// and docs, and the name after whose line its own is looked for (none: from
/// the top of the file).
pub struct Decl {
    pub kind: NodeKind,
    pub name: Seq<char>,
    pub qname: Seq<char>,
    pub parent: int,
    pub edge: EdgeKind,
    pub sig: Option<Seq<char>>,
    pub vis: Option<Seq<char>>,
    pub docs: Seq<String>,
    pub anchor: Option<Seq<char>>,
}

/// A reference an item records for later resolution: the symbol it starts
/// from (as in [`Decl::parent`]), the name it targets, its kind, how it
/// resolves and its call style.
pub struct Ref {
    pub from: int,
    pub target: Seq<char>,
    pub kind: EdgeKind,
    pub resolution: ResolutionStrategy,
    pub style: Option<Seq<char>>,
}

pub open spec fn path2(a: Seq<char>, b: Seq<char>) -> Seq<char> {
    a + "::"@ + b
}

/// A reference of `kind` from `from` to each name of `names`.
pub open spec fn uses(names: Seq<String>, from: int, kind: EdgeKind) -> Seq<Ref>
    decreases names.len(),
{
    if names.len() == 0 {
        Seq::empty()
    } else {
        uses(names.drop_last(), from, kind).push(
            Ref { from, target: names.last()@, kind, resolution: ResolutionStrategy::Any, style: None },
        )
    }
}

pub open spec fn call_ref(c: CallSite, from: int) -> Ref {
    Ref {
        from,
        target: c.target@,
        kind: EdgeKind::Calls,
        resolution: match c.style {
            CallStyle::Direct => ResolutionStrategy::Callable,
            CallStyle::Method => ResolutionStrategy::MethodOnly,
            CallStyle::Macro => ResolutionStrategy::MacroOnly,
        },
        style: Some(
            match c.style {
                CallStyle::Direct => "direct"@,
                CallStyle::Method => "method"@,
                CallStyle::Macro => "macro"@,
            },
        ),
    }
}

pub open spec fn call_refs(cs: Seq<CallSite>, from: int) -> Seq<Ref>
    decreases cs.len(),
{
    if cs.len() == 0 {
        Seq::empty()
    } else {
        call_refs(cs.drop_last(), from).push(call_ref(cs.last(), from))
    }
}

/// The references of a function: parameter types, return types, then calls.
pub open spec fn body_refs(b: FnBody, from: int) -> Seq<Ref> {
    uses(b.params@, from, EdgeKind::UsesType) + uses(b.returns@, from, EdgeKind::Returns) + call_refs(
        b.calls@,
        from,
    )
}

/// Symbols and references of the fields of struct `q`: each named field is a
/// symbol declared by the struct (position 0) and uses its types; a tuple
/// field's types are used by the struct itself.
pub open spec fn field_members(fs: Seq<FieldInfo>, q: Seq<char>) -> (Seq<Decl>, Seq<Ref>)
    decreases fs.len(),
{
    if fs.len() == 0 {
        (Seq::empty(), Seq::empty())
    } else {
        let (d, r) = field_members(fs.drop_last(), q);
        let f = fs.last();
        match f.name {
            Some(n) => (
                d.push(Decl { kind: NodeKind::Field, name: n@, qname: path2(q, n@), parent: 0, edge: EdgeKind::Declares, sig: Some(f.signature@), vis: opt_view(f.visibility), docs: f.docs@, anchor: None }),
                r + uses(f.types@, (d.len() + 1) as int, EdgeKind::UsesType),
            ),
            None => (d, r + uses(f.types@, 0, EdgeKind::UsesType)),
        }
    }
}

/// Symbols and references of the variants of enum `q`.
pub open spec fn variant_members(vs: Seq<VariantInfo>, q: Seq<char>, anchor: Seq<char>) -> (Seq<Decl>, Seq<Ref>)
    decreases vs.len(),
{
    if vs.len() == 0 {
        (Seq::empty(), Seq::empty())
    } else {
        let (d, r) = variant_members(vs.drop_last(), q, anchor);
        let v = vs.last();
        (
            d.push(Decl { kind: NodeKind::EnumMember, name: v.name@, qname: path2(q, v.name@), parent: 0, edge: EdgeKind::Declares, sig: Some(v.signature@), vis: None, docs: v.docs@, anchor: Some(anchor) }),
            r + uses(v.types@, (d.len() + 1) as int, EdgeKind::UsesType),
        )
    }
}

/// Symbols and references of the functions of trait `q`.
pub open spec fn trait_members(ms: Seq<TraitFnInfo>, q: Seq<char>) -> (Seq<Decl>, Seq<Ref>)
    decreases ms.len(),
{
    if ms.len() == 0 {
        (Seq::empty(), Seq::empty())
    } else {
        let (d, r) = trait_members(ms.drop_last(), q);
        let m = ms.last();
        (
            d.push(Decl { kind: NodeKind::Method, name: m.name@, qname: path2(q, m.name@), parent: 0, edge: EdgeKind::HasMethod, sig: Some(m.signature@), vis: None, docs: m.docs@, anchor: None }),
            r + uses(m.params@, (d.len() + 1) as int, EdgeKind::UsesType),
        )
    }
}

/// Symbols and references of the methods of an impl block for `q`.
pub open spec fn impl_members(ms: Seq<MethodInfo>, q: Seq<char>) -> (Seq<Decl>, Seq<Ref>)
    decreases ms.len(),
{
    if ms.len() == 0 {
        (Seq::empty(), Seq::empty())
    } else {
        let (d, r) = impl_members(ms.drop_last(), q);
        let m = ms.last();
        (
            d.push(Decl { kind: NodeKind::Method, name: m.name@, qname: path2(q, m.name@), parent: 0, edge: EdgeKind::HasMethod, sig: Some(m.signature@), vis: opt_view(m.visibility), docs: m.docs@, anchor: None }),
            r + body_refs(m.body, (d.len() + 1) as int),
        )
    }
}

/// The name of an impl block: `impl T for S` or `impl S`.
pub open spec fn impl_name(self_ty: Seq<char>, trait_name: Option<String>) -> Seq<char> {
    match trait_name {
        Some(t) => "impl "@ + t@ + " for "@ + self_ty,
        None => "impl "@ + self_ty,
    }
}

pub open spec fn single(
    kind: NodeKind,
    name: Seq<char>,
    module: Seq<char>,
    sig: Option<Seq<char>>,
    vis: Option<Seq<char>>,
    docs: Seq<String>,
) -> Seq<Decl> {
    seq![Decl { kind, name, qname: path2(module, name), parent: -1, edge: EdgeKind::Declares, sig, vis, docs, anchor: None }]
}

/// The symbols an item of module `module` declares, in order.
pub open spec fn item_decls(item: ItemInfo, module: Seq<char>) -> Seq<Decl> {
    match item {
        ItemInfo::Function { name, signature, visibility, docs, .. } => single(
            NodeKind::Function,
            name@,
            module,
            Some(signature@),
            opt_view(visibility),
            docs@,
        ),
        ItemInfo::Struct { name, signature, visibility, docs, fields } => single(
            NodeKind::Struct,
            name@,
            module,
            Some(signature@),
            opt_view(visibility),
            docs@,
        ) + field_members(fields@, path2(module, name@)).0,
        ItemInfo::Enum { name, visibility, docs, variants } => single(
            NodeKind::Enum,
            name@,
            module,
            Some("enum "@ + name@),
            opt_view(visibility),
            docs@,
        ) + variant_members(variants@, path2(module, name@), name@).0,
        ItemInfo::Trait { name, visibility, docs, methods } => single(
            NodeKind::Trait,
            name@,
            module,
            Some("trait "@ + name@),
            opt_view(visibility),
            docs@,
        ) + trait_members(methods@, path2(module, name@)).0,
        ItemInfo::Impl { self_ty, trait_name, signature, functions } => seq![
            Decl {
                kind: NodeKind::Impl,
                name: impl_name(self_ty@, trait_name),
                qname: path2(module, impl_name(self_ty@, trait_name)),
                parent: -2,
                edge: EdgeKind::Declares,
                sig: Some(signature@),
                vis: None,
                docs: Seq::empty(),
                anchor: None,
            },
        ] + impl_members(functions@, path2(module, self_ty@)).0,
        ItemInfo::Use { .. } => Seq::empty(),
        ItemInfo::Mod { name, visibility, docs } => single(
            NodeKind::Module,
            name@,
            module,
            Some("mod "@ + name@),
            opt_view(visibility),
            docs@,
        ),
        ItemInfo::TypeAlias { name, signature, visibility, docs, .. } => single(
            NodeKind::TypeAlias,
            name@,
            module,
            Some(signature@),
            opt_view(visibility),
            docs@,
        ),
        ItemInfo::Const { name, signature, visibility, docs } => single(
            NodeKind::Const,
            name@,
            module,
            Some(signature@),
            opt_view(visibility),
            docs@,
        ),
        ItemInfo::Static { name, signature, visibility, docs } => single(
            NodeKind::Static,
            name@,
            module,
            Some(signature@),
            opt_view(visibility),
            docs@,
        ),
        ItemInfo::Macro { name, signature } => single(NodeKind::Macro, name@, module, Some(signature@), None, Seq::empty()),
        ItemInfo::Other => Seq::empty(),
    }
}

pub open spec fn plain_ref(from: int, target: Seq<char>, kind: EdgeKind) -> Ref {
    Ref { from, target, kind, resolution: ResolutionStrategy::Any, style: None }
}

/// An impl block uses its self type and implements its trait, if any.
pub open spec fn impl_head_refs(self_ty: Seq<char>, trait_name: Option<String>) -> Seq<Ref> {
    seq![plain_ref(0, self_ty, EdgeKind::UsesType)] + match trait_name {
        Some(t) => seq![plain_ref(0, t@, EdgeKind::Implements)],
        None => Seq::empty(),
    }
}

/// The references an item of module `module` records, in order.
pub open spec fn item_refs(item: ItemInfo, module: Seq<char>) -> Seq<Ref> {
    match item {
        ItemInfo::Function { body, .. } => body_refs(body, 0),
        ItemInfo::Struct { name, fields, .. } => field_members(fields@, path2(module, name@)).1,
        ItemInfo::Enum { name, variants, .. } => variant_members(variants@, path2(module, name@), name@).1,
        ItemInfo::Trait { name, methods, .. } => trait_members(methods@, path2(module, name@)).1,
        ItemInfo::Impl { self_ty, trait_name, functions, .. } => impl_head_refs(self_ty@, trait_name)
            + impl_members(functions@, path2(module, self_ty@)).1,
        ItemInfo::Use { paths } => uses(paths@, -1, EdgeKind::Imports),
        ItemInfo::TypeAlias { types, .. } => uses(types@, 0, EdgeKind::UsesType),
        _ => Seq::empty(),
    }
}

/// Upper bound on the symbols an item declares.
pub open spec fn item_size(item: ItemInfo) -> nat {
    match item {
        ItemInfo::Struct { fields, .. } => 1 + fields@.len(),
        ItemInfo::Enum { variants, .. } => 1 + variants@.len(),
        ItemInfo::Trait { methods, .. } => 1 + methods@.len(),
        ItemInfo::Impl { functions, .. } => 1 + functions@.len(),
        _ => 1,
    }
}

// ---------------------------------------------------------------------------
// How the builder changes
// ---------------------------------------------------------------------------

/// The id an edge or reference starts from: the owner (-1), the file (-2) or
/// the node added for the `k`-th symbol.
pub open spec fn end_id(after: Builder, n0: int, owner: Seq<char>, file: Seq<char>, k: int) -> Seq<char> {
    if k == -1 {
        owner
    } else if k == -2 {
        file
    } else {
        after.nodes@[n0 + k].id@
    }
}

/// The line a declared symbol starts at in `source`.
pub open spec fn decl_line(d: Decl, source: Seq<char>) -> usize {
    match d.anchor {
        Some(a) => crate::lines::find_line_after_spec(source, d.name, crate::lines::find_line_spec(source, a)) as usize,
        None => crate::lines::find_line_spec(source, d.name) as usize,
    }
}

/// Node `n` is the one made for the declared symbol `d` of the file
/// `relative` with text `source`.
pub open spec fn node_is(n: Node, d: Decl, relative: Seq<char>, source: Seq<char>) -> bool {
    node_fields(
        n,
        n.id@,
        d.kind,
        d.name,
        d.qname,
        Some(relative),
        Some(crate::model::Range { start_line: decl_line(d, source), end_line: decl_line(d, source) }),
        d.vis,
        d.sig,
        d.docs,
        Seq::empty(),
    )
}

/// The ids of the nodes at positions `a` to `b` (excluded).
pub open spec fn ids_between(nodes: Seq<Node>, a: int, b: int) -> Set<Seq<char>> {
    Set::new(|x: Seq<char>| exists|j: int| a <= j < b && #[trigger] nodes[j].id@ == x)
}

pub open spec fn ref_is(p: PendingEdge, r: Ref, from: Seq<char>, relative: Seq<char>) -> bool {
    &&& p.from@ == from
    &&& p.target@ == r.target
    &&& p.kind == r.kind
    &&& opt_view(p.label) == Some(r.target)
    &&& opt_view(p.source_file) == Some(relative)
    &&& p.resolution == r.resolution
    &&& opt_view(p.call_style) == r.style
}

pub open spec fn decl_request_is(r: EdgeRequest, from: Seq<char>, to: Seq<char>, kind: EdgeKind) -> bool {
    &&& r.from == from
    &&& r.to == to
    &&& r.kind == kind
    &&& r.label is None
    &&& r.source == EdgeSource::Ast
    &&& r.certainty == EdgeCertainty::Definite
    &&& r.call_style is None
}

/// Parents and reference origins point at the owner, the file or an earlier symbol.
pub open spec fn links_ok(d: Seq<Decl>, rf: Seq<Ref>) -> bool {
    &&& forall|i: int|
        #![trigger d[i]]
        0 <= i < d.len() ==> d[i].parent == -1 || d[i].parent == -2 || 0 <= d[i].parent < i
    &&& forall|j: int|
        #![trigger rf[j]]
        0 <= j < rf.len() ==> rf[j].from == -1 || rf[j].from == -2 || 0 <= rf[j].from < d.len()
}

/// From `before` to `after` the builder gained one node per symbol of `d`
/// (in order, each under the first free id for its kind and qualified name,
/// see [`id_base`] and [`is_first_free`]), one pending reference per entry of `rf` (in order), and an edge
/// from each symbol's parent declaring it; nothing else changed.
pub open spec fn declared(
    before: Builder,
    after: Builder,
    owner: Seq<char>,
    file: Seq<char>,
    relative: Seq<char>,
    source: Seq<char>,
    d: Seq<Decl>,
    rf: Seq<Ref>,
) -> bool {
    let n0 = before.nodes@.len() as int;
    let p0 = before.pending@.len() as int;
    &&& after.wf()
    &&& after.claimed() == before.claimed() + d.len()
    &&& after.nodes@.len() == n0 + d.len()
    &&& after.nodes@.take(n0) == before.nodes@
    &&& forall|i: int| #![trigger d[i]] 0 <= i < d.len() ==> node_is(after.nodes@[n0 + i], d[i], relative, source)
    &&& after.claimed_ids() == before.claimed_ids().union(ids_between(after.nodes@, n0, n0 + d.len()))
    &&& forall|i: int|
        #![trigger d[i]]
        0 <= i < d.len() ==> is_first_free(
            id_base(d[i].kind, d[i].qname),
            before.claimed_ids().union(ids_between(after.nodes@, n0, n0 + i)),
            after.nodes@[n0 + i].id@,
        )
    &&& after.pending@.len() == p0 + rf.len()
    &&& after.pending@.take(p0) == before.pending@
    &&& forall|j: int|
        #![trigger rf[j]]
        0 <= j < rf.len() ==> ref_is(after.pending@[p0 + j], rf[j], end_id(after, n0, owner, file, rf[j].from), relative)
    &&& exists|reqs: Seq<EdgeRequest>|
        #![trigger records_all(before.edges@, reqs, after.edges@, before.profile@)]
        records_all(before.edges@, reqs, after.edges@, before.profile@) && reqs.len() == d.len() && forall|i: int|
            #![trigger reqs[i]]
            0 <= i < d.len() ==> decl_request_is(
                reqs[i],
                end_id(after, n0, owner, file, d[i].parent),
                after.nodes@[n0 + i].id@,
                d[i].edge,
            )
    &&& after.root == before.root
    &&& after.profile == before.profile
    &&& after.warnings == before.warnings
}

proof fn lemma_declared_start(b: Builder, owner: Seq<char>, file: Seq<char>, relative: Seq<char>, source: Seq<char>)
    requires
        b.wf(),
    ensures
        declared(b, b, owner, file, relative, source, Seq::empty(), Seq::empty()),
{
    assert(b.claimed_ids().union(ids_between(b.nodes@, b.nodes@.len() as int, b.nodes@.len() as int)) =~= b.claimed_ids());
    let states = seq![b.edges@];
    let reqs = Seq::<EdgeRequest>::empty();
    assert(is_chain(states, b.edges@, reqs, b.edges@, b.profile@));
    assert(records_all(b.edges@, reqs, b.edges@, b.profile@));
    assert(b.nodes@.take(b.nodes@.len() as int) =~= b.nodes@);
    assert(b.pending@.take(b.pending@.len() as int) =~= b.pending@);
}

/// One more symbol: a node appended and its declaring edge recorded.
proof fn lemma_declared_node(
    before: Builder,
    mid: Builder,
    after: Builder,
    owner: Seq<char>,
    file: Seq<char>,
    relative: Seq<char>,
    source: Seq<char>,
    d: Seq<Decl>,
    rf: Seq<Ref>,
    x: Decl,
    req: EdgeRequest,
)
    requires
        declared(before, mid, owner, file, relative, source, d, rf),
        links_ok(d, rf),
        x.parent == -1 || x.parent == -2 || 0 <= x.parent < d.len(),
        after.wf(),
        after.claimed() == mid.claimed() + 1,
        after.nodes@.len() == mid.nodes@.len() + 1,
        after.nodes@.drop_last() == mid.nodes@,
        node_is(after.nodes@.last(), x, relative, source),
        is_first_free(id_base(x.kind, x.qname), mid.claimed_ids(), after.nodes@.last().id@),
        after.claimed_ids() == mid.claimed_ids().insert(after.nodes@.last().id@),
        after.pending == mid.pending,
        request_recorded(mid.edges@, req, after.edges@, mid.profile@),
        decl_request_is(req, end_id(mid, before.nodes@.len() as int, owner, file, x.parent), after.nodes@.last().id@, x.edge),
        after.root == mid.root,
        after.profile == mid.profile,
        after.warnings == mid.warnings,
    ensures
        declared(before, after, owner, file, relative, source, d.push(x), rf),
        links_ok(d.push(x), rf),
{
    let n0 = before.nodes@.len() as int;
    let d2 = d.push(x);
    assert forall|k: int| 0 <= k < mid.nodes@.len() implies after.nodes@[k] == mid.nodes@[k] by {
        assert(after.nodes@.drop_last()[k] == after.nodes@[k]);
    }
    assert(after.nodes@.take(n0) =~= before.nodes@) by {
        assert(mid.nodes@.take(n0) == before.nodes@);
    }
    assert forall|i: int| #![trigger d2[i]] 0 <= i < d2.len() implies node_is(after.nodes@[n0 + i], d2[i], relative, source) by {
        if i < d.len() {
            assert(d2[i] == d[i]);
        }
    }
    assert forall|i: int| 0 <= i <= d.len() implies #[trigger] ids_between(after.nodes@, n0, n0 + i) == ids_between(
        mid.nodes@,
        n0,
        n0 + i,
    ) by {
        assert forall|y: Seq<char>| #![trigger ids_between(after.nodes@, n0, n0 + i).contains(y)] #![trigger ids_between(mid.nodes@, n0, n0 + i).contains(y)] ids_between(after.nodes@, n0, n0 + i).contains(y) <==> ids_between(mid.nodes@, n0, n0 + i).contains(y) by {
            if ids_between(after.nodes@, n0, n0 + i).contains(y) {
                let j = choose|j: int| n0 <= j < n0 + i && #[trigger] after.nodes@[j].id@ == y;
                assert(mid.nodes@[j].id@ == y);
            }
            if ids_between(mid.nodes@, n0, n0 + i).contains(y) {
                let j = choose|j: int| n0 <= j < n0 + i && #[trigger] mid.nodes@[j].id@ == y;
                assert(after.nodes@[j].id@ == y);
            }
        }
        assert(ids_between(after.nodes@, n0, n0 + i) =~= ids_between(mid.nodes@, n0, n0 + i));
    }
    let last = after.nodes@.last().id@;
    assert(after.nodes@[n0 + d.len()] == after.nodes@.last());
    assert(ids_between(after.nodes@, n0, n0 + d2.len()) =~= ids_between(after.nodes@, n0, n0 + d.len()).insert(last)) by {
        assert forall|y: Seq<char>| #![trigger ids_between(after.nodes@, n0, n0 + d2.len()).contains(y)] ids_between(after.nodes@, n0, n0 + d2.len()).contains(y) implies ids_between(after.nodes@, n0, n0 + d.len()).insert(last).contains(y) by {
            let j = choose|j: int| n0 <= j < n0 + d2.len() && #[trigger] after.nodes@[j].id@ == y;
            if j < n0 + d.len() {
                assert(ids_between(after.nodes@, n0, n0 + d.len()).contains(y));
            }
        }
        assert forall|y: Seq<char>| #![trigger ids_between(after.nodes@, n0, n0 + d.len()).insert(last).contains(y)] ids_between(after.nodes@, n0, n0 + d.len()).insert(last).contains(y) implies ids_between(after.nodes@, n0, n0 + d2.len()).contains(y) by {
            if y == last {
                assert(after.nodes@[n0 + d.len()].id@ == y);
            } else {
                let j = choose|j: int| n0 <= j < n0 + d.len() && #[trigger] after.nodes@[j].id@ == y;
                assert(after.nodes@[j].id@ == y);
            }
        }
    }
    assert(ids_between(after.nodes@, n0, n0 + d.len()) == ids_between(mid.nodes@, n0, n0 + d.len()));
    assert(after.claimed_ids() =~= before.claimed_ids().union(ids_between(after.nodes@, n0, n0 + d2.len())));
    assert forall|i: int| #![trigger d2[i]] 0 <= i < d2.len() implies is_first_free(
        id_base(d2[i].kind, d2[i].qname),
        before.claimed_ids().union(ids_between(after.nodes@, n0, n0 + i)),
        after.nodes@[n0 + i].id@,
    ) by {
        if i < d.len() {
            assert(d2[i] == d[i]);
            assert(ids_between(after.nodes@, n0, n0 + i) == ids_between(mid.nodes@, n0, n0 + i));
        } else {
            assert(d2[i] == x);
            assert(mid.claimed_ids() == before.claimed_ids().union(ids_between(mid.nodes@, n0, n0 + d.len())));
        }
    }
    assert forall|k: int| k == -1 || k == -2 || 0 <= k < d.len() implies end_id(after, n0, owner, file, k) == end_id(
        mid,
        n0,
        owner,
        file,
        k,
    ) by {
        if 0 <= k {
            assert(after.nodes@[n0 + k] == mid.nodes@[n0 + k]);
        }
    }
    let reqs = choose|reqs: Seq<EdgeRequest>|
        #![trigger records_all(before.edges@, reqs, mid.edges@, before.profile@)]
        records_all(before.edges@, reqs, mid.edges@, before.profile@) && reqs.len() == d.len() && forall|i: int|
            #![trigger reqs[i]]
            0 <= i < d.len() ==> decl_request_is(
                reqs[i],
                end_id(mid, n0, owner, file, d[i].parent),
                mid.nodes@[n0 + i].id@,
                d[i].edge,
            );
    let states = choose|states: Seq<Seq<crate::model::Edge>>| is_chain(states, before.edges@, reqs, mid.edges@, before.profile@);
    lemma_chain_step(states, before.edges@, reqs, mid.edges@, req, after.edges@, before.profile@);
    let reqs2 = reqs.push(req);
    assert(records_all(before.edges@, reqs2, after.edges@, before.profile@));
    assert forall|i: int| #![trigger reqs2[i]] 0 <= i < d2.len() implies decl_request_is(
        reqs2[i],
        end_id(after, n0, owner, file, d2[i].parent),
        after.nodes@[n0 + i].id@,
        d2[i].edge,
    ) by {
        if i < d.len() {
            assert(reqs2[i] == reqs[i]);
            assert(d2[i] == d[i]);
            assert(after.nodes@[n0 + i] == mid.nodes@[n0 + i]);
        } else {
            assert(after.nodes@[n0 + i] == after.nodes@.last());
        }
    }
    assert forall|j: int| #![trigger rf[j]] 0 <= j < rf.len() implies ref_is(
        after.pending@[before.pending@.len() + j],
        rf[j],
        end_id(after, n0, owner, file, rf[j].from),
        relative,
    ) by {
    }
}

/// More references: pending entries appended, nothing else changed.
proof fn lemma_declared_refs(
    before: Builder,
    mid: Builder,
    after: Builder,
    owner: Seq<char>,
    file: Seq<char>,
    relative: Seq<char>,
    source: Seq<char>,
    d: Seq<Decl>,
    rf: Seq<Ref>,
    more: Seq<Ref>,
)
    requires
        declared(before, mid, owner, file, relative, source, d, rf),
        links_ok(d, rf),
        forall|j: int| #![trigger more[j]] 0 <= j < more.len() ==> more[j].from == -1 || more[j].from == -2 || 0 <= more[j].from < d.len(),
        after.nodes == mid.nodes,
        after.ids == mid.ids,
        after.edges == mid.edges,
        after.pending@.len() == mid.pending@.len() + more.len(),
        after.pending@.take(mid.pending@.len() as int) == mid.pending@,
        forall|j: int|
            #![trigger more[j]]
            0 <= j < more.len() ==> ref_is(
                after.pending@[mid.pending@.len() + j],
                more[j],
                end_id(mid, before.nodes@.len() as int, owner, file, more[j].from),
                relative,
            ),
        after.root == mid.root,
        after.profile == mid.profile,
        after.warnings == mid.warnings,
    ensures
        declared(before, after, owner, file, relative, source, d, rf + more),
        links_ok(d, rf + more),
{
    lemma_frame(after, mid);
    let n0 = before.nodes@.len() as int;
    let p0 = before.pending@.len() as int;
    let m0 = mid.pending@.len() as int;
    let rf2 = rf + more;
    assert forall|k: int| 0 <= k < m0 implies after.pending@[k] == mid.pending@[k] by {
        assert(after.pending@.take(m0)[k] == after.pending@[k]);
    }
    assert(after.pending@.take(p0) =~= before.pending@) by {
        assert(mid.pending@.take(p0) == before.pending@);
    }
    assert forall|j: int| #![trigger rf2[j]] 0 <= j < rf2.len() implies ref_is(
        after.pending@[p0 + j],
        rf2[j],
        end_id(after, n0, owner, file, rf2[j].from),
        relative,
    ) by {
        if j < rf.len() {
            assert(rf2[j] == rf[j]);
        } else {
            assert(rf2[j] == more[j - rf.len()]);
        }
    }
    let reqs = choose|reqs: Seq<EdgeRequest>|
        #![trigger records_all(before.edges@, reqs, mid.edges@, before.profile@)]
        records_all(before.edges@, reqs, mid.edges@, before.profile@) && reqs.len() == d.len() && forall|i: int|
            #![trigger reqs[i]]
            0 <= i < d.len() ==> decl_request_is(
                reqs[i],
                end_id(mid, n0, owner, file, d[i].parent),
                mid.nodes@[n0 + i].id@,
                d[i].edge,
            );
    assert(records_all(before.edges@, reqs, after.edges@, before.profile@));
    assert forall|j: int| #![trigger rf2[j]] 0 <= j < rf2.len() implies rf2[j].from == -1 || rf2[j].from == -2 || 0
        <= rf2[j].from < d.len() by {
        if j < rf.len() {
            assert(rf2[j] == rf[j]);
        } else {
            assert(rf2[j] == more[j - rf.len()]);
        }
    }
}


proof fn lemma_uses_index(names: Seq<String>, from: int, kind: EdgeKind)
    ensures
        uses(names, from, kind).len() == names.len(),
        forall|j: int| #![trigger uses(names, from, kind)[j]] 0 <= j < names.len() ==> uses(names, from, kind)[j] == plain_ref(from, names[j]@, kind),
    decreases names.len(),
{
    if names.len() > 0 {
        lemma_uses_index(names.drop_last(), from, kind);
        let prev = uses(names.drop_last(), from, kind);
        assert forall|j: int| 0 <= j < names.len() implies uses(names, from, kind)[j] == plain_ref(from, names[j]@, kind) by {
            if j < names.len() - 1 {
                assert(uses(names, from, kind)[j] == prev[j]);
                assert(names.drop_last()[j] == names[j]);
            }
        }
    }
}

proof fn lemma_call_refs_index(cs: Seq<CallSite>, from: int)
    ensures
        call_refs(cs, from).len() == cs.len(),
        forall|j: int| #![trigger call_refs(cs, from)[j]] 0 <= j < cs.len() ==> call_refs(cs, from)[j] == call_ref(cs[j], from),
    decreases cs.len(),
{
    if cs.len() > 0 {
        lemma_call_refs_index(cs.drop_last(), from);
        let prev = call_refs(cs.drop_last(), from);
        assert forall|j: int| 0 <= j < cs.len() implies call_refs(cs, from)[j] == call_ref(cs[j], from) by {
            if j < cs.len() - 1 {
                assert(call_refs(cs, from)[j] == prev[j]);
                assert(cs.drop_last()[j] == cs[j]);
            }
        }
    }
}

// ---------------------------------------------------------------------------
// Steps
// ---------------------------------------------------------------------------

/// Adds a symbol and records the edge from `parent_id` that declares it. With
/// `at`, the symbol sits on that line; otherwise on the first line naming it.
fn declare_step(
    b: &mut Builder,
    Ghost(before): Ghost<Builder>,
    Ghost(owner): Ghost<Seq<char>>,
    Ghost(file): Ghost<Seq<char>>,
    relative: &str,
    source: &str,
    Ghost(d): Ghost<Seq<Decl>>,
    Ghost(rf): Ghost<Seq<Ref>>,
    parent_id: &str,
    Ghost(parent): Ghost<int>,
    edge: EdgeKind,
    kind: NodeKind,
    name: String,
    qname: String,
    signature: Option<String>,
    visibility: Option<String>,
    docs: Vec<String>,
    at: Option<usize>,
    Ghost(anchor): Ghost<Option<Seq<char>>>,
) -> (id: String)
    requires
        declared(before, *old(b), owner, file, relative@, source@, d, rf),
        match at {
            Some(line) => anchor matches Some(a) && line == crate::lines::find_line_after_spec(source@, name@, crate::lines::find_line_spec(source@, a)),
            None => anchor is None,
        },
        links_ok(d, rf),
        parent == -1 || parent == -2 || 0 <= parent < d.len(),
        parent_id@ == end_id(*old(b), before.nodes@.len() as int, owner, file, parent),
        old(b).claimed() < usize::MAX - 2,
    ensures
        declared(
            before,
            *final(b),
            owner,
            file,
            relative@,
            source@,
            d.push(Decl { kind, name: name@, qname: qname@, parent, edge, sig: opt_view(signature), vis: opt_view(visibility), docs: docs@, anchor }),
            rf,
        ),
        links_ok(d.push(Decl { kind, name: name@, qname: qname@, parent, edge, sig: opt_view(signature), vis: opt_view(visibility), docs: docs@, anchor }), rf),
        final(b).nodes@.drop_last() == old(b).nodes@,
        id@ == final(b).nodes@.last().id@,
{
    let ghost mid = *b;
    let ghost x = Decl { kind, name: name@, qname: qname@, parent, edge, sig: opt_view(signature), vis: opt_view(visibility), docs: docs@, anchor };
    let ev = match at {
        Some(line) => Location { file: owned(relative), line },
        None => location(relative, source, name.as_str()),
    };
    let ghost evg = ev;
    let id = match at {
        Some(line) => b.symbol_at_line(kind, name, qname, relative, line, signature, visibility, docs, None),
        None => b.symbol(kind, name, qname, relative, source, signature, visibility, docs, None),
    };
    let ghost mid2 = *b;
    b.edge(parent_id, id.as_str(), edge, None, Some(ev), None);
    proof {
        let req = EdgeRequest {
            from: parent_id@,
            to: id@,
            kind: edge,
            label: None,
            evidence: Some(evg),
            source: EdgeSource::Ast,
            certainty: EdgeCertainty::Definite,
            call_style: None,
        };
        lemma_frame(*b, mid2);
        lemma_declared_node(before, mid, *b, owner, file, relative@, source@, d, rf, x, req);
    }
    id
}

/// Records a reference of `kind` from `from_id` to each of `names`.
fn uses_step(
    b: &mut Builder,
    Ghost(before): Ghost<Builder>,
    Ghost(owner): Ghost<Seq<char>>,
    Ghost(file): Ghost<Seq<char>>,
    relative: &str,
    source: &str,
    Ghost(d): Ghost<Seq<Decl>>,
    Ghost(rf): Ghost<Seq<Ref>>,
    from_id: &str,
    Ghost(from): Ghost<int>,
    names: &Vec<String>,
    kind: EdgeKind,
)
    requires
        declared(before, *old(b), owner, file, relative@, source@, d, rf),
        links_ok(d, rf),
        from == -1 || from == -2 || 0 <= from < d.len(),
        from_id@ == end_id(*old(b), before.nodes@.len() as int, owner, file, from),
    ensures
        declared(before, *final(b), owner, file, relative@, source@, d, rf + uses(names@, from, kind)),
        links_ok(d, rf + uses(names@, from, kind)),
        final(b).nodes == old(b).nodes,
{
    let ghost mid = *b;
    b.type_use(from_id, relative, source, names, kind);
    proof {
        let more = uses(names@, from, kind);
        lemma_uses_index(names@, from, kind);
        assert forall|j: int| #![trigger more[j]] 0 <= j < more.len() implies ref_is(
            b.pending@[mid.pending@.len() + j],
            more[j],
            end_id(mid, before.nodes@.len() as int, owner, file, more[j].from),
            relative@,
        ) by {
            assert(more[j] == plain_ref(from, names@[j]@, kind));
            assert(crate::builder::type_use_edge(b.pending@[mid.pending@.len() + j], from_id@, relative@, source@, names@[j]@, kind));
        }
        lemma_declared_refs(before, mid, *b, owner, file, relative@, source@, d, rf, more);
    }
}

/// Records one reference from `from_id` to `target` (resolved by any symbol).
fn ref_step(
    b: &mut Builder,
    Ghost(before): Ghost<Builder>,
    Ghost(owner): Ghost<Seq<char>>,
    Ghost(file): Ghost<Seq<char>>,
    relative: &str,
    source: &str,
    Ghost(d): Ghost<Seq<Decl>>,
    Ghost(rf): Ghost<Seq<Ref>>,
    from_id: &str,
    Ghost(from): Ghost<int>,
    target: &str,
    kind: EdgeKind,
    needle: &str,
)
    requires
        declared(before, *old(b), owner, file, relative@, source@, d, rf),
        links_ok(d, rf),
        from == -1 || from == -2 || 0 <= from < d.len(),
        from_id@ == end_id(*old(b), before.nodes@.len() as int, owner, file, from),
    ensures
        declared(before, *final(b), owner, file, relative@, source@, d, rf + seq![plain_ref(from, target@, kind)]),
        links_ok(d, rf + seq![plain_ref(from, target@, kind)]),
        final(b).nodes == old(b).nodes,
{
    let ghost mid = *b;
    let p = PendingEdge {
        from: owned(from_id),
        target: owned(target),
        kind,
        label: Some(owned(target)),
        evidence: Some(location(relative, source, needle)),
        source_file: Some(owned(relative)),
        resolution: ResolutionStrategy::Any,
        call_style: None,
    };
    b.pending.push(p);
    proof {
        let more = seq![plain_ref(from, target@, kind)];
        assert(b.pending@.take(mid.pending@.len() as int) =~= mid.pending@);
        assert(more[0] == plain_ref(from, target@, kind));
        lemma_declared_refs(before, mid, *b, owner, file, relative@, source@, d, rf, more);
    }
}

/// Records the calls of a function body, made from `from_id`.
fn calls_step(
    b: &mut Builder,
    Ghost(before): Ghost<Builder>,
    Ghost(owner): Ghost<Seq<char>>,
    Ghost(file): Ghost<Seq<char>>,
    relative: &str,
    source: &str,
    Ghost(d): Ghost<Seq<Decl>>,
    Ghost(rf): Ghost<Seq<Ref>>,
    from_id: &str,
    Ghost(from): Ghost<int>,
    calls: &Vec<CallSite>,
)
    requires
        declared(before, *old(b), owner, file, relative@, source@, d, rf),
        links_ok(d, rf),
        from == -1 || from == -2 || 0 <= from < d.len(),
        from_id@ == end_id(*old(b), before.nodes@.len() as int, owner, file, from),
    ensures
        declared(before, *final(b), owner, file, relative@, source@, d, rf + call_refs(calls@, from)),
        links_ok(d, rf + call_refs(calls@, from)),
        final(b).nodes == old(b).nodes,
{
    let mut k: usize = 0;
    assert(rf + call_refs(calls@.take(0), from) =~= rf);
    while k < calls.len()
        invariant
            k <= calls.len(),
            declared(before, *b, owner, file, relative@, source@, d, rf + call_refs(calls@.take(k as int), from)),
            links_ok(d, rf + call_refs(calls@.take(k as int), from)),
            from == -1 || from == -2 || 0 <= from < d.len(),
            from_id@ == end_id(*b, before.nodes@.len() as int, owner, file, from),
            b.nodes == old(b).nodes,
        decreases calls.len() - k,
    {
        let ghost mid = *b;
        let ghost done = rf + call_refs(calls@.take(k as int), from);
        let c = &calls[k];
        let (resolution, style) = match c.style {
            CallStyle::Direct => (ResolutionStrategy::Callable, "direct"),
            CallStyle::Method => (ResolutionStrategy::MethodOnly, "method"),
            CallStyle::Macro => (ResolutionStrategy::MacroOnly, "macro"),
        };
        let p = PendingEdge {
            from: owned(from_id),
            target: owned(c.target.as_str()),
            kind: EdgeKind::Calls,
            label: Some(owned(c.target.as_str())),
            evidence: Some(location(relative, source, c.target.as_str())),
            source_file: Some(owned(relative)),
            resolution,
            call_style: Some(owned(style)),
        };
        b.pending.push(p);
        proof {
            let more = seq![call_ref(calls@[k as int], from)];
            assert(b.pending@.take(mid.pending@.len() as int) =~= mid.pending@);
            assert(more[0] == call_ref(calls@[k as int], from));
            lemma_declared_refs(before, mid, *b, owner, file, relative@, source@, d, done, more);
            assert(calls@.take(k + 1).drop_last() =~= calls@.take(k as int));
            assert(done + more =~= rf + call_refs(calls@.take(k + 1), from));
        }
        k = k + 1;
    }
    assert(calls@.take(calls.len() as int) =~= calls@);
}

/// Records the references of a function: parameter types, return types, calls.
fn body_step(
    b: &mut Builder,
    Ghost(before): Ghost<Builder>,
    Ghost(owner): Ghost<Seq<char>>,
    Ghost(file): Ghost<Seq<char>>,
    relative: &str,
    source: &str,
    Ghost(d): Ghost<Seq<Decl>>,
    Ghost(rf): Ghost<Seq<Ref>>,
    from_id: &str,
    Ghost(from): Ghost<int>,
    body: &FnBody,
)
    requires
        declared(before, *old(b), owner, file, relative@, source@, d, rf),
        links_ok(d, rf),
        from == -1 || from == -2 || 0 <= from < d.len(),
        from_id@ == end_id(*old(b), before.nodes@.len() as int, owner, file, from),
    ensures
        declared(before, *final(b), owner, file, relative@, source@, d, rf + body_refs(*body, from)),
        links_ok(d, rf + body_refs(*body, from)),
        final(b).nodes == old(b).nodes,
{
    uses_step(b, Ghost(before), Ghost(owner), Ghost(file), relative, source, Ghost(d), Ghost(rf), from_id, Ghost(from), &body.params, EdgeKind::UsesType);
    let ghost rf1 = rf + uses(body.params@, from, EdgeKind::UsesType);
    uses_step(b, Ghost(before), Ghost(owner), Ghost(file), relative, source, Ghost(d), Ghost(rf1), from_id, Ghost(from), &body.returns, EdgeKind::Returns);
    let ghost rf2 = rf1 + uses(body.returns@, from, EdgeKind::Returns);
    calls_step(b, Ghost(before), Ghost(owner), Ghost(file), relative, source, Ghost(d), Ghost(rf2), from_id, Ghost(from), &body.calls);
    assert(rf2 + call_refs(body.calls@, from) =~= rf + body_refs(*body, from));
}


// ---------------------------------------------------------------------------
// Indexing items
// ---------------------------------------------------------------------------

/// `a::b`.
fn qual(a: &str, b: &str) -> (r: String)
    ensures
        r@ == path2(a@, b@),
{
    let mut r = cat(a, "::");
    append_str(&mut r, b);
    r
}

fn opt_clone(o: &Option<String>) -> (r: Option<String>)
    ensures
        opt_view(r) == opt_view(*o),
{
    match o {
        Some(s) => Some(owned(s.as_str())),
        None => None,
    }
}

/// A function item: its symbol, then its references.
fn index_fn(
    b: &mut Builder,
    file_id: &str,
    owner_id: &str,
    module: &str,
    relative: &str,
    source: &str,
    name: &String,
    signature: &String,
    visibility: &Option<String>,
    docs: &Vec<String>,
    body: &FnBody,
)
    requires
        old(b).wf(),
        old(b).claimed() + 1 < usize::MAX - 2,
    ensures
        declared(*old(b), *final(b), owner_id@, file_id@, relative@, source@, single(NodeKind::Function, name@, module@, Some(signature@), opt_view(*visibility), docs@), body_refs(*body, 0)),
        links_ok(single(NodeKind::Function, name@, module@, Some(signature@), opt_view(*visibility), docs@), body_refs(*body, 0)),
{
    let ghost before = *b;
    proof {
        lemma_declared_start(before, owner_id@, file_id@, relative@, source@);
    }
    let q = qual(module, name.as_str());
    let id = declare_step(b, Ghost(before), Ghost(owner_id@), Ghost(file_id@), relative, source, Ghost(Seq::empty()), Ghost(Seq::empty()),
        owner_id, Ghost(-1), EdgeKind::Declares, NodeKind::Function, owned(name.as_str()), q, Some(owned(signature.as_str())),
        opt_clone(visibility), crate::strs::clone_strings(docs), None, Ghost(None));
    let ghost d = Seq::<Decl>::empty().push(Decl { kind: NodeKind::Function, name: name@, qname: path2(module@, name@), parent: -1, edge: EdgeKind::Declares, sig: Some(signature@), vis: opt_view(*visibility), docs: docs@, anchor: None });
    assert(d =~= single(NodeKind::Function, name@, module@, Some(signature@), opt_view(*visibility), docs@));
    body_step(b, Ghost(before), Ghost(owner_id@), Ghost(file_id@), relative, source, Ghost(d), Ghost(Seq::empty()), id.as_str(), Ghost(0), body);
    assert(Seq::<Ref>::empty() + body_refs(*body, 0) =~= body_refs(*body, 0));
}

/// A single-symbol item (module, type alias, constant, static or macro),
/// then the types it uses; returns the symbol's id.
fn index_single(
    b: &mut Builder,
    file_id: &str,
    owner_id: &str,
    module: &str,
    relative: &str,
    source: &str,
    kind: NodeKind,
    name: &String,
    signature: String,
    visibility: Option<String>,
    docs: Vec<String>,
    types: &Vec<String>,
) -> (id: String)
    requires
        old(b).wf(),
        old(b).claimed() + 1 < usize::MAX - 2,
    ensures
        declared(*old(b), *final(b), owner_id@, file_id@, relative@, source@, single(kind, name@, module@, Some(signature@), opt_view(visibility), docs@), uses(types@, 0, EdgeKind::UsesType)),
        links_ok(single(kind, name@, module@, Some(signature@), opt_view(visibility), docs@), uses(types@, 0, EdgeKind::UsesType)),
        id@ == final(b).nodes@[old(b).nodes@.len() as int].id@,
{
    let ghost before = *b;
    proof {
        lemma_declared_start(before, owner_id@, file_id@, relative@, source@);
    }
    let q = qual(module, name.as_str());
    let ghost sigv = signature@;
    let ghost visv = opt_view(visibility);
    let ghost docsv = docs@;
    let id = declare_step(b, Ghost(before), Ghost(owner_id@), Ghost(file_id@), relative, source, Ghost(Seq::empty()), Ghost(Seq::empty()),
        owner_id, Ghost(-1), EdgeKind::Declares, kind, owned(name.as_str()), q, Some(signature), visibility, docs, None, Ghost(None));
    let ghost d = Seq::<Decl>::empty().push(Decl { kind, name: name@, qname: path2(module@, name@), parent: -1, edge: EdgeKind::Declares, sig: Some(sigv), vis: visv, docs: docsv, anchor: None });
    assert(d =~= single(kind, name@, module@, Some(sigv), visv, docsv));
    uses_step(b, Ghost(before), Ghost(owner_id@), Ghost(file_id@), relative, source, Ghost(d), Ghost(Seq::empty()), id.as_str(), Ghost(0), types, EdgeKind::UsesType);
    assert(Seq::<Ref>::empty() + uses(types@, 0, EdgeKind::UsesType) =~= uses(types@, 0, EdgeKind::UsesType));
    id
}

/// A struct: its symbol, then each field in turn.
fn index_struct(
    b: &mut Builder,
    file_id: &str,
    owner_id: &str,
    module: &str,
    relative: &str,
    source: &str,
    name: &String,
    signature: &String,
    visibility: &Option<String>,
    docs: &Vec<String>,
    fields: &Vec<FieldInfo>,
)
    requires
        old(b).wf(),
        old(b).claimed() + 1 + fields@.len() < usize::MAX - 2,
    ensures
        declared(*old(b), *final(b), owner_id@, file_id@, relative@, source@,
            single(NodeKind::Struct, name@, module@, Some(signature@), opt_view(*visibility), docs@) + field_members(fields@, path2(module@, name@)).0,
            field_members(fields@, path2(module@, name@)).1),
        links_ok(single(NodeKind::Struct, name@, module@, Some(signature@), opt_view(*visibility), docs@) + field_members(fields@, path2(module@, name@)).0,
            field_members(fields@, path2(module@, name@)).1),
{
    let ghost before = *b;
    let ghost n0 = before.nodes@.len() as int;
    proof {
        lemma_declared_start(before, owner_id@, file_id@, relative@, source@);
    }
    let q = qual(module, name.as_str());
    let sid = declare_step(b, Ghost(before), Ghost(owner_id@), Ghost(file_id@), relative, source, Ghost(Seq::empty()), Ghost(Seq::empty()),
        owner_id, Ghost(-1), EdgeKind::Declares, NodeKind::Struct, owned(name.as_str()), owned(q.as_str()), Some(owned(signature.as_str())),
        opt_clone(visibility), crate::strs::clone_strings(docs), None, Ghost(None));
    let ghost head = single(NodeKind::Struct, name@, module@, Some(signature@), opt_view(*visibility), docs@);
    assert(Seq::<Decl>::empty().push(head[0]) =~= head);
    let mut k: usize = 0;
    assert(head + field_members(fields@.take(0), q@).0 =~= head);
    assert(Seq::<Ref>::empty() =~= field_members(fields@.take(0), q@).1);
    while k < fields.len()
        invariant
            k <= fields.len(),
            q@ == path2(module@, name@),
            head == single(NodeKind::Struct, name@, module@, Some(signature@), opt_view(*visibility), docs@),
            n0 == before.nodes@.len(),
            before.claimed() + 1 + fields@.len() < usize::MAX - 2,
            declared(before, *b, owner_id@, file_id@, relative@, source@, head + field_members(fields@.take(k as int), q@).0,
                field_members(fields@.take(k as int), q@).1),
            links_ok(head + field_members(fields@.take(k as int), q@).0, field_members(fields@.take(k as int), q@).1),
            field_members(fields@.take(k as int), q@).0.len() <= k,
            b.nodes@[n0].id@ == sid@,
        decreases fields.len() - k,
    {
        let ghost d0 = field_members(fields@.take(k as int), q@).0;
        let ghost r0 = field_members(fields@.take(k as int), q@).1;
        let ghost dd = head + d0;
        let ghost nodes_before = b.nodes@;
        assert(fields@.take(k + 1).drop_last() =~= fields@.take(k as int));
        assert(fields@.take(k + 1).last() == fields@[k as int]);
        let f = &fields[k];
        match &f.name {
            Some(fname) => {
                let fq = qual(q.as_str(), fname.as_str());
                let ghost x = Decl { kind: NodeKind::Field, name: fname@, qname: fq@, parent: 0, edge: EdgeKind::Declares, sig: Some(f.signature@), vis: opt_view(f.visibility), docs: f.docs@, anchor: None };
                let fid = declare_step(b, Ghost(before), Ghost(owner_id@), Ghost(file_id@), relative, source, Ghost(dd), Ghost(r0),
                    sid.as_str(), Ghost(0), EdgeKind::Declares, NodeKind::Field, owned(fname.as_str()), fq, Some(owned(f.signature.as_str())),
                    opt_clone(&f.visibility), crate::strs::clone_strings(&f.docs), None, Ghost(None));
                assert(b.nodes@[n0] == nodes_before[n0]) by {
                    assert(b.nodes@.drop_last()[n0] == b.nodes@[n0]);
                }
                uses_step(b, Ghost(before), Ghost(owner_id@), Ghost(file_id@), relative, source, Ghost(dd.push(x)), Ghost(r0),
                    fid.as_str(), Ghost(dd.len() as int), &f.types, EdgeKind::UsesType);
                assert(dd.push(x) =~= head + d0.push(x));
            },
            None => {
                uses_step(b, Ghost(before), Ghost(owner_id@), Ghost(file_id@), relative, source, Ghost(dd), Ghost(r0),
                    sid.as_str(), Ghost(0), &f.types, EdgeKind::UsesType);
            },
        }
        k = k + 1;
    }
    assert(fields@.take(fields.len() as int) =~= fields@);
}


/// An enum: its symbol, then each variant (on the first line naming it after
/// the enum's line) and the types its fields use.
fn index_enum(
    b: &mut Builder,
    file_id: &str,
    owner_id: &str,
    module: &str,
    relative: &str,
    source: &str,
    name: &String,
    visibility: &Option<String>,
    docs: &Vec<String>,
    variants: &Vec<VariantInfo>,
)
    requires
        old(b).wf(),
        old(b).claimed() + 1 + variants@.len() < usize::MAX - 2,
    ensures
        declared(*old(b), *final(b), owner_id@, file_id@, relative@, source@,
            single(NodeKind::Enum, name@, module@, Some("enum "@ + name@), opt_view(*visibility), docs@) + variant_members(variants@, path2(module@, name@), name@).0,
            variant_members(variants@, path2(module@, name@), name@).1),
        links_ok(single(NodeKind::Enum, name@, module@, Some("enum "@ + name@), opt_view(*visibility), docs@) + variant_members(variants@, path2(module@, name@), name@).0,
            variant_members(variants@, path2(module@, name@), name@).1),
{
    let ghost before = *b;
    let ghost n0 = before.nodes@.len() as int;
    proof {
        lemma_declared_start(before, owner_id@, file_id@, relative@, source@);
    }
    let enum_line = find_line(source, name.as_str());
    let q = qual(module, name.as_str());
    let mut sig = owned("enum ");
    append_str(&mut sig, name.as_str());
    proof {
        reveal_strlit("enum ");
    }
    assert(sig@ == "enum "@ + name@);
    let eid = declare_step(b, Ghost(before), Ghost(owner_id@), Ghost(file_id@), relative, source, Ghost(Seq::empty()), Ghost(Seq::empty()),
        owner_id, Ghost(-1), EdgeKind::Declares, NodeKind::Enum, owned(name.as_str()), owned(q.as_str()), Some(sig),
        opt_clone(visibility), crate::strs::clone_strings(docs), None, Ghost(None));
    let ghost head = single(NodeKind::Enum, name@, module@, Some("enum "@ + name@), opt_view(*visibility), docs@);
    assert(Seq::<Decl>::empty().push(head[0]) =~= head);
    let mut k: usize = 0;
    assert(head + variant_members(variants@.take(0), q@, name@).0 =~= head);
    assert(Seq::<Ref>::empty() =~= variant_members(variants@.take(0), q@, name@).1);
    while k < variants.len()
        invariant
            k <= variants.len(),
            q@ == path2(module@, name@),
            head == single(NodeKind::Enum, name@, module@, Some("enum "@ + name@), opt_view(*visibility), docs@),
            enum_line == crate::lines::find_line_spec(source@, name@),
            n0 == before.nodes@.len(),
            before.claimed() + 1 + variants@.len() < usize::MAX - 2,
            declared(before, *b, owner_id@, file_id@, relative@, source@, head + variant_members(variants@.take(k as int), q@, name@).0,
                variant_members(variants@.take(k as int), q@, name@).1),
            links_ok(head + variant_members(variants@.take(k as int), q@, name@).0, variant_members(variants@.take(k as int), q@, name@).1),
            variant_members(variants@.take(k as int), q@, name@).0.len() == k,
            b.nodes@[n0].id@ == eid@,
        decreases variants.len() - k,
    {
        let ghost d0 = variant_members(variants@.take(k as int), q@, name@).0;
        let ghost r0 = variant_members(variants@.take(k as int), q@, name@).1;
        let ghost dd = head + d0;
        let ghost nodes_before = b.nodes@;
        assert(variants@.take(k + 1).drop_last() =~= variants@.take(k as int));
        assert(variants@.take(k + 1).last() == variants@[k as int]);
        let v = &variants[k];
        let line = find_line_after(source, v.name.as_str(), enum_line);
        let vq = qual(q.as_str(), v.name.as_str());
        let ghost x = Decl { kind: NodeKind::EnumMember, name: v.name@, qname: vq@, parent: 0, edge: EdgeKind::Declares, sig: Some(v.signature@), vis: None, docs: v.docs@, anchor: Some(name@) };
        let vid = declare_step(b, Ghost(before), Ghost(owner_id@), Ghost(file_id@), relative, source, Ghost(dd), Ghost(r0),
            eid.as_str(), Ghost(0), EdgeKind::Declares, NodeKind::EnumMember, owned(v.name.as_str()), vq, Some(owned(v.signature.as_str())),
            None, crate::strs::clone_strings(&v.docs), Some(line), Ghost(Some(name@)));
        assert(b.nodes@[n0] == nodes_before[n0]) by {
            assert(b.nodes@.drop_last()[n0] == b.nodes@[n0]);
        }
        uses_step(b, Ghost(before), Ghost(owner_id@), Ghost(file_id@), relative, source, Ghost(dd.push(x)), Ghost(r0),
            vid.as_str(), Ghost(dd.len() as int), &v.types, EdgeKind::UsesType);
        assert(dd.push(x) =~= head + d0.push(x));
        k = k + 1;
    }
    assert(variants@.take(variants.len() as int) =~= variants@);
}

/// A trait: its symbol, then each function it declares and the types of that
/// function's typed parameters.
fn index_trait(
    b: &mut Builder,
    file_id: &str,
    owner_id: &str,
    module: &str,
    relative: &str,
    source: &str,
    name: &String,
    visibility: &Option<String>,
    docs: &Vec<String>,
    methods: &Vec<TraitFnInfo>,
)
    requires
        old(b).wf(),
        old(b).claimed() + 1 + methods@.len() < usize::MAX - 2,
    ensures
        declared(*old(b), *final(b), owner_id@, file_id@, relative@, source@,
            single(NodeKind::Trait, name@, module@, Some("trait "@ + name@), opt_view(*visibility), docs@) + trait_members(methods@, path2(module@, name@)).0,
            trait_members(methods@, path2(module@, name@)).1),
        links_ok(single(NodeKind::Trait, name@, module@, Some("trait "@ + name@), opt_view(*visibility), docs@) + trait_members(methods@, path2(module@, name@)).0,
            trait_members(methods@, path2(module@, name@)).1),
{
    let ghost before = *b;
    let ghost n0 = before.nodes@.len() as int;
    proof {
        lemma_declared_start(before, owner_id@, file_id@, relative@, source@);
    }
    let q = qual(module, name.as_str());
    let mut sig = owned("trait ");
    append_str(&mut sig, name.as_str());
    proof {
        reveal_strlit("trait ");
    }
    assert(sig@ == "trait "@ + name@);
    let tid = declare_step(b, Ghost(before), Ghost(owner_id@), Ghost(file_id@), relative, source, Ghost(Seq::empty()), Ghost(Seq::empty()),
        owner_id, Ghost(-1), EdgeKind::Declares, NodeKind::Trait, owned(name.as_str()), owned(q.as_str()), Some(sig),
        opt_clone(visibility), crate::strs::clone_strings(docs), None, Ghost(None));
    let ghost head = single(NodeKind::Trait, name@, module@, Some("trait "@ + name@), opt_view(*visibility), docs@);
    assert(Seq::<Decl>::empty().push(head[0]) =~= head);
    let mut k: usize = 0;
    assert(head + trait_members(methods@.take(0), q@).0 =~= head);
    assert(Seq::<Ref>::empty() =~= trait_members(methods@.take(0), q@).1);
    while k < methods.len()
        invariant
            k <= methods.len(),
            q@ == path2(module@, name@),
            head == single(NodeKind::Trait, name@, module@, Some("trait "@ + name@), opt_view(*visibility), docs@),
            n0 == before.nodes@.len(),
            before.claimed() + 1 + methods@.len() < usize::MAX - 2,
            declared(before, *b, owner_id@, file_id@, relative@, source@, head + trait_members(methods@.take(k as int), q@).0,
                trait_members(methods@.take(k as int), q@).1),
            links_ok(head + trait_members(methods@.take(k as int), q@).0, trait_members(methods@.take(k as int), q@).1),
            trait_members(methods@.take(k as int), q@).0.len() == k,
            b.nodes@[n0].id@ == tid@,
        decreases methods.len() - k,
    {
        let ghost d0 = trait_members(methods@.take(k as int), q@).0;
        let ghost r0 = trait_members(methods@.take(k as int), q@).1;
        let ghost dd = head + d0;
        let ghost nodes_before = b.nodes@;
        assert(methods@.take(k + 1).drop_last() =~= methods@.take(k as int));
        assert(methods@.take(k + 1).last() == methods@[k as int]);
        let m = &methods[k];
        let mq = qual(q.as_str(), m.name.as_str());
        let ghost x = Decl { kind: NodeKind::Method, name: m.name@, qname: mq@, parent: 0, edge: EdgeKind::HasMethod, sig: Some(m.signature@), vis: None, docs: m.docs@, anchor: None };
        let mid = declare_step(b, Ghost(before), Ghost(owner_id@), Ghost(file_id@), relative, source, Ghost(dd), Ghost(r0),
            tid.as_str(), Ghost(0), EdgeKind::HasMethod, NodeKind::Method, owned(m.name.as_str()), mq, Some(owned(m.signature.as_str())),
            None, crate::strs::clone_strings(&m.docs), None, Ghost(None));
        assert(b.nodes@[n0] == nodes_before[n0]) by {
            assert(b.nodes@.drop_last()[n0] == b.nodes@[n0]);
        }
        uses_step(b, Ghost(before), Ghost(owner_id@), Ghost(file_id@), relative, source, Ghost(dd.push(x)), Ghost(r0),
            mid.as_str(), Ghost(dd.len() as int), &m.params, EdgeKind::UsesType);
        assert(dd.push(x) =~= head + d0.push(x));
        k = k + 1;
    }
    assert(methods@.take(methods.len() as int) =~= methods@);
}

/// An impl block: its symbol (declared by the file), its self type and trait
/// as references, then each function with its references.
fn index_impl(
    b: &mut Builder,
    file_id: &str,
    owner_id: &str,
    module: &str,
    relative: &str,
    source: &str,
    self_ty: &String,
    trait_name: &Option<String>,
    signature: &String,
    functions: &Vec<MethodInfo>,
)
    requires
        old(b).wf(),
        old(b).claimed() + 1 + functions@.len() < usize::MAX - 2,
    ensures
        declared(*old(b), *final(b), owner_id@, file_id@, relative@, source@,
            seq![Decl {
                kind: NodeKind::Impl,
                name: impl_name(self_ty@, *trait_name),
                qname: path2(module@, impl_name(self_ty@, *trait_name)),
                parent: -2,
                edge: EdgeKind::Declares,
                sig: Some(signature@),
                vis: None,
                docs: Seq::empty(),
                anchor: None,
            }] + impl_members(functions@, path2(module@, self_ty@)).0,
            impl_head_refs(self_ty@, *trait_name) + impl_members(functions@, path2(module@, self_ty@)).1),
        links_ok(seq![Decl {
                kind: NodeKind::Impl,
                name: impl_name(self_ty@, *trait_name),
                qname: path2(module@, impl_name(self_ty@, *trait_name)),
                parent: -2,
                edge: EdgeKind::Declares,
                sig: Some(signature@),
                vis: None,
                docs: Seq::empty(),
                anchor: None,
            }] + impl_members(functions@, path2(module@, self_ty@)).0,
            impl_head_refs(self_ty@, *trait_name) + impl_members(functions@, path2(module@, self_ty@)).1),
{
    let ghost before = *b;
    let ghost n0 = before.nodes@.len() as int;
    proof {
        lemma_declared_start(before, owner_id@, file_id@, relative@, source@);
    }
    let iname = match trait_name {
        Some(t) => {
            let mut s = cat("impl ", t.as_str());
            append_str(&mut s, " for ");
            append_str(&mut s, self_ty.as_str());
            s
        },
        None => cat("impl ", self_ty.as_str()),
    };
    assert(iname@ == impl_name(self_ty@, *trait_name));
    let iq = qual(module, iname.as_str());
    let ghost head = seq![Decl {
        kind: NodeKind::Impl,
        name: impl_name(self_ty@, *trait_name),
        qname: path2(module@, impl_name(self_ty@, *trait_name)),
        parent: -2,
        edge: EdgeKind::Declares,
        sig: Some(signature@),
        vis: None,
        docs: Seq::empty(),
        anchor: None,
    }];
    let iid = declare_step(b, Ghost(before), Ghost(owner_id@), Ghost(file_id@), relative, source, Ghost(Seq::empty()), Ghost(Seq::empty()),
        file_id, Ghost(-2), EdgeKind::Declares, NodeKind::Impl, iname, iq, Some(owned(signature.as_str())), None, Vec::new(), None, Ghost(None));
    assert(Seq::<Decl>::empty().push(head[0]) =~= head);
    ref_step(b, Ghost(before), Ghost(owner_id@), Ghost(file_id@), relative, source, Ghost(head), Ghost(Seq::empty()),
        iid.as_str(), Ghost(0), self_ty.as_str(), EdgeKind::UsesType, self_ty.as_str());
    let ghost r1 = Seq::<Ref>::empty() + seq![plain_ref(0, self_ty@, EdgeKind::UsesType)];
    match trait_name {
        Some(t) => {
            ref_step(b, Ghost(before), Ghost(owner_id@), Ghost(file_id@), relative, source, Ghost(head), Ghost(r1),
                iid.as_str(), Ghost(0), t.as_str(), EdgeKind::Implements, "impl");
            assert(r1 + seq![plain_ref(0, t@, EdgeKind::Implements)] =~= impl_head_refs(self_ty@, *trait_name));
        },
        None => {
            assert(r1 =~= impl_head_refs(self_ty@, *trait_name));
        },
    }
    let ghost rh = impl_head_refs(self_ty@, *trait_name);
    let q = qual(module, self_ty.as_str());
    let mut k: usize = 0;
    assert(head + impl_members(functions@.take(0), q@).0 =~= head);
    assert(rh + impl_members(functions@.take(0), q@).1 =~= rh);
    while k < functions.len()
        invariant
            k <= functions.len(),
            q@ == path2(module@, self_ty@),
            rh == impl_head_refs(self_ty@, *trait_name),
            head.len() == 1,
            n0 == before.nodes@.len(),
            before.claimed() + 1 + functions@.len() < usize::MAX - 2,
            declared(before, *b, owner_id@, file_id@, relative@, source@, head + impl_members(functions@.take(k as int), q@).0,
                rh + impl_members(functions@.take(k as int), q@).1),
            links_ok(head + impl_members(functions@.take(k as int), q@).0, rh + impl_members(functions@.take(k as int), q@).1),
            impl_members(functions@.take(k as int), q@).0.len() == k,
            b.nodes@[n0].id@ == iid@,
        decreases functions.len() - k,
    {
        let ghost d0 = impl_members(functions@.take(k as int), q@).0;
        let ghost r0 = impl_members(functions@.take(k as int), q@).1;
        let ghost dd = head + d0;
        let ghost nodes_before = b.nodes@;
        assert(functions@.take(k + 1).drop_last() =~= functions@.take(k as int));
        assert(functions@.take(k + 1).last() == functions@[k as int]);
        let m = &functions[k];
        let mq = qual(q.as_str(), m.name.as_str());
        let ghost x = Decl { kind: NodeKind::Method, name: m.name@, qname: mq@, parent: 0, edge: EdgeKind::HasMethod, sig: Some(m.signature@), vis: opt_view(m.visibility), docs: m.docs@, anchor: None };
        let mid = declare_step(b, Ghost(before), Ghost(owner_id@), Ghost(file_id@), relative, source, Ghost(dd), Ghost(rh + r0),
            iid.as_str(), Ghost(0), EdgeKind::HasMethod, NodeKind::Method, owned(m.name.as_str()), mq, Some(owned(m.signature.as_str())),
            opt_clone(&m.visibility), crate::strs::clone_strings(&m.docs), None, Ghost(None));
        assert(b.nodes@[n0] == nodes_before[n0]) by {
            assert(b.nodes@.drop_last()[n0] == b.nodes@[n0]);
        }
        body_step(b, Ghost(before), Ghost(owner_id@), Ghost(file_id@), relative, source, Ghost(dd.push(x)), Ghost(rh + r0),
            mid.as_str(), Ghost(dd.len() as int), &m.body);
        assert(dd.push(x) =~= head + d0.push(x));
        assert(rh + r0 + body_refs(m.body, dd.len() as int) =~= rh + (r0 + body_refs(m.body, dd.len() as int)));
        k = k + 1;
    }
    assert(functions@.take(functions.len() as int) =~= functions@);
}

/// A `use` item: one import reference from the owner per imported path.
fn index_use(
    b: &mut Builder,
    file_id: &str,
    owner_id: &str,
    relative: &str,
    source: &str,
    paths: &Vec<String>,
)
    requires
        old(b).wf(),
    ensures
        declared(*old(b), *final(b), owner_id@, file_id@, relative@, source@, Seq::empty(), uses(paths@, -1, EdgeKind::Imports)),
        links_ok(Seq::empty(), uses(paths@, -1, EdgeKind::Imports)),
{
    let ghost before = *b;
    proof {
        lemma_declared_start(before, owner_id@, file_id@, relative@, source@);
    }
    let mut k: usize = 0;
    assert(uses(paths@.take(0), -1, EdgeKind::Imports) =~= Seq::<Ref>::empty());
    while k < paths.len()
        invariant
            k <= paths.len(),
            declared(before, *b, owner_id@, file_id@, relative@, source@, Seq::empty(), uses(paths@.take(k as int), -1, EdgeKind::Imports)),
            links_ok(Seq::empty(), uses(paths@.take(k as int), -1, EdgeKind::Imports)),
        decreases paths.len() - k,
    {
        assert(paths@.take(k + 1).drop_last() =~= paths@.take(k as int));
        ref_step(b, Ghost(before), Ghost(owner_id@), Ghost(file_id@), relative, source, Ghost(Seq::empty()),
            Ghost(uses(paths@.take(k as int), -1, EdgeKind::Imports)), owner_id, Ghost(-1), paths[k].as_str(), EdgeKind::Imports, "use");
        assert(paths@.take(k + 1).last() == paths@[k as int]);
        assert(uses(paths@.take(k as int), -1, EdgeKind::Imports) + seq![plain_ref(-1, paths@[k as int]@, EdgeKind::Imports)]
            =~= uses(paths@.take(k + 1), -1, EdgeKind::Imports));
        k = k + 1;
    }
    assert(paths@.take(paths.len() as int) =~= paths@);
}

/// Indexes one item of module `module` in the file `relative`: adds a node
/// for each symbol it declares (under the first free id for its kind and
/// qualified name, with its signature, visibility, docs and line), with the
/// edge from its owner (or the file, for an impl block, or the item, for its
/// members) that declares it, and
/// records its references for later resolution (see [`declared`],
/// [`item_decls`], [`item_refs`]). Returns the new module's id for a module.
pub fn index_item(
    b: &mut Builder,
    file_id: &str,
    owner_id: &str,
    module: &str,
    relative: &str,
    source: &str,
    item: &ItemInfo,
) -> (r: Option<String>)
    requires
        old(b).wf(),
        old(b).claimed() + item_size(*item) < usize::MAX - 2,
    ensures
        declared(*old(b), *final(b), owner_id@, file_id@, relative@, source@, item_decls(*item, module@), item_refs(*item, module@)),
        r matches Some(id) ==> item is Mod && id@ == final(b).nodes@[old(b).nodes@.len() as int].id@,
        item is Mod ==> r is Some,
{
    let none: Vec<String> = Vec::new();
    match item {
        ItemInfo::Function { name, signature, visibility, docs, body } => {
            index_fn(b, file_id, owner_id, module, relative, source, name, signature, visibility, docs, body);
            None
        },
        ItemInfo::Struct { name, signature, visibility, docs, fields } => {
            index_struct(b, file_id, owner_id, module, relative, source, name, signature, visibility, docs, fields);
            None
        },
        ItemInfo::Enum { name, visibility, docs, variants } => {
            index_enum(b, file_id, owner_id, module, relative, source, name, visibility, docs, variants);
            None
        },
        ItemInfo::Trait { name, visibility, docs, methods } => {
            index_trait(b, file_id, owner_id, module, relative, source, name, visibility, docs, methods);
            None
        },
        ItemInfo::Impl { self_ty, trait_name, signature, functions } => {
            index_impl(b, file_id, owner_id, module, relative, source, self_ty, trait_name, signature, functions);
            None
        },
        ItemInfo::Use { paths } => {
            index_use(b, file_id, owner_id, relative, source, paths);
            None
        },
        ItemInfo::Mod { name, visibility, docs } => {
            let mut sig = owned("mod ");
            append_str(&mut sig, name.as_str());
            let id = index_single(b, file_id, owner_id, module, relative, source, NodeKind::Module, name, sig,
                opt_clone(visibility), crate::strs::clone_strings(docs), &none);
            assert(uses(none@, 0, EdgeKind::UsesType) =~= Seq::<Ref>::empty());
            Some(id)
        },
        ItemInfo::TypeAlias { name, signature, visibility, docs, types } => {
            index_single(b, file_id, owner_id, module, relative, source, NodeKind::TypeAlias, name, owned(signature.as_str()),
                opt_clone(visibility), crate::strs::clone_strings(docs), types);
            None
        },
        ItemInfo::Const { name, signature, visibility, docs } => {
            index_single(b, file_id, owner_id, module, relative, source, NodeKind::Const, name, owned(signature.as_str()),
                opt_clone(visibility), crate::strs::clone_strings(docs), &none);
            assert(uses(none@, 0, EdgeKind::UsesType) =~= Seq::<Ref>::empty());
            None
        },
        ItemInfo::Static { name, signature, visibility, docs } => {
            index_single(b, file_id, owner_id, module, relative, source, NodeKind::Static, name, owned(signature.as_str()),
                opt_clone(visibility), crate::strs::clone_strings(docs), &none);
            assert(uses(none@, 0, EdgeKind::UsesType) =~= Seq::<Ref>::empty());
            None
        },
        ItemInfo::Macro { name, signature } => {
            index_single(b, file_id, owner_id, module, relative, source, NodeKind::Macro, name, owned(signature.as_str()),
                None, Vec::new(), &none);
            assert(uses(none@, 0, EdgeKind::UsesType) =~= Seq::<Ref>::empty());
            None
        },
        ItemInfo::Other => {
            proof {
                lemma_declared_start(*b, owner_id@, file_id@, relative@, source@);
            }
            None
        },
    }
}


// ---------------------------------------------------------------------------
// Files
// ---------------------------------------------------------------------------

/// An item of a file and, for an item of an inline module, the position of
/// that module's entry among the file's entries.
pub struct ItemEntry {
    pub parent: Option<usize>,
    pub item: ItemInfo,
}

/// Upper bound on the symbols the entries declare.
pub open spec fn entries_size(es: Seq<ItemEntry>) -> nat
    decreases es.len(),
{
    if es.len() == 0 {
        0
    } else {
        entries_size(es.drop_last()) + item_size(es.last().item)
    }
}

proof fn lemma_members_len(item: ItemInfo, module: Seq<char>)
    ensures
        item_decls(item, module).len() <= item_size(item),
{
    match item {
        ItemInfo::Struct { name, fields, .. } => lemma_fields_len(fields@, path2(module, name@)),
        ItemInfo::Enum { name, variants, .. } => lemma_variants_len(variants@, path2(module, name@), name@),
        ItemInfo::Trait { name, methods, .. } => lemma_trait_len(methods@, path2(module, name@)),
        ItemInfo::Impl { self_ty, functions, .. } => lemma_impl_len(functions@, path2(module, self_ty@)),
        _ => {},
    }
}

proof fn lemma_fields_len(fs: Seq<FieldInfo>, q: Seq<char>)
    ensures
        field_members(fs, q).0.len() <= fs.len(),
    decreases fs.len(),
{
    if fs.len() > 0 {
        lemma_fields_len(fs.drop_last(), q);
    }
}

proof fn lemma_variants_len(vs: Seq<VariantInfo>, q: Seq<char>, a: Seq<char>)
    ensures
        variant_members(vs, q, a).0.len() <= vs.len(),
    decreases vs.len(),
{
    if vs.len() > 0 {
        lemma_variants_len(vs.drop_last(), q, a);
    }
}

proof fn lemma_trait_len(ms: Seq<TraitFnInfo>, q: Seq<char>)
    ensures
        trait_members(ms, q).0.len() <= ms.len(),
    decreases ms.len(),
{
    if ms.len() > 0 {
        lemma_trait_len(ms.drop_last(), q);
    }
}

proof fn lemma_impl_len(ms: Seq<MethodInfo>, q: Seq<char>)
    ensures
        impl_members(ms, q).0.len() <= ms.len(),
    decreases ms.len(),
{
    if ms.len() > 0 {
        lemma_impl_len(ms.drop_last(), q);
    }
}

/// The module an entry's item belongs to: the file's module `module`, or,
/// for an item of an inline module (an earlier `mod` entry), that module's
/// path.
pub open spec fn entry_module(es: Seq<ItemEntry>, k: int, module: Seq<char>) -> Seq<char>
    decreases k,
{
    if k < 0 || k >= es.len() {
        module
    } else {
        match es[k].parent {
            Some(p) => if (p as int) < k && es[p as int].item is Mod {
                path2(entry_module(es, p as int, module), es[p as int].item->Mod_name@)
            } else {
                module
            },
            None => module,
        }
    }
}

/// The id of the node that owns entry `k`'s symbols, given the builder
/// states `states` around each entry: the node made for its inline module,
/// else the file's module node `module_id`.
pub open spec fn entry_owner(states: Seq<Builder>, es: Seq<ItemEntry>, k: int, module_id: Seq<char>) -> Seq<char> {
    match es[k].parent {
        Some(p) => if (p as int) < k && es[p as int].item is Mod {
            states[p + 1].nodes@[states[p as int].nodes@.len() as int].id@
        } else {
            module_id
        },
        None => module_id,
    }
}

/// Entry `k` was indexed from state `states[k]` to `states[k + 1]` (see
/// [`declared`]), in the module and under the owner its position gives.
pub open spec fn entry_indexed(
    states: Seq<Builder>,
    es: Seq<ItemEntry>,
    k: int,
    file_id: Seq<char>,
    relative: Seq<char>,
    source: Seq<char>,
    module_id: Seq<char>,
    module: Seq<char>,
) -> bool {
    declared(
        states[k],
        states[k + 1],
        entry_owner(states, es, k, module_id),
        file_id,
        relative,
        source,
        item_decls(es[k].item, entry_module(es, k, module)),
        item_refs(es[k].item, entry_module(es, k, module)),
    )
}

/// The number of lines of a source text, at least one.
pub open spec fn line_count(source: Seq<char>) -> nat {
    if crate::lines::lines_of(source).len() == 0 {
        1
    } else {
        crate::lines::lines_of(source).len()
    }
}

/// What indexing the file `file` of crate `crate_name` (root file
/// `target_root`, text `source`, items `entries`) did from `before` to
/// `after`, with `file_id` the file node's id (see [`index_file`]).
pub open spec fn file_indexed(
    before: Builder,
    after: Builder,
    crate_name: Seq<char>,
    target_root: Seq<char>,
    file: Seq<char>,
    source: Seq<char>,
    entries: Seq<ItemEntry>,
    file_id: Seq<char>,
) -> bool {
    let n0 = before.nodes@.len() as int;
    let rel = crate::paths::relative_spec(before.root@, file);
    let f = after.nodes@[n0];
    let m = after.nodes@[n0 + 1];
    &&& after.wf()
    &&& after.root == before.root
    &&& after.profile == before.profile
    &&& after.warnings == before.warnings
    &&& after.nodes@.len() >= n0 + 2
    &&& after.nodes@.take(n0) == before.nodes@
    &&& f.id@ == file_id
    &&& f.kind == NodeKind::File
    &&& f.name@ == rel
    &&& f.qualified_name@ == rel
    &&& opt_view(f.file) == Some(rel)
    &&& f.range == Some(crate::model::Range { start_line: 1, end_line: line_count(source) as usize })
    &&& crate::seqs::pairs_view(f.metrics@) == crate::helpers::file_metrics_spec(source)
    &&& m.kind == NodeKind::Module
    &&& m.name@ == crate::paths::module_name_spec(crate_name, target_root, file)
    &&& m.qualified_name@ == m.name@
    &&& opt_view(m.file) == Some(rel)
    &&& is_first_free(id_base(NodeKind::File, rel), before.claimed_ids(), file_id)
    &&& is_first_free(id_base(NodeKind::Module, m.name@), before.claimed_ids().insert(file_id), m.id@)
    &&& exists|states: Seq<Builder>|
        #![trigger states.len()]
        states.len() == entries.len() + 1 && states[0].nodes@ == after.nodes@.take(n0 + 2) && states[0].pending
            == before.pending && states.last() == after && forall|k: int|
            0 <= k < entries.len() ==> #[trigger] entry_indexed(states, entries, k, file_id, rel, source, m.id@, m.name@)
}

/// Indexes a source file of crate `crate_name` (whose target's root file is
/// `target_root`): a file node named by its path relative to the project root,
/// contained in the crate, with its line metrics; a module node for the file,
/// linked from it; then its items, in order, each under its inline module if it
/// has one, else under the file's module (see [`entry_indexed`],
/// [`entry_module`], [`entry_owner`]). Returns the file node's id.
pub fn index_file(
    b: &mut Builder,
    crate_id: &str,
    crate_name: &str,
    target_root: &str,
    file: &str,
    source: &str,
    entries: &Vec<ItemEntry>,
) -> (file_id: String)
    requires
        old(b).wf(),
        old(b).root@.len() >= 1,
        file@.len() >= 1,
        target_root@.len() >= 1,
        old(b).claimed() + 2 + entries_size(entries@) < usize::MAX - 2,
    ensures
        file_indexed(*old(b), *final(b), crate_name@, target_root@, file@, source@, entries@, file_id@),
{
    let ghost n0 = b.nodes@.len() as int;
    let relative = b.relative(file);
    let module = crate::paths::module_name(crate_name, target_root, file);
    let ls = crate::lines::split_lines(source);
    let lines = ls.len();
    assert(ls@.map_values(|l: Vec<char>| l@).len() == ls@.len());
    let end_line = if lines > 1 { lines } else { 1 };
    let file_id = b.add_node(crate::builder::NodeInput {
        kind: NodeKind::File,
        name: owned(relative.as_str()),
        qualified_name: owned(relative.as_str()),
        file: Some(owned(relative.as_str())),
        range: Some(crate::model::Range { start_line: 1, end_line }),
        visibility: None,
        signature: None,
        docs: Vec::new(),
        metrics: crate::helpers::file_metrics(source),
    });
    let ghost b1 = *b;
    let module_id = b.add_node(crate::builder::NodeInput {
        kind: NodeKind::Module,
        name: owned(module.as_str()),
        qualified_name: owned(module.as_str()),
        file: Some(owned(relative.as_str())),
        range: None,
        visibility: None,
        signature: None,
        docs: Vec::new(),
        metrics: Vec::new(),
    });
    let ghost s2 = *b;
    b.edge(crate_id, file_id.as_str(), EdgeKind::Contains, None, None, None);
    b.edge(file_id.as_str(), module_id.as_str(), EdgeKind::ModuleFile, None, None, None);
    let ghost head = b.nodes@;
    proof {
        lemma_frame(*b, s2);
        assert(entries@.take(0) =~= Seq::<ItemEntry>::empty());
        assert(head.len() == n0 + 2);
        assert(head.take(n0) =~= old(b).nodes@) by {
            assert(head.drop_last().drop_last() =~= head.take(n0));
        }
    }
    let mut mod_ids: Vec<Option<String>> = Vec::new();
    let mut mod_names: Vec<Option<String>> = Vec::new();
    let ghost es = entries@;
    let ghost mut states: Seq<Builder> = seq![*b];
    let ghost mid = module_id@;
    let ghost mname = module@;
    assert(head[n0 + 1].id@ == module_id@);
    let mut k: usize = 0;
    while k < entries.len()
        invariant
            k <= entries.len(),
            es == entries@,
            mid == module_id@,
            mname == module@,
            head[n0 + 1].id@ == mid,
            states.len() == k + 1,
            states[0].nodes@ == head,
            states[0].pending == old(b).pending,
            states[k as int] == *b,
            b.warnings == old(b).warnings,
            forall|j: int| 0 <= j < k ==> #[trigger] entry_indexed(states, es, j, file_id@, relative@, source@, mid, mname),
            forall|j: int|
                #![trigger mod_ids@[j]]
                0 <= j < k ==> (mod_ids@[j] is Some <==> es[j].item is Mod) && (mod_ids@[j] matches Some(id) ==> id@
                    == states[j + 1].nodes@[states[j].nodes@.len() as int].id@) && (mod_names@[j] matches Some(nm) ==> es[j].item is Mod && nm@ == path2(
                    entry_module(es, j, mname),
                    es[j].item->Mod_name@,
                )) && (es[j].item is Mod ==> mod_names@[j] is Some),
            b.wf(),
            b.root == old(b).root,
            b.profile == old(b).profile,
            head.len() == n0 + 2,
            b.nodes@.len() >= n0 + 2,
            b.nodes@.take(n0 + 2) == head,
            b.claimed() <= old(b).claimed() + 2 + entries_size(entries@.take(k as int)),
            old(b).claimed() + 2 + entries_size(entries@) < usize::MAX - 2,
            mod_ids.len() == k,
            mod_names.len() == k,
        decreases entries.len() - k,
    {
        proof {
            assert(entries@.take(k + 1).drop_last() =~= entries@.take(k as int));
            lemma_entries_prefix(entries@, k as int + 1);
        }
        let e = &entries[k];
        let mut owner: &str = module_id.as_str();
        let mut modname: &str = module.as_str();
        match e.parent {
            Some(p) => {
                if p < k {
                    match (&mod_ids[p], &mod_names[p]) {
                        (Some(id), Some(nm)) => {
                            owner = id.as_str();
                            modname = nm.as_str();
                        },
                        _ => {},
                    }
                }
            },
            None => {},
        }
        proof {
            assert(owner@ == entry_owner(states.push(states[k as int]), es, k as int, mid));
            assert(modname@ == entry_module(es, k as int, mname));
        }
        let ghost before = *b;
        let r = index_item(b, file_id.as_str(), owner, modname, relative.as_str(), source, &e.item);
        proof {
            let sb = states;
            states = states.push(*b);
            assert(states[k as int] == before);
            assert(entry_owner(states, es, k as int, mid) == entry_owner(sb.push(sb[k as int]), es, k as int, mid));
            assert(entry_indexed(states, es, k as int, file_id@, relative@, source@, mid, mname));
            assert forall|j: int| 0 <= j < k + 1 implies #[trigger] entry_indexed(states, es, j, file_id@, relative@, source@, mid, mname) by {
                if j < k {
                    assert(entry_indexed(sb, es, j, file_id@, relative@, source@, mid, mname));
                    assert(states[j] == sb[j] && states[j + 1] == sb[j + 1]);
                    assert(entry_owner(states, es, j, mid) == entry_owner(sb, es, j, mid));
                }
            }
        }
        proof {
            lemma_members_len(e.item, modname@);
            assert(b.nodes@.take(n0 + 2) =~= head) by {
                assert(b.nodes@.take(before.nodes@.len() as int) == before.nodes@);
                assert forall|i: int| 0 <= i < n0 + 2 implies b.nodes@[i] == before.nodes@[i] by {
                    assert(b.nodes@.take(before.nodes@.len() as int)[i] == b.nodes@[i]);
                }
                assert forall|i: int| 0 <= i < n0 + 2 implies before.nodes@[i] == head[i] by {
                    assert(before.nodes@.take(n0 + 2)[i] == before.nodes@[i]);
                }
            }
        }
        match r {
            Some(id) => {
                let nm = match &e.item {
                    ItemInfo::Mod { name, .. } => qual(modname, name.as_str()),
                    _ => owned(modname),
                };
                mod_ids.push(Some(id));
                mod_names.push(Some(nm));
            },
            None => {
                mod_ids.push(None);
                mod_names.push(None);
            },
        }
        proof {
            assert forall|j: int|
                #![trigger mod_ids@[j]]
                0 <= j < k + 1 implies (mod_ids@[j] is Some <==> es[j].item is Mod) && (mod_ids@[j] matches Some(id) ==> id@
                    == states[j + 1].nodes@[states[j].nodes@.len() as int].id@) && (mod_names@[j] matches Some(nm) ==> es[j].item is Mod && nm@ == path2(
                    entry_module(es, j, mname),
                    es[j].item->Mod_name@,
                )) && (es[j].item is Mod ==> mod_names@[j] is Some) by {
            }
        }
        k = k + 1;
    }
    proof {
        assert(b.nodes@.take(n0) =~= old(b).nodes@) by {
            assert forall|i: int| 0 <= i < n0 implies b.nodes@[i] == old(b).nodes@[i] by {
                assert(b.nodes@.take(n0 + 2)[i] == b.nodes@[i]);
                assert(head.take(n0)[i] == head[i]);
            }
        }
        assert(b.nodes@[n0] == head[n0]) by {
            assert(b.nodes@.take(n0 + 2)[n0] == b.nodes@[n0]);
        }
        assert(b.nodes@[n0 + 1] == head[n0 + 1]) by {
            assert(b.nodes@.take(n0 + 2)[n0 + 1] == b.nodes@[n0 + 1]);
        }
        assert(b.nodes@.take(n0 + 2) == head);
        assert(states.last() == *b);
    }
    file_id
}

proof fn lemma_entries_prefix(es: Seq<ItemEntry>, k: int)
    requires
        0 <= k <= es.len(),
    ensures
        entries_size(es.take(k)) <= entries_size(es),
    decreases es.len() - k,
{
    if k < es.len() {
        lemma_entries_prefix(es.drop_last(), k);
        assert(es.drop_last().take(k) =~= es.take(k));
    } else {
        assert(es.take(k) =~= es);
    }
}

} // verus!
