use vstd::prelude::*;
use crate::seqs::{
    count_where, lemma_count_where_bound, lemma_count_where_step, nats_view, pairs_view,
    strings_view, tally, tally_exec,
};
use crate::strs::{clone_strings, owned};

verus! {

// ---------------------------------------------------------------------------
// Graph data
// ---------------------------------------------------------------------------

/// A whole indexed project: its symbols (`nodes`), their relations (`edges`) and
/// what the indexer had to say along the way.
#[derive(Clone, Debug)]
pub struct CodeGraph {
    pub schema_version: u32,
    pub project: Project,
    pub nodes: Vec<Node>,
    pub edges: Vec<Edge>,
    pub warnings: Vec<String>,
    pub semantic: Option<SemanticInfo>,
    pub mir: Option<MirInfo>,
    pub profiles: Vec<BuildProfile>,
    pub generated_at_ms: u128,
}

#[derive(Clone, Debug)]
pub struct Project {
    pub root: String,
    pub workspace_root: String,
    pub packages: Vec<Package>,
}

#[derive(Clone, Debug)]
pub struct BuildProfile {
    pub name: String,
    pub features: Vec<String>,
    pub all_features: bool,
    pub no_default_features: bool,
    pub target: Option<String>,
}

#[derive(Clone, Debug)]
pub struct Package {
    pub name: String,
    pub manifest_path: String,
    pub targets: Vec<Target>,
}

#[derive(Clone, Debug)]
pub struct SemanticInfo {
    pub provider: String,
    pub enabled: bool,
    pub scanned_symbols: usize,
    pub enriched_symbols: usize,
    pub confirmed_symbols: usize,
    pub enriched_edges: usize,
    pub confirmed_edges: usize,
    pub unresolved_items: usize,
    pub warnings: Vec<String>,
}

#[derive(Clone, Debug)]
pub struct MirInfo {
    pub provider: String,
    pub enabled: bool,
    pub scanned_targets: usize,
    pub scanned_functions: usize,
    pub enriched_edges: usize,
    pub confirmed_edges: usize,
    pub unresolved_items: usize,
    pub warnings: Vec<String>,
}

#[derive(Clone, Debug)]
pub struct Target {
    pub name: String,
    pub kind: Vec<String>,
    pub src_path: String,
}

/// One symbol or structural element. `metrics` lists named counters in
/// increasing key order, each key at most once.
#[derive(Clone, Debug)]
pub struct Node {
    pub id: String,
    pub kind: NodeKind,
    pub name: String,
    pub qualified_name: String,
    pub file: Option<String>,
    pub range: Option<Range>,
    pub visibility: Option<String>,
    pub signature: Option<String>,
    pub docs: Option<String>,
    pub metrics: Vec<(String, usize)>,
}

#[derive(Clone, Copy, Debug, PartialEq, Eq, Structural, PartialOrd, Ord)]
pub enum NodeKind {
    Project,
    Crate,
    File,
    Module,
    Function,
    Method,
    Constructor,
    Variable,
    Field,
    Property,
    Struct,
    Enum,
    EnumMember,
    Trait,
    Impl,
    TypeAlias,
    TypeParameter,
    Const,
    Static,
    Macro,
    Unknown,
}

/// A directed relation between two nodes, identified by their ids.
#[derive(Clone, Debug)]
pub struct Edge {
    pub from: String,
    pub to: String,
    pub kind: EdgeKind,
    pub label: Option<String>,
    pub evidence: Option<Location>,
    pub weight: usize,
    pub source: EdgeSource,
    pub certainty: EdgeCertainty,
    pub call_style: Option<String>,
    pub profiles: Vec<String>,
}

#[derive(Clone, Copy, Debug, PartialEq, Eq, Structural)]
pub enum EdgeKind {
    Contains,
    Declares,
    Imports,
    Calls,
    Implements,
    HasMethod,
    UsesType,
    Returns,
    ModuleFile,
    PossibleDispatch,
}

#[derive(Clone, Copy, Debug, PartialEq, Eq, Structural)]
pub enum EdgeSource {
    Ast,
    RustAnalyzer,
    Mir,
    Inferred,
}

#[derive(Clone, Copy, Debug, PartialEq, Eq, Structural)]
pub enum EdgeCertainty {
    Definite,
    Confirmed,
    Inferred,
    Possible,
}

#[derive(Clone, Copy, Debug, PartialEq, Eq, Structural)]
pub struct Range {
    pub start_line: usize,
    pub end_line: usize,
}

#[derive(Clone, Debug)]
pub struct Location {
    pub file: String,
    pub line: usize,
}

/// Counts that summarize a graph. Each `by_*` list holds `(name, count)` pairs
/// for the names that occur, in increasing name order.
#[derive(Clone, Debug)]
pub struct GraphStats {
    pub nodes: usize,
    pub edges: usize,
    pub by_kind: Vec<(String, usize)>,
    pub by_edge: Vec<(String, usize)>,
    pub by_source: Vec<(String, usize)>,
    pub by_certainty: Vec<(String, usize)>,
    pub files: usize,
    pub symbols: usize,
    pub warnings: usize,
    pub semantic: Option<SemanticInfo>,
    pub mir: Option<MirInfo>,
}

// ---------------------------------------------------------------------------
// Names
// ---------------------------------------------------------------------------

impl NodeKind {
    pub open spec fn name_spec(self) -> Seq<char> {
        match self {
            NodeKind::Project => "project"@,
            NodeKind::Crate => "crate"@,
            NodeKind::File => "file"@,
            NodeKind::Module => "module"@,
            NodeKind::Function => "function"@,
            NodeKind::Method => "method"@,
            NodeKind::Constructor => "constructor"@,
            NodeKind::Variable => "variable"@,
            NodeKind::Field => "field"@,
            NodeKind::Property => "property"@,
            NodeKind::Struct => "struct"@,
            NodeKind::Enum => "enum"@,
            NodeKind::EnumMember => "enum_member"@,
            NodeKind::Trait => "trait"@,
            NodeKind::Impl => "impl"@,
            NodeKind::TypeAlias => "type_alias"@,
            NodeKind::TypeParameter => "type_parameter"@,
            NodeKind::Const => "const"@,
            NodeKind::Static => "static"@,
            NodeKind::Macro => "macro"@,
            NodeKind::Unknown => "unknown"@,
        }
    }

    /// The lower snake-case name of the kind.
    pub fn as_str(&self) -> (s: &'static str)
        ensures
            s@ == self.name_spec(),
    {
        match self {
            NodeKind::Project => "project",
            NodeKind::Crate => "crate",
            NodeKind::File => "file",
            NodeKind::Module => "module",
            NodeKind::Function => "function",
            NodeKind::Method => "method",
            NodeKind::Constructor => "constructor",
            NodeKind::Variable => "variable",
            NodeKind::Field => "field",
            NodeKind::Property => "property",
            NodeKind::Struct => "struct",
            NodeKind::Enum => "enum",
            NodeKind::EnumMember => "enum_member",
            NodeKind::Trait => "trait",
            NodeKind::Impl => "impl",
            NodeKind::TypeAlias => "type_alias",
            NodeKind::TypeParameter => "type_parameter",
            NodeKind::Const => "const",
            NodeKind::Static => "static",
            NodeKind::Macro => "macro",
            NodeKind::Unknown => "unknown",
        }
    }
}

impl EdgeKind {
    pub open spec fn name_spec(self) -> Seq<char> {
        match self {
            EdgeKind::Contains => "contains"@,
            EdgeKind::Declares => "declares"@,
            EdgeKind::Imports => "imports"@,
            EdgeKind::Calls => "calls"@,
            EdgeKind::Implements => "implements"@,
            EdgeKind::HasMethod => "has_method"@,
            EdgeKind::UsesType => "uses_type"@,
            EdgeKind::Returns => "returns"@,
            EdgeKind::ModuleFile => "module_file"@,
            EdgeKind::PossibleDispatch => "possible_dispatch"@,
        }
    }

    /// The lower snake-case name of the kind.
    pub fn as_str(&self) -> (s: &'static str)
        ensures
            s@ == self.name_spec(),
    {
        match self {
            EdgeKind::Contains => "contains",
            EdgeKind::Declares => "declares",
            EdgeKind::Imports => "imports",
            EdgeKind::Calls => "calls",
            EdgeKind::Implements => "implements",
            EdgeKind::HasMethod => "has_method",
            EdgeKind::UsesType => "uses_type",
            EdgeKind::Returns => "returns",
            EdgeKind::ModuleFile => "module_file",
            EdgeKind::PossibleDispatch => "possible_dispatch",
        }
    }
}

impl EdgeSource {
    pub open spec fn name_spec(self) -> Seq<char> {
        match self {
            EdgeSource::Ast => "ast"@,
            EdgeSource::RustAnalyzer => "rust_analyzer"@,
            EdgeSource::Mir => "mir"@,
            EdgeSource::Inferred => "inferred"@,
        }
    }

    /// The lower snake-case name of the source.
    pub fn as_str(&self) -> (s: &'static str)
        ensures
            s@ == self.name_spec(),
    {
        match self {
            EdgeSource::Ast => "ast",
            EdgeSource::RustAnalyzer => "rust_analyzer",
            EdgeSource::Mir => "mir",
            EdgeSource::Inferred => "inferred",
        }
    }
}

impl EdgeCertainty {
    pub open spec fn name_spec(self) -> Seq<char> {
        match self {
            EdgeCertainty::Definite => "definite"@,
            EdgeCertainty::Confirmed => "confirmed"@,
            EdgeCertainty::Inferred => "inferred"@,
            EdgeCertainty::Possible => "possible"@,
        }
    }

    /// The lower snake-case name of the certainty.
    pub fn as_str(&self) -> (s: &'static str)
        ensures
            s@ == self.name_spec(),
    {
        match self {
            EdgeCertainty::Definite => "definite",
            EdgeCertainty::Confirmed => "confirmed",
            EdgeCertainty::Inferred => "inferred",
            EdgeCertainty::Possible => "possible",
        }
    }
}

// ---------------------------------------------------------------------------
// Statistics
// ---------------------------------------------------------------------------

/// The node kinds in increasing order of their names.
pub open spec fn alpha_node_kind(i: int) -> NodeKind {
    if i == 0 { NodeKind::Const }
    else if i == 1 { NodeKind::Constructor }
    else if i == 2 { NodeKind::Crate }
    else if i == 3 { NodeKind::Enum }
    else if i == 4 { NodeKind::EnumMember }
    else if i == 5 { NodeKind::Field }
    else if i == 6 { NodeKind::File }
    else if i == 7 { NodeKind::Function }
    else if i == 8 { NodeKind::Impl }
    else if i == 9 { NodeKind::Macro }
    else if i == 10 { NodeKind::Method }
    else if i == 11 { NodeKind::Module }
    else if i == 12 { NodeKind::Project }
    else if i == 13 { NodeKind::Property }
    else if i == 14 { NodeKind::Static }
    else if i == 15 { NodeKind::Struct }
    else if i == 16 { NodeKind::Trait }
    else if i == 17 { NodeKind::TypeAlias }
    else if i == 18 { NodeKind::TypeParameter }
    else if i == 19 { NodeKind::Unknown }
    else { NodeKind::Variable }
}

/// Position of a node kind in [`alpha_node_kind`].
pub open spec fn alpha_node_index(k: NodeKind) -> int {
    match k {
        NodeKind::Const => 0,
        NodeKind::Constructor => 1,
        NodeKind::Crate => 2,
        NodeKind::Enum => 3,
        NodeKind::EnumMember => 4,
        NodeKind::Field => 5,
        NodeKind::File => 6,
        NodeKind::Function => 7,
        NodeKind::Impl => 8,
        NodeKind::Macro => 9,
        NodeKind::Method => 10,
        NodeKind::Module => 11,
        NodeKind::Project => 12,
        NodeKind::Property => 13,
        NodeKind::Static => 14,
        NodeKind::Struct => 15,
        NodeKind::Trait => 16,
        NodeKind::TypeAlias => 17,
        NodeKind::TypeParameter => 18,
        NodeKind::Unknown => 19,
        NodeKind::Variable => 20,
    }
}

pub open spec fn alpha_edge_kind(i: int) -> EdgeKind {
    if i == 0 { EdgeKind::Calls }
    else if i == 1 { EdgeKind::Contains }
    else if i == 2 { EdgeKind::Declares }
    else if i == 3 { EdgeKind::HasMethod }
    else if i == 4 { EdgeKind::Implements }
    else if i == 5 { EdgeKind::Imports }
    else if i == 6 { EdgeKind::ModuleFile }
    else if i == 7 { EdgeKind::PossibleDispatch }
    else if i == 8 { EdgeKind::Returns }
    else { EdgeKind::UsesType }
}

pub open spec fn alpha_edge_index(k: EdgeKind) -> int {
    match k {
        EdgeKind::Calls => 0,
        EdgeKind::Contains => 1,
        EdgeKind::Declares => 2,
        EdgeKind::HasMethod => 3,
        EdgeKind::Implements => 4,
        EdgeKind::Imports => 5,
        EdgeKind::ModuleFile => 6,
        EdgeKind::PossibleDispatch => 7,
        EdgeKind::Returns => 8,
        EdgeKind::UsesType => 9,
    }
}

pub open spec fn alpha_source(i: int) -> EdgeSource {
    if i == 0 { EdgeSource::Ast }
    else if i == 1 { EdgeSource::Inferred }
    else if i == 2 { EdgeSource::Mir }
    else { EdgeSource::RustAnalyzer }
}

pub open spec fn alpha_source_index(k: EdgeSource) -> int {
    match k {
        EdgeSource::Ast => 0,
        EdgeSource::Inferred => 1,
        EdgeSource::Mir => 2,
        EdgeSource::RustAnalyzer => 3,
    }
}

pub open spec fn alpha_certainty(i: int) -> EdgeCertainty {
    if i == 0 { EdgeCertainty::Confirmed }
    else if i == 1 { EdgeCertainty::Definite }
    else if i == 2 { EdgeCertainty::Inferred }
    else { EdgeCertainty::Possible }
}

pub open spec fn alpha_certainty_index(k: EdgeCertainty) -> int {
    match k {
        EdgeCertainty::Confirmed => 0,
        EdgeCertainty::Definite => 1,
        EdgeCertainty::Inferred => 2,
        EdgeCertainty::Possible => 3,
    }
}

/// Number of nodes of kind `k`.
pub open spec fn count_node_kind(nodes: Seq<Node>, k: NodeKind) -> nat {
    count_where(nodes, |n: Node| n.kind == k)
}

pub open spec fn count_edge_kind(edges: Seq<Edge>, k: EdgeKind) -> nat {
    count_where(edges, |e: Edge| e.kind == k)
}

pub open spec fn count_edge_source(edges: Seq<Edge>, k: EdgeSource) -> nat {
    count_where(edges, |e: Edge| e.source == k)
}

pub open spec fn count_edge_certainty(edges: Seq<Edge>, k: EdgeCertainty) -> nat {
    count_where(edges, |e: Edge| e.certainty == k)
}

/// Node kinds that are structure rather than symbols.
pub open spec fn is_structural_kind(k: NodeKind) -> bool {
    k == NodeKind::Project || k == NodeKind::Crate || k == NodeKind::File
}

/// `(name, count)` for every node kind that occurs, in name order.
pub open spec fn by_kind_spec(nodes: Seq<Node>) -> Seq<(Seq<char>, nat)> {
    tally(
        Seq::new(21, |i: int| alpha_node_kind(i).name_spec()),
        Seq::new(21, |i: int| count_node_kind(nodes, alpha_node_kind(i))),
    )
}

pub open spec fn by_edge_spec(edges: Seq<Edge>) -> Seq<(Seq<char>, nat)> {
    tally(
        Seq::new(10, |i: int| alpha_edge_kind(i).name_spec()),
        Seq::new(10, |i: int| count_edge_kind(edges, alpha_edge_kind(i))),
    )
}

pub open spec fn by_source_spec(edges: Seq<Edge>) -> Seq<(Seq<char>, nat)> {
    tally(
        Seq::new(4, |i: int| alpha_source(i).name_spec()),
        Seq::new(4, |i: int| count_edge_source(edges, alpha_source(i))),
    )
}

pub open spec fn by_certainty_spec(edges: Seq<Edge>) -> Seq<(Seq<char>, nat)> {
    tally(
        Seq::new(4, |i: int| alpha_certainty(i).name_spec()),
        Seq::new(4, |i: int| count_edge_certainty(edges, alpha_certainty(i))),
    )
}

/// Field-by-field equality of two semantic summaries.
pub open spec fn semantic_eq(a: SemanticInfo, b: SemanticInfo) -> bool {
    &&& a.provider@ == b.provider@
    &&& a.enabled == b.enabled
    &&& a.scanned_symbols == b.scanned_symbols
    &&& a.enriched_symbols == b.enriched_symbols
    &&& a.confirmed_symbols == b.confirmed_symbols
    &&& a.enriched_edges == b.enriched_edges
    &&& a.confirmed_edges == b.confirmed_edges
    &&& a.unresolved_items == b.unresolved_items
    &&& a.warnings@ == b.warnings@
}

/// Field-by-field equality of two MIR summaries.
pub open spec fn mir_eq(a: MirInfo, b: MirInfo) -> bool {
    &&& a.provider@ == b.provider@
    &&& a.enabled == b.enabled
    &&& a.scanned_targets == b.scanned_targets
    &&& a.scanned_functions == b.scanned_functions
    &&& a.enriched_edges == b.enriched_edges
    &&& a.confirmed_edges == b.confirmed_edges
    &&& a.unresolved_items == b.unresolved_items
    &&& a.warnings@ == b.warnings@
}

impl SemanticInfo {
    /// An equal copy.
    pub fn duplicate(&self) -> (r: SemanticInfo)
        ensures
            semantic_eq(r, *self),
    {
        SemanticInfo {
            provider: self.provider.clone(),
            enabled: self.enabled,
            scanned_symbols: self.scanned_symbols,
            enriched_symbols: self.enriched_symbols,
            confirmed_symbols: self.confirmed_symbols,
            enriched_edges: self.enriched_edges,
            confirmed_edges: self.confirmed_edges,
            unresolved_items: self.unresolved_items,
            warnings: clone_strings(&self.warnings),
        }
    }
}

impl MirInfo {
    /// An equal copy.
    pub fn duplicate(&self) -> (r: MirInfo)
        ensures
            mir_eq(r, *self),
    {
        MirInfo {
            provider: self.provider.clone(),
            enabled: self.enabled,
            scanned_targets: self.scanned_targets,
            scanned_functions: self.scanned_functions,
            enriched_edges: self.enriched_edges,
            confirmed_edges: self.confirmed_edges,
            unresolved_items: self.unresolved_items,
            warnings: clone_strings(&self.warnings),
        }
    }
}

fn node_kind_alpha_index(k: NodeKind) -> (i: usize)
    ensures
        i as int == alpha_node_index(k),
        alpha_node_kind(i as int) == k,
        i < 21,
{
    match k {
        NodeKind::Const => 0,
        NodeKind::Constructor => 1,
        NodeKind::Crate => 2,
        NodeKind::Enum => 3,
        NodeKind::EnumMember => 4,
        NodeKind::Field => 5,
        NodeKind::File => 6,
        NodeKind::Function => 7,
        NodeKind::Impl => 8,
        NodeKind::Macro => 9,
        NodeKind::Method => 10,
        NodeKind::Module => 11,
        NodeKind::Project => 12,
        NodeKind::Property => 13,
        NodeKind::Static => 14,
        NodeKind::Struct => 15,
        NodeKind::Trait => 16,
        NodeKind::TypeAlias => 17,
        NodeKind::TypeParameter => 18,
        NodeKind::Unknown => 19,
        NodeKind::Variable => 20,
    }
}

fn edge_kind_alpha_index(k: EdgeKind) -> (i: usize)
    ensures
        i as int == alpha_edge_index(k),
        alpha_edge_kind(i as int) == k,
        i < 10,
{
    match k {
        EdgeKind::Calls => 0,
        EdgeKind::Contains => 1,
        EdgeKind::Declares => 2,
        EdgeKind::HasMethod => 3,
        EdgeKind::Implements => 4,
        EdgeKind::Imports => 5,
        EdgeKind::ModuleFile => 6,
        EdgeKind::PossibleDispatch => 7,
        EdgeKind::Returns => 8,
        EdgeKind::UsesType => 9,
    }
}

fn source_alpha_index(k: EdgeSource) -> (i: usize)
    ensures
        i as int == alpha_source_index(k),
        alpha_source(i as int) == k,
        i < 4,
{
    match k {
        EdgeSource::Ast => 0,
        EdgeSource::Inferred => 1,
        EdgeSource::Mir => 2,
        EdgeSource::RustAnalyzer => 3,
    }
}

fn certainty_alpha_index(k: EdgeCertainty) -> (i: usize)
    ensures
        i as int == alpha_certainty_index(k),
        alpha_certainty(i as int) == k,
        i < 4,
{
    match k {
        EdgeCertainty::Confirmed => 0,
        EdgeCertainty::Definite => 1,
        EdgeCertainty::Inferred => 2,
        EdgeCertainty::Possible => 3,
    }
}

fn zeros(n: usize) -> (v: Vec<usize>)
    ensures
        v.len() == n,
        forall|i: int| 0 <= i < n ==> v@[i] == 0,
{
    let mut v: Vec<usize> = Vec::new();
    while v.len() < n
        invariant
            v.len() <= n,
            forall|i: int| 0 <= i < v.len() ==> v@[i] == 0,
        decreases n - v.len(),
    {
        v.push(0);
    }
    v
}

fn node_kind_names() -> (v: Vec<String>)
    ensures
        strings_view(v@) == Seq::new(21, |i: int| alpha_node_kind(i).name_spec()),
        v.len() == 21,
{
    let mut v: Vec<String> = Vec::new();
    let mut i: usize = 0;
    while i < 21
        invariant
            i <= 21,
            v.len() == i,
            strings_view(v@) == Seq::new(i as nat, |j: int| alpha_node_kind(j).name_spec()),
        decreases 21 - i,
    {
        let k = alpha_node_kind_exec(i);
        let ghost prev = v@;
        v.push(owned(k.as_str()));
        assert(strings_view(v@) =~= strings_view(prev).push(alpha_node_kind(i as int).name_spec()));
        assert(strings_view(v@) =~= Seq::new((i + 1) as nat, |j: int| alpha_node_kind(j).name_spec()));
        i = i + 1;
    }
    v
}

fn alpha_node_kind_exec(i: usize) -> (k: NodeKind)
    ensures
        k == alpha_node_kind(i as int),
{
    if i == 0 { NodeKind::Const }
    else if i == 1 { NodeKind::Constructor }
    else if i == 2 { NodeKind::Crate }
    else if i == 3 { NodeKind::Enum }
    else if i == 4 { NodeKind::EnumMember }
    else if i == 5 { NodeKind::Field }
    else if i == 6 { NodeKind::File }
    else if i == 7 { NodeKind::Function }
    else if i == 8 { NodeKind::Impl }
    else if i == 9 { NodeKind::Macro }
    else if i == 10 { NodeKind::Method }
    else if i == 11 { NodeKind::Module }
    else if i == 12 { NodeKind::Project }
    else if i == 13 { NodeKind::Property }
    else if i == 14 { NodeKind::Static }
    else if i == 15 { NodeKind::Struct }
    else if i == 16 { NodeKind::Trait }
    else if i == 17 { NodeKind::TypeAlias }
    else if i == 18 { NodeKind::TypeParameter }
    else if i == 19 { NodeKind::Unknown }
    else { NodeKind::Variable }
}

fn alpha_edge_kind_exec(i: usize) -> (k: EdgeKind)
    ensures
        k == alpha_edge_kind(i as int),
{
    if i == 0 { EdgeKind::Calls }
    else if i == 1 { EdgeKind::Contains }
    else if i == 2 { EdgeKind::Declares }
    else if i == 3 { EdgeKind::HasMethod }
    else if i == 4 { EdgeKind::Implements }
    else if i == 5 { EdgeKind::Imports }
    else if i == 6 { EdgeKind::ModuleFile }
    else if i == 7 { EdgeKind::PossibleDispatch }
    else if i == 8 { EdgeKind::Returns }
    else { EdgeKind::UsesType }
}

fn edge_kind_names() -> (v: Vec<String>)
    ensures
        strings_view(v@) == Seq::new(10, |i: int| alpha_edge_kind(i).name_spec()),
        v.len() == 10,
{
    let mut v: Vec<String> = Vec::new();
    let mut i: usize = 0;
    while i < 10
        invariant
            i <= 10,
            v.len() == i,
            strings_view(v@) == Seq::new(i as nat, |j: int| alpha_edge_kind(j).name_spec()),
        decreases 10 - i,
    {
        let k = alpha_edge_kind_exec(i);
        let ghost prev = v@;
        v.push(owned(k.as_str()));
        assert(strings_view(v@) =~= strings_view(prev).push(alpha_edge_kind(i as int).name_spec()));
        assert(strings_view(v@) =~= Seq::new((i + 1) as nat, |j: int| alpha_edge_kind(j).name_spec()));
        i = i + 1;
    }
    v
}

fn source_names() -> (v: Vec<String>)
    ensures
        strings_view(v@) == Seq::new(4, |i: int| alpha_source(i).name_spec()),
        v.len() == 4,
{
    let v = vec![owned("ast"), owned("inferred"), owned("mir"), owned("rust_analyzer")];
    assert(strings_view(v@) =~= Seq::new(4, |i: int| alpha_source(i).name_spec()));
    v
}

fn certainty_names() -> (v: Vec<String>)
    ensures
        strings_view(v@) == Seq::new(4, |i: int| alpha_certainty(i).name_spec()),
        v.len() == 4,
{
    let v = vec![owned("confirmed"), owned("definite"), owned("inferred"), owned("possible")];
    assert(strings_view(v@) =~= Seq::new(4, |i: int| alpha_certainty(i).name_spec()));
    v
}

/// Number of nodes that are symbols (not project, crate or file nodes).
pub open spec fn count_symbols(nodes: Seq<Node>) -> nat {
    count_where(nodes, |n: Node| !is_structural_kind(n.kind))
}

impl CodeGraph {
    /// Summary counts of the graph.
    pub fn stats(&self) -> (r: GraphStats)
        ensures
            r.nodes == self.nodes.len(),
            r.edges == self.edges.len(),
            pairs_view(r.by_kind@) == by_kind_spec(self.nodes@),
            pairs_view(r.by_edge@) == by_edge_spec(self.edges@),
            pairs_view(r.by_source@) == by_source_spec(self.edges@),
            pairs_view(r.by_certainty@) == by_certainty_spec(self.edges@),
            r.files == count_node_kind(self.nodes@, NodeKind::File),
            r.symbols == count_symbols(self.nodes@),
            r.warnings == self.warnings.len(),
            r.semantic is Some <==> self.semantic is Some,
            r.semantic is Some ==> semantic_eq(r.semantic->0, self.semantic->0),
            r.mir is Some <==> self.mir is Some,
            r.mir is Some ==> mir_eq(r.mir->0, self.mir->0),
    {
        let nodes = &self.nodes;
        let edges = &self.edges;
        let mut kinds = zeros(21);
        let mut symbols: usize = 0;
        let mut i: usize = 0;
        while i < nodes.len()
            invariant
                i <= nodes.len(),
                kinds.len() == 21,
                forall|j: int|
                    0 <= j < 21 ==> kinds@[j] == count_node_kind(
                        nodes@.take(i as int),
                        alpha_node_kind(j),
                    ),
                symbols == count_symbols(nodes@.take(i as int)),
            decreases nodes.len() - i,
        {
            let k = nodes[i].kind;
            let idx = node_kind_alpha_index(k);
            proof {
                assert forall|j: int| 0 <= j < 21 implies count_node_kind(
                    nodes@.take(i + 1),
                    alpha_node_kind(j),
                ) == count_node_kind(nodes@.take(i as int), alpha_node_kind(j)) + if j
                    == idx as int {
                    1nat
                } else {
                    0nat
                } by {
                    let kj = alpha_node_kind(j);
                    lemma_count_where_step(nodes@, |n: Node| n.kind == kj, i as int);
                    if j != idx as int {
                        assert(alpha_node_index(alpha_node_kind(j)) == j);
                    }
                }
                lemma_count_where_step(nodes@, |n: Node| !is_structural_kind(n.kind), i as int);
                lemma_count_where_bound(nodes@.take(i as int), |n: Node| n.kind == k);
                lemma_count_where_bound(nodes@.take(i as int), |n: Node| !is_structural_kind(n.kind));
            }
            let c = kinds[idx];
            kinds.set(idx, c + 1);
            if !(k == NodeKind::Project || k == NodeKind::Crate || k == NodeKind::File) {
                symbols = symbols + 1;
            }
            i = i + 1;
        }
        assert(nodes@.take(nodes.len() as int) =~= nodes@);
        let mut ek = zeros(10);
        let mut es = zeros(4);
        let mut ec = zeros(4);
        let mut i: usize = 0;
        while i < edges.len()
            invariant
                i <= edges.len(),
                ek.len() == 10,
                es.len() == 4,
                ec.len() == 4,
                forall|j: int|
                    0 <= j < 10 ==> ek@[j] == count_edge_kind(
                        edges@.take(i as int),
                        alpha_edge_kind(j),
                    ),
                forall|j: int|
                    0 <= j < 4 ==> es@[j] == count_edge_source(
                        edges@.take(i as int),
                        alpha_source(j),
                    ),
                forall|j: int|
                    0 <= j < 4 ==> ec@[j] == count_edge_certainty(
                        edges@.take(i as int),
                        alpha_certainty(j),
                    ),
            decreases edges.len() - i,
        {
            let e = &edges[i];
            let a = edge_kind_alpha_index(e.kind);
            let b = source_alpha_index(e.source);
            let c = certainty_alpha_index(e.certainty);
            proof {
                assert forall|j: int| 0 <= j < 10 implies count_edge_kind(
                    edges@.take(i + 1),
                    alpha_edge_kind(j),
                ) == count_edge_kind(edges@.take(i as int), alpha_edge_kind(j)) + if j
                    == a as int {
                    1nat
                } else {
                    0nat
                } by {
                    let kj = alpha_edge_kind(j);
                    lemma_count_where_step(edges@, |x: Edge| x.kind == kj, i as int);
                    if j != a as int {
                        assert(alpha_edge_index(alpha_edge_kind(j)) == j);
                    }
                }
                assert forall|j: int| 0 <= j < 4 implies count_edge_source(
                    edges@.take(i + 1),
                    alpha_source(j),
                ) == count_edge_source(edges@.take(i as int), alpha_source(j)) + if j
                    == b as int {
                    1nat
                } else {
                    0nat
                } by {
                    let kj = alpha_source(j);
                    lemma_count_where_step(edges@, |x: Edge| x.source == kj, i as int);
                    if j != b as int {
                        assert(alpha_source_index(alpha_source(j)) == j);
                    }
                }
                assert forall|j: int| 0 <= j < 4 implies count_edge_certainty(
                    edges@.take(i + 1),
                    alpha_certainty(j),
                ) == count_edge_certainty(edges@.take(i as int), alpha_certainty(j)) + if j
                    == c as int {
                    1nat
                } else {
                    0nat
                } by {
                    let kj = alpha_certainty(j);
                    lemma_count_where_step(edges@, |x: Edge| x.certainty == kj, i as int);
                    if j != c as int {
                        assert(alpha_certainty_index(alpha_certainty(j)) == j);
                    }
                }
                let ka = e.kind;
                let kb = e.source;
                let kc = e.certainty;
                lemma_count_where_bound(edges@.take(i as int), |x: Edge| x.kind == ka);
                lemma_count_where_bound(edges@.take(i as int), |x: Edge| x.source == kb);
                lemma_count_where_bound(edges@.take(i as int), |x: Edge| x.certainty == kc);
            }
            let v = ek[a];
            ek.set(a, v + 1);
            let v = es[b];
            es.set(b, v + 1);
            let v = ec[c];
            ec.set(c, v + 1);
            i = i + 1;
        }
        assert(edges@.take(edges.len() as int) =~= edges@);
        proof {
            assert(nats_view(kinds@) =~= Seq::new(21, |j: int| count_node_kind(nodes@, alpha_node_kind(j))));
            assert(nats_view(ek@) =~= Seq::new(10, |j: int| count_edge_kind(edges@, alpha_edge_kind(j))));
            assert(nats_view(es@) =~= Seq::new(4, |j: int| count_edge_source(edges@, alpha_source(j))));
            assert(nats_view(ec@) =~= Seq::new(4, |j: int| count_edge_certainty(edges@, alpha_certainty(j))));
        }
        let by_kind = tally_exec(&node_kind_names(), &kinds);
        let by_edge = tally_exec(&edge_kind_names(), &ek);
        let by_source = tally_exec(&source_names(), &es);
        let by_certainty = tally_exec(&certainty_names(), &ec);
        let files = kinds[6];
        let semantic = match &self.semantic {
            Some(info) => Some(info.duplicate()),
            None => None,
        };
        let mir = match &self.mir {
            Some(info) => Some(info.duplicate()),
            None => None,
        };
        GraphStats {
            nodes: nodes.len(),
            edges: edges.len(),
            by_kind,
            by_edge,
            by_source,
            by_certainty,
            files,
            symbols,
            warnings: self.warnings.len(),
            semantic,
            mir,
        }
    }
}

} // verus!
