//! The compiled architecture: nodes, files and what was found about them.
use vstd::prelude::*;
use crate::config::{copy_interfaces, interface_views, Interface, NodeKind, ProjectConfig, RuleConfig};
use crate::evidence::{CompiledEdge, ResolvedEdge};
use crate::rules::Violation;
use crate::strmap::StrMap;
use crate::text::{copy_opt, copy_strings, opt_view, views};

verus! {

/// Observed edges are checked, manual ones only drawn.
pub const EVIDENCE_LIMIT: usize = 20;

#[derive(Debug, Clone, PartialEq, Eq)]
pub struct ProviderInfo {
    pub provider: String,
    pub version: Option<String>,
    pub repository: Option<String>,
}

#[derive(Clone)]
pub struct CompiledNode {
    pub id: String,
    pub title: String,
    pub kind: NodeKind,
    pub description: Option<String>,
    pub parent: Option<String>,
    pub children: Vec<String>,
    pub direct_files: Vec<String>,
    pub descendant_file_count: usize,
    /// Descendant files with at least one resolved observed dependency, in
    /// either direction. A low ratio means a clean check is weak evidence.
    pub observed_file_count: usize,
    /// Descendant files absent from the provider's index altogether.
    pub unindexed_file_count: usize,
    pub interfaces: Vec<Interface>,
}

/// What a compiled node holds, as values.
pub struct NodeView {
    pub id: Seq<char>,
    pub title: Seq<char>,
    pub kind: NodeKind,
    pub description: Option<Seq<char>>,
    pub parent: Option<Seq<char>>,
    pub children: Seq<Seq<char>>,
    pub direct_files: Seq<Seq<char>>,
    pub descendant_file_count: usize,
    pub observed_file_count: usize,
    pub unindexed_file_count: usize,
    pub interfaces: Seq<(Seq<char>, Seq<char>, Option<Seq<char>>, Option<Seq<char>>, Option<Seq<char>>, Option<Seq<char>>)>,
}

pub open spec fn node_view(n: CompiledNode) -> NodeView {
    NodeView {
        id: n.id@,
        title: n.title@,
        kind: n.kind,
        description: opt_view(n.description),
        parent: opt_view(n.parent),
        children: views(n.children@),
        direct_files: views(n.direct_files@),
        descendant_file_count: n.descendant_file_count,
        observed_file_count: n.observed_file_count,
        unindexed_file_count: n.unindexed_file_count,
        interfaces: interface_views(n.interfaces@),
    }
}

impl CompiledNode {
    /// A copy of the node.
    pub fn duplicate(&self) -> (r: CompiledNode)
        ensures
            node_view(r) == node_view(*self),
    {
        CompiledNode {
            id: self.id.clone(),
            title: self.title.clone(),
            kind: self.kind,
            description: copy_opt(&self.description),
            parent: copy_opt(&self.parent),
            children: copy_strings(&self.children),
            direct_files: copy_strings(&self.direct_files),
            descendant_file_count: self.descendant_file_count,
            observed_file_count: self.observed_file_count,
            unindexed_file_count: self.unindexed_file_count,
            interfaces: copy_interfaces(&self.interfaces),
        }
    }
}

#[derive(Debug, Clone, PartialEq, Eq)]
pub struct CompiledFile {
    pub path: String,
    pub node: Option<String>,
    pub ambiguous_matches: Vec<String>,
}

#[derive(Debug, Clone, Copy, PartialEq, Eq, PartialOrd, Ord, Structural)]
pub enum EdgeOrigin {
    Observed,
    Manual,
}

/// One architecture-level dependency (all participating relation kinds).
#[derive(Debug, Clone, PartialEq, Eq)]
pub struct CycleCut {
    pub from: String,
    pub to: String,
    pub count: usize,
}

pub open spec fn cut_view(c: CycleCut) -> (Seq<char>, Seq<char>, usize) {
    (c.from@, c.to@, c.count)
}

pub open spec fn cut_views(v: Seq<CycleCut>) -> Seq<(Seq<char>, Seq<char>, usize)> {
    v.map_values(|c: CycleCut| cut_view(c))
}

/// A copy of a list of cuts.
pub fn copy_cuts(v: &Vec<CycleCut>) -> (r: Vec<CycleCut>)
    ensures
        cut_views(r@) == cut_views(v@),
{
    let mut out: Vec<CycleCut> = Vec::new();
    let mut i: usize = 0;
    while i < v.len()
        invariant
            i <= v@.len(),
            cut_views(out@) == cut_views(v@).take(i as int),
        decreases v@.len() - i,
    {
        let ghost before = out@;
        let c = CycleCut { from: v[i].from.clone(), to: v[i].to.clone(), count: v[i].count };
        out.push(c);
        proof {
            assert(cut_views(out@) =~= cut_views(before).push(cut_view(v@[i as int])));
            assert(cut_views(v@).take(i + 1) =~= cut_views(v@).take(i as int).push(cut_view(v@[i as int])));
        }
        i = i + 1;
    }
    proof {
        assert(cut_views(v@).take(v@.len() as int) =~= cut_views(v@));
    }
    out
}

pub struct Diagnostics {
    pub low_coverage: Vec<CoverageIssue>,
    pub unassigned_files: Vec<String>,
    pub ambiguous_files: StrMap<Vec<String>>,
    pub provider_anomalies: Vec<ProviderAnomaly>,
    /// Mapped files the provider did not index (empty if it cannot list files).
    pub unindexed_files: Vec<String>,
    pub warnings: Vec<String>,
}

impl Diagnostics {
    /// Diagnostics that report nothing.
    pub fn new() -> (r: Self)
        ensures
            r.low_coverage@.len() == 0,
            r.unassigned_files@.len() == 0,
            r.ambiguous_files.keys().len() == 0,
            r.provider_anomalies@.len() == 0,
            r.unindexed_files@.len() == 0,
            r.warnings@.len() == 0,
    {
        Diagnostics {
            low_coverage: Vec::new(),
            unassigned_files: Vec::new(),
            ambiguous_files: StrMap::new(),
            provider_anomalies: Vec::new(),
            unindexed_files: Vec::new(),
            warnings: Vec::new(),
        }
    }
}

/// A rule refers to a node whose files are mostly invisible to the provider.
#[derive(Debug, Clone, PartialEq, Eq)]
pub struct CoverageIssue {
    pub rule_id: String,
    pub node: String,
    pub observed_files: usize,
    /// Files the provider never indexed; they cannot show dependencies.
    pub unindexed_files: usize,
    pub total_files: usize,
}

#[derive(Debug, Clone, PartialEq, Eq)]
pub struct ProviderAnomaly {
    pub from_file: String,
    pub to_file: String,
    pub message: String,
    pub count: usize,
}

#[derive(Debug, Clone, Copy, PartialEq, Eq, Default)]
pub struct CompileStats {
    pub architecture_node_count: usize,
    pub mapped_file_count: usize,
    pub unassigned_file_count: usize,
    pub ambiguous_file_count: usize,
    /// Rows returned by the provider before filtering and collapsing.
    pub provider_row_count: usize,
    /// Rows dropped by provider.edge_types, exclude_reasons or min_confidence.
    pub filtered_edge_count: usize,
    /// Distinct file-level observations (file pair + relation kind).
    pub observed_edge_count: usize,
    /// Observations whose both files map to architecture nodes.
    pub resolved_edge_count: usize,
    /// Observations with an endpoint deliberately outside the project scope.
    pub out_of_scope_edge_count: usize,
    pub unindexed_file_count: usize,
    pub aggregated_architecture_edge_count: usize,
    pub violation_count: usize,
}

/// A compiled architecture: its nodes by ID, its files, the observed and
/// architecture-level dependencies, and the rules with their violations.
pub struct ArchitectureIr {
    pub schema_version: u32,
    pub project: ProjectConfig,
    pub provider: ProviderInfo,
    pub nodes: StrMap<CompiledNode>,
    pub files: Vec<CompiledFile>,
    pub resolved_edges: Vec<ResolvedEdge>,
    pub edges: Vec<CompiledEdge>,
    pub rules: Vec<RuleConfig>,
    pub violations: Vec<Violation>,
    pub diagnostics: Diagnostics,
    pub stats: CompileStats,
    pub evidence_notice: String,
}

} // verus!
