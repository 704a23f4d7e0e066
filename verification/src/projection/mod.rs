//! Entries of a projected view of the architecture and how they are named.
use vstd::prelude::*;
use crate::config::{copy_interfaces, interface_views, Interface, NodeKind};
use crate::model::CompiledNode;
use crate::evidence::CompiledEdge;
use crate::rules::Violation;
use crate::text::{cat2, cat3, copy_opt, decimal, decimal_spec, opt_view};

pub mod zoom;

pub use zoom::{project, project_with};

verus! {

#[derive(Debug, Clone, Copy, PartialEq, Eq, Structural)]
pub enum EntryKind {
    Architecture,
    File,
    DirectFiles,
    Boundary,
}

#[derive(Clone)]
pub struct NodeSummary {
    pub id: String,
    pub title: String,
    pub kind: NodeKind,
    pub description: Option<String>,
    pub descendant_file_count: usize,
    pub observed_file_count: usize,
    pub interfaces: Vec<Interface>,
}

/// What a summary holds, as values.
pub open spec fn summary_view(s: NodeSummary) -> (Seq<char>, Seq<char>, NodeKind, Option<Seq<char>>, usize, usize, Seq<(Seq<char>, Seq<char>, Option<Seq<char>>, Option<Seq<char>>, Option<Seq<char>>, Option<Seq<char>>)>) {
    (s.id@, s.title@, s.kind, opt_view(s.description), s.descendant_file_count, s.observed_file_count, interface_views(s.interfaces@))
}

/// What the summary of a compiled node holds.
pub open spec fn summary_of(n: CompiledNode) -> (Seq<char>, Seq<char>, NodeKind, Option<Seq<char>>, usize, usize, Seq<(Seq<char>, Seq<char>, Option<Seq<char>>, Option<Seq<char>>, Option<Seq<char>>, Option<Seq<char>>)>) {
    (n.id@, n.title@, n.kind, opt_view(n.description), n.descendant_file_count, n.observed_file_count, interface_views(n.interfaces@))
}

impl NodeSummary {
    /// The summary of a compiled node.
    pub fn of(node: &CompiledNode) -> (r: NodeSummary)
        ensures
            summary_view(r) == summary_of(*node),
    {
        NodeSummary {
            id: node.id.clone(),
            title: node.title.clone(),
            kind: node.kind,
            description: copy_opt(&node.description),
            descendant_file_count: node.descendant_file_count,
            observed_file_count: node.observed_file_count,
            interfaces: copy_interfaces(&node.interfaces),
        }
    }
}

#[derive(Clone)]
pub struct ProjectionNode {
    /// Namespaced UI identity, never confused with an authored architecture ID.
    pub id: String,
    pub title: String,
    pub entry_kind: EntryKind,
    pub architecture_id: Option<String>,
    pub node_kind: Option<NodeKind>,
    pub file_path: Option<String>,
    pub file_count: usize,
    /// Architecture entries only: files with any observed dependency.
    pub observed_file_count: Option<usize>,
    pub description: Option<String>,
    pub interfaces: Vec<Interface>,
    pub outside_focus: bool,
    pub violation_rule_ids: Vec<String>,
}

/// An architecture-level dependency between two entries, with the rules it
/// breaks and those whose suggested cut holds it.
pub struct ProjectionEdge {
    pub edge: CompiledEdge,
    pub violation_rule_ids: Vec<String>,
    /// `no_cycles` rules whose cheapest cut includes this dependency.
    pub suggested_cut_rule_ids: Vec<String>,
}

/// The architecture seen from one focus node: its ancestors, the entries
/// inside and around it, the dependencies between those, and the
/// violations that concern them.
pub struct Projection {
    pub focus: CompiledNode,
    pub breadcrumbs: Vec<NodeSummary>,
    pub nodes: Vec<ProjectionNode>,
    pub edges: Vec<ProjectionEdge>,
    pub violations: Vec<Violation>,
    pub evidence_limit: usize,
    pub evidence_notice: String,
}

/// The human-facing name of an entry: the architecture ID or file path,
/// never the namespaced `node:`/`file:` UI identity.
pub open spec fn display_name_spec(node: ProjectionNode) -> Seq<char> {
    let id = match node.architecture_id {
        Some(a) => a@,
        None => node.id@,
    };
    match node.entry_kind {
        EntryKind::File => match node.file_path {
            Some(p) => p@,
            None => node.id@,
        },
        EntryKind::Architecture => id,
        EntryKind::DirectFiles => id + " (direct files)"@,
        EntryKind::Boundary => id + " (boundary)"@,
    }
}

pub fn display_name(node: &ProjectionNode) -> (r: String)
    ensures
        r@ == display_name_spec(*node),
{
    let id: &str = match &node.architecture_id {
        Some(a) => a.as_str(),
        None => node.id.as_str(),
    };
    match node.entry_kind {
        EntryKind::File => match &node.file_path {
            Some(p) => p.clone(),
            None => node.id.clone(),
        },
        EntryKind::Architecture => String::from_str(id),
        EntryKind::DirectFiles => cat2(id, " (direct files)"),
        EntryKind::Boundary => cat2(id, " (boundary)"),
    }
}

/// Some entry has the identity.
pub open spec fn has_entry(nodes: Seq<ProjectionNode>, id: Seq<char>) -> bool {
    exists|j: int| 0 <= j < nodes.len() && (#[trigger] nodes[j]).id@ == id
}

/// The first entry with the identity, if any.
pub open spec fn first_entry(s: Seq<ProjectionNode>, id: Seq<char>) -> Option<ProjectionNode>
    decreases s.len(),
{
    if s.len() == 0 {
        None
    } else {
        match first_entry(s.drop_last(), id) {
            Some(x) => Some(x),
            None => if s.last().id@ == id {
                Some(s.last())
            } else {
                None
            },
        }
    }
}

impl Projection {
    /// The display name of the entry with the identity, e.g. an edge's end,
    /// or the identity itself when no entry has it.
    pub fn endpoint_name(&self, id: &str) -> (r: String)
        ensures
            r@ == match first_entry(self.nodes@, id@) {
                Some(n) => display_name_spec(n),
                None => id@,
            },
    {
        let mut i: usize = 0;
        proof {
            assert(self.nodes@.take(0) =~= Seq::<ProjectionNode>::empty());
        }
        while i < self.nodes.len()
            invariant
                i <= self.nodes@.len(),
                first_entry(self.nodes@.take(i as int), id@) is None,
            decreases self.nodes@.len() - i,
        {
            proof {
                assert(self.nodes@.take(i + 1).drop_last() =~= self.nodes@.take(i as int));
                assert(self.nodes@.take(i + 1).last() == self.nodes@[i as int]);
            }
            if crate::text::str_eq(self.nodes[i].id.as_str(), id) {
                proof {
                    lemma_first_entry_prefix(self.nodes@, i + 1, id@);
                }
                return display_name(&self.nodes[i]);
            }
            i = i + 1;
        }
        proof {
            assert(self.nodes@.take(self.nodes@.len() as int) =~= self.nodes@);
        }
        String::from_str(id)
    }
}

/// An entry found among the first `n` is the first in the whole list.
proof fn lemma_first_entry_prefix(s: Seq<ProjectionNode>, n: int, id: Seq<char>)
    requires
        0 <= n <= s.len(),
        first_entry(s.take(n), id) is Some,
    ensures
        first_entry(s, id) == first_entry(s.take(n), id),
    decreases s.len() - n,
{
    if n < s.len() {
        assert(s.take(n + 1).drop_last() =~= s.take(n));
        lemma_first_entry_prefix(s, n + 1, id);
    } else {
        assert(s.take(n) =~= s);
    }
}

/// " (N observed)" for architecture entries; empty for files and synthetic
/// entries.
pub fn observed_suffix(node: &ProjectionNode) -> (r: String)
    ensures
        match node.observed_file_count {
            Some(n) => r@ == " ("@ + decimal_spec(n as nat) + " observed)"@,
            None => r@.len() == 0,
        },
{
    match node.observed_file_count {
        Some(n) => {
            let digits = decimal(n as u128);
            cat3(" (", digits.as_str(), " observed)")
        },
        None => String::new(),
    }
}


/// What an entry holds besides the rules that mark it, as values.
pub struct EntryView {
    pub id: Seq<char>,
    pub title: Seq<char>,
    pub entry_kind: EntryKind,
    pub architecture_id: Option<Seq<char>>,
    pub node_kind: Option<NodeKind>,
    pub file_path: Option<Seq<char>>,
    pub file_count: usize,
    pub observed_file_count: Option<usize>,
    pub description: Option<Seq<char>>,
    pub interfaces: Seq<(Seq<char>, Seq<char>, Option<Seq<char>>, Option<Seq<char>>, Option<Seq<char>>, Option<Seq<char>>)>,
    pub outside_focus: bool,
}

pub open spec fn entry_base(n: ProjectionNode) -> EntryView {
    EntryView {
        id: n.id@,
        title: n.title@,
        entry_kind: n.entry_kind,
        architecture_id: opt_view(n.architecture_id),
        node_kind: n.node_kind,
        file_path: opt_view(n.file_path),
        file_count: n.file_count,
        observed_file_count: n.observed_file_count,
        description: opt_view(n.description),
        interfaces: interface_views(n.interfaces@),
        outside_focus: n.outside_focus,
    }
}

/// The entry of an architecture node: a child of the focus, or a node
/// outside it.
pub open spec fn arch_spec(node: CompiledNode, outside: bool) -> EntryView {
    EntryView {
        id: "node:"@ + node.id@,
        title: node.title@,
        entry_kind: EntryKind::Architecture,
        architecture_id: Some(node.id@),
        node_kind: Some(node.kind),
        file_path: None,
        file_count: node.descendant_file_count,
        observed_file_count: Some(node.observed_file_count),
        description: opt_view(node.description),
        interfaces: interface_views(node.interfaces@),
        outside_focus: outside,
    }
}

/// The entry of one file of a leaf focus.
pub open spec fn file_spec(path: Seq<char>, node: CompiledNode) -> EntryView {
    EntryView {
        id: "file:"@ + path,
        title: path,
        entry_kind: EntryKind::File,
        architecture_id: Some(node.id@),
        node_kind: None,
        file_path: Some(path),
        file_count: 1,
        observed_file_count: None,
        description: None,
        interfaces: Seq::empty(),
        outside_focus: false,
    }
}

/// The entry of the files mapped to the focus itself rather than a child.
pub open spec fn direct_spec(focus: CompiledNode) -> EntryView {
    EntryView {
        id: "direct:"@ + focus.id@,
        title: "Directly owned files"@,
        entry_kind: EntryKind::DirectFiles,
        architecture_id: Some(focus.id@),
        node_kind: Some(focus.kind),
        file_path: None,
        file_count: focus.direct_files@.len() as usize,
        observed_file_count: None,
        description: Some("Files mapped directly to this focus, rather than an authored child."@),
        interfaces: Seq::empty(),
        outside_focus: false,
    }
}

/// The entry of a manual edge that names the focus itself.
pub open spec fn boundary_spec(focus: CompiledNode) -> EntryView {
    EntryView {
        id: "boundary:"@ + focus.id@,
        title: focus.title@ + " (boundary)"@,
        entry_kind: EntryKind::Boundary,
        architecture_id: Some(focus.id@),
        node_kind: Some(focus.kind),
        file_path: None,
        file_count: focus.descendant_file_count,
        observed_file_count: None,
        description: Some("An authored manual edge names the focus itself; it cannot be attributed to a particular child or file."@),
        interfaces: interface_views(focus.interfaces@),
        outside_focus: false,
    }
}

pub fn architecture_entry(node: &CompiledNode, outside: bool) -> (r: ProjectionNode)
    ensures
        entry_base(r) == arch_spec(*node, outside),
        r.violation_rule_ids@.len() == 0,
{
    ProjectionNode {
        id: cat2("node:", node.id.as_str()),
        title: node.title.clone(),
        entry_kind: EntryKind::Architecture,
        architecture_id: Some(node.id.clone()),
        node_kind: Some(node.kind),
        file_path: None,
        file_count: node.descendant_file_count,
        observed_file_count: Some(node.observed_file_count),
        description: copy_opt(&node.description),
        interfaces: copy_interfaces(&node.interfaces),
        outside_focus: outside,
        violation_rule_ids: Vec::new(),
    }
}

pub fn file_entry(path: &str, node: &CompiledNode) -> (r: ProjectionNode)
    ensures
        entry_base(r) == file_spec(path@, *node),
        r.violation_rule_ids@.len() == 0,
{
    let r = ProjectionNode {
        id: cat2("file:", path),
        title: String::from_str(path),
        entry_kind: EntryKind::File,
        architecture_id: Some(node.id.clone()),
        node_kind: None,
        file_path: Some(String::from_str(path)),
        file_count: 1,
        observed_file_count: None,
        description: None,
        interfaces: Vec::new(),
        outside_focus: false,
        violation_rule_ids: Vec::new(),
    };
    proof {
        assert(interface_views(r.interfaces@) =~= Seq::empty());
    }
    r
}

pub fn direct_entry(focus: &CompiledNode) -> (r: ProjectionNode)
    ensures
        entry_base(r) == direct_spec(*focus),
        r.violation_rule_ids@.len() == 0,
{
    let r = ProjectionNode {
        id: cat2("direct:", focus.id.as_str()),
        title: String::from_str("Directly owned files"),
        entry_kind: EntryKind::DirectFiles,
        architecture_id: Some(focus.id.clone()),
        node_kind: Some(focus.kind),
        file_path: None,
        file_count: focus.direct_files.len(),
        observed_file_count: None,
        description: Some(String::from_str("Files mapped directly to this focus, rather than an authored child.")),
        interfaces: Vec::new(),
        outside_focus: false,
        violation_rule_ids: Vec::new(),
    };
    proof {
        assert(interface_views(r.interfaces@) =~= Seq::empty());
    }
    r
}

pub fn boundary_entry(focus: &CompiledNode) -> (r: ProjectionNode)
    ensures
        entry_base(r) == boundary_spec(*focus),
        r.violation_rule_ids@.len() == 0,
{
    ProjectionNode {
        id: cat2("boundary:", focus.id.as_str()),
        title: cat2(focus.title.as_str(), " (boundary)"),
        entry_kind: EntryKind::Boundary,
        architecture_id: Some(focus.id.clone()),
        node_kind: Some(focus.kind),
        file_path: None,
        file_count: focus.descendant_file_count,
        observed_file_count: None,
        description: Some(String::from_str("An authored manual edge names the focus itself; it cannot be attributed to a particular child or file.")),
        interfaces: copy_interfaces(&focus.interfaces),
        outside_focus: false,
        violation_rule_ids: Vec::new(),
    }
}

} // verus!
