//! The architecture configuration: its schema, node identifiers and the
//! checks that make a configuration usable.
use vstd::prelude::*;
use crate::text::{
    cat2, cat3, cat4, cat5, chars_of, concat_all, decimal, decimal_spec, replace_char, replace_chars, slice_chars,
    split, split_chars, starts_with, str_views, string_of, trim, trim_chars, views, opt_view, copy_opt,
};
use crate::strmap::StrMap;
use crate::order::{idents_unique, lemma_idents_unique_permuted, seq_has, sort_by_ident, sorted_by_ident, sorted_unique, strictly_sorted, Identified};
use crate::paths::{looks_absolute, normalize_relative, normalized, PathError, string_result};
use crate::glob::{build_glob_set, glob_accepted, glob_set_builds, glob_set_patterns, glob_valid};
use globset::GlobSet;

verus! {

/// The provider command used when none is configured.
pub fn default_command() -> (r: String)
    ensures
        r@ == "gitnexus"@,
{
    String::from_str("gitnexus")
}

/// Rows requested per provider query when none is configured.
pub fn default_page_size() -> (r: usize)
    ensures
        r == 1000,
{
    1000
}

/// Rules include descendant nodes unless told otherwise.
pub fn yes() -> (r: bool)
    ensures
        r,
{
    true
}

/// The edge types a rule checks when none are configured.
pub fn imports() -> (r: Vec<String>)
    ensures
        r@.len() == 1,
        r@[0]@ == "IMPORTS"@,
{
    vec![String::from_str("IMPORTS")]
}

/// The source roots when none are configured: the repository root.
pub fn source_roots() -> (r: Vec<String>)
    ensures
        r@.len() == 1,
        r@[0]@ == "."@,
{
    vec![String::from_str(".")]
}

pub struct ArchitectureConfig {
    pub version: u32,
    pub project: ProjectConfig,
    pub provider: ProviderConfig,
    pub policies: Policies,
    pub nodes: StrMap<NodeConfig>,
    pub edges: Vec<ManualEdgeConfig>,
    pub rules: Vec<RuleConfig>,
}

#[derive(Clone)]
pub struct ProjectConfig {
    pub name: String,
    pub root: String,
    pub source_roots: Vec<String>,
    pub exclude: Vec<String>,
}

#[derive(Clone)]
pub struct ProviderConfig {
    pub kind: String,
    pub command: String,
    pub repo: Option<String>,
    pub page_size: usize,
}

#[derive(Debug, Clone, Copy, PartialEq, Eq, Structural)]
pub enum FilePolicy {
    Ignore,
    Warn,
    Error,
}

#[derive(Debug, Clone, Copy, PartialEq, Eq, Structural)]
pub enum AmbiguityPolicy {
    Warn,
    Error,
}

#[derive(Debug, Clone, Copy, PartialEq, Eq, Structural)]
pub struct Policies {
    pub unassigned_files: FilePolicy,
    pub ambiguous_mapping: AmbiguityPolicy,
}

#[derive(Debug, Clone, Copy, PartialEq, Eq, Structural)]
pub enum NodeKind {
    Internal,
    External,
}

#[derive(Clone)]
pub struct NodeConfig {
    pub title: Option<String>,
    pub kind: NodeKind,
    pub description: Option<String>,
    pub maps: Vec<String>,
    pub interfaces: Vec<Interface>,
}

#[derive(Clone)]
pub struct Interface {
    pub name: String,
    pub kind: String,
    pub direction: Option<String>,
    pub protocol: Option<String>,
    pub contract: Option<String>,
    pub description: Option<String>,
}

/// What an interface says, field by field.
pub open spec fn interface_view(i: Interface) -> (Seq<char>, Seq<char>, Option<Seq<char>>, Option<Seq<char>>, Option<Seq<char>>, Option<Seq<char>>) {
    (i.name@, i.kind@, opt_view(i.direction), opt_view(i.protocol), opt_view(i.contract), opt_view(i.description))
}

pub open spec fn interface_views(v: Seq<Interface>) -> Seq<(Seq<char>, Seq<char>, Option<Seq<char>>, Option<Seq<char>>, Option<Seq<char>>, Option<Seq<char>>)> {
    v.map_values(|i: Interface| interface_view(i))
}

impl Interface {
    /// A copy of the interface.
    pub fn duplicate(&self) -> (r: Interface)
        ensures
            interface_view(r) == interface_view(*self),
    {
        Interface {
            name: self.name.clone(),
            kind: self.kind.clone(),
            direction: copy_opt(&self.direction),
            protocol: copy_opt(&self.protocol),
            contract: copy_opt(&self.contract),
            description: copy_opt(&self.description),
        }
    }
}

/// A copy of a list of interfaces.
pub fn copy_interfaces(v: &Vec<Interface>) -> (r: Vec<Interface>)
    ensures
        interface_views(r@) == interface_views(v@),
{
    let mut out: Vec<Interface> = Vec::new();
    let mut i: usize = 0;
    while i < v.len()
        invariant
            i <= v@.len(),
            interface_views(out@) == interface_views(v@).take(i as int),
        decreases v@.len() - i,
    {
        let ghost before = out@;
        let d = v[i].duplicate();
        out.push(d);
        proof {
            assert(out@ == before.push(d));
            assert(interface_views(out@) =~= interface_views(before).push(interface_view(v@[i as int])));
            assert(interface_views(v@).take(i + 1) =~= interface_views(v@).take(i as int).push(interface_view(v@[i as int])));
        }
        i = i + 1;
    }
    proof {
        assert(interface_views(v@).take(v@.len() as int) =~= interface_views(v@));
    }
    out
}

#[derive(Clone)]
pub struct ManualEdgeConfig {
    pub id: String,
    pub from: String,
    pub to: String,
    pub kind: String,
    pub label: Option<String>,
    pub description: Option<String>,
}

/// What a manual edge holds, as values.
pub open spec fn manual_view(m: ManualEdgeConfig) -> (Seq<char>, Seq<char>, Seq<char>, Seq<char>, Option<Seq<char>>, Option<Seq<char>>) {
    (m.id@, m.from@, m.to@, m.kind@, opt_view(m.label), opt_view(m.description))
}

pub open spec fn manual_views(v: Seq<ManualEdgeConfig>) -> Seq<(Seq<char>, Seq<char>, Seq<char>, Seq<char>, Option<Seq<char>>, Option<Seq<char>>)> {
    v.map_values(|m: ManualEdgeConfig| manual_view(m))
}

impl ManualEdgeConfig {
    /// A copy of the manual edge.
    pub fn duplicate(&self) -> (r: ManualEdgeConfig)
        ensures
            manual_view(r) == manual_view(*self),
    {
        ManualEdgeConfig {
            id: self.id.clone(),
            from: self.from.clone(),
            to: self.to.clone(),
            kind: self.kind.clone(),
            label: copy_opt(&self.label),
            description: copy_opt(&self.description),
        }
    }
}

/// Appends copies of `v` to `out`.
pub fn append_manuals(out: &mut Vec<ManualEdgeConfig>, v: &Vec<ManualEdgeConfig>)
    ensures
        manual_views(final(out)@) == manual_views(old(out)@) + manual_views(v@),
{
    let ghost start = manual_views(out@);
    let mut i: usize = 0;
    while i < v.len()
        invariant
            i <= v@.len(),
            manual_views(out@) == start + manual_views(v@).take(i as int),
        decreases v@.len() - i,
    {
        let ghost before = out@;
        let d = v[i].duplicate();
        out.push(d);
        proof {
            assert(manual_views(out@) =~= manual_views(before).push(manual_view(v@[i as int])));
            assert(manual_views(v@).take(i + 1) =~= manual_views(v@).take(i as int).push(manual_view(v@[i as int])));
        }
        i = i + 1;
    }
    proof {
        assert(manual_views(v@).take(v@.len() as int) =~= manual_views(v@));
    }
}

/// Manual edges with the same copies have views with the same copies.
pub proof fn lemma_manual_multiset(a: Seq<ManualEdgeConfig>, b: Seq<ManualEdgeConfig>)
    requires
        a.to_multiset() == b.to_multiset(),
    ensures
        manual_views(a).to_multiset() == manual_views(b).to_multiset(),
    decreases a.len(),
{
    broadcast use vstd::seq_lib::group_to_multiset_ensures;
    broadcast use vstd::multiset::group_multiset_axioms;

    if a.len() == 0 {
        assert(b.len() == 0) by {
            a.to_multiset_ensures();
            b.to_multiset_ensures();
        }
        assert(manual_views(a) =~= manual_views(b));
    } else {
        let x = a.last();
        let a0 = a.drop_last();
        assert(a =~= a0.push(x));
        assert(a.to_multiset() =~= a0.to_multiset().insert(x));
        assert(b.to_multiset().count(x) > 0);
        assert(b.contains(x));
        let j = choose|j: int| 0 <= j < b.len() && b[j] == x;
        let b0 = b.remove(j);
        assert(b0.to_multiset() =~= b.to_multiset().remove(x));
        assert(a0.to_multiset() =~= b0.to_multiset());
        lemma_manual_multiset(a0, b0);
        let vx = manual_view(x);
        assert(manual_views(a) =~= manual_views(a0).push(vx));
        assert(manual_views(b0) =~= manual_views(b).remove(j));
        assert(manual_views(b)[j] == vx);
        assert(manual_views(b0).to_multiset() =~= manual_views(b).to_multiset().remove(vx));
        assert(manual_views(b).to_multiset().count(vx) > 0) by {
            assert(manual_views(b).contains(vx));
        }
        assert(manual_views(a).to_multiset() =~= manual_views(a0).to_multiset().insert(vx));
        assert(manual_views(a).to_multiset() =~= manual_views(b).to_multiset());
    }
}

/// A copy of a list of manual edges.
pub fn copy_manuals(v: &Vec<ManualEdgeConfig>) -> (r: Vec<ManualEdgeConfig>)
    ensures
        manual_views(r@) == manual_views(v@),
{
    let mut out: Vec<ManualEdgeConfig> = Vec::new();
    append_manuals(&mut out, v);
    proof {
        assert(manual_views(Seq::<ManualEdgeConfig>::empty()) + manual_views(v@) =~= manual_views(v@));
    }
    out
}

#[derive(Clone)]
pub enum RuleConfig {
    DenyDependency {
        id: String,
        from: String,
        to: String,
        edge_types: Vec<String>,
        include_descendants: bool,
    },
    AllowOnly {
        id: String,
        from: String,
        to: Vec<String>,
        edge_types: Vec<String>,
        include_descendants: bool,
    },
    NoCycles { id: String, within: String, edge_types: Vec<String> },
}

impl RuleConfig {
    pub open spec fn id_view(&self) -> Seq<char> {
        match self {
            RuleConfig::DenyDependency { id, .. } => id@,
            RuleConfig::AllowOnly { id, .. } => id@,
            RuleConfig::NoCycles { id, .. } => id@,
        }
    }

    pub open spec fn kind_view(&self) -> Seq<char> {
        match self {
            RuleConfig::DenyDependency { .. } => "deny_dependency"@,
            RuleConfig::AllowOnly { .. } => "allow_only"@,
            RuleConfig::NoCycles { .. } => "no_cycles"@,
        }
    }

    /// The nodes a rule names: `from` and `to`, or `within`.
    pub open spec fn references_view(&self) -> Seq<Seq<char>> {
        match self {
            RuleConfig::DenyDependency { from, to, .. } => seq![from@, to@],
            RuleConfig::AllowOnly { from, to, .. } => seq![from@] + to@.map_values(|t: String| t@),
            RuleConfig::NoCycles { within, .. } => seq![within@],
        }
    }

    pub open spec fn edge_types_view(&self) -> Seq<String> {
        match self {
            RuleConfig::DenyDependency { edge_types, .. } => edge_types@,
            RuleConfig::AllowOnly { edge_types, .. } => edge_types@,
            RuleConfig::NoCycles { edge_types, .. } => edge_types@,
        }
    }

    pub fn id(&self) -> (r: &str)
        ensures
            r@ == self.id_view(),
    {
        match self {
            RuleConfig::DenyDependency { id, .. } => id.as_str(),
            RuleConfig::AllowOnly { id, .. } => id.as_str(),
            RuleConfig::NoCycles { id, .. } => id.as_str(),
        }
    }

    pub fn kind(&self) -> (r: &str)
        ensures
            r@ == self.kind_view(),
    {
        match self {
            RuleConfig::DenyDependency { .. } => "deny_dependency",
            RuleConfig::AllowOnly { .. } => "allow_only",
            RuleConfig::NoCycles { .. } => "no_cycles",
        }
    }

    pub fn references(&self) -> (r: Vec<&str>)
        ensures
            r@.map_values(|s: &str| s@) == self.references_view(),
    {
        match self {
            RuleConfig::DenyDependency { from, to, .. } => {
                let r = vec![from.as_str(), to.as_str()];
                proof {
                    assert(r@.map_values(|s: &str| s@) =~= self.references_view());
                }
                r
            },
            RuleConfig::AllowOnly { from, to, .. } => {
                let mut refs = vec![from.as_str()];
                let mut i: usize = 0;
                while i < to.len()
                    invariant
                        i <= to@.len(),
                        refs@.map_values(|s: &str| s@) == seq![from@] + to@.take(i as int).map_values(
                            |t: String| t@,
                        ),
                    decreases to@.len() - i,
                {
                    let ghost prev = refs@;
                    refs.push(to[i].as_str());
                    proof {
                        assert(refs@.map_values(|s: &str| s@) =~= prev.map_values(|s: &str| s@).push(to@[i as int]@));
                        assert(to@.take(i + 1).map_values(|t: String| t@) =~= to@.take(
                            i as int,
                        ).map_values(|t: String| t@).push(to@[i as int]@));
                        assert(refs@.map_values(|s: &str| s@) =~= seq![from@] + to@.take(
                            i + 1,
                        ).map_values(|t: String| t@));
                    }
                    i = i + 1;
                }
                proof {
                    assert(to@.take(to@.len() as int) =~= to@);
                }
                refs
            },
            RuleConfig::NoCycles { within, .. } => {
                let r = vec![within.as_str()];
                proof {
                    assert(r@.map_values(|s: &str| s@) =~= self.references_view());
                }
                r
            },
        }
    }

    pub fn edge_types(&self) -> (r: &[String])
        ensures
            r@ == self.edge_types_view(),
    {
        match self {
            RuleConfig::DenyDependency { edge_types, .. } => edge_types.as_slice(),
            RuleConfig::AllowOnly { edge_types, .. } => edge_types.as_slice(),
            RuleConfig::NoCycles { edge_types, .. } => edge_types.as_slice(),
        }
    }
}

/// A character allowed in a node ID segment.
pub open spec fn id_char(c: char) -> bool {
    ('a' <= c && c <= 'z') || ('A' <= c && c <= 'Z') || ('0' <= c && c <= '9') || c == '_' || c
        == '-'
}

/// Dot-separated, nonempty segments of ASCII letters, digits, `_` and `-`:
/// no dot at either end, no two dots in a row, nothing else.
pub open spec fn valid_id(id: Seq<char>) -> bool {
    &&& id.len() > 0
    &&& id[0] != '.'
    &&& id.last() != '.'
    &&& forall|i: int| 0 <= i < id.len() ==> id_char(#[trigger] id[i]) || id[i] == '.'
    &&& forall|i: int| 0 <= i < id.len() - 1 ==> !(#[trigger] id[i] == '.' && id[i + 1] == '.')
}

/// The index of the last `.`, if any.
pub open spec fn last_dot(id: Seq<char>) -> Option<int>
    decreases id.len(),
{
    if id.len() == 0 {
        None
    } else if id.last() == '.' {
        Some(id.len() - 1)
    } else {
        last_dot(id.drop_last())
    }
}

/// Everything before the last `.`.
pub open spec fn parent_of(id: Seq<char>) -> Option<Seq<char>> {
    match last_dot(id) {
        Some(i) => Some(id.take(i)),
        None => None,
    }
}

/// `node` is `ancestor` or lies below it at a segment boundary.
pub open spec fn within(node: Seq<char>, ancestor: Seq<char>) -> bool {
    node == ancestor || (starts_with(node, ancestor) && node.len() > ancestor.len()
        && node[ancestor.len() as int] == '.')
}

/// The index of the first `.` at or after `from`, or the length.
pub open spec fn next_dot(s: Seq<char>, from: int) -> int
    decreases s.len() - from,
{
    if from >= s.len() {
        s.len() as int
    } else if s[from] == '.' {
        from
    } else {
        next_dot(s, from + 1)
    }
}

/// The child of `focus` on the way down to `node`.
pub open spec fn child_toward(node: Seq<char>, focus: Seq<char>) -> Option<Seq<char>> {
    if node == focus || !within(node, focus) {
        None
    } else {
        Some(node.take(next_dot(node, (focus.len() + 1) as int)))
    }
}

pub fn valid_node_id(id: &str) -> (r: bool)
    ensures
        r == valid_id(id@),
{
    let chars = chars_of(id);
    let n = chars.len();
    if n == 0 || chars[0] == '.' || chars[n - 1] == '.' {
        return false;
    }
    let mut i: usize = 0;
    while i < n
        invariant
            n == id@.len(),
            chars@ == id@,
            i <= n,
            forall|k: int| 0 <= k < i ==> id_char(#[trigger] id@[k]) || id@[k] == '.',
            forall|k: int| 0 <= k < i && k < n - 1 ==> !(#[trigger] id@[k] == '.' && id@[k + 1] == '.'),
        decreases n - i,
    {
        let c = chars[i];
        if !(id_char_exec(c) || c == '.') {
            return false;
        }
        if i + 1 < n && c == '.' && chars[i + 1] == '.' {
            return false;
        }
        i = i + 1;
    }
    true
}

fn id_char_exec(c: char) -> (r: bool)
    ensures
        r == id_char(c),
{
    ('a' <= c && c <= 'z') || ('A' <= c && c <= 'Z') || ('0' <= c && c <= '9') || c == '_' || c
        == '-'
}

proof fn lemma_last_dot(id: Seq<char>)
    ensures
        match last_dot(id) {
            Some(i) => 0 <= i < id.len() && id[i] == '.' && forall|k: int| i < k < id.len() ==> id[k] != '.',
            None => forall|k: int| 0 <= k < id.len() ==> id[k] != '.',
        },
    decreases id.len(),
{
    if id.len() > 0 && id.last() != '.' {
        lemma_last_dot(id.drop_last());
        assert forall|k: int| 0 <= k < id.len() - 1 implies id[k] == id.drop_last()[k] by {}
    }
}

/// Everything before the last `.` of `id`, or `None` for a top-level ID.
pub fn parent_id(id: &str) -> (r: Option<String>)
    ensures
        match r {
            Some(p) => parent_of(id@) == Some(p@),
            None => parent_of(id@) is None,
        },
{
    let chars = chars_of(id);
    let mut i = chars.len();
    proof {
        assert(id@.take(i as int) =~= id@);
    }
    while i > 0 && chars[i - 1] != '.'
        invariant
            i <= id@.len(),
            chars@ == id@,
            last_dot(id@) == last_dot(id@.take(i as int)),
        decreases i,
    {
        proof {
            assert(id@.take(i as int).drop_last() =~= id@.take(i - 1));
        }
        i = i - 1;
    }
    if i == 0 {
        proof {
            assert(id@.take(0) =~= Seq::<char>::empty());
        }
        None
    } else {
        proof {
            assert(id@.take(i as int).last() == '.');
            assert(id@.take(i - 1) =~= id@.subrange(0, i - 1));
        }
        Some(string_of(slice_chars(chars.as_slice(), 0, i - 1).as_slice()))
    }
}

pub fn is_within(node: &str, ancestor: &str) -> (r: bool)
    ensures
        r == within(node@, ancestor@),
{
    let n = chars_of(node);
    let a = chars_of(ancestor);
    if crate::text::chars_eq(n.as_slice(), a.as_slice()) {
        return true;
    }
    crate::text::has_prefix(n.as_slice(), a.as_slice()) && n.len() > a.len() && n[a.len()] == '.'
}

pub fn overlaps(a: &str, b: &str) -> (r: bool)
    ensures
        r == (within(a@, b@) || within(b@, a@)),
{
    is_within(a, b) || is_within(b, a)
}

/// The child of `focus` that `node` lies in (or is), or `None` when `node` is
/// `focus` itself or lies outside it.
pub fn immediate_child(node: &str, focus: &str) -> (r: Option<String>)
    ensures
        match r {
            Some(c) => child_toward(node@, focus@) == Some(c@),
            None => child_toward(node@, focus@) is None,
        },
{
    if crate::text::str_eq(node, focus) || !is_within(node, focus) {
        return None;
    }
    let n = chars_of(node);
    let f = chars_of(focus);
    let nl: usize = n.len();
    let fl: usize = f.len();
    proof {
        assert(within(node@, focus@) && node@ != focus@);
        assert(fl < nl);
    }
    let mut end = fl + 1;
    while end < n.len() && n[end] != '.'
        invariant
            n@ == node@,
            f@.len() + 1 <= end <= n@.len(),
            next_dot(n@, (f@.len() + 1) as int) == next_dot(n@, end as int),
        decreases n@.len() - end,
    {
        end = end + 1;
    }
    proof {
        assert(n@.subrange(0, end as int) =~= n@.take(end as int));
    }
    Some(string_of(slice_chars(n.as_slice(), 0, end).as_slice()))
}

/// `within` is reflexive: every node lies within itself.
pub proof fn lemma_within_reflexive(node: Seq<char>)
    ensures
        within(node, node),
{
}

/// `within` is transitive: below a node that lies below a third, a node lies
/// below the third.
pub proof fn lemma_within_transitive(a: Seq<char>, b: Seq<char>, c: Seq<char>)
    requires
        within(a, b),
        within(b, c),
    ensures
        within(a, c),
{
    if a != b && b != c {
        assert(a.take(b.len() as int) == b);
        assert(b.take(c.len() as int) == c);
        assert(a.take(c.len() as int) =~= a.take(b.len() as int).take(c.len() as int));
        assert(a[c.len() as int] == a.take(b.len() as int)[c.len() as int]);
    }
}

/// The parent of an ID contains it, and a valid ID's parent is valid.
pub proof fn lemma_parent_within(id: Seq<char>)
    requires
        parent_of(id) is Some,
    ensures
        within(id, parent_of(id)->0),
        parent_of(id)->0.len() < id.len(),
{
    lemma_last_dot(id);
    let i = last_dot(id)->0;
    assert(id.take(i) =~= id.take(i));
}

/// The child toward a node lies within the focus, contains the node, and has
/// the focus as its parent.
pub proof fn lemma_child_toward(node: Seq<char>, focus: Seq<char>)
    requires
        child_toward(node, focus) is Some,
    ensures
        within(child_toward(node, focus)->0, focus),
        within(node, child_toward(node, focus)->0),
        parent_of(child_toward(node, focus)->0) == Some(focus),
{
    let e = next_dot(node, (focus.len() + 1) as int);
    lemma_next_dot(node, (focus.len() + 1) as int);
    let c = node.take(e);
    assert(e <= node.len());
    if e < node.len() {
        assert(node.take(e) == c);
        assert(node[e] == '.');
        assert(within(node, c));
    } else {
        assert(c =~= node);
    }
    assert(c.take(focus.len() as int) =~= node.take(focus.len() as int));
    assert(c[focus.len() as int] == '.');
    lemma_last_dot(c);
    match last_dot(c) {
        Some(i) => {
            if i != focus.len() {
                if i < focus.len() {
                    assert(c[focus.len() as int] == '.');
                } else {
                    assert(c[i] == node[i]);
                }
            }
            assert(c.take(i) =~= focus);
        },
        None => {
            assert(c[focus.len() as int] == '.');
        },
    }
}

proof fn lemma_next_dot(s: Seq<char>, from: int)
    requires
        0 <= from,
    ensures
        from <= next_dot(s, from) || (from > s.len() && next_dot(s, from) == s.len()),
        next_dot(s, from) <= s.len() || from > s.len(),
        forall|k: int| from <= k < next_dot(s, from) ==> s[k] != '.',
        next_dot(s, from) < s.len() ==> s[next_dot(s, from)] == '.',
    decreases s.len() - from,
{
    if from < s.len() && s[from] != '.' {
        lemma_next_dot(s, from + 1);
    }
}

impl Identified for ManualEdgeConfig {
    open spec fn ident(&self) -> Seq<char> {
        self.id@
    }

    fn ident_str(&self) -> (r: &str) {
        self.id.as_str()
    }
}

impl Identified for RuleConfig {
    open spec fn ident(&self) -> Seq<char> {
        self.id_view()
    }

    fn ident_str(&self) -> (r: &str) {
        self.id()
    }
}

/// Why a configuration was refused.
#[derive(Debug, Clone, PartialEq, Eq)]
pub enum ConfigError {
    Version(u32),
    EmptyName,
    ProviderKind(String),
    EmptyCommand,
    EmptyRepo,
    ZeroPageSize,
    NoSourceRoots,
    SourceRoot { entry: String, error: PathError },
    MissingRoot(String),
    ExternalRoot,
    InvalidNodeId(String),
    MissingParent { node: String, parent: String },
    ExternalParent { node: String, parent: String },
    ExternalMaps(String),
    EmptyInterface(String),
    GlobNotRelative { owner: String, glob: String },
    EmptyGlob { owner: String },
    InvalidGlob { owner: String, glob: String },
    EdgeId(String),
    EdgeKind(String),
    EdgeEndpoint { edge: String, node: String },
    RuleId(String),
    RuleEdgeTypes(String),
    RuleReference { rule: String, node: String },
    GlobSet,
}

/// The message a user sees for the error.
pub open spec fn error_text(e: ConfigError) -> Seq<char> {
    match e {
        ConfigError::Version(v) => "unsupported architecture version "@ + decimal_spec(v as nat) + "; expected 1"@,
        ConfigError::EmptyName => "project.name must not be empty"@,
        ConfigError::ProviderKind(k) => "unsupported provider.kind `"@ + k@ + "`; MVP supports gitnexus"@,
        ConfigError::EmptyCommand => "provider.command must not be empty; use gitnexus or an executable path"@,
        ConfigError::EmptyRepo => "provider.repo must be a nonempty repository name/path or null"@,
        ConfigError::ZeroPageSize => "provider.page_size must be greater than zero"@,
        ConfigError::NoSourceRoots => "project.source_roots must contain at least one path; use ['.'] for repository root"@,
        ConfigError::SourceRoot { entry, .. } => "invalid project.source_roots entry `"@ + entry@ + "`"@,
        ConfigError::MissingRoot(r) => "project.root references missing node `"@ + r@ + "`"@,
        ConfigError::ExternalRoot => "project.root must reference an internal architecture node"@,
        ConfigError::InvalidNodeId(id) => "invalid node ID `"@ + id@ + "`; use dot-separated ASCII letters, digits, underscores or hyphens"@,
        ConfigError::MissingParent { node, parent } => "node `"@ + node@ + "` references missing parent `"@ + parent@ + "`"@,
        ConfigError::ExternalParent { node, parent } => "internal node `"@ + node@ + "` cannot have external parent `"@ + parent@ + "`"@,
        ConfigError::ExternalMaps(id) => "external node `"@ + id@ + "` cannot own source files; remove its maps"@,
        ConfigError::EmptyInterface(id) => "node `"@ + id@ + "`: interface name and kind must not be empty"@,
        ConfigError::GlobNotRelative { owner, glob } => owner@ + ": glob `"@ + glob@ + "` must be repository-relative and must not contain `..`"@,
        ConfigError::EmptyGlob { owner } => owner@ + ": empty glob is not allowed"@,
        ConfigError::InvalidGlob { owner, glob } => owner@ + ": invalid glob `"@ + glob@ + "`"@,
        ConfigError::EdgeId(id) => "manual edge IDs must be nonempty and unique: `"@ + id@ + "`"@,
        ConfigError::EdgeKind(id) => "manual edge `"@ + id@ + "` requires a nonempty kind"@,
        ConfigError::EdgeEndpoint { edge, node } => "manual edge `"@ + edge@ + "` references missing node `"@ + node@ + "`"@,
        ConfigError::RuleId(id) => "rule IDs must be nonempty and unique: `"@ + id@ + "`"@,
        ConfigError::RuleEdgeTypes(id) => "rule `"@ + id@ + "`: edge_types must contain at least one nonempty edge type"@,
        ConfigError::RuleReference { rule, node } => "rule `"@ + rule@ + "` references missing node `"@ + node@ + "`"@,
        ConfigError::GlobSet => "the map and exclude globs could not be compiled together"@,
    }
}

impl ConfigError {
    /// The message a user sees for the error.
    pub fn message(&self) -> (r: String)
        ensures
            r@ == error_text(*self),
    {
        match self {
            ConfigError::Version(v) => {
                let n = decimal(*v as u128);
                cat3("unsupported architecture version ", n.as_str(), "; expected 1")
            },
            ConfigError::EmptyName => String::from_str("project.name must not be empty"),
            ConfigError::ProviderKind(k) => cat3("unsupported provider.kind `", k.as_str(), "`; MVP supports gitnexus"),
            ConfigError::EmptyCommand => String::from_str("provider.command must not be empty; use gitnexus or an executable path"),
            ConfigError::EmptyRepo => String::from_str("provider.repo must be a nonempty repository name/path or null"),
            ConfigError::ZeroPageSize => String::from_str("provider.page_size must be greater than zero"),
            ConfigError::NoSourceRoots => String::from_str("project.source_roots must contain at least one path; use ['.'] for repository root"),
            ConfigError::SourceRoot { entry, .. } => cat3("invalid project.source_roots entry `", entry.as_str(), "`"),
            ConfigError::MissingRoot(r) => cat3("project.root references missing node `", r.as_str(), "`"),
            ConfigError::ExternalRoot => String::from_str("project.root must reference an internal architecture node"),
            ConfigError::InvalidNodeId(id) => cat3("invalid node ID `", id.as_str(), "`; use dot-separated ASCII letters, digits, underscores or hyphens"),
            ConfigError::MissingParent { node, parent } => cat5("node `", node.as_str(), "` references missing parent `", parent.as_str(), "`"),
            ConfigError::ExternalParent { node, parent } => cat5("internal node `", node.as_str(), "` cannot have external parent `", parent.as_str(), "`"),
            ConfigError::ExternalMaps(id) => cat3("external node `", id.as_str(), "` cannot own source files; remove its maps"),
            ConfigError::EmptyInterface(id) => cat3("node `", id.as_str(), "`: interface name and kind must not be empty"),
            ConfigError::GlobNotRelative { owner, glob } => cat4(owner.as_str(), ": glob `", glob.as_str(), "` must be repository-relative and must not contain `..`"),
            ConfigError::EmptyGlob { owner } => cat2(owner.as_str(), ": empty glob is not allowed"),
            ConfigError::InvalidGlob { owner, glob } => cat4(owner.as_str(), ": invalid glob `", glob.as_str(), "`"),
            ConfigError::EdgeId(id) => cat3("manual edge IDs must be nonempty and unique: `", id.as_str(), "`"),
            ConfigError::EdgeKind(id) => cat3("manual edge `", id.as_str(), "` requires a nonempty kind"),
            ConfigError::EdgeEndpoint { edge, node } => cat5("manual edge `", edge.as_str(), "` references missing node `", node.as_str(), "`"),
            ConfigError::RuleId(id) => cat3("rule IDs must be nonempty and unique: `", id.as_str(), "`"),
            ConfigError::RuleEdgeTypes(id) => cat3("rule `", id.as_str(), "`: edge_types must contain at least one nonempty edge type"),
            ConfigError::RuleReference { rule, node } => cat5("rule `", rule.as_str(), "` references missing node `", node.as_str(), "`"),
            ConfigError::GlobSet => String::from_str("the map and exclude globs could not be compiled together"),
        }
    }
}

/// Only white space, as `str::trim` sees it.
pub open spec fn blank(s: Seq<char>) -> bool {
    trim(s).len() == 0
}

pub fn is_blank(s: &str) -> (r: bool)
    ensures
        r == blank(s@),
{
    let c = chars_of(s);
    trim_chars(c.as_slice()).len() == 0
}

/// A glob as it is compiled: with slashes for backslashes.
pub open spec fn glob_text(raw: Seq<char>) -> Seq<char> {
    replace_char(raw, '\\', '/')
}

/// A glob that is absolute or climbs with a `..` segment.
pub open spec fn glob_escapes(p: Seq<char>) -> bool {
    looks_absolute(p) || seq_has(split(p, '/'), seq!['.', '.'])
}

/// A glob that a node's maps or the exclusions may hold.
pub open spec fn glob_fine(raw: Seq<char>) -> bool {
    !glob_escapes(glob_text(raw)) && glob_text(raw).len() > 0 && glob_valid(glob_text(raw))
}

/// `e` is the error that `add_glob` reports for `raw` under `owner`.
pub open spec fn glob_refused(e: ConfigError, owner: Seq<char>, raw: Seq<char>) -> bool {
    match e {
        ConfigError::GlobNotRelative { owner: o, glob } => o@ == owner && glob@ == raw && glob_escapes(glob_text(raw)),
        ConfigError::EmptyGlob { owner: o } => o@ == owner && !glob_escapes(glob_text(raw)) && glob_text(raw).len() == 0,
        ConfigError::InvalidGlob { owner: o, glob } => o@ == owner && glob@ == raw && !glob_escapes(glob_text(raw))
            && glob_text(raw).len() > 0 && !glob_valid(glob_text(raw)),
        _ => false,
    }
}

fn has_dot_dot_segment(p: &[char]) -> (r: bool)
    ensures
        r == seq_has(split(p@, '/'), seq!['.', '.']),
{
    let pieces = split_chars(p, '/');
    let mut i: usize = 0;
    while i < pieces.len()
        invariant
            i <= pieces@.len(),
            crate::text::parts_view(pieces@) == split(p@, '/'),
            forall|j: int| 0 <= j < i ==> split(p@, '/')[j] != seq!['.', '.'],
        decreases pieces@.len() - i,
    {
        let q = &pieces[i];
        proof {
            assert(split(p@, '/')[i as int] == q@);
        }
        if q.len() == 2 && q[0] == '.' && q[1] == '.' {
            proof {
                assert(q@ =~= seq!['.', '.']);
            }
            return true;
        }
        i = i + 1;
    }
    false
}

/// Checks a glob of `owner` and, when it is usable, adds its compiled text.
pub fn add_glob(patterns: &mut Vec<String>, raw: &str, owner: &str) -> (r: Result<(), ConfigError>)
    ensures
        match r {
            Ok(()) => glob_fine(raw@) && views(final(patterns)@) == views(old(patterns)@).push(glob_text(raw@)),
            Err(e) => !glob_fine(raw@) && glob_refused(e, owner@, raw@) && final(patterns)@ == old(patterns)@,
        },
{
    let rc = chars_of(raw);
    let pattern = replace_chars(rc.as_slice(), '\\', '/');
    let absolute = (pattern.len() > 0 && pattern[0] == '/') || (pattern.len() >= 2 && (pattern[0] as u32) < 128 && pattern[1] == ':');
    if absolute || has_dot_dot_segment(pattern.as_slice()) {
        return Err(ConfigError::GlobNotRelative { owner: String::from_str(owner), glob: String::from_str(raw) });
    }
    if pattern.len() == 0 {
        return Err(ConfigError::EmptyGlob { owner: String::from_str(owner) });
    }
    let text = string_of(pattern.as_slice());
    if !glob_accepted(text.as_str()) {
        return Err(ConfigError::InvalidGlob { owner: String::from_str(owner), glob: String::from_str(raw) });
    }
    let ghost before = views(patterns@);
    patterns.push(text);
    proof {
        assert(views(patterns@) =~= before.push(glob_text(raw@)));
    }
    Ok(())
}

pub open spec fn interface_fine(i: Interface) -> bool {
    !blank(i.name@) && !blank(i.kind@)
}

/// The checks a node passes: a valid ID, an existing parent that is not
/// external under an internal node, no maps on an external node, named
/// interfaces and usable globs.
pub open spec fn node_fine(nodes: StrMap<NodeConfig>, id: Seq<char>, node: NodeConfig) -> bool {
    &&& valid_id(id)
    &&& (parent_of(id) matches Some(p) ==> (nodes.lookup(p) matches Some(pn) && !(node.kind
        == NodeKind::Internal && pn.kind == NodeKind::External)))
    &&& !(node.kind == NodeKind::External && node.maps@.len() > 0)
    &&& forall|k: int| 0 <= k < node.interfaces@.len() ==> interface_fine(#[trigger] node.interfaces@[k])
    &&& forall|k: int| 0 <= k < node.maps@.len() ==> glob_fine(#[trigger] node.maps@[k]@)
}

pub open spec fn edge_fine(c: ArchitectureConfig, i: int) -> bool {
    let e = c.edges@[i];
    &&& !blank(e.id@)
    &&& forall|j: int| 0 <= j < i ==> (#[trigger] c.edges@[j]).id@ != e.id@
    &&& !blank(e.kind@)
    &&& seq_has(c.nodes.keys(), e.from@)
    &&& seq_has(c.nodes.keys(), e.to@)
}

pub open spec fn rule_fine(c: ArchitectureConfig, i: int) -> bool {
    let r = c.rules@[i];
    &&& !blank(r.id_view())
    &&& forall|j: int| 0 <= j < i ==> (#[trigger] c.rules@[j]).id_view() != r.id_view()
    &&& r.edge_types_view().len() > 0
    &&& forall|k: int| 0 <= k < r.edge_types_view().len() ==> !blank(#[trigger] r.edge_types_view()[k]@)
    &&& forall|k: int| 0 <= k < r.references_view().len() ==> seq_has(c.nodes.keys(), #[trigger] r.references_view()[k])
}

/// Every check `validate` makes.
pub open spec fn config_valid(c: ArchitectureConfig) -> bool {
    &&& c.version == 1
    &&& !blank(c.project.name@)
    &&& c.provider.kind@ == "gitnexus"@
    &&& !blank(c.provider.command@)
    &&& (c.provider.repo matches Some(r) ==> !blank(r@))
    &&& c.provider.page_size > 0
    &&& c.project.source_roots@.len() > 0
    &&& forall|i: int| 0 <= i < c.project.source_roots@.len() ==> normalized(#[trigger] c.project.source_roots@[i]@) is Ok
    &&& (c.nodes.lookup(c.project.root@) matches Some(n) && n.kind == NodeKind::Internal)
    &&& forall|i: int| 0 <= i < c.nodes.keys().len() ==> node_fine(c.nodes, #[trigger] c.nodes.keys()[i], c.nodes.values()[i])
    &&& forall|i: int| 0 <= i < c.project.exclude@.len() ==> glob_fine(#[trigger] c.project.exclude@[i]@)
    &&& forall|i: int| 0 <= i < c.edges@.len() ==> #[trigger] edge_fine(c, i)
    &&& forall|i: int| 0 <= i < c.rules@.len() ==> #[trigger] rule_fine(c, i)
}

/// The node owning `raw` among its maps, or the exclusions, reports it.
pub open spec fn glob_owned(c: ArchitectureConfig, owner: Seq<char>, raw: Seq<char>) -> bool {
    ||| (exists|i: int, k: int| 0 <= i < c.nodes.keys().len() && 0 <= k < c.nodes.values()[i].maps@.len()
        && owner == "node `"@ + c.nodes.keys()[i] + "`"@ && #[trigger] c.nodes.values()[i].maps@[k]@ == raw)
    ||| (owner == "project.exclude"@ && exists|k: int| 0 <= k < c.project.exclude@.len() && #[trigger] c.project.exclude@[k]@ == raw)
}

/// The error names a real defect of the configuration.
pub open spec fn error_fits(e: ConfigError, c: ArchitectureConfig) -> bool {
    let keys = c.nodes.keys();
    match e {
        ConfigError::Version(v) => v == c.version && v != 1,
        ConfigError::EmptyName => blank(c.project.name@),
        ConfigError::ProviderKind(k) => k@ == c.provider.kind@ && k@ != "gitnexus"@,
        ConfigError::EmptyCommand => blank(c.provider.command@),
        ConfigError::EmptyRepo => c.provider.repo matches Some(r) && blank(r@),
        ConfigError::ZeroPageSize => c.provider.page_size == 0,
        ConfigError::NoSourceRoots => c.project.source_roots@.len() == 0,
        ConfigError::SourceRoot { entry, error } => exists|i: int| 0 <= i < c.project.source_roots@.len()
            && #[trigger] c.project.source_roots@[i]@ == entry@ && normalized(entry@) == Err::<Seq<char>, PathError>(error),
        ConfigError::MissingRoot(r) => r@ == c.project.root@ && c.nodes.lookup(r@) is None,
        ConfigError::ExternalRoot => c.nodes.lookup(c.project.root@) matches Some(n) && n.kind == NodeKind::External,
        ConfigError::InvalidNodeId(id) => seq_has(keys, id@) && !valid_id(id@),
        ConfigError::MissingParent { node, parent } => seq_has(keys, node@) && parent_of(node@) == Some(parent@)
            && c.nodes.lookup(parent@) is None,
        ConfigError::ExternalParent { node, parent } => {
            &&& c.nodes.lookup(node@) matches Some(n)
            &&& n.kind == NodeKind::Internal
            &&& parent_of(node@) == Some(parent@)
            &&& c.nodes.lookup(parent@) matches Some(p)
            &&& p.kind == NodeKind::External
        },
        ConfigError::ExternalMaps(id) => c.nodes.lookup(id@) matches Some(n) && n.kind == NodeKind::External && n.maps@.len() > 0,
        ConfigError::EmptyInterface(id) => c.nodes.lookup(id@) matches Some(n) && exists|k: int| 0 <= k < n.interfaces@.len()
            && !interface_fine(#[trigger] n.interfaces@[k]),
        ConfigError::GlobNotRelative { owner, glob } => glob_owned(c, owner@, glob@) && glob_refused(e, owner@, glob@),
        ConfigError::EmptyGlob { owner } => exists|raw: Seq<char>| glob_owned(c, owner@, raw) && #[trigger] glob_refused(e, owner@, raw),
        ConfigError::InvalidGlob { owner, glob } => glob_owned(c, owner@, glob@) && glob_refused(e, owner@, glob@),
        ConfigError::EdgeId(id) => exists|i: int| 0 <= i < c.edges@.len() && #[trigger] c.edges@[i].id@ == id@
            && (blank(id@) || exists|j: int| 0 <= j < i && #[trigger] c.edges@[j].id@ == id@),
        ConfigError::EdgeKind(id) => exists|i: int| 0 <= i < c.edges@.len() && #[trigger] c.edges@[i].id@ == id@ && blank(c.edges@[i].kind@),
        ConfigError::EdgeEndpoint { edge, node } => exists|i: int| 0 <= i < c.edges@.len() && #[trigger] c.edges@[i].id@ == edge@
            && (c.edges@[i].from@ == node@ || c.edges@[i].to@ == node@) && !seq_has(keys, node@),
        ConfigError::RuleId(id) => exists|i: int| 0 <= i < c.rules@.len() && #[trigger] c.rules@[i].id_view() == id@
            && (blank(id@) || exists|j: int| 0 <= j < i && #[trigger] c.rules@[j].id_view() == id@),
        ConfigError::RuleEdgeTypes(id) => exists|i: int| 0 <= i < c.rules@.len() && #[trigger] c.rules@[i].id_view() == id@
            && (c.rules@[i].edge_types_view().len() == 0 || exists|k: int| 0 <= k < c.rules@[i].edge_types_view().len()
                && blank(#[trigger] c.rules@[i].edge_types_view()[k]@)),
        ConfigError::RuleReference { rule, node } => exists|i: int| 0 <= i < c.rules@.len() && #[trigger] c.rules@[i].id_view() == rule@
            && seq_has(c.rules@[i].references_view(), node@) && !seq_has(keys, node@),
        ConfigError::GlobSet => config_valid(c) && !globs_build(c),
    }
}

/// The map globs and the exclusions of a configuration build as sets.
pub open spec fn globs_build(c: ArchitectureConfig) -> bool {
    &&& glob_set_builds(map_patterns(c.nodes.values(), c.nodes.keys().len() as int))
    &&& glob_set_builds(c.project.exclude@.map_values(|m: String| glob_text(m@)))
}

/// Every map glob of a configuration whose nodes are fine compiles.
proof fn lemma_map_patterns_valid(c: ArchitectureConfig, n: int)
    requires
        nodes_valid(c),
        0 <= n <= c.nodes.keys().len(),
        c.nodes.keys().len() == c.nodes.values().len(),
    ensures
        forall|k: int| 0 <= k < map_patterns(c.nodes.values(), n).len() ==> glob_valid(#[trigger] map_patterns(c.nodes.values(), n)[k]),
    decreases n,
{
    if n > 0 {
        lemma_map_patterns_valid(c, n - 1);
        let prev = map_patterns(c.nodes.values(), n - 1);
        let node = c.nodes.values()[n - 1];
        let added = node.maps@.map_values(|m: String| glob_text(m@));
        assert(node_fine(c.nodes, c.nodes.keys()[n - 1], node));
        assert forall|k: int| 0 <= k < map_patterns(c.nodes.values(), n).len() implies glob_valid(#[trigger] map_patterns(c.nodes.values(), n)[k]) by {
            if k < prev.len() {
                assert(map_patterns(c.nodes.values(), n)[k] == prev[k]);
            } else {
                let j = k - prev.len();
                assert(map_patterns(c.nodes.values(), n)[k] == added[j]);
                assert(glob_fine(node.maps@[j]@));
            }
        }
    }
}

/// The node that owns each map glob, one entry per glob, in node order.
pub open spec fn map_owners(keys: Seq<Seq<char>>, values: Seq<NodeConfig>, n: int) -> Seq<Seq<char>>
    decreases n,
{
    if n <= 0 {
        Seq::<Seq<char>>::empty()
    } else {
        map_owners(keys, values, n - 1) + Seq::new(values[n - 1].maps@.len(), |k: int| keys[n - 1])
    }
}

/// Every map glob, compiled text, in node order.
pub open spec fn map_patterns(values: Seq<NodeConfig>, n: int) -> Seq<Seq<char>>
    decreases n,
{
    if n <= 0 {
        Seq::<Seq<char>>::empty()
    } else {
        map_patterns(values, n - 1) + values[n - 1].maps@.map_values(|m: String| glob_text(m@))
    }
}

/// There is one owner for each map glob.
pub proof fn lemma_owners_match_patterns(keys: Seq<Seq<char>>, values: Seq<NodeConfig>, n: int)
    ensures
        map_owners(keys, values, n).len() == map_patterns(values, n).len(),
    decreases n,
{
    if n > 0 {
        lemma_owners_match_patterns(keys, values, n - 1);
    }
}

/// A configuration that passed `validate`, with its globs compiled.
pub struct ValidatedConfig {
    pub config: ArchitectureConfig,
    pub mapping_globs: GlobSet,
    pub mapping_owners: Vec<String>,
    pub exclude_globs: GlobSet,
}

/// What `validate` gives for a valid configuration: the same configuration
/// with source roots normalized, sorted and deduplicated, edges and rules
/// sorted by ID, and the globs compiled.
pub open spec fn validated_from(c: ArchitectureConfig, v: ValidatedConfig) -> bool {
    let n = c.nodes.keys().len() as int;
    &&& v.config.version == c.version
    &&& v.config.project.name == c.project.name
    &&& v.config.project.root == c.project.root
    &&& v.config.project.exclude == c.project.exclude
    &&& strictly_sorted(views(v.config.project.source_roots@))
    &&& forall|x: Seq<char>| seq_has(views(v.config.project.source_roots@), x) <==> exists|i: int|
        0 <= i < c.project.source_roots@.len() && normalized(#[trigger] c.project.source_roots@[i]@) == Ok::<Seq<char>, PathError>(x)
    &&& v.config.provider == c.provider
    &&& v.config.policies == c.policies
    &&& v.config.nodes == c.nodes
    &&& sorted_by_ident(v.config.edges@)
    &&& v.config.edges@.to_multiset() == c.edges@.to_multiset()
    &&& sorted_by_ident(v.config.rules@)
    &&& v.config.rules@.to_multiset() == c.rules@.to_multiset()
    &&& views(v.mapping_owners@) == map_owners(c.nodes.keys(), c.nodes.values(), n)
    &&& glob_set_patterns(v.mapping_globs) == map_patterns(c.nodes.values(), n)
    &&& glob_set_patterns(v.exclude_globs) == c.project.exclude@.map_values(|m: String| glob_text(m@))
}

/// What a configuration that `validate` accepted holds: version 1 and the
/// `gitnexus` provider with a positive page size; source roots that are
/// sorted, without repeats, at least one, each the normalized form of a
/// configured root; manual edges and rules sorted by ID, with IDs that are
/// not blank and not repeated, whose ends and references are nodes; every
/// node ID valid, with its parent present, no external node with maps or an
/// internal child; and an internal root node.
pub proof fn lemma_validated_config(c: ArchitectureConfig, v: ValidatedConfig)
    requires
        config_valid(c),
        validated_from(c, v),
    ensures
        v.config.version == 1,
        v.config.provider.kind@ == "gitnexus"@,
        v.config.provider.page_size > 0,
        v.config.project.source_roots@.len() > 0,
        strictly_sorted(views(v.config.project.source_roots@)),
        forall|i: int| 0 <= i < v.config.project.source_roots@.len() ==> exists|j: int|
            0 <= j < c.project.source_roots@.len() && normalized(#[trigger] c.project.source_roots@[j]@)
                == Ok::<Seq<char>, PathError>((#[trigger] v.config.project.source_roots@[i])@),
        sorted_by_ident(v.config.edges@),
        idents_unique(v.config.edges@),
        forall|i: int| 0 <= i < v.config.edges@.len() ==> !blank((#[trigger] v.config.edges@[i]).id@)
            && seq_has(v.config.nodes.keys(), v.config.edges@[i].from@) && seq_has(v.config.nodes.keys(), v.config.edges@[i].to@),
        sorted_by_ident(v.config.rules@),
        idents_unique(v.config.rules@),
        forall|i: int| 0 <= i < v.config.rules@.len() ==> !blank((#[trigger] v.config.rules@[i]).id_view())
            && forall|k: int| 0 <= k < v.config.rules@[i].references_view().len()
                ==> seq_has(v.config.nodes.keys(), #[trigger] v.config.rules@[i].references_view()[k]),
        forall|i: int| 0 <= i < v.config.nodes.keys().len()
            ==> node_fine(v.config.nodes, #[trigger] v.config.nodes.keys()[i], v.config.nodes.values()[i]),
        v.config.nodes.lookup(v.config.project.root@) matches Some(n) && n.kind == NodeKind::Internal,
{
    broadcast use vstd::seq_lib::group_to_multiset_ensures;

    let roots = views(v.config.project.source_roots@);
    assert(normalized(c.project.source_roots@[0]@) is Ok);
    let x = normalized(c.project.source_roots@[0]@)->Ok_0;
    assert(seq_has(roots, x));
    assert forall|i: int| 0 <= i < v.config.project.source_roots@.len() implies exists|j: int|
        0 <= j < c.project.source_roots@.len() && normalized(#[trigger] c.project.source_roots@[j]@)
            == Ok::<Seq<char>, PathError>((#[trigger] v.config.project.source_roots@[i])@) by {
        assert(roots[i] == v.config.project.source_roots@[i]@);
        assert(seq_has(roots, roots[i]));
    }
    assert(idents_unique(c.edges@)) by {
        assert forall|i: int, j: int| 0 <= i < j < c.edges@.len() implies (#[trigger] c.edges@[i]).ident() != (#[trigger] c.edges@[j]).ident() by {
            assert(edge_fine(c, j));
        }
    }
    lemma_idents_unique_permuted(c.edges@, v.config.edges@);
    assert forall|i: int| 0 <= i < v.config.edges@.len() implies !blank((#[trigger] v.config.edges@[i]).id@)
        && seq_has(v.config.nodes.keys(), v.config.edges@[i].from@) && seq_has(v.config.nodes.keys(), v.config.edges@[i].to@) by {
        let e = v.config.edges@[i];
        assert(v.config.edges@.contains(e));
        assert(c.edges@.to_multiset().count(e) > 0);
        assert(c.edges@.contains(e));
        let j = choose|j: int| 0 <= j < c.edges@.len() && c.edges@[j] == e;
        assert(edge_fine(c, j));
    }
    assert(idents_unique(c.rules@)) by {
        assert forall|i: int, j: int| 0 <= i < j < c.rules@.len() implies (#[trigger] c.rules@[i]).ident() != (#[trigger] c.rules@[j]).ident() by {
            assert(rule_fine(c, j));
        }
    }
    lemma_idents_unique_permuted(c.rules@, v.config.rules@);
    assert forall|i: int| 0 <= i < v.config.rules@.len() implies !blank((#[trigger] v.config.rules@[i]).id_view())
        && forall|k: int| 0 <= k < v.config.rules@[i].references_view().len()
            ==> seq_has(v.config.nodes.keys(), #[trigger] v.config.rules@[i].references_view()[k]) by {
        let r = v.config.rules@[i];
        assert(v.config.rules@.contains(r));
        assert(c.rules@.to_multiset().count(r) > 0);
        assert(c.rules@.contains(r));
        let j = choose|j: int| 0 <= j < c.rules@.len() && c.rules@[j] == r;
        assert(rule_fine(c, j));
    }
}

pub open spec fn header_valid(c: ArchitectureConfig) -> bool {
    &&& c.version == 1
    &&& !blank(c.project.name@)
    &&& c.provider.kind@ == "gitnexus"@
    &&& !blank(c.provider.command@)
    &&& (c.provider.repo matches Some(r) ==> !blank(r@))
    &&& c.provider.page_size > 0
    &&& c.project.source_roots@.len() > 0
}

fn check_header(c: &ArchitectureConfig) -> (r: Result<(), ConfigError>)
    ensures
        match r {
            Ok(()) => header_valid(*c),
            Err(e) => !header_valid(*c) && error_fits(e, *c),
        },
{
    if c.version != 1 {
        return Err(ConfigError::Version(c.version));
    }
    if is_blank(c.project.name.as_str()) {
        return Err(ConfigError::EmptyName);
    }
    if !crate::text::str_eq(c.provider.kind.as_str(), "gitnexus") {
        return Err(ConfigError::ProviderKind(c.provider.kind.clone()));
    }
    if is_blank(c.provider.command.as_str()) {
        return Err(ConfigError::EmptyCommand);
    }
    match &c.provider.repo {
        Some(repo) => if is_blank(repo.as_str()) {
            return Err(ConfigError::EmptyRepo);
        },
        None => {},
    }
    if c.provider.page_size == 0 {
        return Err(ConfigError::ZeroPageSize);
    }
    if c.project.source_roots.len() == 0 {
        return Err(ConfigError::NoSourceRoots);
    }
    Ok(())
}

fn normalize_roots(roots: &Vec<String>) -> (r: Result<Vec<String>, ConfigError>)
    ensures
        match r {
            Ok(v) => v@.len() == roots@.len() && forall|i: int| 0 <= i < roots@.len()
                ==> normalized(#[trigger] roots@[i]@) == Ok::<Seq<char>, PathError>(v@[i]@),
            Err(e) => (exists|i: int| 0 <= i < roots@.len() && normalized(#[trigger] roots@[i]@) is Err) && match e {
                ConfigError::SourceRoot { entry, error } => exists|i: int| 0 <= i < roots@.len()
                    && #[trigger] roots@[i]@ == entry@ && normalized(entry@) == Err::<Seq<char>, PathError>(error),
                _ => false,
            },
        },
{
    let mut out: Vec<String> = Vec::new();
    let mut i: usize = 0;
    while i < roots.len()
        invariant
            i <= roots@.len(),
            out@.len() == i,
            forall|j: int| 0 <= j < i ==> normalized(#[trigger] roots@[j]@) == Ok::<Seq<char>, PathError>(out@[j]@),
        decreases roots@.len() - i,
    {
        match normalize_relative(roots[i].as_str()) {
            Ok(n) => {
                out.push(n);
            },
            Err(error) => {
                return Err(ConfigError::SourceRoot { entry: roots[i].clone(), error });
            },
        }
        i = i + 1;
    }
    Ok(out)
}

pub open spec fn nodes_valid(c: ArchitectureConfig) -> bool {
    forall|i: int| 0 <= i < c.nodes.keys().len() ==> node_fine(c.nodes, #[trigger] c.nodes.keys()[i], c.nodes.values()[i])
}

fn owner_label(id: &str) -> (r: String)
    ensures
        r@ == "node `"@ + id@ + "`"@,
{
    cat3("node `", id, "`")
}

/// Checks every node in order and collects the compiled map globs with the
/// node that owns each.
fn check_nodes(c: &ArchitectureConfig, patterns: &mut Vec<String>, owners: &mut Vec<String>) -> (r: Result<(), ConfigError>)
    requires
        old(patterns)@.len() == 0,
        old(owners)@.len() == 0,
    ensures
        match r {
            Ok(()) => nodes_valid(*c)
                && views(final(owners)@) == map_owners(c.nodes.keys(), c.nodes.values(), c.nodes.keys().len() as int)
                && views(final(patterns)@) == map_patterns(c.nodes.values(), c.nodes.keys().len() as int),
            Err(e) => !nodes_valid(*c) && error_fits(e, *c),
        },
{
    let n = c.nodes.len();
    let mut i: usize = 0;
    proof {
        assert(views(patterns@) =~= map_patterns(c.nodes.values(), 0));
        assert(views(owners@) =~= map_owners(c.nodes.keys(), c.nodes.values(), 0));
    }
    while i < n
        invariant
            n == c.nodes.keys().len(),
            n == c.nodes.values().len(),
            i <= n,
            forall|j: int| 0 <= j < i ==> node_fine(c.nodes, #[trigger] c.nodes.keys()[j], c.nodes.values()[j]),
            views(owners@) == map_owners(c.nodes.keys(), c.nodes.values(), i as int),
            views(patterns@) == map_patterns(c.nodes.values(), i as int),
        decreases n - i,
    {
        let id = c.nodes.key(i);
        let node = c.nodes.value(i);
        c.nodes.keys_sorted();
        proof {
            c.nodes.lemma_lookup_index(i as int);
        }
        if !valid_node_id(id.as_str()) {
            return Err(ConfigError::InvalidNodeId(id.clone()));
        }
        match parent_id(id.as_str()) {
            Some(parent) => {
                match c.nodes.get(parent.as_str()) {
                    None => {
                        return Err(ConfigError::MissingParent { node: id.clone(), parent });
                    },
                    Some(p) => {
                        if node.kind == NodeKind::Internal && p.kind == NodeKind::External {
                            return Err(ConfigError::ExternalParent { node: id.clone(), parent });
                        }
                    },
                }
            },
            None => {},
        }
        if node.kind == NodeKind::External && node.maps.len() > 0 {
            return Err(ConfigError::ExternalMaps(id.clone()));
        }
        let mut k: usize = 0;
        while k < node.interfaces.len()
            invariant
                k <= node.interfaces@.len(),
                id@ == c.nodes.keys()[i as int],
                *node == c.nodes.values()[i as int],
                i < n,
                n == c.nodes.keys().len(),
                c.nodes.lookup(c.nodes.keys()[i as int]) == Some(c.nodes.values()[i as int]),
                forall|m: int| 0 <= m < k ==> interface_fine(#[trigger] node.interfaces@[m]),
            decreases node.interfaces@.len() - k,
        {
            if is_blank(node.interfaces[k].name.as_str()) || is_blank(node.interfaces[k].kind.as_str()) {
                proof {
                    assert(!interface_fine(node.interfaces@[k as int]));
                }
                return Err(ConfigError::EmptyInterface(id.clone()));
            }
            k = k + 1;
        }
        let owner = owner_label(id.as_str());
        let ghost owners_before = views(owners@);
        let ghost patterns_before = views(patterns@);
        let mut k: usize = 0;
        while k < node.maps.len()
            invariant
                k <= node.maps@.len(),
                owner@ == "node `"@ + id@ + "`"@,
                id@ == c.nodes.keys()[i as int],
                *node == c.nodes.values()[i as int],
                i < n,
                n == c.nodes.keys().len(),
                forall|m: int| 0 <= m < k ==> glob_fine(#[trigger] node.maps@[m]@),
                views(owners@) == owners_before + Seq::new(k as nat, |m: int| id@),
                views(patterns@) == patterns_before + node.maps@.take(k as int).map_values(|m: String| glob_text(m@)),
            decreases node.maps@.len() - k,
        {
            match add_glob(patterns, node.maps[k].as_str(), owner.as_str()) {
                Ok(()) => {},
                Err(e) => {
                    proof {
                        assert(glob_owned(*c, owner@, node.maps@[k as int]@));
                        if e is EmptyGlob {
                            assert(glob_owned(*c, owner@, node.maps@[k as int]@) && glob_refused(e, owner@, node.maps@[k as int]@));
                        }
                    }
                    return Err(e);
                },
            }
            let ghost ob = views(owners@);
            owners.push(id.clone());
            proof {
                assert(views(owners@) =~= ob.push(id@));
                assert(owners_before + Seq::new((k + 1) as nat, |m: int| id@) =~= (owners_before + Seq::new(k as nat, |m: int| id@)).push(id@));
                assert(views(owners@) =~= owners_before + Seq::new((k + 1) as nat, |m: int| id@));
                assert(node.maps@.take(k + 1).map_values(|m: String| glob_text(m@)) =~= node.maps@.take(
                    k as int,
                ).map_values(|m: String| glob_text(m@)).push(glob_text(node.maps@[k as int]@)));
                assert(views(patterns@) =~= patterns_before + node.maps@.take(k + 1).map_values(|m: String| glob_text(m@)));
            }
            k = k + 1;
        }
        proof {
            assert(node.maps@.take(node.maps@.len() as int) =~= node.maps@);
            assert(Seq::new(node.maps@.len(), |m: int| id@) =~= Seq::new(
                c.nodes.values()[i as int].maps@.len(),
                |m: int| c.nodes.keys()[i as int],
            ));
            assert(node_fine(c.nodes, c.nodes.keys()[i as int], c.nodes.values()[i as int]));
        }
        i = i + 1;
    }
    Ok(())
}

fn check_excludes(c: &ArchitectureConfig, patterns: &mut Vec<String>) -> (r: Result<(), ConfigError>)
    requires
        old(patterns)@.len() == 0,
    ensures
        match r {
            Ok(()) => (forall|i: int| 0 <= i < c.project.exclude@.len() ==> glob_fine(#[trigger] c.project.exclude@[i]@))
                && views(final(patterns)@) == c.project.exclude@.map_values(|m: String| glob_text(m@)),
            Err(e) => (exists|i: int| 0 <= i < c.project.exclude@.len() && !glob_fine(#[trigger] c.project.exclude@[i]@))
                && error_fits(e, *c),
        },
{
    let owner = String::from_str("project.exclude");
    let mut k: usize = 0;
    proof {
        assert(views(patterns@) =~= c.project.exclude@.take(0).map_values(|m: String| glob_text(m@)));
    }
    while k < c.project.exclude.len()
        invariant
            k <= c.project.exclude@.len(),
            owner@ == "project.exclude"@,
            forall|m: int| 0 <= m < k ==> glob_fine(#[trigger] c.project.exclude@[m]@),
            views(patterns@) == c.project.exclude@.take(k as int).map_values(|m: String| glob_text(m@)),
        decreases c.project.exclude@.len() - k,
    {
        let ghost before = views(patterns@);
        match add_glob(patterns, c.project.exclude[k].as_str(), owner.as_str()) {
            Ok(()) => {},
            Err(e) => {
                proof {
                    assert(glob_owned(*c, owner@, c.project.exclude@[k as int]@));
                }
                return Err(e);
            },
        }
        proof {
            assert(c.project.exclude@.take(k + 1).map_values(|m: String| glob_text(m@)) =~= before.push(
                glob_text(c.project.exclude@[k as int]@),
            ));
        }
        k = k + 1;
    }
    proof {
        assert(c.project.exclude@.take(c.project.exclude@.len() as int) =~= c.project.exclude@);
    }
    Ok(())
}

fn check_edges(c: &ArchitectureConfig) -> (r: Result<(), ConfigError>)
    ensures
        match r {
            Ok(()) => forall|i: int| 0 <= i < c.edges@.len() ==> #[trigger] edge_fine(*c, i),
            Err(e) => (exists|i: int| 0 <= i < c.edges@.len() && !#[trigger] edge_fine(*c, i)) && error_fits(e, *c),
        },
{
    let mut i: usize = 0;
    while i < c.edges.len()
        invariant
            i <= c.edges@.len(),
            forall|j: int| 0 <= j < i ==> #[trigger] edge_fine(*c, j),
        decreases c.edges@.len() - i,
    {
        let edge = &c.edges[i];
        if is_blank(edge.id.as_str()) {
            proof {
                assert(!edge_fine(*c, i as int));
            }
            return Err(ConfigError::EdgeId(edge.id.clone()));
        }
        let mut j: usize = 0;
        while j < i
            invariant
                j <= i < c.edges@.len(),
                *edge == c.edges@[i as int],
                forall|m: int| 0 <= m < j ==> (#[trigger] c.edges@[m]).id@ != edge.id@,
            decreases i - j,
        {
            if crate::text::str_eq(c.edges[j].id.as_str(), edge.id.as_str()) {
                proof {
                    assert(!edge_fine(*c, i as int));
                }
                return Err(ConfigError::EdgeId(edge.id.clone()));
            }
            j = j + 1;
        }
        if is_blank(edge.kind.as_str()) {
            proof {
                assert(!edge_fine(*c, i as int));
            }
            return Err(ConfigError::EdgeKind(edge.id.clone()));
        }
        if !c.nodes.contains_key(edge.from.as_str()) {
            proof {
                assert(!edge_fine(*c, i as int));
            }
            return Err(ConfigError::EdgeEndpoint { edge: edge.id.clone(), node: edge.from.clone() });
        }
        if !c.nodes.contains_key(edge.to.as_str()) {
            proof {
                assert(!edge_fine(*c, i as int));
            }
            return Err(ConfigError::EdgeEndpoint { edge: edge.id.clone(), node: edge.to.clone() });
        }
        proof {
            assert(edge_fine(*c, i as int));
        }
        i = i + 1;
    }
    Ok(())
}

fn check_rules(c: &ArchitectureConfig) -> (r: Result<(), ConfigError>)
    ensures
        match r {
            Ok(()) => forall|i: int| 0 <= i < c.rules@.len() ==> #[trigger] rule_fine(*c, i),
            Err(e) => (exists|i: int| 0 <= i < c.rules@.len() && !#[trigger] rule_fine(*c, i)) && error_fits(e, *c),
        },
{
    let mut i: usize = 0;
    while i < c.rules.len()
        invariant
            i <= c.rules@.len(),
            forall|j: int| 0 <= j < i ==> #[trigger] rule_fine(*c, j),
        decreases c.rules@.len() - i,
    {
        let rule = &c.rules[i];
        let id = rule.id();
        if is_blank(id) {
            proof {
                assert(!rule_fine(*c, i as int));
            }
            return Err(ConfigError::RuleId(String::from_str(id)));
        }
        let mut j: usize = 0;
        while j < i
            invariant
                j <= i < c.rules@.len(),
                *rule == c.rules@[i as int],
                id@ == rule.id_view(),
                forall|m: int| 0 <= m < j ==> (#[trigger] c.rules@[m]).id_view() != id@,
            decreases i - j,
        {
            if crate::text::str_eq(c.rules[j].id(), id) {
                proof {
                    assert(!rule_fine(*c, i as int));
                }
                return Err(ConfigError::RuleId(String::from_str(id)));
            }
            j = j + 1;
        }
        let types = rule.edge_types();
        if types.len() == 0 {
            proof {
                assert(!rule_fine(*c, i as int));
            }
            return Err(ConfigError::RuleEdgeTypes(String::from_str(id)));
        }
        let mut k: usize = 0;
        while k < types.len()
            invariant
                k <= types@.len(),
                i < c.rules@.len(),
                *rule == c.rules@[i as int],
                id@ == rule.id_view(),
                types@ == rule.edge_types_view(),
                forall|m: int| 0 <= m < k ==> !blank(#[trigger] types@[m]@),
            decreases types@.len() - k,
        {
            if is_blank(types[k].as_str()) {
                proof {
                    assert(!rule_fine(*c, i as int));
                }
                return Err(ConfigError::RuleEdgeTypes(String::from_str(id)));
            }
            k = k + 1;
        }
        let refs = rule.references();
        let mut k: usize = 0;
        while k < refs.len()
            invariant
                k <= refs@.len(),
                i < c.rules@.len(),
                *rule == c.rules@[i as int],
                id@ == rule.id_view(),
                refs@.map_values(|s: &str| s@) == rule.references_view(),
                forall|m: int| 0 <= m < k ==> seq_has(c.nodes.keys(), #[trigger] rule.references_view()[m]),
            decreases refs@.len() - k,
        {
            proof {
                assert(rule.references_view()[k as int] == refs@[k as int]@);
            }
            if !c.nodes.contains_key(refs[k]) {
                proof {
                    assert(!rule_fine(*c, i as int));
                    assert(seq_has(rule.references_view(), refs@[k as int]@));
                }
                return Err(ConfigError::RuleReference { rule: String::from_str(id), node: String::from_str(refs[k]) });
            }
            k = k + 1;
        }
        proof {
            assert(rule_fine(*c, i as int));
        }
        i = i + 1;
    }
    Ok(())
}

/// Checks a configuration and compiles its globs. A refusal names the first
/// defect found; a configuration whose globs pass one by one can still fail
/// to compile as a set (`GlobSet`) when `globset`'s size limits are exceeded.
pub fn validate(config: ArchitectureConfig) -> (r: Result<ValidatedConfig, ConfigError>)
    ensures
        r is Ok <==> (config_valid(config) && globs_build(config)),
        match r {
            Ok(v) => config_valid(config) && globs_build(config) && validated_from(config, v)
                && v.mapping_owners@.len() == glob_set_patterns(v.mapping_globs).len(),
            Err(e) => error_fits(e, config) && (e != ConfigError::GlobSet ==> !config_valid(config)),
        },
{
    check_header(&config)?;
    let roots = normalize_roots(&config.project.source_roots)?;
    let source_roots = sorted_unique(&roots);
    match config.nodes.get(config.project.root.as_str()) {
        None => {
            return Err(ConfigError::MissingRoot(config.project.root.clone()));
        },
        Some(root) => {
            if root.kind != NodeKind::Internal {
                return Err(ConfigError::ExternalRoot);
            }
        },
    }
    let mut patterns: Vec<String> = Vec::new();
    let mut owners: Vec<String> = Vec::new();
    check_nodes(&config, &mut patterns, &mut owners)?;
    let mut excludes: Vec<String> = Vec::new();
    check_excludes(&config, &mut excludes)?;
    check_edges(&config)?;
    check_rules(&config)?;
    proof {
        assert forall|x: Seq<char>| seq_has(views(source_roots@), x) <==> exists|i: int|
            0 <= i < config.project.source_roots@.len() && normalized(#[trigger] config.project.source_roots@[i]@) == Ok::<Seq<char>, PathError>(x) by {
            if seq_has(views(roots@), x) {
                let i = choose|i: int| 0 <= i < views(roots@).len() && views(roots@)[i] == x;
                assert(normalized(config.project.source_roots@[i]@) == Ok::<Seq<char>, PathError>(x));
            }
            if exists|i: int| 0 <= i < config.project.source_roots@.len() && normalized(#[trigger] config.project.source_roots@[i]@) == Ok::<Seq<char>, PathError>(x) {
                let i = choose|i: int| 0 <= i < config.project.source_roots@.len() && normalized(#[trigger] config.project.source_roots@[i]@) == Ok::<Seq<char>, PathError>(x);
                assert(views(roots@)[i] == x);
            }
        }
    }
    let node_count = config.nodes.len();
    proof {
        lemma_map_patterns_valid(config, node_count as int);
        assert forall|i: int| 0 <= i < patterns@.len() implies glob_valid(#[trigger] patterns@[i]@) by {
            assert(views(patterns@)[i] == patterns@[i]@);
        }
        assert forall|i: int| 0 <= i < excludes@.len() implies glob_valid(#[trigger] excludes@[i]@) by {
            let ex = config.project.exclude@.map_values(|m: String| glob_text(m@));
            assert(views(excludes@) == ex);
            assert(views(excludes@).len() == excludes@.len());
            assert(ex.len() == config.project.exclude@.len());
            assert(views(excludes@)[i] == excludes@[i]@);
            assert(ex[i] == glob_text(config.project.exclude@[i]@));
            assert(glob_fine(config.project.exclude@[i]@));
        }
    }
    let mapping_globs = match build_glob_set(&patterns) {
        Some(set) => set,
        None => {
            return Err(ConfigError::GlobSet);
        },
    };
    let exclude_globs = match build_glob_set(&excludes) {
        Some(set) => set,
        None => {
            return Err(ConfigError::GlobSet);
        },
    };
    let ArchitectureConfig { version, project, provider, policies, nodes, edges, rules } = config;
    let ProjectConfig { name, root, source_roots: _, exclude } = project;
    let edges = sort_by_ident(edges);
    let rules = sort_by_ident(rules);
    let validated = ValidatedConfig {
        config: ArchitectureConfig {
            version,
            project: ProjectConfig { name, root, source_roots, exclude },
            provider,
            policies,
            nodes,
            edges,
            rules,
        },
        mapping_globs,
        mapping_owners: owners,
        exclude_globs,
    };
    proof {
        lemma_owners_match_patterns(validated.config.nodes.keys(), validated.config.nodes.values(), validated.config.nodes.keys().len() as int);
    }
    Ok(validated)
}

} // verus!
