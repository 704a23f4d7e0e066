//! The semantic zoom shared by every view of the architecture: the entries
//! and dependencies seen from one focus node.
use vstd::prelude::*;
use crate::config::{child_toward, immediate_child, is_within, lemma_parent_within, parent_id, parent_of, within};
use crate::evidence::{key_order, lemma_key_order, lemma_key_order_trans, order_of_text, CompiledEdge, ResolvedEdge};
use crate::model::{node_view, ArchitectureIr, CompiledNode, EdgeOrigin, EVIDENCE_LIMIT};
use crate::order::{insert_unique, lex_lt, seq_has, strictly_sorted};
use crate::rules::{evaluate, evaluation, violation_touches, violation_view, violation_views, Violation, ViolationView};
use crate::evidence::{acc_of, compiled_acc, compiled_view, ev_view, lemma_acc_count, CompiledView, EvidenceAccumulator, EvidenceView};
use crate::config::{append_manuals, lemma_manual_multiset, manual_views, ManualEdgeConfig};
use crate::order::{sort_by_ident, sorted_by_ident};
use crate::model::{cut_view, cut_views};
use crate::strmap::StrMap;
use crate::text::{cat3, copy_opt, copy_strings, str_eq, views};
use crate::config::copy_interfaces;
use super::{
    architecture_entry, arch_spec, boundary_entry, boundary_spec, direct_entry, direct_spec, entry_base,
    file_entry, file_spec, has_entry, summary_of, summary_view, EntryKind, EntryView, NodeSummary, Projection, ProjectionEdge,
    ProjectionNode,
};

verus! {

pub open spec fn opt_str(o: Option<&str>) -> Option<Seq<char>> {
    match o {
        Some(s) => Some(s@),
        None => None,
    }
}

/// A dependency concerns the focus when one of its ends lies within it.
pub open spec fn relevant(from: Seq<char>, to: Seq<char>, focus: Seq<char>) -> bool {
    within(from, focus) || within(to, focus)
}

/// The entry that stands for `owner` at the focus: the owner itself when it
/// lies outside, the child of the focus it lies in, or, for the focus
/// itself, the file (leaf focus), its directly owned files, or its boundary
/// (no file). `None` when a node it needs is missing.
pub open spec fn rep_spec(nodes: StrMap<CompiledNode>, focus: CompiledNode, owner: Seq<char>, file: Option<Seq<char>>) -> Option<EntryView> {
    if !within(owner, focus.id@) {
        match nodes.lookup(owner) {
            Some(n) => Some(arch_spec(n, true)),
            None => None,
        }
    } else {
        match child_toward(owner, focus.id@) {
            Some(c) => match nodes.lookup(c) {
                Some(n) => Some(arch_spec(n, false)),
                None => None,
            },
            None => match file {
                Some(p) => if focus.children@.len() == 0 {
                    Some(file_spec(p, focus))
                } else {
                    Some(direct_spec(focus))
                },
                None => Some(boundary_spec(focus)),
            },
        }
    }
}

fn representative(nodes: &StrMap<CompiledNode>, focus: &CompiledNode, owner: &str, file: Option<&str>) -> (r: Result<ProjectionNode, String>)
    ensures
        match r {
            Ok(n) => rep_spec(*nodes, *focus, owner@, opt_str(file)) == Some(entry_base(n)) && n.violation_rule_ids@.len() == 0,
            Err(_) => rep_spec(*nodes, *focus, owner@, opt_str(file)) is None,
        },
{
    if !is_within(owner, focus.id.as_str()) {
        match nodes.get(owner) {
            Some(outside) => Ok(architecture_entry(outside, true)),
            None => Err(cat3("IR edge references missing node `", owner, "`")),
        }
    } else {
        match immediate_child(owner, focus.id.as_str()) {
            Some(child) => match nodes.get(child.as_str()) {
                Some(c) => Ok(architecture_entry(c, false)),
                None => Err(String::from_str("IR immediate child is missing")),
            },
            None => match file {
                Some(path) => if focus.children.len() == 0 {
                    Ok(file_entry(path, focus))
                } else {
                    Ok(direct_entry(focus))
                },
                None => Ok(boundary_entry(focus)),
            },
        }
    }
}

/// An architecture edge of a violation covers an observation: the same
/// kind, and the same nodes, or for a cycle, nodes at or above the
/// observation's.
pub open spec fn hits(v: ViolationView, ae: CompiledView, e: ResolvedEdge) -> bool {
    &&& ae.kind == e.kind@
    &&& if v.kind == "no_cycles"@ {
        within(e.from@, ae.from) && within(e.to@, ae.to)
    } else {
        ae.from == e.from@ && ae.to == e.to@
    }
}

/// The violation suggests cutting the dependency of its architecture edge.
pub open spec fn is_cut(v: ViolationView, ae: CompiledView) -> bool {
    exists|k: int| 0 <= k < v.suggested_cuts.len() && #[trigger] v.suggested_cuts[k].0 == ae.from && v.suggested_cuts[k].1 == ae.to
}

/// A suggested cut of the violation holds the observation.
pub open spec fn cut_hits(v: ViolationView, ae: CompiledView, e: ResolvedEdge) -> bool {
    &&& ae.kind == e.kind@
    &&& within(e.from@, ae.from)
    &&& within(e.to@, ae.to)
    &&& is_cut(v, ae)
}

/// Rule `x` has a violation among the first `n` whose edges cover `e`.
pub open spec fn flags_in(all: Seq<ViolationView>, n: int, e: ResolvedEdge, x: Seq<char>) -> bool {
    exists|i: int, j: int| 0 <= i < n && 0 <= j < all[i].architecture_edges.len() && all[i].rule_id == x
        && #[trigger] hits(all[i], all[i].architecture_edges[j], e)
}

pub open spec fn cuts_in(all: Seq<ViolationView>, n: int, e: ResolvedEdge, x: Seq<char>) -> bool {
    exists|i: int, j: int| 0 <= i < n && 0 <= j < all[i].architecture_edges.len() && all[i].rule_id == x
        && #[trigger] cut_hits(all[i], all[i].architecture_edges[j], e)
}

/// Rule `x` is broken by the observation `e`.
pub open spec fn flags(all: Seq<ViolationView>, e: ResolvedEdge, x: Seq<char>) -> bool {
    flags_in(all, all.len() as int, e, x)
}

/// A suggested cut of rule `x` holds the observation `e`.
pub open spec fn cuts(all: Seq<ViolationView>, e: ResolvedEdge, x: Seq<char>) -> bool {
    cuts_in(all, all.len() as int, e, x)
}

fn cut_suggested(v: &Violation, ae: &CompiledEdge) -> (r: bool)
    ensures
        r == is_cut(violation_view(*v), compiled_view(*ae)),
{
    let ghost cv = violation_view(*v).suggested_cuts;
    let mut k: usize = 0;
    while k < v.suggested_cuts.len()
        invariant
            k <= v.suggested_cuts@.len(),
            cv == cut_views(v.suggested_cuts@),
            forall|m: int| 0 <= m < k ==> !(#[trigger] cv[m].0 == ae.from@ && cv[m].1 == ae.to@),
        decreases v.suggested_cuts@.len() - k,
    {
        proof {
            assert(cv[k as int] == cut_view(v.suggested_cuts@[k as int]));
        }
        if str_eq(v.suggested_cuts[k].from.as_str(), ae.from.as_str()) && str_eq(v.suggested_cuts[k].to.as_str(), ae.to.as_str()) {
            proof {
                assert(cv.len() == v.suggested_cuts@.len());
                assert(cv[k as int].0 == compiled_view(*ae).from && cv[k as int].1 == compiled_view(*ae).to);
                assert(violation_view(*v).suggested_cuts[k as int].0 == compiled_view(*ae).from);
            }
            return true;
        }
        k = k + 1;
    }
    false
}

/// The rules the observation breaks, and those whose suggested cut holds it,
/// each ascending without repetitions.
fn marks(all: &Vec<Violation>, e: &ResolvedEdge) -> (r: (Vec<String>, Vec<String>))
    ensures
        strictly_sorted(views(r.0@)),
        forall|x: Seq<char>| #[trigger] seq_has(views(r.0@), x) <==> flags(violation_views(all@), *e, x),
        strictly_sorted(views(r.1@)),
        forall|x: Seq<char>| #[trigger] seq_has(views(r.1@), x) <==> cuts(violation_views(all@), *e, x),
{
    let ghost va = violation_views(all@);
    let mut rules: Vec<String> = Vec::new();
    let mut cut_rules: Vec<String> = Vec::new();
    let mut i: usize = 0;
    while i < all.len()
        invariant
            i <= all@.len(),
            va == violation_views(all@),
            strictly_sorted(views(rules@)),
            strictly_sorted(views(cut_rules@)),
            forall|x: Seq<char>| #[trigger] seq_has(views(rules@), x) <==> flags_in(va, i as int, *e, x),
            forall|x: Seq<char>| #[trigger] seq_has(views(cut_rules@), x) <==> cuts_in(va, i as int, *e, x),
        decreases all@.len() - i,
    {
        let v = &all[i];
        let ghost vv = violation_view(*v);
        proof {
            assert(va[i as int] == vv);
        }
        let cycle = str_eq(v.kind.as_str(), "no_cycles");
        let mut j: usize = 0;
        while j < v.architecture_edges.len()
            invariant
                i < all@.len(),
                va == violation_views(all@),
                vv == violation_view(*v),
                va[i as int] == vv,
                cycle == (vv.kind == "no_cycles"@),
                j <= v.architecture_edges@.len(),
                strictly_sorted(views(rules@)),
                strictly_sorted(views(cut_rules@)),
                forall|x: Seq<char>| #[trigger] seq_has(views(rules@), x) <==> (flags_in(va, i as int, *e, x)
                    || (x == vv.rule_id && exists|m: int| 0 <= m < j && #[trigger] hits(vv, vv.architecture_edges[m], *e))),
                forall|x: Seq<char>| #[trigger] seq_has(views(cut_rules@), x) <==> (cuts_in(va, i as int, *e, x)
                    || (x == vv.rule_id && exists|m: int| 0 <= m < j && #[trigger] cut_hits(vv, vv.architecture_edges[m], *e))),
            decreases v.architecture_edges@.len() - j,
        {
            let ae = &v.architecture_edges[j];
            proof {
                assert(vv.architecture_edges[j as int] == compiled_view(*ae));
            }
            let same_kind = str_eq(ae.kind.as_str(), e.kind.as_str());
            let below = is_within(e.from.as_str(), ae.from.as_str()) && is_within(e.to.as_str(), ae.to.as_str());
            let hit = same_kind && if cycle {
                below
            } else {
                str_eq(ae.from.as_str(), e.from.as_str()) && str_eq(ae.to.as_str(), e.to.as_str())
            };
            let cut_hit = same_kind && below && cut_suggested(v, ae);
            proof {
                assert(hit == hits(vv, vv.architecture_edges[j as int], *e));
                assert(cut_hit == cut_hits(vv, vv.architecture_edges[j as int], *e));
            }
            if hit {
                insert_unique(&mut rules, v.rule_id.clone());
            }
            if cut_hit {
                insert_unique(&mut cut_rules, v.rule_id.clone());
            }
            proof {
                assert forall|x: Seq<char>| #[trigger] seq_has(views(rules@), x) <==> (flags_in(va, i as int, *e, x)
                    || (x == vv.rule_id && exists|m: int| 0 <= m < j + 1 && #[trigger] hits(vv, vv.architecture_edges[m], *e))) by {
                    if x == vv.rule_id && hit {
                        assert(hits(vv, vv.architecture_edges[j as int], *e));
                    }
                }
                assert forall|x: Seq<char>| #[trigger] seq_has(views(cut_rules@), x) <==> (cuts_in(va, i as int, *e, x)
                    || (x == vv.rule_id && exists|m: int| 0 <= m < j + 1 && #[trigger] cut_hits(vv, vv.architecture_edges[m], *e))) by {
                    if x == vv.rule_id && cut_hit {
                        assert(cut_hits(vv, vv.architecture_edges[j as int], *e));
                    }
                }
            }
            j = j + 1;
        }
        proof {
            assert(vv.architecture_edges.len() == v.architecture_edges@.len());
            assert forall|x: Seq<char>| #[trigger] seq_has(views(rules@), x) <==> flags_in(va, i + 1, *e, x) by {
                if flags_in(va, i + 1, *e, x) && !flags_in(va, i as int, *e, x) {
                    let (a, b) = choose|a: int, b: int| 0 <= a < i + 1 && 0 <= b < va[a].architecture_edges.len() && va[a].rule_id == x
                        && #[trigger] hits(va[a], va[a].architecture_edges[b], *e);
                    assert(a == i);
                }
                if x == vv.rule_id && exists|m: int| 0 <= m < j && #[trigger] hits(vv, vv.architecture_edges[m], *e) {
                    let m = choose|m: int| 0 <= m < j && #[trigger] hits(vv, vv.architecture_edges[m], *e);
                    assert(hits(va[i as int], va[i as int].architecture_edges[m], *e));
                }
            }
            assert forall|x: Seq<char>| #[trigger] seq_has(views(cut_rules@), x) <==> cuts_in(va, i + 1, *e, x) by {
                if cuts_in(va, i + 1, *e, x) && !cuts_in(va, i as int, *e, x) {
                    let (a, b) = choose|a: int, b: int| 0 <= a < i + 1 && 0 <= b < va[a].architecture_edges.len() && va[a].rule_id == x
                        && #[trigger] cut_hits(va[a], va[a].architecture_edges[b], *e);
                    assert(a == i);
                }
                if x == vv.rule_id && exists|m: int| 0 <= m < j && #[trigger] cut_hits(vv, vv.architecture_edges[m], *e) {
                    let m = choose|m: int| 0 <= m < j && #[trigger] cut_hits(vv, vv.architecture_edges[m], *e);
                    assert(cut_hits(va[i as int], va[i as int].architecture_edges[m], *e));
                }
            }
        }
        i = i + 1;
    }
    (rules, cut_rules)
}

impl ProjectionNode {
    /// A copy of the entry.
    pub fn duplicate(&self) -> (r: ProjectionNode)
        ensures
            entry_base(r) == entry_base(*self),
            views(r.violation_rule_ids@) == views(self.violation_rule_ids@),
    {
        ProjectionNode {
            id: self.id.clone(),
            title: self.title.clone(),
            entry_kind: self.entry_kind,
            architecture_id: copy_opt(&self.architecture_id),
            node_kind: self.node_kind,
            file_path: copy_opt(&self.file_path),
            file_count: self.file_count,
            observed_file_count: self.observed_file_count,
            description: copy_opt(&self.description),
            interfaces: copy_interfaces(&self.interfaces),
            outside_focus: self.outside_focus,
            violation_rule_ids: copy_strings(&self.violation_rule_ids),
        }
    }
}

/// The entry of the observation's source at the focus.
pub open spec fn obs_from(nodes: StrMap<CompiledNode>, focus: CompiledNode, e: ResolvedEdge) -> Option<EntryView> {
    rep_spec(nodes, focus, e.from@, Some(e.evidence.from_file@))
}

/// The entry of the observation's target at the focus.
pub open spec fn obs_to(nodes: StrMap<CompiledNode>, focus: CompiledNode, e: ResolvedEdge) -> Option<EntryView> {
    rep_spec(nodes, focus, e.to@, Some(e.evidence.to_file@))
}

/// A manual edge that concerns the focus.
pub open spec fn man_rel(e: CompiledEdge, focus: Seq<char>) -> bool {
    e.origin == EdgeOrigin::Manual && relevant(e.from@, e.to@, focus)
}

pub open spec fn man_from(nodes: StrMap<CompiledNode>, focus: CompiledNode, e: CompiledEdge) -> Option<EntryView> {
    rep_spec(nodes, focus, e.from@, None)
}

pub open spec fn man_to(nodes: StrMap<CompiledNode>, focus: CompiledNode, e: CompiledEdge) -> Option<EntryView> {
    rep_spec(nodes, focus, e.to@, None)
}

/// The entries of the files of a leaf focus.
pub open spec fn file_cands(paths: Seq<String>, focus: CompiledNode) -> Seq<EntryView>
    decreases paths.len(),
{
    if paths.len() == 0 {
        Seq::empty()
    } else {
        file_cands(paths.drop_last(), focus).push(file_spec(paths.last()@, focus))
    }
}

/// The entries of the children of the focus.
pub open spec fn child_cands(children: Seq<String>, nodes: StrMap<CompiledNode>) -> Seq<EntryView>
    decreases children.len(),
{
    if children.len() == 0 {
        Seq::empty()
    } else {
        child_cands(children.drop_last(), nodes).push(arch_spec(nodes.lookup(children.last()@)->0, false))
    }
}

/// The entries every projection of the focus starts with: its files when it
/// is a leaf, else its children and, when it owns files directly, those.
pub open spec fn init_cands(nodes: StrMap<CompiledNode>, focus: CompiledNode) -> Seq<EntryView> {
    if focus.children@.len() == 0 {
        file_cands(focus.direct_files@, focus)
    } else if focus.direct_files@.len() > 0 {
        child_cands(focus.children@, nodes).push(direct_spec(focus))
    } else {
        child_cands(focus.children@, nodes)
    }
}

/// The entries the observations concerning the focus bring, source then
/// target, in order.
pub open spec fn obs_cands(edges: Seq<ResolvedEdge>, nodes: StrMap<CompiledNode>, focus: CompiledNode, f: Seq<char>) -> Seq<EntryView>
    decreases edges.len(),
{
    if edges.len() == 0 {
        Seq::empty()
    } else if relevant(edges.last().from@, edges.last().to@, f) {
        obs_cands(edges.drop_last(), nodes, focus, f).push(obs_from(nodes, focus, edges.last())->0).push(
            obs_to(nodes, focus, edges.last())->0,
        )
    } else {
        obs_cands(edges.drop_last(), nodes, focus, f)
    }
}

/// The entries the manual edges concerning the focus bring.
pub open spec fn man_cands(edges: Seq<CompiledEdge>, nodes: StrMap<CompiledNode>, focus: CompiledNode, f: Seq<char>) -> Seq<EntryView>
    decreases edges.len(),
{
    if edges.len() == 0 {
        Seq::empty()
    } else if man_rel(edges.last(), f) {
        man_cands(edges.drop_last(), nodes, focus, f).push(man_from(nodes, focus, edges.last())->0).push(
            man_to(nodes, focus, edges.last())->0,
        )
    } else {
        man_cands(edges.drop_last(), nodes, focus, f)
    }
}

/// The last entry with the identity, if any.
pub open spec fn last_with(s: Seq<EntryView>, id: Seq<char>) -> Option<EntryView>
    decreases s.len(),
{
    if s.len() == 0 {
        None
    } else if s.last().id == id {
        Some(s.last())
    } else {
        last_with(s.drop_last(), id)
    }
}

/// The first entry with the identity, if any.
pub open spec fn first_with(s: Seq<EntryView>, id: Seq<char>) -> Option<EntryView>
    decreases s.len(),
{
    if s.len() == 0 {
        None
    } else {
        match first_with(s.drop_last(), id) {
            Some(x) => Some(x),
            None => if s.last().id == id {
                Some(s.last())
            } else {
                None
            },
        }
    }
}

/// The entry with the identity: a starting entry replaced by a later one of
/// the same identity, or the first that a dependency brings.
pub open spec fn pick(init: Seq<EntryView>, rest: Seq<EntryView>, id: Seq<char>) -> Option<EntryView> {
    match last_with(init, id) {
        Some(x) => Some(x),
        None => first_with(rest, id),
    }
}

/// The entries of the map are those picked from the candidates, each under
/// its identity and with no rules yet.
pub open spec fn holds_picks(m: StrMap<ProjectionNode>, init: Seq<EntryView>, rest: Seq<EntryView>) -> bool {
    &&& forall|id: Seq<char>| #[trigger] seq_has(m.keys(), id) <==> pick(init, rest, id) is Some
    &&& forall|id: Seq<char>| #[trigger] seq_has(m.keys(), id) ==> {
        &&& entry_base(m.lookup(id)->0) == pick(init, rest, id)->0
        &&& m.lookup(id)->0.id@ == id
        &&& m.lookup(id)->0.violation_rule_ids@.len() == 0
    }
}

proof fn lemma_first_with_push(s: Seq<EntryView>, x: EntryView, id: Seq<char>)
    ensures
        first_with(s.push(x), id) == (match first_with(s, id) {
            Some(y) => Some(y),
            None => if x.id == id { Some(x) } else { None },
        }),
{
    assert(s.push(x).drop_last() =~= s);
}

proof fn lemma_last_with_push(s: Seq<EntryView>, x: EntryView, id: Seq<char>)
    ensures
        last_with(s.push(x), id) == (if x.id == id { Some(x) } else { last_with(s, id) }),
{
    assert(s.push(x).drop_last() =~= s);
}

/// Puts `n` under its identity unless an entry is there already.
fn add_absent(m: &mut StrMap<ProjectionNode>, n: &ProjectionNode, Ghost(init): Ghost<Seq<EntryView>>, Ghost(rest): Ghost<Seq<EntryView>>)
    requires
        holds_picks(*old(m), init, rest),
        n.violation_rule_ids@.len() == 0,
    ensures
        holds_picks(*final(m), init, rest.push(entry_base(*n))),
{
    let ghost x = entry_base(*n);
    proof {
        assert forall|id: Seq<char>| pick(init, rest.push(x), id) == (if pick(init, rest, id) is Some { pick(init, rest, id) } else if x.id == id { Some(x) } else { None }) by {
            lemma_first_with_push(rest, x, id);
        }
    }
    if !m.contains_key(n.id.as_str()) {
        let copy = n.duplicate();
        proof {
            assert(copy.violation_rule_ids@.len() == 0) by {
                assert(views(copy.violation_rule_ids@).len() == 0);
            }
        }
        m.insert(n.id.clone(), copy);
    }
}

/// The starting entries: the files of a leaf focus, else its children and,
/// when it owns files directly, those. Fails when a child is missing.
fn initial_entries(nodes: &StrMap<CompiledNode>, focus: &CompiledNode) -> (r: Result<StrMap<ProjectionNode>, String>)
    ensures
        r is Ok <==> forall|i: int| 0 <= i < focus.children@.len() ==> (#[trigger] nodes.lookup(focus.children@[i]@)) is Some,
        r matches Ok(m) ==> holds_picks(m, init_cands(*nodes, *focus), Seq::empty()),
{
    let mut m: StrMap<ProjectionNode> = StrMap::new();
    let ghost empty = Seq::<EntryView>::empty();
    if focus.children.len() == 0 {
        let mut i: usize = 0;
        while i < focus.direct_files.len()
            invariant
                i <= focus.direct_files@.len(),
                focus.children@.len() == 0,
                holds_picks(m, file_cands(focus.direct_files@.take(i as int), *focus), empty),
            decreases focus.direct_files@.len() - i,
        {
            let ghost before = file_cands(focus.direct_files@.take(i as int), *focus);
            let entry = file_entry(focus.direct_files[i].as_str(), focus);
            let ghost x = entry_base(entry);
            proof {
                assert(focus.direct_files@.take(i + 1).drop_last() =~= focus.direct_files@.take(i as int));
                assert(file_cands(focus.direct_files@.take(i + 1), *focus) == before.push(x));
                assert forall|id: Seq<char>| #[trigger] pick(before.push(x), empty, id) == (if x.id == id { Some(x) } else { pick(before, empty, id) }) by {
                    lemma_last_with_push(before, x, id);
                }
            }
            m.insert(entry.id.clone(), entry);
            i = i + 1;
        }
        proof {
            assert(focus.direct_files@.take(focus.direct_files@.len() as int) =~= focus.direct_files@);
        }
        Ok(m)
    } else {
        let mut i: usize = 0;
        while i < focus.children.len()
            invariant
                i <= focus.children@.len(),
                forall|k: int| 0 <= k < i ==> (#[trigger] nodes.lookup(focus.children@[k]@)) is Some,
                holds_picks(m, child_cands(focus.children@.take(i as int), *nodes), empty),
            decreases focus.children@.len() - i,
        {
            let ghost before = child_cands(focus.children@.take(i as int), *nodes);
            match nodes.get(focus.children[i].as_str()) {
                Some(child) => {
                    let entry = architecture_entry(child, false);
                    let ghost x = entry_base(entry);
                    proof {
                        assert(focus.children@.take(i + 1).drop_last() =~= focus.children@.take(i as int));
                        assert(child_cands(focus.children@.take(i + 1), *nodes) == before.push(x));
                        assert forall|id: Seq<char>| #[trigger] pick(before.push(x), empty, id) == (if x.id == id { Some(x) } else { pick(before, empty, id) }) by {
                            lemma_last_with_push(before, x, id);
                        }
                    }
                    m.insert(entry.id.clone(), entry);
                },
                None => {
                    return Err(String::from_str("IR focus child is missing"));
                },
            }
            i = i + 1;
        }
        proof {
            assert(focus.children@.take(focus.children@.len() as int) =~= focus.children@);
        }
        if focus.direct_files.len() > 0 {
            let entry = direct_entry(focus);
            let ghost before = child_cands(focus.children@, *nodes);
            let ghost x = entry_base(entry);
            proof {
                assert forall|id: Seq<char>| #[trigger] pick(before.push(x), empty, id) == (if x.id == id { Some(x) } else { pick(before, empty, id) }) by {
                    lemma_last_with_push(before, x, id);
                }
            }
            m.insert(entry.id.clone(), entry);
        }
        Ok(m)
    }
}


/// What the projection keeps of one observation concerning the focus: the
/// entries of its ends and the rules that mark it.
struct ObsRec {
    from: ProjectionNode,
    to: ProjectionNode,
    rules: Vec<String>,
    cuts: Vec<String>,
}

/// A relevant observation has both ends' entries.
pub open spec fn obs_ok(nodes: StrMap<CompiledNode>, focus: CompiledNode, f: Seq<char>, e: ResolvedEdge) -> bool {
    relevant(e.from@, e.to@, f) ==> obs_from(nodes, focus, e) is Some && obs_to(nodes, focus, e) is Some
}

/// A relevant manual edge has both ends' entries.
pub open spec fn man_ok(nodes: StrMap<CompiledNode>, focus: CompiledNode, f: Seq<char>, e: CompiledEdge) -> bool {
    man_rel(e, f) ==> man_from(nodes, focus, e) is Some && man_to(nodes, focus, e) is Some
}

spec fn obs_fits(rec: Option<ObsRec>, nodes: StrMap<CompiledNode>, focus: CompiledNode, f: Seq<char>, all: Seq<ViolationView>, e: ResolvedEdge) -> bool {
    match rec {
        Some(r) => {
            &&& relevant(e.from@, e.to@, f)
            &&& obs_from(nodes, focus, e) == Some(entry_base(r.from))
            &&& obs_to(nodes, focus, e) == Some(entry_base(r.to))
            &&& r.from.violation_rule_ids@.len() == 0
            &&& r.to.violation_rule_ids@.len() == 0
            &&& strictly_sorted(views(r.rules@))
            &&& forall|x: Seq<char>| #[trigger] seq_has(views(r.rules@), x) <==> flags(all, e, x)
            &&& strictly_sorted(views(r.cuts@))
            &&& forall|x: Seq<char>| #[trigger] seq_has(views(r.cuts@), x) <==> cuts(all, e, x)
        },
        None => !relevant(e.from@, e.to@, f),
    }
}

/// The observations' records, one per observation (`None` for those that
/// do not concern the focus). Fails when an end's node is missing.
fn observe(edges: &Vec<ResolvedEdge>, nodes: &StrMap<CompiledNode>, focus: &CompiledNode, focus_id: &str, all: &Vec<Violation>) -> (r: Result<Vec<Option<ObsRec>>, String>)
    ensures
        r is Ok <==> forall|i: int| 0 <= i < edges@.len() ==> #[trigger] obs_ok(*nodes, *focus, focus_id@, edges@[i]),
        r matches Ok(recs) ==> recs@.len() == edges@.len() && forall|i: int| 0 <= i < edges@.len() ==> #[trigger] obs_fits(recs@[i], *nodes, *focus, focus_id@, violation_views(all@), edges@[i]),
{
    let mut recs: Vec<Option<ObsRec>> = Vec::new();
    let mut i: usize = 0;
    while i < edges.len()
        invariant
            i <= edges@.len(),
            recs@.len() == i,
            forall|k: int| 0 <= k < i ==> #[trigger] obs_ok(*nodes, *focus, focus_id@, edges@[k]),
            forall|k: int| 0 <= k < i ==> #[trigger] obs_fits(recs@[k], *nodes, *focus, focus_id@, violation_views(all@), edges@[k]),
        decreases edges@.len() - i,
    {
        let e = &edges[i];
        if !is_within(e.from.as_str(), focus_id) && !is_within(e.to.as_str(), focus_id) {
            recs.push(None);
        } else {
            let from = match representative(nodes, focus, e.from.as_str(), Some(e.evidence.from_file.as_str())) {
                Ok(n) => n,
                Err(message) => {
                    proof {
                        assert(!obs_ok(*nodes, *focus, focus_id@, edges@[i as int]));
                    }
                    return Err(message);
                },
            };
            let to = match representative(nodes, focus, e.to.as_str(), Some(e.evidence.to_file.as_str())) {
                Ok(n) => n,
                Err(message) => {
                    proof {
                        assert(!obs_ok(*nodes, *focus, focus_id@, edges@[i as int]));
                    }
                    return Err(message);
                },
            };
            let (rules, cut_rules) = marks(all, e);
            let rec = ObsRec { from, to, rules, cuts: cut_rules };
            proof {
                assert(obs_fits(Some(rec), *nodes, *focus, focus_id@, violation_views(all@), edges@[i as int]));
            }
            recs.push(Some(rec));
        }
        proof {
            assert(obs_fits(recs@[i as int], *nodes, *focus, focus_id@, violation_views(all@), edges@[i as int]));
        }
        i = i + 1;
    }
    Ok(recs)
}

struct ManRec {
    from: ProjectionNode,
    to: ProjectionNode,
}

spec fn man_fits(rec: Option<ManRec>, nodes: StrMap<CompiledNode>, focus: CompiledNode, f: Seq<char>, e: CompiledEdge) -> bool {
    match rec {
        Some(r) => {
            &&& man_rel(e, f)
            &&& man_from(nodes, focus, e) == Some(entry_base(r.from))
            &&& man_to(nodes, focus, e) == Some(entry_base(r.to))
            &&& r.from.violation_rule_ids@.len() == 0
            &&& r.to.violation_rule_ids@.len() == 0
        },
        None => !man_rel(e, f),
    }
}

/// The manual edges' records, one per architecture edge (`None` for the
/// observed ones and those that do not concern the focus).
fn manual_records(edges: &Vec<CompiledEdge>, nodes: &StrMap<CompiledNode>, focus: &CompiledNode, focus_id: &str) -> (r: Result<Vec<Option<ManRec>>, String>)
    ensures
        r is Ok <==> forall|i: int| 0 <= i < edges@.len() ==> #[trigger] man_ok(*nodes, *focus, focus_id@, edges@[i]),
        r matches Ok(recs) ==> recs@.len() == edges@.len() && forall|i: int| 0 <= i < edges@.len() ==> #[trigger] man_fits(recs@[i], *nodes, *focus, focus_id@, edges@[i]),
{
    let mut recs: Vec<Option<ManRec>> = Vec::new();
    let mut i: usize = 0;
    while i < edges.len()
        invariant
            i <= edges@.len(),
            recs@.len() == i,
            forall|k: int| 0 <= k < i ==> #[trigger] man_ok(*nodes, *focus, focus_id@, edges@[k]),
            forall|k: int| 0 <= k < i ==> #[trigger] man_fits(recs@[k], *nodes, *focus, focus_id@, edges@[k]),
        decreases edges@.len() - i,
    {
        let e = &edges[i];
        if e.origin != EdgeOrigin::Manual
            || (!is_within(e.from.as_str(), focus_id) && !is_within(e.to.as_str(), focus_id)) {
            recs.push(None);
        } else {
            let from = match representative(nodes, focus, e.from.as_str(), None) {
                Ok(n) => n,
                Err(message) => {
                    proof {
                        assert(!man_ok(*nodes, *focus, focus_id@, edges@[i as int]));
                    }
                    return Err(message);
                },
            };
            let to = match representative(nodes, focus, e.to.as_str(), None) {
                Ok(n) => n,
                Err(message) => {
                    proof {
                        assert(!man_ok(*nodes, *focus, focus_id@, edges@[i as int]));
                    }
                    return Err(message);
                },
            };
            recs.push(Some(ManRec { from, to }));
        }
        proof {
            assert(man_fits(recs@[i as int], *nodes, *focus, focus_id@, edges@[i as int]));
        }
        i = i + 1;
    }
    Ok(recs)
}

/// Adds the entries of the observations' ends that are not there yet.
fn fill_observed(
    m: &mut StrMap<ProjectionNode>,
    recs: &Vec<Option<ObsRec>>,
    Ghost(edges): Ghost<Seq<ResolvedEdge>>,
    Ghost(nodes): Ghost<StrMap<CompiledNode>>,
    Ghost(focus): Ghost<CompiledNode>,
    Ghost(f): Ghost<Seq<char>>,
    Ghost(all): Ghost<Seq<ViolationView>>,
    Ghost(init): Ghost<Seq<EntryView>>,
)
    requires
        holds_picks(*old(m), init, Seq::empty()),
        recs@.len() == edges.len(),
        forall|i: int| 0 <= i < edges.len() ==> #[trigger] obs_fits(recs@[i], nodes, focus, f, all, edges[i]),
    ensures
        holds_picks(*final(m), init, obs_cands(edges, nodes, focus, f)),
{
    let mut i: usize = 0;
    proof {
        assert(edges.take(0) =~= Seq::<ResolvedEdge>::empty());
    }
    while i < recs.len()
        invariant
            i <= edges.len(),
            recs@.len() == edges.len(),
            forall|k: int| 0 <= k < edges.len() ==> #[trigger] obs_fits(recs@[k], nodes, focus, f, all, edges[k]),
            holds_picks(*m, init, obs_cands(edges.take(i as int), nodes, focus, f)),
        decreases edges.len() - i,
    {
        let ghost before = obs_cands(edges.take(i as int), nodes, focus, f);
        proof {
            assert(edges.take(i + 1).drop_last() =~= edges.take(i as int));
            assert(edges.take(i + 1).last() == edges[i as int]);
            assert(obs_fits(recs@[i as int], nodes, focus, f, all, edges[i as int]));
        }
        match &recs[i] {
            Some(rec) => {
                add_absent(m, &rec.from, Ghost(init), Ghost(before));
                add_absent(m, &rec.to, Ghost(init), Ghost(before.push(entry_base(rec.from))));
            },
            None => {},
        }
        i = i + 1;
    }
    proof {
        assert(edges.take(edges.len() as int) =~= edges);
    }
}

/// Adds the entries of the manual edges' ends that are not there yet.
fn fill_manual(
    m: &mut StrMap<ProjectionNode>,
    recs: &Vec<Option<ManRec>>,
    Ghost(edges): Ghost<Seq<CompiledEdge>>,
    Ghost(nodes): Ghost<StrMap<CompiledNode>>,
    Ghost(focus): Ghost<CompiledNode>,
    Ghost(f): Ghost<Seq<char>>,
    Ghost(init): Ghost<Seq<EntryView>>,
    Ghost(seen): Ghost<Seq<EntryView>>,
)
    requires
        holds_picks(*old(m), init, seen),
        recs@.len() == edges.len(),
        forall|i: int| 0 <= i < edges.len() ==> #[trigger] man_fits(recs@[i], nodes, focus, f, edges[i]),
    ensures
        holds_picks(*final(m), init, seen + man_cands(edges, nodes, focus, f)),
{
    let mut i: usize = 0;
    proof {
        assert(edges.take(0) =~= Seq::<CompiledEdge>::empty());
        assert(seen + man_cands(edges.take(0), nodes, focus, f) =~= seen);
    }
    while i < recs.len()
        invariant
            i <= edges.len(),
            recs@.len() == edges.len(),
            forall|k: int| 0 <= k < edges.len() ==> #[trigger] man_fits(recs@[k], nodes, focus, f, edges[k]),
            holds_picks(*m, init, seen + man_cands(edges.take(i as int), nodes, focus, f)),
        decreases edges.len() - i,
    {
        let ghost before = seen + man_cands(edges.take(i as int), nodes, focus, f);
        proof {
            assert(edges.take(i + 1).drop_last() =~= edges.take(i as int));
            assert(edges.take(i + 1).last() == edges[i as int]);
            assert(man_fits(recs@[i as int], nodes, focus, f, edges[i as int]));
        }
        match &recs[i] {
            Some(rec) => {
                add_absent(m, &rec.from, Ghost(init), Ghost(before));
                add_absent(m, &rec.to, Ghost(init), Ghost(before.push(entry_base(rec.from))));
                proof {
                    let mc = man_cands(edges.take(i as int), nodes, focus, f);
                    assert(seen + mc.push(entry_base(rec.from)).push(entry_base(rec.to)) =~= before.push(entry_base(rec.from)).push(entry_base(rec.to)));
                }
            },
            None => {},
        }
        i = i + 1;
    }
    proof {
        assert(edges.take(edges.len() as int) =~= edges);
    }
}


/// The candidates that the dependencies concerning the focus bring, in
/// order: observed ones first, then manual ones.
pub open spec fn rest_cands(ir: ArchitectureIr, focus: CompiledNode, f: Seq<char>) -> Seq<EntryView> {
    obs_cands(ir.resolved_edges@, ir.nodes, focus, f) + man_cands(ir.edges@, ir.nodes, focus, f)
}

/// The entry with the identity in the projection of the focus, if any.
pub open spec fn entry_at(ir: ArchitectureIr, focus: CompiledNode, f: Seq<char>, id: Seq<char>) -> Option<EntryView> {
    pick(init_cands(ir.nodes, focus), rest_cands(ir, focus, f), id)
}

/// Some node of `nodes` lies within `node`.
pub open spec fn touches_in(nodes: Seq<Seq<char>>, node: Seq<char>) -> bool {
    exists|k: int| 0 <= k < nodes.len() && within(#[trigger] nodes[k], node)
}

/// One of the violation's affected nodes lies within `node`.
pub open spec fn touches(v: ViolationView, node: Seq<char>) -> bool {
    touches_in(v.affected_nodes, node)
}

/// The entry exists and its architecture node is touched by the violation.
pub open spec fn entry_touches(en: Option<EntryView>, v: ViolationView) -> bool {
    match en {
        Some(x) => match x.architecture_id {
            Some(a) => touches(v, a),
            None => false,
        },
        None => false,
    }
}

/// A violation is shown when it touches the focus or an entry's node.
pub open spec fn keeps(ir: ArchitectureIr, focus: CompiledNode, f: Seq<char>, v: ViolationView) -> bool {
    touches(v, f) || exists|id: Seq<char>| entry_touches(#[trigger] entry_at(ir, focus, f, id), v)
}

/// The violations shown, in their order.
pub open spec fn kept(all: Seq<ViolationView>, ir: ArchitectureIr, focus: CompiledNode, f: Seq<char>) -> Seq<ViolationView>
    decreases all.len(),
{
    if all.len() == 0 {
        Seq::empty()
    } else if keeps(ir, focus, f, all.last()) {
        kept(all.drop_last(), ir, focus, f).push(all.last())
    } else {
        kept(all.drop_last(), ir, focus, f)
    }
}

fn touching(v: &Violation, node: &str) -> (r: bool)
    ensures
        r == touches(violation_view(*v), node@),
{
    let r = violation_touches(v, node);
    proof {
        if r {
            let i = choose|i: int| 0 <= i < v.affected_nodes@.len() && within(#[trigger] v.affected_nodes@[i]@, node@);
            assert(views(v.affected_nodes@)[i] == v.affected_nodes@[i]@);
        } else {
            assert forall|k: int| 0 <= k < views(v.affected_nodes@).len() implies !within(#[trigger] views(v.affected_nodes@)[k], node@) by {
                assert(views(v.affected_nodes@)[k] == v.affected_nodes@[k]@);
            }
        }
    }
    r
}

/// Whether the violation touches the node of some entry of the map.
fn entry_touching(m: &StrMap<ProjectionNode>, v: &Violation, Ghost(init): Ghost<Seq<EntryView>>, Ghost(rest): Ghost<Seq<EntryView>>) -> (r: bool)
    requires
        holds_picks(*m, init, rest),
    ensures
        r == exists|id: Seq<char>| entry_touches(#[trigger] pick(init, rest, id), violation_view(*v)),
{
    let ghost vv = violation_view(*v);
    m.keys_sorted();
    let mut p: usize = 0;
    while p < m.len()
        invariant
            p <= m.keys().len(),
            strictly_sorted(m.keys()),
            holds_picks(*m, init, rest),
            vv == violation_view(*v),
            forall|q: int| 0 <= q < p ==> !entry_touches(#[trigger] pick(init, rest, m.keys()[q]), vv),
        decreases m.keys().len() - p,
    {
        let n = m.value(p);
        proof {
            m.lemma_lookup_index(p as int);
            assert(seq_has(m.keys(), m.keys()[p as int]));
        }
        let hit = match &n.architecture_id {
            Some(a) => touching(v, a.as_str()),
            None => false,
        };
        if hit {
            proof {
                assert(entry_touches(pick(init, rest, m.keys()[p as int]), vv));
            }
            return true;
        }
        p = p + 1;
    }
    proof {
        assert forall|id: Seq<char>| !entry_touches(#[trigger] pick(init, rest, id), vv) by {
            if pick(init, rest, id) is Some {
                assert(seq_has(m.keys(), id));
                let q = choose|q: int| 0 <= q < m.keys().len() && m.keys()[q] == id;
                assert(!entry_touches(pick(init, rest, m.keys()[q]), vv));
            }
        }
    }
    false
}

/// The violations the projection shows: those touching the focus or the
/// node of one of its entries.
fn kept_violations(
    all: &Vec<Violation>,
    m: &StrMap<ProjectionNode>,
    focus_id: &str,
    Ghost(ir): Ghost<ArchitectureIr>,
    Ghost(focus): Ghost<CompiledNode>,
) -> (r: Vec<Violation>)
    requires
        holds_picks(*m, init_cands(ir.nodes, focus), rest_cands(ir, focus, focus_id@)),
    ensures
        violation_views(r@) == kept(violation_views(all@), ir, focus, focus_id@),
{
    let ghost va = violation_views(all@);
    let mut out: Vec<Violation> = Vec::new();
    let mut i: usize = 0;
    proof {
        assert(va.take(0) =~= Seq::<ViolationView>::empty());
        assert(violation_views(out@) =~= kept(va.take(0), ir, focus, focus_id@));
    }
    while i < all.len()
        invariant
            i <= all@.len(),
            va == violation_views(all@),
            holds_picks(*m, init_cands(ir.nodes, focus), rest_cands(ir, focus, focus_id@)),
            violation_views(out@) == kept(va.take(i as int), ir, focus, focus_id@),
        decreases all@.len() - i,
    {
        let v = &all[i];
        let keep = touching(v, focus_id) || entry_touching(m, v, Ghost(init_cands(ir.nodes, focus)), Ghost(rest_cands(ir, focus, focus_id@)));
        let ghost before = out@;
        let ghost vv = violation_view(*v);
        proof {
            assert(va.take(i + 1).drop_last() =~= va.take(i as int));
            assert(va.take(i + 1).last() == vv);
            let init = init_cands(ir.nodes, focus);
            let rest = rest_cands(ir, focus, focus_id@);
            if exists|id: Seq<char>| entry_touches(#[trigger] pick(init, rest, id), vv) {
                let id = choose|id: Seq<char>| entry_touches(#[trigger] pick(init, rest, id), vv);
                assert(entry_touches(entry_at(ir, focus, focus_id@, id), vv));
            }
            if exists|id: Seq<char>| entry_touches(#[trigger] entry_at(ir, focus, focus_id@, id), vv) {
                let id = choose|id: Seq<char>| entry_touches(#[trigger] entry_at(ir, focus, focus_id@, id), vv);
                assert(entry_touches(pick(init, rest, id), vv));
            }
            assert(keep == keeps(ir, focus, focus_id@, vv));
        }
        if keep {
            let copy = v.duplicate();
            out.push(copy);
            proof {
                assert(violation_views(out@) =~= violation_views(before).push(vv));
            }
        }
        i = i + 1;
    }
    proof {
        assert(va.take(va.len() as int) =~= va);
    }
    out
}

/// The observation concerns the focus, one of its ends is the entry `id`,
/// and rule `x` is broken by it.
pub open spec fn marks_entry(nodes: StrMap<CompiledNode>, focus: CompiledNode, f: Seq<char>, all: Seq<ViolationView>, e: ResolvedEdge, id: Seq<char>, x: Seq<char>) -> bool {
    &&& relevant(e.from@, e.to@, f)
    &&& (obs_from(nodes, focus, e)->0.id == id || obs_to(nodes, focus, e)->0.id == id)
    &&& flags(all, e, x)
}

/// Rule `x` is broken by a shown violation touching the node of the
/// architecture or boundary entry `en`.
pub open spec fn kept_marks(shown: Seq<ViolationView>, en: Option<EntryView>, x: Seq<char>) -> bool {
    match en {
        Some(e) => (e.entry_kind == EntryKind::Architecture || e.entry_kind == EntryKind::Boundary) && match e.architecture_id {
            Some(a) => exists|k: int| 0 <= k < shown.len() && shown[k].rule_id == x && #[trigger] touches(shown[k], a),
            None => false,
        },
        None => false,
    }
}

/// The rules that mark the entry `id`: those broken by an observation at one
/// of its ends, and for an architecture or boundary entry, those of the
/// shown violations touching its node.
pub open spec fn entry_rule(ir: ArchitectureIr, focus: CompiledNode, f: Seq<char>, all: Seq<ViolationView>, id: Seq<char>, x: Seq<char>) -> bool {
    ||| exists|i: int| 0 <= i < ir.resolved_edges@.len() && #[trigger] marks_entry(ir.nodes, focus, f, all, ir.resolved_edges@[i], id, x)
    ||| kept_marks(kept(all, ir, focus, f), entry_at(ir, focus, f, id), x)
}

/// The entry `n` with the rules `rules`.
fn with_rules(n: &ProjectionNode, rules: Vec<String>) -> (r: ProjectionNode)
    ensures
        entry_base(r) == entry_base(*n),
        r.violation_rule_ids == rules,
{
    ProjectionNode {
        id: n.id.clone(),
        title: n.title.clone(),
        entry_kind: n.entry_kind,
        architecture_id: copy_opt(&n.architecture_id),
        node_kind: n.node_kind,
        file_path: copy_opt(&n.file_path),
        file_count: n.file_count,
        observed_file_count: n.observed_file_count,
        description: copy_opt(&n.description),
        interfaces: copy_interfaces(&n.interfaces),
        outside_focus: n.outside_focus,
        violation_rule_ids: rules,
    }
}

/// The rules marking the entry `n`, ascending without repetitions.
fn entry_rules(
    n: &ProjectionNode,
    recs: &Vec<Option<ObsRec>>,
    shown: &Vec<Violation>,
    Ghost(ir): Ghost<ArchitectureIr>,
    Ghost(focus): Ghost<CompiledNode>,
    Ghost(f): Ghost<Seq<char>>,
    Ghost(all): Ghost<Seq<ViolationView>>,
) -> (r: Vec<String>)
    requires
        recs@.len() == ir.resolved_edges@.len(),
        forall|i: int| 0 <= i < recs@.len() ==> #[trigger] obs_fits(recs@[i], ir.nodes, focus, f, all, ir.resolved_edges@[i]),
        violation_views(shown@) == kept(all, ir, focus, f),
        entry_at(ir, focus, f, n.id@) == Some(entry_base(*n)),
    ensures
        strictly_sorted(views(r@)),
        forall|x: Seq<char>| #[trigger] seq_has(views(r@), x) <==> entry_rule(ir, focus, f, all, n.id@, x),
{
    let ghost edges = ir.resolved_edges@;
    let mut rules: Vec<String> = Vec::new();
    let mut j: usize = 0;
    while j < recs.len()
        invariant
            j <= recs@.len(),
            recs@.len() == edges.len(),
            edges == ir.resolved_edges@,
            forall|i: int| 0 <= i < recs@.len() ==> #[trigger] obs_fits(recs@[i], ir.nodes, focus, f, all, edges[i]),
            strictly_sorted(views(rules@)),
            forall|x: Seq<char>| #[trigger] seq_has(views(rules@), x) <==> exists|i: int| 0 <= i < j && #[trigger] marks_entry(ir.nodes, focus, f, all, edges[i], n.id@, x),
        decreases recs@.len() - j,
    {
        proof {
            assert(obs_fits(recs@[j as int], ir.nodes, focus, f, all, edges[j as int]));
        }
        match &recs[j] {
            Some(rec) => {
                if str_eq(rec.from.id.as_str(), n.id.as_str()) || str_eq(rec.to.id.as_str(), n.id.as_str()) {
                    let ghost start = views(rules@);
                    let mut k: usize = 0;
                    while k < rec.rules.len()
                        invariant
                            k <= rec.rules@.len(),
                            strictly_sorted(views(rules@)),
                            forall|x: Seq<char>| #[trigger] seq_has(views(rules@), x) <==> (seq_has(start, x) || seq_has(views(rec.rules@).take(k as int), x)),
                        decreases rec.rules@.len() - k,
                    {
                        insert_unique(&mut rules, rec.rules[k].clone());
                        proof {
                            let a1 = views(rec.rules@).take(k + 1);
                            let a0 = views(rec.rules@).take(k as int);
                            assert forall|x: Seq<char>| seq_has(a1, x) <==> (seq_has(a0, x) || x == rec.rules@[k as int]@) by {
                                if seq_has(a1, x) {
                                    let t = choose|t: int| 0 <= t < a1.len() && #[trigger] a1[t] == x;
                                    if t < k {
                                        assert(a0[t] == x);
                                    }
                                }
                                if seq_has(a0, x) {
                                    let t = choose|t: int| 0 <= t < a0.len() && #[trigger] a0[t] == x;
                                    assert(a1[t] == x);
                                }
                                if x == rec.rules@[k as int]@ {
                                    assert(a1[k as int] == x);
                                }
                            }
                        }
                        k = k + 1;
                    }
                    proof {
                        assert(views(rec.rules@).take(rec.rules@.len() as int) =~= views(rec.rules@));
                        assert forall|x: Seq<char>| #[trigger] seq_has(views(rules@), x) <==> exists|i: int| 0 <= i < j + 1 && #[trigger] marks_entry(ir.nodes, focus, f, all, edges[i], n.id@, x) by {
                            if seq_has(views(rec.rules@), x) {
                                assert(marks_entry(ir.nodes, focus, f, all, edges[j as int], n.id@, x));
                            }
                            if exists|i: int| 0 <= i < j + 1 && #[trigger] marks_entry(ir.nodes, focus, f, all, edges[i], n.id@, x) {
                                let i = choose|i: int| 0 <= i < j + 1 && #[trigger] marks_entry(ir.nodes, focus, f, all, edges[i], n.id@, x);
                                if i == j {
                                    assert(seq_has(views(rec.rules@), x));
                                }
                            }
                        }
                    }
                } else {
                    proof {
                        assert forall|x: Seq<char>| #[trigger] seq_has(views(rules@), x) <==> exists|i: int| 0 <= i < j + 1 && #[trigger] marks_entry(ir.nodes, focus, f, all, edges[i], n.id@, x) by {
                            if exists|i: int| 0 <= i < j + 1 && #[trigger] marks_entry(ir.nodes, focus, f, all, edges[i], n.id@, x) {
                                let i = choose|i: int| 0 <= i < j + 1 && #[trigger] marks_entry(ir.nodes, focus, f, all, edges[i], n.id@, x);
                                assert(i != j);
                            }
                        }
                    }
                }
            },
            None => {
                proof {
                    assert forall|x: Seq<char>| #[trigger] seq_has(views(rules@), x) <==> exists|i: int| 0 <= i < j + 1 && #[trigger] marks_entry(ir.nodes, focus, f, all, edges[i], n.id@, x) by {
                        if exists|i: int| 0 <= i < j + 1 && #[trigger] marks_entry(ir.nodes, focus, f, all, edges[i], n.id@, x) {
                            let i = choose|i: int| 0 <= i < j + 1 && #[trigger] marks_entry(ir.nodes, focus, f, all, edges[i], n.id@, x);
                            assert(i != j);
                        }
                    }
                }
            },
        }
        j = j + 1;
    }
    let ghost from_edges = views(rules@);
    let ghost en = entry_at(ir, focus, f, n.id@);
    let ghost sk = kept(all, ir, focus, f);
    if n.entry_kind == EntryKind::Architecture || n.entry_kind == EntryKind::Boundary {
        match &n.architecture_id {
            Some(a) => {
                proof {
                    assert(shown@.len() == sk.len()) by {
                        assert(violation_views(shown@).len() == sk.len());
                    }
                }
                let mut k: usize = 0;
                while k < shown.len()
                    invariant
                        k <= shown@.len(),
                        shown@.len() == sk.len(),
                        violation_views(shown@) == sk,
                        strictly_sorted(views(rules@)),
                        forall|x: Seq<char>| #[trigger] seq_has(views(rules@), x) <==> (seq_has(from_edges, x)
                            || exists|t: int| 0 <= t < k && sk[t].rule_id == x && #[trigger] touches(sk[t], a@)),
                    decreases shown@.len() - k,
                {
                    let hit = touching(&shown[k], a.as_str());
                    proof {
                        assert(violation_views(shown@)[k as int] == violation_view(shown@[k as int]));
                    }
                    if hit {
                        insert_unique(&mut rules, shown[k].rule_id.clone());
                    }
                    proof {
                        assert forall|x: Seq<char>| #[trigger] seq_has(views(rules@), x) <==> (seq_has(from_edges, x)
                            || exists|t: int| 0 <= t < k + 1 && sk[t].rule_id == x && #[trigger] touches(sk[t], a@)) by {
                            if hit && x == shown@[k as int].rule_id@ {
                                assert(sk[k as int].rule_id == x && touches(sk[k as int], a@));
                            }
                            if exists|t: int| 0 <= t < k + 1 && sk[t].rule_id == x && #[trigger] touches(sk[t], a@) {
                                let t = choose|t: int| 0 <= t < k + 1 && sk[t].rule_id == x && #[trigger] touches(sk[t], a@);
                                if t == k {
                                    assert(shown@[k as int].rule_id@ == x);
                                }
                            }
                        }
                    }
                    k = k + 1;
                }
            },
            None => {},
        }
    }
    proof {
        assert forall|x: Seq<char>| #[trigger] seq_has(views(rules@), x) <==> entry_rule(ir, focus, f, all, n.id@, x) by {
            if exists|i: int| 0 <= i < ir.resolved_edges@.len() && #[trigger] marks_entry(ir.nodes, focus, f, all, ir.resolved_edges@[i], n.id@, x) {
                let i = choose|i: int| 0 <= i < ir.resolved_edges@.len() && #[trigger] marks_entry(ir.nodes, focus, f, all, ir.resolved_edges@[i], n.id@, x);
                assert(marks_entry(ir.nodes, focus, f, all, edges[i], n.id@, x));
            }
            if seq_has(from_edges, x) {
                let i = choose|i: int| 0 <= i < recs@.len() && #[trigger] marks_entry(ir.nodes, focus, f, all, edges[i], n.id@, x);
                assert(marks_entry(ir.nodes, focus, f, all, ir.resolved_edges@[i], n.id@, x));
            }
        }
    }
    rules
}

/// The shown entries come before those outside the focus, each part in
/// order of identity.
pub open spec fn node_before(a: ProjectionNode, b: ProjectionNode) -> bool {
    (!a.outside_focus && b.outside_focus) || (a.outside_focus == b.outside_focus && lex_lt(a.id@, b.id@))
}

/// The entries of the projection of the focus, in order, each with the
/// rules that mark it.
pub open spec fn nodes_fit(ir: ArchitectureIr, focus: CompiledNode, f: Seq<char>, all: Seq<ViolationView>, nodes: Seq<ProjectionNode>) -> bool {
    &&& forall|i: int, j: int| 0 <= i < j < nodes.len() ==> node_before(#[trigger] nodes[i], #[trigger] nodes[j])
    &&& forall|id: Seq<char>| #[trigger] entry_at(ir, focus, f, id) is Some <==> exists|i: int| 0 <= i < nodes.len() && (#[trigger] nodes[i]).id@ == id
    &&& forall|i: int| 0 <= i < nodes.len() ==> entry_at(ir, focus, f, (#[trigger] nodes[i]).id@) == Some(entry_base(nodes[i]))
    &&& forall|i: int| 0 <= i < nodes.len() ==> strictly_sorted(views((#[trigger] nodes[i]).violation_rule_ids@))
    &&& forall|i: int, x: Seq<char>| 0 <= i < nodes.len() ==>
        (#[trigger] seq_has(views(nodes[i].violation_rule_ids@), x) <==> entry_rule(ir, focus, f, all, nodes[i].id@, x))
}

/// One entry of the final list: an entry of the map, with its rules.
spec fn final_entry(ir: ArchitectureIr, focus: CompiledNode, f: Seq<char>, all: Seq<ViolationView>, n: ProjectionNode) -> bool {
    &&& entry_at(ir, focus, f, n.id@) == Some(entry_base(n))
    &&& strictly_sorted(views(n.violation_rule_ids@))
    &&& forall|x: Seq<char>| #[trigger] seq_has(views(n.violation_rule_ids@), x) <==> entry_rule(ir, focus, f, all, n.id@, x)
}

/// Appends the entries of the map on one side of the focus, in order.
fn append_side(
    out: &mut Vec<ProjectionNode>,
    m: &StrMap<ProjectionNode>,
    outside: bool,
    recs: &Vec<Option<ObsRec>>,
    shown: &Vec<Violation>,
    Ghost(ir): Ghost<ArchitectureIr>,
    Ghost(focus): Ghost<CompiledNode>,
    Ghost(f): Ghost<Seq<char>>,
    Ghost(all): Ghost<Seq<ViolationView>>,
)
    requires
        holds_picks(*m, init_cands(ir.nodes, focus), rest_cands(ir, focus, f)),
        recs@.len() == ir.resolved_edges@.len(),
        forall|i: int| 0 <= i < recs@.len() ==> #[trigger] obs_fits(recs@[i], ir.nodes, focus, f, all, ir.resolved_edges@[i]),
        violation_views(shown@) == kept(all, ir, focus, f),
        forall|t: int| 0 <= t < old(out)@.len() ==> final_entry(ir, focus, f, all, #[trigger] old(out)@[t]),
        forall|t: int| 0 <= t < old(out)@.len() ==> !(#[trigger] old(out)@[t]).outside_focus && outside,
        forall|t: int, u: int| 0 <= t < u < old(out)@.len() ==> node_before(#[trigger] old(out)@[t], #[trigger] old(out)@[u]),
        forall|t: int| 0 <= t < old(out)@.len() ==> seq_has(m.keys(), (#[trigger] old(out)@[t]).id@),
    ensures
        final(out)@.len() >= old(out)@.len(),
        forall|t: int| 0 <= t < old(out)@.len() ==> final(out)@[t] == old(out)@[t],
        forall|t: int| 0 <= t < final(out)@.len() ==> final_entry(ir, focus, f, all, #[trigger] final(out)@[t]),
        forall|t: int, u: int| 0 <= t < u < final(out)@.len() ==> node_before(#[trigger] final(out)@[t], #[trigger] final(out)@[u]),
        forall|t: int| 0 <= t < final(out)@.len() ==> seq_has(m.keys(), (#[trigger] final(out)@[t]).id@),
        forall|t: int| old(out)@.len() <= t < final(out)@.len() ==> (#[trigger] final(out)@[t]).outside_focus == outside,
        forall|q: int| 0 <= q < m.keys().len() && m.values()[q].outside_focus == outside ==>
            exists|t: int| old(out)@.len() <= t < final(out)@.len() && (#[trigger] final(out)@[t]).id@ == m.keys()[q],
{
    m.keys_sorted();
    let ghost start = out@;
    let mut p: usize = 0;
    while p < m.len()
        invariant
            p <= m.keys().len(),
            strictly_sorted(m.keys()),
            holds_picks(*m, init_cands(ir.nodes, focus), rest_cands(ir, focus, f)),
            recs@.len() == ir.resolved_edges@.len(),
            forall|i: int| 0 <= i < recs@.len() ==> #[trigger] obs_fits(recs@[i], ir.nodes, focus, f, all, ir.resolved_edges@[i]),
            violation_views(shown@) == kept(all, ir, focus, f),
            out@.len() >= start.len(),
            forall|t: int| 0 <= t < start.len() ==> out@[t] == start[t],
            forall|t: int| 0 <= t < start.len() ==> !(#[trigger] start[t]).outside_focus && outside,
            forall|t: int| 0 <= t < out@.len() ==> final_entry(ir, focus, f, all, #[trigger] out@[t]),
            forall|t: int, u: int| 0 <= t < u < out@.len() ==> node_before(#[trigger] out@[t], #[trigger] out@[u]),
            forall|t: int| 0 <= t < out@.len() ==> seq_has(m.keys(), (#[trigger] out@[t]).id@),
            forall|t: int| start.len() <= t < out@.len() ==> (#[trigger] out@[t]).outside_focus == outside,
            forall|t: int| start.len() <= t < out@.len() ==> exists|q: int| 0 <= q < p && (#[trigger] out@[t]).id@ == m.keys()[q],
            forall|q: int| 0 <= q < p && m.values()[q].outside_focus == outside ==>
                exists|t: int| start.len() <= t < out@.len() && (#[trigger] out@[t]).id@ == m.keys()[q],
        decreases m.keys().len() - p,
    {
        let n = m.value(p);
        proof {
            m.lemma_lookup_index(p as int);
            assert(seq_has(m.keys(), m.keys()[p as int]));
        }
        if n.outside_focus == outside {
            let rules = entry_rules(n, recs, shown, Ghost(ir), Ghost(focus), Ghost(f), Ghost(all));
            let node = with_rules(n, rules);
            let ghost before = out@;
            out.push(node);
            proof {
                assert(out@[out@.len() - 1] == node);
                assert forall|t: int| 0 <= t < out@.len() - 1 implies node_before(#[trigger] out@[t], node) by {
                    assert(out@[t] == before[t]);
                    if t < start.len() {
                        assert(!start[t].outside_focus && outside);
                    } else {
                        let q = choose|q: int| 0 <= q < p && (#[trigger] before[t]).id@ == m.keys()[q];
                        assert(lex_lt(m.keys()[q], m.keys()[p as int]));
                    }
                }
                assert forall|t: int, u: int| 0 <= t < u < out@.len() implies node_before(#[trigger] out@[t], #[trigger] out@[u]) by {
                    if u < out@.len() - 1 {
                        assert(out@[t] == before[t] && out@[u] == before[u]);
                    }
                }
                assert forall|t: int| start.len() <= t < out@.len() implies exists|q: int| 0 <= q < p + 1 && (#[trigger] out@[t]).id@ == m.keys()[q] by {
                    if t < out@.len() - 1 {
                        assert(out@[t] == before[t]);
                        let q = choose|q: int| 0 <= q < p && (#[trigger] before[t]).id@ == m.keys()[q];
                    } else {
                        assert(out@[t].id@ == m.keys()[p as int]);
                    }
                }
                assert forall|q: int| 0 <= q < p + 1 && m.values()[q].outside_focus == outside implies
                    exists|t: int| start.len() <= t < out@.len() && (#[trigger] out@[t]).id@ == m.keys()[q] by {
                    if q < p {
                        let t = choose|t: int| start.len() <= t < before.len() && (#[trigger] before[t]).id@ == m.keys()[q];
                        assert(out@[t] == before[t]);
                    } else {
                        assert(out@[out@.len() - 1].id@ == m.keys()[q]);
                    }
                }
            }
        } else {
            proof {
                assert forall|t: int| start.len() <= t < out@.len() implies exists|q: int| 0 <= q < p + 1 && (#[trigger] out@[t]).id@ == m.keys()[q] by {
                    let q = choose|q: int| 0 <= q < p && (#[trigger] out@[t]).id@ == m.keys()[q];
                }
            }
        }
        p = p + 1;
    }
}


/// The key of a projected dependency: source entry, target entry, kind and
/// origin.
pub open spec fn obs_key(nodes: StrMap<CompiledNode>, focus: CompiledNode, e: ResolvedEdge) -> (Seq<char>, Seq<char>, Seq<char>, EdgeOrigin) {
    (obs_from(nodes, focus, e)->0.id, obs_to(nodes, focus, e)->0.id, e.kind@, EdgeOrigin::Observed)
}

pub open spec fn man_key(nodes: StrMap<CompiledNode>, focus: CompiledNode, e: CompiledEdge) -> (Seq<char>, Seq<char>, Seq<char>, EdgeOrigin) {
    (man_from(nodes, focus, e)->0.id, man_to(nodes, focus, e)->0.id, e.kind@, EdgeOrigin::Manual)
}

/// A dependency of the projection: between two different entries, brought
/// by an observation or a manual edge concerning the focus.
pub open spec fn is_group(ir: ArchitectureIr, focus: CompiledNode, f: Seq<char>, k: (Seq<char>, Seq<char>, Seq<char>, EdgeOrigin)) -> bool {
    &&& k.0 != k.1
    &&& {
        ||| exists|i: int| 0 <= i < ir.resolved_edges@.len() && relevant(ir.resolved_edges@[i].from@, ir.resolved_edges@[i].to@, f)
            && #[trigger] obs_key(ir.nodes, focus, ir.resolved_edges@[i]) == k
        ||| exists|i: int| 0 <= i < ir.edges@.len() && man_rel(ir.edges@[i], f) && #[trigger] man_key(ir.nodes, focus, ir.edges@[i]) == k
    }
}

pub open spec fn origin_rank(o: EdgeOrigin) -> int {
    match o {
        EdgeOrigin::Observed => 0,
        EdgeOrigin::Manual => 1,
    }
}

/// The order of dependencies: by source entry, target entry, kind, then
/// observed before manual.
pub open spec fn group_order(a: (Seq<char>, Seq<char>, Seq<char>, EdgeOrigin), b: (Seq<char>, Seq<char>, Seq<char>, EdgeOrigin)) -> int {
    if key_order((a.0, a.1, a.2), (b.0, b.1, b.2)) != 0 {
        key_order((a.0, a.1, a.2), (b.0, b.1, b.2))
    } else {
        origin_rank(a.3) - origin_rank(b.3)
    }
}

pub proof fn lemma_group_order(a: (Seq<char>, Seq<char>, Seq<char>, EdgeOrigin), b: (Seq<char>, Seq<char>, Seq<char>, EdgeOrigin))
    ensures
        group_order(a, b) == -group_order(b, a),
        group_order(a, b) == 0 <==> a == b,
{
    lemma_key_order((a.0, a.1, a.2), (b.0, b.1, b.2));
}

pub proof fn lemma_group_order_trans(
    a: (Seq<char>, Seq<char>, Seq<char>, EdgeOrigin),
    b: (Seq<char>, Seq<char>, Seq<char>, EdgeOrigin),
    c: (Seq<char>, Seq<char>, Seq<char>, EdgeOrigin),
)
    requires
        group_order(a, b) < 0,
        group_order(b, c) < 0,
    ensures
        group_order(a, c) < 0,
{
    let ta = (a.0, a.1, a.2);
    let tb = (b.0, b.1, b.2);
    let tc = (c.0, c.1, c.2);
    lemma_key_order(ta, tb);
    lemma_key_order(tb, tc);
    lemma_key_order(ta, tc);
    if key_order(ta, tb) < 0 && key_order(tb, tc) < 0 {
        lemma_key_order_trans(ta, tb, tc);
    } else if key_order(ta, tb) < 0 {
        assert(tb == tc);
    } else if key_order(tb, tc) < 0 {
        assert(ta == tb);
    }
}

struct GroupKey {
    from: String,
    to: String,
    kind: String,
    origin: EdgeOrigin,
}

spec fn gk(k: GroupKey) -> (Seq<char>, Seq<char>, Seq<char>, EdgeOrigin) {
    (k.from@, k.to@, k.kind@, k.origin)
}

spec fn keys_sorted(s: Seq<GroupKey>) -> bool {
    forall|i: int, j: int| 0 <= i < j < s.len() ==> group_order(gk(#[trigger] s[i]), gk(#[trigger] s[j])) < 0
}

spec fn has_gkey(s: Seq<GroupKey>, k: (Seq<char>, Seq<char>, Seq<char>, EdgeOrigin)) -> bool {
    exists|i: int| 0 <= i < s.len() && gk(#[trigger] s[i]) == k
}

fn order_of_groups(a: &GroupKey, from: &str, to: &str, kind: &str, origin: EdgeOrigin) -> (r: i8)
    ensures
        r == group_order(gk(*a), (from@, to@, kind@, origin)),
{
    let c = order_of_text(a.from.as_str(), from);
    if c != 0 {
        return c;
    }
    let c = order_of_text(a.to.as_str(), to);
    if c != 0 {
        return c;
    }
    let c = order_of_text(a.kind.as_str(), kind);
    if c != 0 {
        return c;
    }
    match (a.origin, origin) {
        (EdgeOrigin::Observed, EdgeOrigin::Manual) => -1,
        (EdgeOrigin::Manual, EdgeOrigin::Observed) => 1,
        _ => 0,
    }
}

/// Adds a key to an ascending list without repetitions, keeping it so.
fn insert_key(keys: &mut Vec<GroupKey>, from: &str, to: &str, kind: &str, origin: EdgeOrigin)
    requires
        keys_sorted(old(keys)@),
    ensures
        keys_sorted(final(keys)@),
        forall|k: (Seq<char>, Seq<char>, Seq<char>, EdgeOrigin)| #[trigger] has_gkey(final(keys)@, k) <==> (has_gkey(old(keys)@, k) || k == (from@, to@, kind@, origin)),
{
    let ghost x = (from@, to@, kind@, origin);
    let ghost o = keys@;
    let mut pos: usize = 0;
    let mut stop = false;
    while pos < keys.len() && !stop
        invariant
            pos <= keys@.len(),
            o == keys@,
            x == (from@, to@, kind@, origin),
            forall|i: int| 0 <= i < pos ==> group_order(gk(#[trigger] o[i]), x) < 0,
            stop ==> pos < o.len() && group_order(gk(o[pos as int]), x) >= 0,
        decreases keys@.len() - pos + (if stop { 0int } else { 1int }),
    {
        if order_of_groups(&keys[pos], from, to, kind, origin) < 0 {
            pos = pos + 1;
        } else {
            stop = true;
        }
    }
    if stop && order_of_groups(&keys[pos], from, to, kind, origin) == 0 {
        proof {
            lemma_group_order(gk(o[pos as int]), x);
            assert forall|k: (Seq<char>, Seq<char>, Seq<char>, EdgeOrigin)| #[trigger] has_gkey(keys@, k) <==> (has_gkey(o, k) || k == x) by {
                if k == x {
                    assert(gk(o[pos as int]) == k);
                }
            }
        }
        return;
    }
    let key = GroupKey { from: String::from_str(from), to: String::from_str(to), kind: String::from_str(kind), origin };
    keys.insert(pos, key);
    proof {
        let n = keys@;
        assert(gk(key) == x);
        assert(n =~= o.insert(pos as int, key));
        if stop {
            lemma_group_order(gk(o[pos as int]), x);
        }
        assert forall|i: int, j: int| 0 <= i < j < n.len() implies group_order(gk(#[trigger] n[i]), gk(#[trigger] n[j])) < 0 by {
            if j < pos {
                assert(n[i] == o[i] && n[j] == o[j]);
            } else if j == pos {
                assert(n[i] == o[i]);
            } else if i < pos {
                assert(n[i] == o[i] && n[j] == o[j - 1]);
                lemma_group_order(gk(o[pos as int]), x);
                if j - 1 > pos {
                    lemma_group_order_trans(x, gk(o[pos as int]), gk(o[j - 1]));
                }
                lemma_group_order_trans(gk(o[i]), x, gk(o[j - 1]));
            } else if i == pos {
                assert(n[j] == o[j - 1]);
                lemma_group_order(gk(o[pos as int]), x);
                if j - 1 > pos {
                    lemma_group_order_trans(x, gk(o[pos as int]), gk(o[j - 1]));
                }
            } else {
                assert(n[i] == o[i - 1] && n[j] == o[j - 1]);
            }
        }
        assert forall|k: (Seq<char>, Seq<char>, Seq<char>, EdgeOrigin)| #[trigger] has_gkey(n, k) <==> (has_gkey(o, k) || k == x) by {
            if has_gkey(n, k) {
                let i = choose|i: int| 0 <= i < n.len() && gk(#[trigger] n[i]) == k;
                if i < pos {
                    assert(n[i] == o[i]);
                } else if i > pos {
                    assert(n[i] == o[i - 1]);
                }
            }
            if has_gkey(o, k) {
                let i = choose|i: int| 0 <= i < o.len() && gk(#[trigger] o[i]) == k;
                if i < pos {
                    assert(n[i] == o[i]);
                } else {
                    assert(n[i + 1] == o[i]);
                }
            }
            if k == x {
                assert(gk(n[pos as int]) == k);
            }
        }
    }
}

/// The keys of the projected dependencies, ascending.
fn group_keys(
    recs: &Vec<Option<ObsRec>>,
    mrecs: &Vec<Option<ManRec>>,
    ir: &ArchitectureIr,
    Ghost(focus): Ghost<CompiledNode>,
    Ghost(f): Ghost<Seq<char>>,
    Ghost(all): Ghost<Seq<ViolationView>>,
) -> (r: Vec<GroupKey>)
    requires
        recs@.len() == ir.resolved_edges@.len(),
        forall|i: int| 0 <= i < recs@.len() ==> #[trigger] obs_fits(recs@[i], ir.nodes, focus, f, all, ir.resolved_edges@[i]),
        mrecs@.len() == ir.edges@.len(),
        forall|i: int| 0 <= i < mrecs@.len() ==> #[trigger] man_fits(mrecs@[i], ir.nodes, focus, f, ir.edges@[i]),
    ensures
        keys_sorted(r@),
        forall|k: (Seq<char>, Seq<char>, Seq<char>, EdgeOrigin)| #[trigger] has_gkey(r@, k) <==> is_group(*ir, focus, f, k),
{
    let ghost edges = ir.resolved_edges@;
    let ghost cedges = ir.edges@;
    let mut keys: Vec<GroupKey> = Vec::new();
    let mut i: usize = 0;
    while i < recs.len()
        invariant
            i <= recs@.len(),
            recs@.len() == edges.len(),
            edges == ir.resolved_edges@,
            forall|j: int| 0 <= j < recs@.len() ==> #[trigger] obs_fits(recs@[j], ir.nodes, focus, f, all, edges[j]),
            keys_sorted(keys@),
            forall|k: (Seq<char>, Seq<char>, Seq<char>, EdgeOrigin)| #[trigger] has_gkey(keys@, k) <==> (k.0 != k.1
                && exists|j: int| 0 <= j < i && relevant(edges[j].from@, edges[j].to@, f) && #[trigger] obs_key(ir.nodes, focus, edges[j]) == k),
        decreases recs@.len() - i,
    {
        proof {
            assert(obs_fits(recs@[i as int], ir.nodes, focus, f, all, edges[i as int]));
        }
        match &recs[i] {
            Some(rec) => {
                if !str_eq(rec.from.id.as_str(), rec.to.id.as_str()) {
                    insert_key(&mut keys, rec.from.id.as_str(), rec.to.id.as_str(), ir.resolved_edges[i].kind.as_str(), EdgeOrigin::Observed);
                }
                proof {
                    let x = obs_key(ir.nodes, focus, edges[i as int]);
                    assert(x == (rec.from.id@, rec.to.id@, edges[i as int].kind@, EdgeOrigin::Observed));
                    assert forall|k: (Seq<char>, Seq<char>, Seq<char>, EdgeOrigin)| #[trigger] has_gkey(keys@, k) <==> (k.0 != k.1
                        && exists|j: int| 0 <= j < i + 1 && relevant(edges[j].from@, edges[j].to@, f) && #[trigger] obs_key(ir.nodes, focus, edges[j]) == k) by {
                        if k.0 != k.1 && exists|j: int| 0 <= j < i + 1 && relevant(edges[j].from@, edges[j].to@, f) && #[trigger] obs_key(ir.nodes, focus, edges[j]) == k {
                            let j = choose|j: int| 0 <= j < i + 1 && relevant(edges[j].from@, edges[j].to@, f) && #[trigger] obs_key(ir.nodes, focus, edges[j]) == k;
                            if j == i {
                                assert(k == x);
                            }
                        }
                        if k == x && x.0 != x.1 {
                            assert(relevant(edges[i as int].from@, edges[i as int].to@, f));
                        }
                    }
                }
            },
            None => {
                proof {
                    assert forall|k: (Seq<char>, Seq<char>, Seq<char>, EdgeOrigin)| #[trigger] has_gkey(keys@, k) <==> (k.0 != k.1
                        && exists|j: int| 0 <= j < i + 1 && relevant(edges[j].from@, edges[j].to@, f) && #[trigger] obs_key(ir.nodes, focus, edges[j]) == k) by {
                        if exists|j: int| 0 <= j < i + 1 && relevant(edges[j].from@, edges[j].to@, f) && #[trigger] obs_key(ir.nodes, focus, edges[j]) == k {
                            let j = choose|j: int| 0 <= j < i + 1 && relevant(edges[j].from@, edges[j].to@, f) && #[trigger] obs_key(ir.nodes, focus, edges[j]) == k;
                            assert(j != i);
                        }
                    }
                }
            },
        }
        i = i + 1;
    }
    let mut i: usize = 0;
    while i < mrecs.len()
        invariant
            i <= mrecs@.len(),
            recs@.len() == edges.len(),
            mrecs@.len() == cedges.len(),
            edges == ir.resolved_edges@,
            cedges == ir.edges@,
            forall|j: int| 0 <= j < mrecs@.len() ==> #[trigger] man_fits(mrecs@[j], ir.nodes, focus, f, cedges[j]),
            keys_sorted(keys@),
            forall|k: (Seq<char>, Seq<char>, Seq<char>, EdgeOrigin)| #[trigger] has_gkey(keys@, k) <==> (k.0 != k.1 && (
                (exists|j: int| 0 <= j < edges.len() && relevant(edges[j].from@, edges[j].to@, f) && #[trigger] obs_key(ir.nodes, focus, edges[j]) == k)
                || (exists|j: int| 0 <= j < i && man_rel(cedges[j], f) && #[trigger] man_key(ir.nodes, focus, cedges[j]) == k))),
        decreases mrecs@.len() - i,
    {
        proof {
            assert(man_fits(mrecs@[i as int], ir.nodes, focus, f, cedges[i as int]));
        }
        match &mrecs[i] {
            Some(rec) => {
                if !str_eq(rec.from.id.as_str(), rec.to.id.as_str()) {
                    insert_key(&mut keys, rec.from.id.as_str(), rec.to.id.as_str(), ir.edges[i].kind.as_str(), EdgeOrigin::Manual);
                }
                proof {
                    let x = man_key(ir.nodes, focus, cedges[i as int]);
                    assert(x == (rec.from.id@, rec.to.id@, cedges[i as int].kind@, EdgeOrigin::Manual));
                    assert forall|k: (Seq<char>, Seq<char>, Seq<char>, EdgeOrigin)| #[trigger] has_gkey(keys@, k) <==> (k.0 != k.1 && (
                        (exists|j: int| 0 <= j < edges.len() && relevant(edges[j].from@, edges[j].to@, f) && #[trigger] obs_key(ir.nodes, focus, edges[j]) == k)
                        || (exists|j: int| 0 <= j < i + 1 && man_rel(cedges[j], f) && #[trigger] man_key(ir.nodes, focus, cedges[j]) == k))) by {
                        if exists|j: int| 0 <= j < i + 1 && man_rel(cedges[j], f) && #[trigger] man_key(ir.nodes, focus, cedges[j]) == k {
                            let j = choose|j: int| 0 <= j < i + 1 && man_rel(cedges[j], f) && #[trigger] man_key(ir.nodes, focus, cedges[j]) == k;
                            if j == i {
                                assert(k == x);
                            }
                        }
                        if k == x && x.0 != x.1 {
                            assert(man_rel(cedges[i as int], f));
                        }
                    }
                }
            },
            None => {
                proof {
                    assert forall|k: (Seq<char>, Seq<char>, Seq<char>, EdgeOrigin)| #[trigger] has_gkey(keys@, k) <==> (k.0 != k.1 && (
                        (exists|j: int| 0 <= j < edges.len() && relevant(edges[j].from@, edges[j].to@, f) && #[trigger] obs_key(ir.nodes, focus, edges[j]) == k)
                        || (exists|j: int| 0 <= j < i + 1 && man_rel(cedges[j], f) && #[trigger] man_key(ir.nodes, focus, cedges[j]) == k))) by {
                        if exists|j: int| 0 <= j < i + 1 && man_rel(cedges[j], f) && #[trigger] man_key(ir.nodes, focus, cedges[j]) == k {
                            let j = choose|j: int| 0 <= j < i + 1 && man_rel(cedges[j], f) && #[trigger] man_key(ir.nodes, focus, cedges[j]) == k;
                            assert(j != i);
                        }
                    }
                }
            },
        }
        i = i + 1;
    }
    keys
}


/// The evidence of the observations of dependency `k`, in order.
pub open spec fn group_evidence(edges: Seq<ResolvedEdge>, nodes: StrMap<CompiledNode>, focus: CompiledNode, f: Seq<char>, k: (Seq<char>, Seq<char>, Seq<char>, EdgeOrigin)) -> Seq<EvidenceView>
    decreases edges.len(),
{
    if edges.len() == 0 {
        Seq::empty()
    } else if relevant(edges.last().from@, edges.last().to@, f) && obs_key(nodes, focus, edges.last()) == k {
        group_evidence(edges.drop_last(), nodes, focus, f, k).push(ev_view(edges.last().evidence))
    } else {
        group_evidence(edges.drop_last(), nodes, focus, f, k)
    }
}

/// The manual edges behind dependency `k`, in order.
pub open spec fn group_manuals(edges: Seq<CompiledEdge>, nodes: StrMap<CompiledNode>, focus: CompiledNode, f: Seq<char>, k: (Seq<char>, Seq<char>, Seq<char>, EdgeOrigin)) -> Seq<(Seq<char>, Seq<char>, Seq<char>, Seq<char>, Option<Seq<char>>, Option<Seq<char>>)>
    decreases edges.len(),
{
    if edges.len() == 0 {
        Seq::empty()
    } else if man_rel(edges.last(), f) && man_key(nodes, focus, edges.last()) == k {
        group_manuals(edges.drop_last(), nodes, focus, f, k) + manual_views(edges.last().manual_edges@)
    } else {
        group_manuals(edges.drop_last(), nodes, focus, f, k)
    }
}

/// Rule `x` is broken by an observation of dependency `k`.
pub open spec fn group_flag(ir: ArchitectureIr, focus: CompiledNode, f: Seq<char>, all: Seq<ViolationView>, k: (Seq<char>, Seq<char>, Seq<char>, EdgeOrigin), x: Seq<char>) -> bool {
    exists|i: int| 0 <= i < ir.resolved_edges@.len() && relevant(ir.resolved_edges@[i].from@, ir.resolved_edges@[i].to@, f)
        && obs_key(ir.nodes, focus, ir.resolved_edges@[i]) == k && #[trigger] flags(all, ir.resolved_edges@[i], x)
}

/// A suggested cut of rule `x` holds an observation of dependency `k`.
pub open spec fn group_cut(ir: ArchitectureIr, focus: CompiledNode, f: Seq<char>, all: Seq<ViolationView>, k: (Seq<char>, Seq<char>, Seq<char>, EdgeOrigin), x: Seq<char>) -> bool {
    exists|i: int| 0 <= i < ir.resolved_edges@.len() && relevant(ir.resolved_edges@[i].from@, ir.resolved_edges@[i].to@, f)
        && obs_key(ir.nodes, focus, ir.resolved_edges@[i]) == k && #[trigger] cuts(all, ir.resolved_edges@[i], x)
}

pub open spec fn pedge_key(pe: ProjectionEdge) -> (Seq<char>, Seq<char>, Seq<char>, EdgeOrigin) {
    (pe.edge.from@, pe.edge.to@, pe.edge.kind@, pe.edge.origin)
}

/// A projected dependency: an observed one counts and samples its
/// observations and carries the rules they break and the cuts that hold
/// them; a manual one counts and lists its manual edges by identity.
pub open spec fn edge_fits(ir: ArchitectureIr, focus: CompiledNode, f: Seq<char>, all: Seq<ViolationView>, limit: nat, pe: ProjectionEdge) -> bool {
    let k = pedge_key(pe);
    match pe.edge.origin {
        EdgeOrigin::Observed => {
            &&& compiled_acc(pe.edge) == acc_of(group_evidence(ir.resolved_edges@, ir.nodes, focus, f, k), limit)
            &&& pe.edge.manual_edges@.len() == 0
            &&& strictly_sorted(views(pe.violation_rule_ids@))
            &&& forall|x: Seq<char>| #[trigger] seq_has(views(pe.violation_rule_ids@), x) <==> group_flag(ir, focus, f, all, k, x)
            &&& strictly_sorted(views(pe.suggested_cut_rule_ids@))
            &&& forall|x: Seq<char>| #[trigger] seq_has(views(pe.suggested_cut_rule_ids@), x) <==> group_cut(ir, focus, f, all, k, x)
        },
        EdgeOrigin::Manual => {
            &&& pe.edge.count == group_manuals(ir.edges@, ir.nodes, focus, f, k).len()
            &&& pe.edge.evidence@.len() == 0
            &&& pe.edge.confidence_min is None
            &&& pe.edge.confidence_max is None
            &&& sorted_by_ident(pe.edge.manual_edges@)
            &&& manual_views(pe.edge.manual_edges@).to_multiset() == group_manuals(ir.edges@, ir.nodes, focus, f, k).to_multiset()
            &&& pe.violation_rule_ids@.len() == 0
            &&& pe.suggested_cut_rule_ids@.len() == 0
        },
    }
}

/// The dependencies of the projection, in order, each fitting its key.
pub open spec fn edges_fit(ir: ArchitectureIr, focus: CompiledNode, f: Seq<char>, all: Seq<ViolationView>, limit: nat, es: Seq<ProjectionEdge>) -> bool {
    &&& forall|i: int, j: int| 0 <= i < j < es.len() ==> group_order(pedge_key(#[trigger] es[i]), pedge_key(#[trigger] es[j])) < 0
    &&& forall|k: (Seq<char>, Seq<char>, Seq<char>, EdgeOrigin)| #[trigger] is_group(ir, focus, f, k) <==> exists|i: int| 0 <= i < es.len() && pedge_key(#[trigger] es[i]) == k
    &&& forall|i: int| 0 <= i < es.len() ==> #[trigger] edge_fits(ir, focus, f, all, limit, es[i])
}

proof fn lemma_group_evidence_len(edges: Seq<ResolvedEdge>, nodes: StrMap<CompiledNode>, focus: CompiledNode, f: Seq<char>, k: (Seq<char>, Seq<char>, Seq<char>, EdgeOrigin))
    ensures
        group_evidence(edges, nodes, focus, f, k).len() <= edges.len(),
    decreases edges.len(),
{
    if edges.len() > 0 {
        lemma_group_evidence_len(edges.drop_last(), nodes, focus, f, k);
    }
}

/// Adds the strings of `add` to an ascending list without repetitions.
fn union_into(out: &mut Vec<String>, add: &Vec<String>)
    requires
        strictly_sorted(views(old(out)@)),
    ensures
        strictly_sorted(views(final(out)@)),
        forall|x: Seq<char>| #[trigger] seq_has(views(final(out)@), x) <==> (seq_has(views(old(out)@), x) || seq_has(views(add@), x)),
{
    let ghost start = views(out@);
    let mut k: usize = 0;
    while k < add.len()
        invariant
            k <= add@.len(),
            strictly_sorted(views(out@)),
            forall|x: Seq<char>| #[trigger] seq_has(views(out@), x) <==> (seq_has(start, x) || seq_has(views(add@).take(k as int), x)),
        decreases add@.len() - k,
    {
        insert_unique(out, add[k].clone());
        proof {
            let a1 = views(add@).take(k + 1);
            let a0 = views(add@).take(k as int);
            assert forall|x: Seq<char>| seq_has(a1, x) <==> (seq_has(a0, x) || x == add@[k as int]@) by {
                if seq_has(a1, x) {
                    let t = choose|t: int| 0 <= t < a1.len() && #[trigger] a1[t] == x;
                    if t < k {
                        assert(a0[t] == x);
                    }
                }
                if seq_has(a0, x) {
                    let t = choose|t: int| 0 <= t < a0.len() && #[trigger] a0[t] == x;
                    assert(a1[t] == x);
                }
                if x == add@[k as int]@ {
                    assert(a1[k as int] == x);
                }
            }
        }
        k = k + 1;
    }
    proof {
        assert(views(add@).take(add@.len() as int) =~= views(add@));
    }
}

/// The observed dependency `key`: its observations counted and sampled, with
/// the rules they break and the cuts that hold them.
fn observed_group(
    key: &GroupKey,
    recs: &Vec<Option<ObsRec>>,
    ir: &ArchitectureIr,
    limit: usize,
    Ghost(focus): Ghost<CompiledNode>,
    Ghost(f): Ghost<Seq<char>>,
    Ghost(all): Ghost<Seq<ViolationView>>,
) -> (r: ProjectionEdge)
    requires
        key.origin == EdgeOrigin::Observed,
        recs@.len() == ir.resolved_edges@.len(),
        forall|i: int| 0 <= i < recs@.len() ==> #[trigger] obs_fits(recs@[i], ir.nodes, focus, f, all, ir.resolved_edges@[i]),
    ensures
        pedge_key(r) == gk(*key),
        edge_fits(*ir, focus, f, all, limit as nat, r),
{
    let ghost edges = ir.resolved_edges@;
    let ghost k = gk(*key);
    let mut acc = EvidenceAccumulator::new();
    let mut rules: Vec<String> = Vec::new();
    let mut cut_rules: Vec<String> = Vec::new();
    let mut j: usize = 0;
    proof {
        assert(edges.take(0) =~= Seq::<ResolvedEdge>::empty());
    }
    while j < recs.len()
        invariant
            j <= recs@.len(),
            recs@.len() == edges.len(),
            edges == ir.resolved_edges@,
            k == gk(*key),
            key.origin == EdgeOrigin::Observed,
            forall|i: int| 0 <= i < recs@.len() ==> #[trigger] obs_fits(recs@[i], ir.nodes, focus, f, all, edges[i]),
            acc.view_acc() == acc_of(group_evidence(edges.take(j as int), ir.nodes, focus, f, k), limit as nat),
            strictly_sorted(views(rules@)),
            strictly_sorted(views(cut_rules@)),
            forall|x: Seq<char>| #[trigger] seq_has(views(rules@), x) <==> exists|i: int| 0 <= i < j && relevant(edges[i].from@, edges[i].to@, f)
                && obs_key(ir.nodes, focus, edges[i]) == k && #[trigger] flags(all, edges[i], x),
            forall|x: Seq<char>| #[trigger] seq_has(views(cut_rules@), x) <==> exists|i: int| 0 <= i < j && relevant(edges[i].from@, edges[i].to@, f)
                && obs_key(ir.nodes, focus, edges[i]) == k && #[trigger] cuts(all, edges[i], x),
        decreases recs@.len() - j,
    {
        let ghost e = edges[j as int];
        proof {
            assert(obs_fits(recs@[j as int], ir.nodes, focus, f, all, e));
            assert(edges.take(j + 1).drop_last() =~= edges.take(j as int));
            assert(edges.take(j + 1).last() == e);
            lemma_group_evidence_len(edges.take(j as int), ir.nodes, focus, f, k);
            lemma_acc_count(group_evidence(edges.take(j as int), ir.nodes, focus, f, k), limit as nat);
        }
        let matched = match &recs[j] {
            Some(rec) => str_eq(rec.from.id.as_str(), key.from.as_str()) && str_eq(rec.to.id.as_str(), key.to.as_str())
                && str_eq(ir.resolved_edges[j].kind.as_str(), key.kind.as_str()),
            None => false,
        };
        proof {
            assert(matched == (relevant(e.from@, e.to@, f) && obs_key(ir.nodes, focus, e) == k));
            let g = group_evidence(edges.take(j as int), ir.nodes, focus, f, k);
            if matched {
                assert(group_evidence(edges.take(j + 1), ir.nodes, focus, f, k) == g.push(ev_view(e.evidence)));
                assert(g.push(ev_view(e.evidence)).drop_last() =~= g);
            } else {
                assert(group_evidence(edges.take(j + 1), ir.nodes, focus, f, k) == g);
            }
        }
        if matched {
            match &recs[j] {
                Some(rec) => {
                    acc.add(&ir.resolved_edges[j].evidence, limit);
                    union_into(&mut rules, &rec.rules);
                    union_into(&mut cut_rules, &rec.cuts);
                },
                None => {},
            }
        }
        proof {
            assert forall|x: Seq<char>| #[trigger] seq_has(views(rules@), x) <==> exists|i: int| 0 <= i < j + 1 && relevant(edges[i].from@, edges[i].to@, f)
                && obs_key(ir.nodes, focus, edges[i]) == k && #[trigger] flags(all, edges[i], x) by {
                if exists|i: int| 0 <= i < j + 1 && relevant(edges[i].from@, edges[i].to@, f)
                    && obs_key(ir.nodes, focus, edges[i]) == k && #[trigger] flags(all, edges[i], x) {
                    let i = choose|i: int| 0 <= i < j + 1 && relevant(edges[i].from@, edges[i].to@, f)
                        && obs_key(ir.nodes, focus, edges[i]) == k && #[trigger] flags(all, edges[i], x);
                    if i == j {
                        assert(matched);
                    }
                }
                if matched && flags(all, e, x) {
                    assert(flags(all, edges[j as int], x));
                }
            }
            assert forall|x: Seq<char>| #[trigger] seq_has(views(cut_rules@), x) <==> exists|i: int| 0 <= i < j + 1 && relevant(edges[i].from@, edges[i].to@, f)
                && obs_key(ir.nodes, focus, edges[i]) == k && #[trigger] cuts(all, edges[i], x) by {
                if exists|i: int| 0 <= i < j + 1 && relevant(edges[i].from@, edges[i].to@, f)
                    && obs_key(ir.nodes, focus, edges[i]) == k && #[trigger] cuts(all, edges[i], x) {
                    let i = choose|i: int| 0 <= i < j + 1 && relevant(edges[i].from@, edges[i].to@, f)
                        && obs_key(ir.nodes, focus, edges[i]) == k && #[trigger] cuts(all, edges[i], x);
                    if i == j {
                        assert(matched);
                    }
                }
                if matched && cuts(all, e, x) {
                    assert(cuts(all, edges[j as int], x));
                }
            }
        }
        j = j + 1;
    }
    proof {
        assert(edges.take(edges.len() as int) =~= edges);
    }
    let edge = acc.into_edge(key.from.clone(), key.to.clone(), key.kind.clone());
    ProjectionEdge { edge, violation_rule_ids: rules, suggested_cut_rule_ids: cut_rules }
}

/// The manual dependency `key`: its manual edges ordered by identity.
fn manual_group(
    key: &GroupKey,
    mrecs: &Vec<Option<ManRec>>,
    ir: &ArchitectureIr,
    limit: usize,
    Ghost(focus): Ghost<CompiledNode>,
    Ghost(f): Ghost<Seq<char>>,
    Ghost(all): Ghost<Seq<ViolationView>>,
) -> (r: ProjectionEdge)
    requires
        key.origin == EdgeOrigin::Manual,
        mrecs@.len() == ir.edges@.len(),
        forall|i: int| 0 <= i < mrecs@.len() ==> #[trigger] man_fits(mrecs@[i], ir.nodes, focus, f, ir.edges@[i]),
    ensures
        pedge_key(r) == gk(*key),
        edge_fits(*ir, focus, f, all, limit as nat, r),
{
    let ghost edges = ir.edges@;
    let ghost k = gk(*key);
    let mut mans: Vec<ManualEdgeConfig> = Vec::new();
    let mut j: usize = 0;
    proof {
        assert(edges.take(0) =~= Seq::<CompiledEdge>::empty());
        assert(manual_views(mans@) =~= Seq::empty());
    }
    while j < mrecs.len()
        invariant
            j <= mrecs@.len(),
            mrecs@.len() == edges.len(),
            edges == ir.edges@,
            k == gk(*key),
            key.origin == EdgeOrigin::Manual,
            forall|i: int| 0 <= i < mrecs@.len() ==> #[trigger] man_fits(mrecs@[i], ir.nodes, focus, f, edges[i]),
            manual_views(mans@) == group_manuals(edges.take(j as int), ir.nodes, focus, f, k),
        decreases mrecs@.len() - j,
    {
        let ghost e = edges[j as int];
        proof {
            assert(man_fits(mrecs@[j as int], ir.nodes, focus, f, e));
            assert(edges.take(j + 1).drop_last() =~= edges.take(j as int));
            assert(edges.take(j + 1).last() == e);
        }
        let matched = match &mrecs[j] {
            Some(rec) => str_eq(rec.from.id.as_str(), key.from.as_str()) && str_eq(rec.to.id.as_str(), key.to.as_str())
                && str_eq(ir.edges[j].kind.as_str(), key.kind.as_str()),
            None => false,
        };
        proof {
            assert(matched == (man_rel(e, f) && man_key(ir.nodes, focus, e) == k));
        }
        if matched {
            append_manuals(&mut mans, &ir.edges[j].manual_edges);
        }
        j = j + 1;
    }
    proof {
        assert(edges.take(edges.len() as int) =~= edges);
    }
    let ghost before = mans@;
    let sorted = sort_by_ident(mans);
    proof {
        lemma_manual_multiset(sorted@, before);
        assert(manual_views(sorted@).len() == sorted@.len());
        sorted@.to_multiset_ensures();
        manual_views(sorted@).to_multiset_ensures();
        manual_views(before).to_multiset_ensures();
        assert(sorted@.len() == manual_views(before).len());
    }
    let count = sorted.len();
    let edge = CompiledEdge {
        from: key.from.clone(),
        to: key.to.clone(),
        kind: key.kind.clone(),
        origin: EdgeOrigin::Manual,
        count,
        evidence: Vec::new(),
        confidence_min: None,
        confidence_max: None,
        manual_edges: sorted,
    };
    ProjectionEdge { edge, violation_rule_ids: Vec::new(), suggested_cut_rule_ids: Vec::new() }
}

/// The projected dependencies, one per key, in order.
fn projected_edges(
    keys: &Vec<GroupKey>,
    recs: &Vec<Option<ObsRec>>,
    mrecs: &Vec<Option<ManRec>>,
    ir: &ArchitectureIr,
    limit: usize,
    Ghost(focus): Ghost<CompiledNode>,
    Ghost(f): Ghost<Seq<char>>,
    Ghost(all): Ghost<Seq<ViolationView>>,
) -> (r: Vec<ProjectionEdge>)
    requires
        keys_sorted(keys@),
        forall|k: (Seq<char>, Seq<char>, Seq<char>, EdgeOrigin)| #[trigger] has_gkey(keys@, k) <==> is_group(*ir, focus, f, k),
        recs@.len() == ir.resolved_edges@.len(),
        forall|i: int| 0 <= i < recs@.len() ==> #[trigger] obs_fits(recs@[i], ir.nodes, focus, f, all, ir.resolved_edges@[i]),
        mrecs@.len() == ir.edges@.len(),
        forall|i: int| 0 <= i < mrecs@.len() ==> #[trigger] man_fits(mrecs@[i], ir.nodes, focus, f, ir.edges@[i]),
    ensures
        edges_fit(*ir, focus, f, all, limit as nat, r@),
{
    let mut out: Vec<ProjectionEdge> = Vec::new();
    let mut t: usize = 0;
    while t < keys.len()
        invariant
            t <= keys@.len(),
            out@.len() == t,
            keys_sorted(keys@),
            recs@.len() == ir.resolved_edges@.len(),
            forall|i: int| 0 <= i < recs@.len() ==> #[trigger] obs_fits(recs@[i], ir.nodes, focus, f, all, ir.resolved_edges@[i]),
            mrecs@.len() == ir.edges@.len(),
            forall|i: int| 0 <= i < mrecs@.len() ==> #[trigger] man_fits(mrecs@[i], ir.nodes, focus, f, ir.edges@[i]),
            forall|i: int| 0 <= i < t ==> pedge_key(#[trigger] out@[i]) == gk(keys@[i]),
            forall|i: int| 0 <= i < t ==> #[trigger] edge_fits(*ir, focus, f, all, limit as nat, out@[i]),
        decreases keys@.len() - t,
    {
        let pe = match keys[t].origin {
            EdgeOrigin::Observed => observed_group(&keys[t], recs, ir, limit, Ghost(focus), Ghost(f), Ghost(all)),
            EdgeOrigin::Manual => manual_group(&keys[t], mrecs, ir, limit, Ghost(focus), Ghost(f), Ghost(all)),
        };
        out.push(pe);
        proof {
            assert(out@[t as int] == pe);
        }
        t = t + 1;
    }
    proof {
        assert forall|i: int, j: int| 0 <= i < j < out@.len() implies group_order(pedge_key(#[trigger] out@[i]), pedge_key(#[trigger] out@[j])) < 0 by {
            assert(group_order(gk(keys@[i]), gk(keys@[j])) < 0);
        }
        assert forall|k: (Seq<char>, Seq<char>, Seq<char>, EdgeOrigin)| #[trigger] is_group(*ir, focus, f, k) <==> exists|i: int| 0 <= i < out@.len() && pedge_key(#[trigger] out@[i]) == k by {
            if is_group(*ir, focus, f, k) {
                assert(has_gkey(keys@, k));
                let i = choose|i: int| 0 <= i < keys@.len() && gk(#[trigger] keys@[i]) == k;
                assert(pedge_key(out@[i]) == k);
            }
            if exists|i: int| 0 <= i < out@.len() && pedge_key(#[trigger] out@[i]) == k {
                let i = choose|i: int| 0 <= i < out@.len() && pedge_key(#[trigger] out@[i]) == k;
                assert(gk(keys@[i]) == k);
                assert(has_gkey(keys@, k));
            }
        }
    }
    out
}


/// The node and its ancestors, from the top-level one down.
pub open spec fn chain(id: Seq<char>) -> Seq<Seq<char>>
    decreases id.len(),
{
    match parent_of(id) {
        Some(p) => if p.len() < id.len() {
            chain(p).push(id)
        } else {
            seq![id]
        },
        None => seq![id],
    }
}

proof fn lemma_chain_last(id: Seq<char>)
    ensures
        chain(id).len() >= 1,
        chain(id).last() == id,
    decreases id.len(),
{
    match parent_of(id) {
        Some(p) => if p.len() < id.len() {
            lemma_chain_last(p);
        },
        None => {},
    }
}

/// The summaries of the focus and its ancestors, top-level first. Fails when
/// one of them is missing.
fn breadcrumbs(nodes: &StrMap<CompiledNode>, focus_id: &str) -> (r: Result<Vec<NodeSummary>, String>)
    ensures
        r is Ok <==> forall|i: int| 0 <= i < chain(focus_id@).len() ==> (#[trigger] nodes.lookup(chain(focus_id@)[i])) is Some,
        r matches Ok(v) ==> v@.len() == chain(focus_id@).len()
            && forall|i: int| 0 <= i < v@.len() ==> summary_view(#[trigger] v@[i]) == summary_of(nodes.lookup(chain(focus_id@)[i])->0),
{
    let ghost f = focus_id@;
    let mut rev: Vec<NodeSummary> = Vec::new();
    let ghost mut done: Seq<Seq<char>> = Seq::empty();
    let mut current: Option<String> = Some(String::from_str(focus_id));
    proof {
        assert(chain(f) + done.reverse() =~= chain(f));
    }
    while current.is_some()
        invariant
            f == focus_id@,
            match current {
                Some(c) => chain(f) == chain(c@) + done.reverse(),
                None => chain(f) == done.reverse(),
            },
            rev@.len() == done.len(),
            forall|t: int| 0 <= t < done.len() ==> (#[trigger] nodes.lookup(done[t])) is Some
                && summary_view(rev@[t]) == summary_of(nodes.lookup(done[t])->0),
        decreases match current {
            Some(c) => c@.len() + 1,
            None => 0,
        },
    {
        let c = match current {
            Some(c) => c,
            None => String::new(),
        };
        let ghost cv = c@;
        proof {
            lemma_chain_last(cv);
        }
        match nodes.get(c.as_str()) {
            Some(n) => {
                rev.push(NodeSummary::of(n));
                proof {
                    done = done.push(cv);
                }
            },
            None => {
                proof {
                    let k = chain(cv).len() - 1;
                    assert(chain(f)[k] == cv);
                    assert(nodes.lookup(chain(f)[k]) is None);
                }
                return Err(String::from_str("IR breadcrumb ancestor is missing"));
            },
        }
        proof {
            assert(done.reverse() =~= seq![cv] + done.drop_last().reverse());
        }
        match parent_id(c.as_str()) {
            Some(p) => {
                proof {
                    lemma_parent_within(cv);
                    assert(chain(cv) == chain(p@).push(cv));
                    assert(chain(f) =~= chain(p@) + done.reverse());
                }
                current = Some(p);
            },
            None => {
                proof {
                    assert(chain(cv) == seq![cv]);
                    assert(chain(f) =~= done.reverse());
                }
                current = None;
            },
        }
    }
    let ghost all = rev@;
    let n = rev.len();
    let mut out: Vec<NodeSummary> = Vec::new();
    while rev.len() > 0
        invariant
            rev@.len() + out@.len() == n,
            all.len() == n,
            forall|t: int| 0 <= t < rev@.len() ==> rev@[t] == all[t],
            forall|t: int| 0 <= t < out@.len() ==> out@[t] == all[n - 1 - t],
        decreases rev@.len(),
    {
        let s = rev.pop().unwrap();
        out.push(s);
    }
    proof {
        assert(chain(f) == done.reverse());
        assert forall|i: int| 0 <= i < chain(f).len() implies (#[trigger] nodes.lookup(chain(f)[i])) is Some by {
            assert(chain(f)[i] == done[n - 1 - i]);
        }
        assert forall|i: int| 0 <= i < out@.len() implies summary_view(#[trigger] out@[i]) == summary_of(nodes.lookup(chain(f)[i])->0) by {
            assert(chain(f)[i] == done[n - 1 - i]);
        }
    }
    Ok(out)
}

/// Every node the projection of `f` needs is there: the focus, its
/// children, the owners of the dependencies concerning it, its ancestors.
pub open spec fn resolvable(ir: ArchitectureIr, f: Seq<char>) -> bool {
    match ir.nodes.lookup(f) {
        None => false,
        Some(focus) => {
            &&& forall|i: int| 0 <= i < focus.children@.len() ==> (#[trigger] ir.nodes.lookup(focus.children@[i]@)) is Some
            &&& forall|i: int| 0 <= i < ir.resolved_edges@.len() ==> #[trigger] obs_ok(ir.nodes, focus, f, ir.resolved_edges@[i])
            &&& forall|i: int| 0 <= i < ir.edges@.len() ==> #[trigger] man_ok(ir.nodes, focus, f, ir.edges@[i])
            &&& forall|i: int| 0 <= i < chain(f).len() ==> (#[trigger] ir.nodes.lookup(chain(f)[i])) is Some
        },
    }
}

pub open spec fn unknown_text(f: Seq<char>) -> Seq<char> {
    "unknown architecture node `"@ + f + "`; use `archgraph show` or UI search to find a valid ID"@
}

/// The projection of `f` given the violations `all`.
pub open spec fn projection_fits(ir: ArchitectureIr, f: Seq<char>, all: Seq<ViolationView>, limit: nat, p: Projection) -> bool {
    let focus = ir.nodes.lookup(f)->0;
    &&& node_view(p.focus) == node_view(focus)
    &&& p.breadcrumbs@.len() == chain(f).len()
    &&& forall|i: int| 0 <= i < chain(f).len() ==> summary_view(#[trigger] p.breadcrumbs@[i]) == summary_of(ir.nodes.lookup(chain(f)[i])->0)
    &&& nodes_fit(ir, focus, f, all, p.nodes@)
    &&& edges_fit(ir, focus, f, all, limit, p.edges@)
    &&& violation_views(p.violations@) == kept(all, ir, focus, f)
    &&& p.evidence_limit as nat == limit
    &&& p.evidence_notice@ == ir.evidence_notice@
}

/// What projecting `f` with the violations `all` gives: the projection when
/// every node it needs is there, else an error, which for an unknown focus
/// names it.
pub open spec fn projects(ir: ArchitectureIr, f: Seq<char>, all: Seq<ViolationView>, limit: nat, r: Result<Projection, String>) -> bool {
    &&& (r is Ok <==> resolvable(ir, f))
    &&& match r {
        Ok(p) => projection_fits(ir, f, all, limit, p),
        Err(m) => ir.nodes.lookup(f) is None ==> m@ == unknown_text(f),
    }
}

/// The projection of the focus `focus_id` with the violations `all`.
pub fn project_with(ir: &ArchitectureIr, focus_id: &str, all: &Vec<Violation>, evidence_limit: usize) -> (r: Result<Projection, String>)
    ensures
        projects(*ir, focus_id@, violation_views(all@), evidence_limit as nat, r),
{
    let ghost f = focus_id@;
    let ghost va = violation_views(all@);
    let focus = match ir.nodes.get(focus_id) {
        Some(n) => n,
        None => {
            return Err(cat3("unknown architecture node `", focus_id, "`; use `archgraph show` or UI search to find a valid ID"));
        },
    };
    let ghost init = init_cands(ir.nodes, *focus);
    let mut m = match initial_entries(&ir.nodes, focus) {
        Ok(m) => m,
        Err(e) => {
            return Err(e);
        },
    };
    let recs = match observe(&ir.resolved_edges, &ir.nodes, focus, focus_id, all) {
        Ok(r) => r,
        Err(e) => {
            return Err(e);
        },
    };
    let mrecs = match manual_records(&ir.edges, &ir.nodes, focus, focus_id) {
        Ok(r) => r,
        Err(e) => {
            return Err(e);
        },
    };
    fill_observed(&mut m, &recs, Ghost(ir.resolved_edges@), Ghost(ir.nodes), Ghost(*focus), Ghost(f), Ghost(va), Ghost(init));
    fill_manual(&mut m, &mrecs, Ghost(ir.edges@), Ghost(ir.nodes), Ghost(*focus), Ghost(f), Ghost(init), Ghost(obs_cands(ir.resolved_edges@, ir.nodes, *focus, f)));
    let shown = kept_violations(all, &m, focus_id, Ghost(*ir), Ghost(*focus));
    let mut nodes: Vec<ProjectionNode> = Vec::new();
    append_side(&mut nodes, &m, false, &recs, &shown, Ghost(*ir), Ghost(*focus), Ghost(f), Ghost(va));
    let ghost inside = nodes@.len();
    append_side(&mut nodes, &m, true, &recs, &shown, Ghost(*ir), Ghost(*focus), Ghost(f), Ghost(va));
    let keys = group_keys(&recs, &mrecs, ir, Ghost(*focus), Ghost(f), Ghost(va));
    let edges = projected_edges(&keys, &recs, &mrecs, ir, evidence_limit, Ghost(*focus), Ghost(f), Ghost(va));
    let crumbs = match breadcrumbs(&ir.nodes, focus_id) {
        Ok(v) => v,
        Err(e) => {
            return Err(e);
        },
    };
    let p = Projection {
        focus: focus.duplicate(),
        breadcrumbs: crumbs,
        nodes,
        edges,
        violations: shown,
        evidence_limit,
        evidence_notice: ir.evidence_notice.clone(),
    };
    proof {
        let ns = p.nodes@;
        assert forall|id: Seq<char>| #[trigger] entry_at(*ir, *focus, f, id) is Some <==> exists|i: int| 0 <= i < ns.len() && (#[trigger] ns[i]).id@ == id by {
            if entry_at(*ir, *focus, f, id) is Some {
                assert(seq_has(m.keys(), id));
                let q = choose|q: int| 0 <= q < m.keys().len() && m.keys()[q] == id;
                if m.values()[q].outside_focus {
                    let t = choose|t: int| inside <= t < ns.len() && (#[trigger] ns[t]).id@ == m.keys()[q];
                } else {
                    let t = choose|t: int| 0 <= t < inside && (#[trigger] nodes@[t]).id@ == m.keys()[q];
                    assert(ns[t] == nodes@[t]);
                }
            }
            if exists|i: int| 0 <= i < ns.len() && (#[trigger] ns[i]).id@ == id {
                let i = choose|i: int| 0 <= i < ns.len() && (#[trigger] ns[i]).id@ == id;
                assert(seq_has(m.keys(), ns[i].id@));
            }
        }
        assert forall|i: int| 0 <= i < ns.len() implies entry_at(*ir, *focus, f, (#[trigger] ns[i]).id@) == Some(entry_base(ns[i])) by {
            assert(final_entry(*ir, *focus, f, va, ns[i]));
        }
        assert forall|i: int| 0 <= i < ns.len() implies strictly_sorted(views((#[trigger] ns[i]).violation_rule_ids@)) by {
            assert(final_entry(*ir, *focus, f, va, ns[i]));
        }
        assert forall|i: int, x: Seq<char>| 0 <= i < ns.len() implies
            (#[trigger] seq_has(views(ns[i].violation_rule_ids@), x) <==> entry_rule(*ir, *focus, f, va, ns[i].id@, x)) by {
            assert(final_entry(*ir, *focus, f, va, ns[i]));
        }
        assert(nodes_fit(*ir, *focus, f, va, ns));
        assert(projection_fits(*ir, f, va, evidence_limit as nat, p));
    }
    Ok(p)
}

/// The projection of the focus `focus_id`: with the compiled violations when
/// the sample limit is the one they were compiled with, else with the rules
/// evaluated again at `evidence_limit`.
pub fn project(ir: &ArchitectureIr, focus_id: &str, evidence_limit: usize) -> (r: Result<Projection, String>)
    requires
        ir.resolved_edges@.len() < usize::MAX,
    ensures
        evidence_limit == EVIDENCE_LIMIT ==> projects(*ir, focus_id@, violation_views(ir.violations@), evidence_limit as nat, r),
        evidence_limit != EVIDENCE_LIMIT ==> exists|all: Seq<Violation>| {
            &&& evaluation(ir.rules@, ir.resolved_edges@, evidence_limit as nat, all)
            &&& projects(*ir, focus_id@, violation_views(all), evidence_limit as nat, r)
        },
{
    if evidence_limit == EVIDENCE_LIMIT {
        project_with(ir, focus_id, &ir.violations, evidence_limit)
    } else {
        let all = evaluate(ir.rules.as_slice(), ir.resolved_edges.as_slice(), evidence_limit);
        let r = project_with(ir, focus_id, &all, evidence_limit);
        proof {
            assert(evaluation(ir.rules@, ir.resolved_edges@, evidence_limit as nat, all@));
        }
        r
    }
}


proof fn lemma_first_with_some(s: Seq<EntryView>, t: int, id: Seq<char>)
    requires
        0 <= t < s.len(),
        s[t].id == id,
    ensures
        first_with(s, id) is Some,
    decreases s.len(),
{
    if t < s.len() - 1 {
        assert(s.drop_last()[t] == s[t]);
        lemma_first_with_some(s.drop_last(), t, id);
    }
}

proof fn lemma_obs_cands_has(edges: Seq<ResolvedEdge>, nodes: StrMap<CompiledNode>, focus: CompiledNode, f: Seq<char>, j: int) -> (r: (int, int))
    requires
        0 <= j < edges.len(),
        relevant(edges[j].from@, edges[j].to@, f),
    ensures
        0 <= r.0 < obs_cands(edges, nodes, focus, f).len(),
        0 <= r.1 < obs_cands(edges, nodes, focus, f).len(),
        obs_cands(edges, nodes, focus, f)[r.0] == obs_from(nodes, focus, edges[j])->0,
        obs_cands(edges, nodes, focus, f)[r.1] == obs_to(nodes, focus, edges[j])->0,
    decreases edges.len(),
{
    let prev = obs_cands(edges.drop_last(), nodes, focus, f);
    if j == edges.len() - 1 {
        (prev.len() as int, prev.len() as int + 1)
    } else {
        assert(edges.drop_last()[j] == edges[j]);
        let r = lemma_obs_cands_has(edges.drop_last(), nodes, focus, f, j);
        if relevant(edges.last().from@, edges.last().to@, f) {
            let x = obs_from(nodes, focus, edges.last())->0;
            let y = obs_to(nodes, focus, edges.last())->0;
            assert(prev.push(x).push(y)[r.0] == prev[r.0]);
            assert(prev.push(x).push(y)[r.1] == prev[r.1]);
        }
        r
    }
}

proof fn lemma_man_cands_has(edges: Seq<CompiledEdge>, nodes: StrMap<CompiledNode>, focus: CompiledNode, f: Seq<char>, j: int) -> (r: (int, int))
    requires
        0 <= j < edges.len(),
        man_rel(edges[j], f),
    ensures
        0 <= r.0 < man_cands(edges, nodes, focus, f).len(),
        0 <= r.1 < man_cands(edges, nodes, focus, f).len(),
        man_cands(edges, nodes, focus, f)[r.0] == man_from(nodes, focus, edges[j])->0,
        man_cands(edges, nodes, focus, f)[r.1] == man_to(nodes, focus, edges[j])->0,
    decreases edges.len(),
{
    let prev = man_cands(edges.drop_last(), nodes, focus, f);
    if j == edges.len() - 1 {
        (prev.len() as int, prev.len() as int + 1)
    } else {
        assert(edges.drop_last()[j] == edges[j]);
        let r = lemma_man_cands_has(edges.drop_last(), nodes, focus, f, j);
        if man_rel(edges.last(), f) {
            let x = man_from(nodes, focus, edges.last())->0;
            let y = man_to(nodes, focus, edges.last())->0;
            assert(prev.push(x).push(y)[r.0] == prev[r.0]);
            assert(prev.push(x).push(y)[r.1] == prev[r.1]);
        }
        r
    }
}

/// A candidate that a dependency brings is an entry.
proof fn lemma_rest_entry(ir: ArchitectureIr, focus: CompiledNode, f: Seq<char>, t: int)
    requires
        0 <= t < rest_cands(ir, focus, f).len(),
    ensures
        entry_at(ir, focus, f, rest_cands(ir, focus, f)[t].id) is Some,
{
    let id = rest_cands(ir, focus, f)[t].id;
    if last_with(init_cands(ir.nodes, focus), id) is None {
        lemma_first_with_some(rest_cands(ir, focus, f), t, id);
    }
}

/// Every dependency of a projection joins two of its entries.
pub proof fn lemma_edges_join_entries(ir: ArchitectureIr, f: Seq<char>, all: Seq<ViolationView>, limit: nat, p: Projection)
    requires
        resolvable(ir, f),
        projection_fits(ir, f, all, limit, p),
    ensures
        forall|i: int| 0 <= i < p.edges@.len() ==> has_entry(p.nodes@, (#[trigger] p.edges@[i]).edge.from@)
            && has_entry(p.nodes@, p.edges@[i].edge.to@),
{
    let focus = ir.nodes.lookup(f)->0;
    let obs = obs_cands(ir.resolved_edges@, ir.nodes, focus, f);
    let man = man_cands(ir.edges@, ir.nodes, focus, f);
    let rest = rest_cands(ir, focus, f);
    assert forall|i: int| 0 <= i < p.edges@.len() implies has_entry(p.nodes@, (#[trigger] p.edges@[i]).edge.from@)
        && has_entry(p.nodes@, p.edges@[i].edge.to@) by {
        let k = pedge_key(p.edges@[i]);
        assert(is_group(ir, focus, f, k));
        let (x, y) = if exists|j: int| 0 <= j < ir.resolved_edges@.len() && relevant(ir.resolved_edges@[j].from@, ir.resolved_edges@[j].to@, f)
            && #[trigger] obs_key(ir.nodes, focus, ir.resolved_edges@[j]) == k {
            let j = choose|j: int| 0 <= j < ir.resolved_edges@.len() && relevant(ir.resolved_edges@[j].from@, ir.resolved_edges@[j].to@, f)
                && #[trigger] obs_key(ir.nodes, focus, ir.resolved_edges@[j]) == k;
            let r = lemma_obs_cands_has(ir.resolved_edges@, ir.nodes, focus, f, j);
            assert(rest[r.0] == obs[r.0] && rest[r.1] == obs[r.1]);
            (r.0, r.1)
        } else {
            let j = choose|j: int| 0 <= j < ir.edges@.len() && man_rel(ir.edges@[j], f) && #[trigger] man_key(ir.nodes, focus, ir.edges@[j]) == k;
            let r = lemma_man_cands_has(ir.edges@, ir.nodes, focus, f, j);
            assert(rest[obs.len() + r.0] == man[r.0] && rest[obs.len() + r.1] == man[r.1]);
            (obs.len() as int + r.0, obs.len() as int + r.1)
        };
        lemma_rest_entry(ir, focus, f, x);
        lemma_rest_entry(ir, focus, f, y);
        assert(entry_at(ir, focus, f, k.0) is Some);
        assert(entry_at(ir, focus, f, k.1) is Some);
    }
}

} // verus!
