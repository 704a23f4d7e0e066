//! What an agent is told about one node before it edits the code: the
//! node's projection, the observed dependencies by direction, the rules that
//! concern it, the coverage diagnostics and the working contract.

use vstd::prelude::*;
use crate::config::{overlaps, within, RuleConfig};
use crate::evidence::{compiled_view, CompiledView};
use crate::model::{ArchitectureIr, EdgeOrigin, EVIDENCE_LIMIT};
use crate::projection::{Projection, ProjectionEdge, ProjectionNode};
use crate::projection::zoom::{project, projection_fits, resolvable, unknown_text};
use crate::rules::{evaluation, violation_views, Violation};
use crate::text::{cat5, copy_strings, views};

verus! {

/// The context handed to an agent that works inside one node.
pub struct AgentContext {
    pub projection: Projection,
    pub rules: Vec<RuleConfig>,
    pub observed_incoming: Vec<ProjectionEdge>,
    pub observed_outgoing: Vec<ProjectionEdge>,
    pub observed_internal: Vec<ProjectionEdge>,
    pub diagnostics: Vec<String>,
    pub agent_contract: Vec<String>,
}

/// What a projected dependency holds, as values.
pub open spec fn projected_view(e: ProjectionEdge) -> (CompiledView, Seq<Seq<char>>, Seq<Seq<char>>) {
    (compiled_view(e.edge), views(e.violation_rule_ids@), views(e.suggested_cut_rule_ids@))
}

pub open spec fn projected_views(s: Seq<ProjectionEdge>) -> Seq<(CompiledView, Seq<Seq<char>>, Seq<Seq<char>>)> {
    s.map_values(|e: ProjectionEdge| projected_view(e))
}

/// An entry of the projection that lies outside the focus has this ID.
pub open spec fn outside_id(nodes: Seq<ProjectionNode>, id: Seq<char>) -> bool {
    exists|i: int| 0 <= i < nodes.len() && (#[trigger] nodes[i]).outside_focus && nodes[i].id@ == id
}

/// Where an observed dependency runs, seen from the focus: into it (1), out
/// of it (2) or inside it (0); a manual one is none of these (3).
pub open spec fn direction(nodes: Seq<ProjectionNode>, e: ProjectionEdge) -> int {
    if e.edge.origin != EdgeOrigin::Observed {
        3
    } else if outside_id(nodes, e.edge.from@) {
        1
    } else if outside_id(nodes, e.edge.to@) {
        2
    } else {
        0
    }
}

/// The dependencies of `es` that run in direction `d`, in their order.
pub open spec fn running(nodes: Seq<ProjectionNode>, es: Seq<ProjectionEdge>, d: int) -> Seq<(CompiledView, Seq<Seq<char>>, Seq<Seq<char>>)>
    decreases es.len(),
{
    if es.len() == 0 {
        Seq::empty()
    } else if direction(nodes, es.last()) == d {
        running(nodes, es.drop_last(), d).push(projected_view(es.last()))
    } else {
        running(nodes, es.drop_last(), d)
    }
}

/// Two rules say the same.
pub open spec fn same_rule(a: RuleConfig, b: RuleConfig) -> bool {
    match (a, b) {
        (
            RuleConfig::DenyDependency { id: i1, from: f1, to: t1, edge_types: e1, include_descendants: d1 },
            RuleConfig::DenyDependency { id: i2, from: f2, to: t2, edge_types: e2, include_descendants: d2 },
        ) => i1@ == i2@ && f1@ == f2@ && t1@ == t2@ && views(e1@) == views(e2@) && d1 == d2,
        (
            RuleConfig::AllowOnly { id: i1, from: f1, to: t1, edge_types: e1, include_descendants: d1 },
            RuleConfig::AllowOnly { id: i2, from: f2, to: t2, edge_types: e2, include_descendants: d2 },
        ) => i1@ == i2@ && f1@ == f2@ && views(t1@) == views(t2@) && views(e1@) == views(e2@) && d1 == d2,
        (RuleConfig::NoCycles { id: i1, within: w1, edge_types: e1 }, RuleConfig::NoCycles { id: i2, within: w2, edge_types: e2 }) =>
            i1@ == i2@ && w1@ == w2@ && views(e1@) == views(e2@),
        _ => false,
    }
}

/// A rule concerns the node when a node it names contains the node or lies
/// inside it, or when the projection shows one of its violations.
pub open spec fn concerns(rule: RuleConfig, node: Seq<char>, violations: Seq<Violation>) -> bool {
    ||| exists|k: int| 0 <= k < rule.references_view().len()
        && (within(#[trigger] rule.references_view()[k], node) || within(node, rule.references_view()[k]))
    ||| exists|v: int| 0 <= v < violations.len() && (#[trigger] violations[v]).rule_id@ == rule.id_view()
}

/// The rules of `rules` that concern the node, in their order.
pub open spec fn concerning(rules: Seq<RuleConfig>, node: Seq<char>, violations: Seq<Violation>) -> Seq<RuleConfig>
    decreases rules.len(),
{
    if rules.len() == 0 {
        Seq::empty()
    } else if concerns(rules.last(), node, violations) {
        concerning(rules.drop_last(), node, violations).push(rules.last())
    } else {
        concerning(rules.drop_last(), node, violations)
    }
}

pub open spec fn same_rules(a: Seq<RuleConfig>, b: Seq<RuleConfig>) -> bool {
    a.len() == b.len() && forall|i: int| 0 <= i < a.len() ==> same_rule(#[trigger] a[i], b[i])
}

/// The working contract an agent is given for the node.
pub open spec fn contract_for(node: Seq<char>) -> Seq<Seq<char>> {
    seq![
        "Preserve existing behavior unless the task explicitly asks to change it."@,
        "Treat architecture.yaml as the desired architecture. Do not edit it unless the task explicitly requests an architecture change."@,
        "Use GitNexus context, impact or query for deeper symbol exploration; ArchGraph does not expose source contents."@,
        "After source edits, reindex with `gitnexus analyze --index-only` from the repository root."@,
        "Then run `archgraph check "@ + node + "` (or `archgraph check "@ + node + " --reindex` to do both)."@,
        "Do not declare completion while check exits 2; exit 1 means verification failed, not a clean architecture."@,
        "Never run `archgraph baseline` unless explicitly asked: it accepts the current violations, like weakening a rule."@,
        crate::compiler::evidence_notice(),
    ]
}

/// The projection `build` shows: that of `project` with the evidence limit.
pub open spec fn projected_with(ir: ArchitectureIr, node: Seq<char>, limit: nat, p: Projection) -> bool {
    if limit == EVIDENCE_LIMIT as nat {
        projection_fits(ir, node, violation_views(ir.violations@), limit, p)
    } else {
        exists|all: Seq<Violation>| evaluation(ir.rules@, ir.resolved_edges@, limit, all)
            && projection_fits(ir, node, violation_views(all), limit, p)
    }
}

/// The context for the node, around its projection.
pub open spec fn context_fits(ir: ArchitectureIr, node: Seq<char>, limit: nat, c: AgentContext) -> bool {
    let nodes = c.projection.nodes@;
    let es = c.projection.edges@;
    &&& projected_with(ir, node, limit, c.projection)
    &&& projected_views(c.observed_incoming@) == running(nodes, es, 1)
    &&& projected_views(c.observed_outgoing@) == running(nodes, es, 2)
    &&& projected_views(c.observed_internal@) == running(nodes, es, 0)
    &&& same_rules(c.rules@, concerning(ir.rules@, node, c.projection.violations@))
    &&& views(c.diagnostics@) == views(ir.diagnostics.warnings@)
    &&& views(c.agent_contract@) == contract_for(node)
}

fn copy_projected(e: &ProjectionEdge) -> (r: ProjectionEdge)
    ensures
        projected_view(r) == projected_view(*e),
{
    ProjectionEdge {
        edge: e.edge.duplicate(),
        violation_rule_ids: copy_strings(&e.violation_rule_ids),
        suggested_cut_rule_ids: copy_strings(&e.suggested_cut_rule_ids),
    }
}

fn copy_rule(r: &RuleConfig) -> (c: RuleConfig)
    ensures
        same_rule(c, *r),
{
    match r {
        RuleConfig::DenyDependency { id, from, to, edge_types, include_descendants } => RuleConfig::DenyDependency {
            id: id.clone(),
            from: from.clone(),
            to: to.clone(),
            edge_types: copy_strings(edge_types),
            include_descendants: *include_descendants,
        },
        RuleConfig::AllowOnly { id, from, to, edge_types, include_descendants } => RuleConfig::AllowOnly {
            id: id.clone(),
            from: from.clone(),
            to: copy_strings(to),
            edge_types: copy_strings(edge_types),
            include_descendants: *include_descendants,
        },
        RuleConfig::NoCycles { id, within, edge_types } => RuleConfig::NoCycles {
            id: id.clone(),
            within: within.clone(),
            edge_types: copy_strings(edge_types),
        },
    }
}

fn is_outside(nodes: &Vec<ProjectionNode>, id: &str) -> (r: bool)
    ensures
        r == outside_id(nodes@, id@),
{
    let mut i: usize = 0;
    while i < nodes.len()
        invariant
            i <= nodes@.len(),
            forall|j: int| 0 <= j < i ==> !((#[trigger] nodes@[j]).outside_focus && nodes@[j].id@ == id@),
        decreases nodes@.len() - i,
    {
        if nodes[i].outside_focus && crate::text::str_eq(nodes[i].id.as_str(), id) {
            return true;
        }
        i = i + 1;
    }
    false
}

fn direction_of(nodes: &Vec<ProjectionNode>, e: &ProjectionEdge) -> (r: u8)
    ensures
        r as int == direction(nodes@, *e),
{
    if e.edge.origin != EdgeOrigin::Observed {
        3
    } else if is_outside(nodes, e.edge.from.as_str()) {
        1
    } else if is_outside(nodes, e.edge.to.as_str()) {
        2
    } else {
        0
    }
}

fn concerns_exec(rule: &RuleConfig, node: &str, violations: &Vec<Violation>) -> (r: bool)
    ensures
        r == concerns(*rule, node@, violations@),
{
    let refs = rule.references();
    let ghost rv = rule.references_view();
    proof {
        assert(refs@.len() == rv.len());
    }
    let mut k: usize = 0;
    while k < refs.len()
        invariant
            k <= refs@.len(),
            refs@.map_values(|s: &str| s@) == rv,
            rv == rule.references_view(),
            forall|j: int| 0 <= j < k ==> !(within(#[trigger] rv[j], node@) || within(node@, rv[j])),
        decreases refs@.len() - k,
    {
        proof {
            assert(refs@[k as int]@ == rv[k as int]);
        }
        if overlaps(refs[k], node) {
            return true;
        }
        k = k + 1;
    }
    let id = rule.id();
    let mut v: usize = 0;
    while v < violations.len()
        invariant
            v <= violations@.len(),
            id@ == rule.id_view(),
            forall|j: int| 0 <= j < k ==> !(within(#[trigger] rv[j], node@) || within(node@, rv[j])),
            k == rv.len(),
            rv == rule.references_view(),
            forall|j: int| 0 <= j < v ==> (#[trigger] violations@[j]).rule_id@ != rule.id_view(),
        decreases violations@.len() - v,
    {
        if crate::text::str_eq(violations[v].rule_id.as_str(), id) {
            return true;
        }
        v = v + 1;
    }
    false
}

/// The context of the node `node` for an agent, with at most `limit`
/// observations sampled per dependency; the node's projection refused is
/// the context refused.
pub fn build(ir: &ArchitectureIr, node: &str, limit: usize) -> (r: Result<AgentContext, String>)
    requires
        ir.resolved_edges@.len() < usize::MAX,
    ensures
        r is Ok <==> resolvable(*ir, node@),
        match r {
            Ok(c) => context_fits(*ir, node@, limit as nat, c),
            Err(m) => ir.nodes.lookup(node@) is None ==> m@ == unknown_text(node@),
        },
{
    let projection = match project(ir, node, limit) {
        Ok(p) => p,
        Err(e) => {
            return Err(e);
        },
    };
    let ghost nodes = projection.nodes@;
    let ghost es = projection.edges@;
    let mut incoming: Vec<ProjectionEdge> = Vec::new();
    let mut outgoing: Vec<ProjectionEdge> = Vec::new();
    let mut internal: Vec<ProjectionEdge> = Vec::new();
    let mut i: usize = 0;
    while i < projection.edges.len()
        invariant
            i <= es.len(),
            nodes == projection.nodes@,
            es == projection.edges@,
            projected_views(incoming@) == running(nodes, es.take(i as int), 1),
            projected_views(outgoing@) == running(nodes, es.take(i as int), 2),
            projected_views(internal@) == running(nodes, es.take(i as int), 0),
        decreases es.len() - i,
    {
        let e = &projection.edges[i];
        let d = direction_of(&projection.nodes, e);
        proof {
            let t = es.take(i + 1);
            assert(t.drop_last() =~= es.take(i as int));
            assert(t.last() == es[i as int]);
        }
        if d == 1 {
            let ghost before = incoming@;
            incoming.push(copy_projected(e));
            proof {
                assert(projected_views(incoming@) =~= projected_views(before).push(projected_view(es[i as int])));
            }
        } else if d == 2 {
            let ghost before = outgoing@;
            outgoing.push(copy_projected(e));
            proof {
                assert(projected_views(outgoing@) =~= projected_views(before).push(projected_view(es[i as int])));
            }
        } else if d == 0 {
            let ghost before = internal@;
            internal.push(copy_projected(e));
            proof {
                assert(projected_views(internal@) =~= projected_views(before).push(projected_view(es[i as int])));
            }
        }
        i = i + 1;
    }
    proof {
        assert(es.take(es.len() as int) =~= es);
    }
    let mut rules: Vec<RuleConfig> = Vec::new();
    let mut k: usize = 0;
    while k < ir.rules.len()
        invariant
            k <= ir.rules@.len(),
            same_rules(rules@, concerning(ir.rules@.take(k as int), node@, projection.violations@)),
        decreases ir.rules@.len() - k,
    {
        proof {
            let t = ir.rules@.take(k + 1);
            assert(t.drop_last() =~= ir.rules@.take(k as int));
            assert(t.last() == ir.rules@[k as int]);
        }
        if concerns_exec(&ir.rules[k], node, &projection.violations) {
            let ghost before = rules@;
            rules.push(copy_rule(&ir.rules[k]));
            proof {
                let want = concerning(ir.rules@.take(k + 1), node@, projection.violations@);
                assert forall|j: int| 0 <= j < rules@.len() implies same_rule(#[trigger] rules@[j], want[j]) by {
                    if j < before.len() {
                        assert(rules@[j] == before[j]);
                    }
                }
            }
        }
        k = k + 1;
    }
    proof {
        assert(ir.rules@.take(ir.rules@.len() as int) =~= ir.rules@);
    }
    let check = cat5("Then run `archgraph check ", node, "` (or `archgraph check ", node, " --reindex` to do both).");
    let agent_contract = vec![
        String::from_str("Preserve existing behavior unless the task explicitly asks to change it."),
        String::from_str("Treat architecture.yaml as the desired architecture. Do not edit it unless the task explicitly requests an architecture change."),
        String::from_str("Use GitNexus context, impact or query for deeper symbol exploration; ArchGraph does not expose source contents."),
        String::from_str("After source edits, reindex with `gitnexus analyze --index-only` from the repository root."),
        check,
        String::from_str("Do not declare completion while check exits 2; exit 1 means verification failed, not a clean architecture."),
        String::from_str("Never run `archgraph baseline` unless explicitly asked: it accepts the current violations, like weakening a rule."),
        String::from_str("Only observed dependencies are checked. No observed edge is not proof that no runtime dependency exists."),
    ];
    proof {
        assert(views(agent_contract@) =~= contract_for(node@));
    }
    Ok(AgentContext {
        projection,
        rules,
        observed_incoming: incoming,
        observed_outgoing: outgoing,
        observed_internal: internal,
        diagnostics: copy_strings(&ir.diagnostics.warnings),
        agent_contract,
    })
}


proof fn lemma_running_members(nodes: Seq<ProjectionNode>, es: Seq<ProjectionEdge>, d: int)
    ensures
        forall|k: int| 0 <= k < running(nodes, es, d).len() ==> exists|j: int| 0 <= j < es.len()
            && #[trigger] running(nodes, es, d)[k] == projected_view(es[j]) && direction(nodes, es[j]) == d,
    decreases es.len(),
{
    if es.len() > 0 {
        lemma_running_members(nodes, es.drop_last(), d);
        let prev = running(nodes, es.drop_last(), d);
        assert forall|k: int| 0 <= k < running(nodes, es, d).len() implies exists|j: int| 0 <= j < es.len()
            && #[trigger] running(nodes, es, d)[k] == projected_view(es[j]) && direction(nodes, es[j]) == d by {
            if k < prev.len() {
                let j = choose|j: int| 0 <= j < es.drop_last().len() && #[trigger] prev[k] == projected_view(es.drop_last()[j])
                    && direction(nodes, es.drop_last()[j]) == d;
                assert(es.drop_last()[j] == es[j]);
                assert(running(nodes, es, d)[k] == prev[k]);
            } else {
                assert(running(nodes, es, d)[k] == projected_view(es[es.len() - 1]));
            }
        }
    }
}

/// In an agent context, every incoming dependency is observed and comes
/// from an entry outside the focus; every outgoing one is observed, comes
/// from inside the focus and goes to an entry outside it; every internal
/// one is observed and neither starts nor ends outside the focus.
pub proof fn lemma_context_directions(ir: ArchitectureIr, node: Seq<char>, limit: nat, c: AgentContext)
    requires
        context_fits(ir, node, limit, c),
    ensures
        forall|i: int| 0 <= i < c.observed_incoming@.len() ==> {
            let e = #[trigger] c.observed_incoming@[i].edge;
            &&& e.origin == EdgeOrigin::Observed
            &&& exists|k: int| 0 <= k < c.projection.nodes@.len() && c.projection.nodes@[k].outside_focus && c.projection.nodes@[k].id@ == e.from@
        },
        forall|i: int| 0 <= i < c.observed_outgoing@.len() ==> {
            let e = #[trigger] c.observed_outgoing@[i].edge;
            &&& e.origin == EdgeOrigin::Observed
            &&& !exists|k: int| 0 <= k < c.projection.nodes@.len() && c.projection.nodes@[k].outside_focus && c.projection.nodes@[k].id@ == e.from@
            &&& exists|k: int| 0 <= k < c.projection.nodes@.len() && c.projection.nodes@[k].outside_focus && c.projection.nodes@[k].id@ == e.to@
        },
        forall|i: int| 0 <= i < c.observed_internal@.len() ==> {
            let e = #[trigger] c.observed_internal@[i].edge;
            &&& e.origin == EdgeOrigin::Observed
            &&& !exists|k: int| 0 <= k < c.projection.nodes@.len() && c.projection.nodes@[k].outside_focus && c.projection.nodes@[k].id@ == e.from@
            &&& !exists|k: int| 0 <= k < c.projection.nodes@.len() && c.projection.nodes@[k].outside_focus && c.projection.nodes@[k].id@ == e.to@
        },
{
    let nodes = c.projection.nodes@;
    let es = c.projection.edges@;
    lemma_running_members(nodes, es, 0);
    lemma_running_members(nodes, es, 1);
    lemma_running_members(nodes, es, 2);
    assert forall|i: int| 0 <= i < c.observed_incoming@.len() implies {
        let e = #[trigger] c.observed_incoming@[i].edge;
        &&& e.origin == EdgeOrigin::Observed
        &&& exists|k: int| 0 <= k < nodes.len() && nodes[k].outside_focus && nodes[k].id@ == e.from@
    } by {
        assert(projected_views(c.observed_incoming@)[i] == projected_view(c.observed_incoming@[i]));
        let j = choose|j: int| 0 <= j < es.len() && #[trigger] running(nodes, es, 1)[i] == projected_view(es[j]) && direction(nodes, es[j]) == 1;
        assert(compiled_view(c.observed_incoming@[i].edge) == compiled_view(es[j].edge));
    }
    assert forall|i: int| 0 <= i < c.observed_outgoing@.len() implies {
        let e = #[trigger] c.observed_outgoing@[i].edge;
        &&& e.origin == EdgeOrigin::Observed
        &&& !exists|k: int| 0 <= k < nodes.len() && nodes[k].outside_focus && nodes[k].id@ == e.from@
        &&& exists|k: int| 0 <= k < nodes.len() && nodes[k].outside_focus && nodes[k].id@ == e.to@
    } by {
        assert(projected_views(c.observed_outgoing@)[i] == projected_view(c.observed_outgoing@[i]));
        let j = choose|j: int| 0 <= j < es.len() && #[trigger] running(nodes, es, 2)[i] == projected_view(es[j]) && direction(nodes, es[j]) == 2;
        assert(compiled_view(c.observed_outgoing@[i].edge) == compiled_view(es[j].edge));
    }
    assert forall|i: int| 0 <= i < c.observed_internal@.len() implies {
        let e = #[trigger] c.observed_internal@[i].edge;
        &&& e.origin == EdgeOrigin::Observed
        &&& !exists|k: int| 0 <= k < nodes.len() && nodes[k].outside_focus && nodes[k].id@ == e.from@
        &&& !exists|k: int| 0 <= k < nodes.len() && nodes[k].outside_focus && nodes[k].id@ == e.to@
    } by {
        assert(projected_views(c.observed_internal@)[i] == projected_view(c.observed_internal@[i]));
        let j = choose|j: int| 0 <= j < es.len() && #[trigger] running(nodes, es, 0)[i] == projected_view(es[j]) && direction(nodes, es[j]) == 0;
        assert(compiled_view(c.observed_internal@[i].edge) == compiled_view(es[j].edge));
    }
}


proof fn lemma_running_complete(nodes: Seq<ProjectionNode>, es: Seq<ProjectionEdge>, d: int)
    ensures
        forall|j: int| 0 <= j < es.len() && direction(nodes, #[trigger] es[j]) == d ==> exists|k: int|
            0 <= k < running(nodes, es, d).len() && running(nodes, es, d)[k] == projected_view(es[j]),
    decreases es.len(),
{
    if es.len() > 0 {
        lemma_running_complete(nodes, es.drop_last(), d);
        let prev = running(nodes, es.drop_last(), d);
        assert forall|j: int| 0 <= j < es.len() && direction(nodes, #[trigger] es[j]) == d implies exists|k: int|
            0 <= k < running(nodes, es, d).len() && running(nodes, es, d)[k] == projected_view(es[j]) by {
            if j < es.len() - 1 {
                assert(es.drop_last()[j] == es[j]);
                let k = choose|k: int| 0 <= k < prev.len() && prev[k] == projected_view(es.drop_last()[j]);
                assert(running(nodes, es, d)[k] == prev[k]);
            } else {
                assert(running(nodes, es, d)[prev.len() as int] == projected_view(es[j]));
            }
        }
    }
}

/// No observed dependency of the projection is left out of an agent
/// context: one from outside the focus is incoming, one from inside to
/// outside is outgoing, and one with neither end outside is internal.
pub proof fn lemma_context_complete(ir: ArchitectureIr, node: Seq<char>, limit: nat, c: AgentContext)
    requires
        context_fits(ir, node, limit, c),
    ensures
        forall|j: int| 0 <= j < c.projection.edges@.len() && (#[trigger] c.projection.edges@[j]).edge.origin == EdgeOrigin::Observed ==> {
            let e = c.projection.edges@[j];
            let nodes = c.projection.nodes@;
            let from_out = exists|k: int| 0 <= k < nodes.len() && nodes[k].outside_focus && nodes[k].id@ == e.edge.from@;
            let to_out = exists|k: int| 0 <= k < nodes.len() && nodes[k].outside_focus && nodes[k].id@ == e.edge.to@;
            &&& from_out ==> exists|k: int| 0 <= k < c.observed_incoming@.len() && projected_view(c.observed_incoming@[k]) == projected_view(e)
            &&& (!from_out && to_out) ==> exists|k: int| 0 <= k < c.observed_outgoing@.len() && projected_view(c.observed_outgoing@[k]) == projected_view(e)
            &&& (!from_out && !to_out) ==> exists|k: int| 0 <= k < c.observed_internal@.len() && projected_view(c.observed_internal@[k]) == projected_view(e)
        },
{
    let nodes = c.projection.nodes@;
    let es = c.projection.edges@;
    lemma_running_complete(nodes, es, 0);
    lemma_running_complete(nodes, es, 1);
    lemma_running_complete(nodes, es, 2);
    assert forall|j: int| 0 <= j < es.len() && (#[trigger] es[j]).edge.origin == EdgeOrigin::Observed implies {
        let e = es[j];
        let from_out = exists|k: int| 0 <= k < nodes.len() && nodes[k].outside_focus && nodes[k].id@ == e.edge.from@;
        let to_out = exists|k: int| 0 <= k < nodes.len() && nodes[k].outside_focus && nodes[k].id@ == e.edge.to@;
        &&& from_out ==> exists|k: int| 0 <= k < c.observed_incoming@.len() && projected_view(c.observed_incoming@[k]) == projected_view(e)
        &&& (!from_out && to_out) ==> exists|k: int| 0 <= k < c.observed_outgoing@.len() && projected_view(c.observed_outgoing@[k]) == projected_view(e)
        &&& (!from_out && !to_out) ==> exists|k: int| 0 <= k < c.observed_internal@.len() && projected_view(c.observed_internal@[k]) == projected_view(e)
    } by {
        let e = es[j];
        let d = direction(nodes, e);
        let k = choose|k: int| 0 <= k < running(nodes, es, d).len() && running(nodes, es, d)[k] == projected_view(es[j]);
        if d == 1 {
            assert(projected_views(c.observed_incoming@)[k] == projected_view(c.observed_incoming@[k]));
        } else if d == 2 {
            assert(projected_views(c.observed_outgoing@)[k] == projected_view(c.observed_outgoing@[k]));
        } else {
            assert(projected_views(c.observed_internal@)[k] == projected_view(c.observed_internal@[k]));
        }
    }
}

} // verus!
