//! The agent context as Markdown.

use vstd::prelude::*;
use crate::config::{Interface, ManualEdgeConfig, RuleConfig};
use crate::context::AgentContext;
use crate::evidence::{CompiledEdge, EdgeEvidence};
use crate::model::{CycleCut, EdgeOrigin};
use crate::projection::{display_name, display_name_spec, first_entry, EntryKind, Projection, ProjectionEdge, ProjectionNode};
use crate::report::{cut_listed, is_cut};
use crate::rules::Violation;
use crate::text::{cat2, cat3, cat4, cat5, decimal, decimal_spec, join, join_strings, views};

verus! {

/// How the confidence with these bits is written, as the table lists it
/// (first entry), or nothing.
pub open spec fn confidence_text(table: Seq<(u64, String)>, bits: u64) -> Seq<char>
    decreases table.len(),
{
    if table.len() == 0 {
        Seq::empty()
    } else if table[0].0 == bits {
        table[0].1@
    } else {
        confidence_text(table.drop_first(), bits)
    }
}

fn confidence_of(table: &Vec<(u64, String)>, bits: u64) -> (r: String)
    ensures
        r@ == confidence_text(table@, bits),
{
    let mut i: usize = 0;
    proof {
        assert(table@.skip(0) =~= table@);
    }
    while i < table.len()
        invariant
            i <= table@.len(),
            confidence_text(table@, bits) == confidence_text(table@.skip(i as int), bits),
        decreases table@.len() - i,
    {
        proof {
            assert(table@.skip(i as int).drop_first() =~= table@.skip(i + 1));
        }
        if table[i].0 == bits {
            return table[i].1.clone();
        }
        i = i + 1;
    }
    String::new()
}

/// One observation under a dependency.
pub open spec fn evidence_item(table: Seq<(u64, String)>, e: EdgeEvidence) -> Seq<char> {
    "  - `"@ + e.from_file@ + "` → `"@ + e.to_file@ + "` ["@ + e.kind@ + "]"@
        + (match e.confidence { Some(b) => " confidence="@ + confidence_text(table, b), None => Seq::empty() })
        + (match e.reason { Some(r) => " — "@ + r@, None => Seq::empty() }) + "\n"@
}

pub open spec fn evidence_items(table: Seq<(u64, String)>, es: Seq<EdgeEvidence>) -> Seq<char>
    decreases es.len(),
{
    if es.len() == 0 {
        Seq::empty()
    } else {
        evidence_items(table, es.drop_last()) + evidence_item(table, es.last())
    }
}

/// The sampled observations of a dependency, and how many there are when
/// the sample shows fewer.
pub open spec fn evidence_block(table: Seq<(u64, String)>, es: Seq<EdgeEvidence>, count: usize) -> Seq<char> {
    evidence_items(table, es) + if es.len() < count {
        "  - Showing "@ + decimal_spec(es.len()) + " of "@ + decimal_spec(count as nat) + " observations (deterministic sample).\n"@
    } else {
        Seq::empty()
    }
}

fn append_evidence(out: &mut String, table: &Vec<(u64, String)>, es: &Vec<EdgeEvidence>, count: usize)
    ensures
        final(out)@ == old(out)@ + evidence_block(table@, es@, count),
{
    let ghost start = out@;
    let mut i: usize = 0;
    while i < es.len()
        invariant
            i <= es@.len(),
            out@ == start + evidence_items(table@, es@.take(i as int)),
        decreases es@.len() - i,
    {
        proof {
            assert(es@.take(i + 1).drop_last() =~= es@.take(i as int));
        }
        let e = &es[i];
        out.append("  - `");
        out.append(e.from_file.as_str());
        out.append("` → `");
        out.append(e.to_file.as_str());
        out.append("` [");
        out.append(e.kind.as_str());
        out.append("]");
        match e.confidence {
            Some(b) => {
                out.append(" confidence=");
                let t = confidence_of(table, b);
                out.append(t.as_str());
            },
            None => {},
        }
        match &e.reason {
            Some(r) => {
                out.append(" — ");
                out.append(r.as_str());
            },
            None => {},
        }
        out.append("\n");
        proof {
            assert(out@ =~= start + evidence_items(table@, es@.take(i + 1)));
        }
        i = i + 1;
    }
    proof {
        assert(es@.take(es@.len() as int) =~= es@);
    }
    if es.len() < count {
        out.append("  - Showing ");
        out.append(decimal(es.len() as u128).as_str());
        out.append(" of ");
        out.append(decimal(count as u128).as_str());
        out.append(" observations (deterministic sample).\n");
    }
    proof {
        assert(out@ =~= start + evidence_block(table@, es@, count));
    }
}

/// The name of an edge's end in the projection.
pub open spec fn endpoint(p: Projection, id: Seq<char>) -> Seq<char> {
    match first_entry(p.nodes@, id) {
        Some(n) => display_name_spec(n),
        None => id,
    }
}

/// A bracketed list of rule IDs, if there are any.
pub open spec fn ids_note(label: Seq<char>, ids: Seq<String>) -> Seq<char> {
    if ids.len() == 0 {
        Seq::empty()
    } else {
        " ["@ + label + ": "@ + join(views(ids), ", "@) + "]"@
    }
}

/// One dependency of the projection, with its observations when observed.
pub open spec fn edge_text(table: Seq<(u64, String)>, p: Projection, pe: ProjectionEdge) -> Seq<char> {
    "- `"@ + endpoint(p, pe.edge.from@) + "` → `"@ + endpoint(p, pe.edge.to@) + "` ["@ + pe.edge.kind@ + "] × "@
        + decimal_spec(pe.edge.count as nat) + ids_note("VIOLATION"@, pe.violation_rule_ids@)
        + ids_note("SUGGESTED CUT"@, pe.suggested_cut_rule_ids@) + "\n"@
        + if pe.edge.origin == EdgeOrigin::Observed {
        evidence_block(table, pe.edge.evidence@, pe.edge.count)
    } else {
        Seq::empty()
    }
}

fn append_note(out: &mut String, label: &str, ids: &Vec<String>)
    ensures
        final(out)@ == old(out)@ + ids_note(label@, ids@),
{
    if ids.len() > 0 {
        out.append(" [");
        out.append(label);
        out.append(": ");
        out.append(join_strings(ids, ", ").as_str());
        out.append("]");
    }
}

fn append_edge(out: &mut String, table: &Vec<(u64, String)>, p: &Projection, pe: &ProjectionEdge)
    ensures
        final(out)@ == old(out)@ + edge_text(table@, *p, *pe),
{
    let ghost start = out@;
    out.append("- `");
    out.append(p.endpoint_name(pe.edge.from.as_str()).as_str());
    out.append("` → `");
    out.append(p.endpoint_name(pe.edge.to.as_str()).as_str());
    out.append("` [");
    out.append(pe.edge.kind.as_str());
    out.append("] × ");
    out.append(decimal(pe.edge.count as u128).as_str());
    append_note(out, "VIOLATION", &pe.violation_rule_ids);
    append_note(out, "SUGGESTED CUT", &pe.suggested_cut_rule_ids);
    out.append("\n");
    if pe.edge.origin == EdgeOrigin::Observed {
        append_evidence(out, table, &pe.edge.evidence, pe.edge.count);
    }
    proof {
        assert(out@ =~= start + edge_text(table@, *p, *pe));
    }
}

pub open spec fn edges_text(table: Seq<(u64, String)>, p: Projection, es: Seq<ProjectionEdge>) -> Seq<char>
    decreases es.len(),
{
    if es.len() == 0 {
        Seq::empty()
    } else {
        edges_text(table, p, es.drop_last()) + edge_text(table, p, es.last())
    }
}

/// A section of observed dependencies.
pub open spec fn edge_section(table: Seq<(u64, String)>, p: Projection, heading: Seq<char>, es: Seq<ProjectionEdge>) -> Seq<char> {
    "\n## "@ + heading + "\n\n"@ + (if es.len() == 0 { "No observed dependencies at this projection level.\n"@ } else { Seq::empty() })
        + edges_text(table, p, es)
}

fn append_edge_section(out: &mut String, table: &Vec<(u64, String)>, p: &Projection, heading: &str, es: &Vec<ProjectionEdge>)
    ensures
        final(out)@ == old(out)@ + edge_section(table@, *p, heading@, es@),
{
    let ghost start = out@;
    out.append("\n## ");
    out.append(heading);
    out.append("\n\n");
    if es.len() == 0 {
        out.append("No observed dependencies at this projection level.\n");
    }
    let ghost head = out@;
    let mut i: usize = 0;
    while i < es.len()
        invariant
            i <= es@.len(),
            out@ == head + edges_text(table@, *p, es@.take(i as int)),
        decreases es@.len() - i,
    {
        proof {
            assert(es@.take(i + 1).drop_last() =~= es@.take(i as int));
        }
        append_edge(out, table, p, &es[i]);
        proof {
            assert(out@ =~= head + edges_text(table@, *p, es@.take(i + 1)));
        }
        i = i + 1;
    }
    proof {
        assert(es@.take(es@.len() as int) =~= es@);
        assert(out@ =~= start + edge_section(table@, *p, heading@, es@));
    }
}

/// One entry inside the focus, with the files directly in the focus under
/// the entry that stands for them.
pub open spec fn child_text(focus_files: Seq<String>, node: ProjectionNode) -> Seq<char> {
    "- `"@ + display_name_spec(node) + "` — "@ + node.title@ + " — "@ + decimal_spec(node.file_count as nat) + " file(s)"@
        + (match node.observed_file_count { Some(n) => " ("@ + decimal_spec(n as nat) + " observed)"@, None => Seq::empty() })
        + (if node.violation_rule_ids@.len() == 0 { Seq::empty() } else { " [VIOLATION]"@ }) + "\n"@
        + if node.entry_kind == EntryKind::DirectFiles { file_lines(focus_files) } else { Seq::empty() }
}

pub open spec fn file_lines(files: Seq<String>) -> Seq<char>
    decreases files.len(),
{
    if files.len() == 0 {
        Seq::empty()
    } else {
        file_lines(files.drop_last()) + "  - `"@ + files.last()@ + "`\n"@
    }
}

pub open spec fn children_text(focus_files: Seq<String>, nodes: Seq<ProjectionNode>) -> Seq<char>
    decreases nodes.len(),
{
    if nodes.len() == 0 {
        Seq::empty()
    } else {
        children_text(focus_files, nodes.drop_last()) + if nodes.last().outside_focus {
            Seq::empty()
        } else {
            child_text(focus_files, nodes.last())
        }
    }
}

fn append_child(out: &mut String, focus_files: &Vec<String>, node: &ProjectionNode)
    ensures
        final(out)@ == old(out)@ + child_text(focus_files@, *node),
{
    let ghost before = out@;
    let observed = match node.observed_file_count {
        Some(n) => cat3(" (", decimal(n as u128).as_str(), " observed)"),
        None => String::new(),
    };
    let mark = if node.violation_rule_ids.len() > 0 { String::from_str(" [VIOLATION]") } else { String::new() };
    let name = display_name(node);
    let count = decimal(node.file_count as u128);
    let head = cat5("- `", name.as_str(), "` — ", node.title.as_str(), " — ");
    let line = cat5(head.as_str(), count.as_str(), " file(s)", observed.as_str(), mark.as_str());
    let line = cat2(line.as_str(), "\n");
    out.append(line.as_str());
    let ghost mid = out@;
    if node.entry_kind == EntryKind::DirectFiles {
        let mut k: usize = 0;
        proof {
            assert(mid + file_lines(focus_files@.take(0)) =~= mid);
        }
        while k < focus_files.len()
            invariant
                k <= focus_files@.len(),
                out@ == mid + file_lines(focus_files@.take(k as int)),
            decreases focus_files@.len() - k,
        {
            proof {
                assert(focus_files@.take(k + 1).drop_last() =~= focus_files@.take(k as int));
            }
            let piece = cat3("  - `", focus_files[k].as_str(), "`\n");
            out.append(piece.as_str());
            proof {
                vstd::seq_lib::lemma_concat_associative(mid, file_lines(focus_files@.take(k as int)), piece@);
            }
            k = k + 1;
        }
        proof {
            assert(focus_files@.take(focus_files@.len() as int) =~= focus_files@);
            vstd::seq_lib::lemma_concat_associative(before, line@, file_lines(focus_files@));
        }
    } else {
        proof {
            assert(line@ + Seq::<char>::empty() =~= line@);
        }
    }
}

fn append_children(out: &mut String, focus_files: &Vec<String>, nodes: &Vec<ProjectionNode>)
    ensures
        final(out)@ == old(out)@ + children_text(focus_files@, nodes@),
{
    let ghost start = out@;
    let mut i: usize = 0;
    while i < nodes.len()
        invariant
            i <= nodes@.len(),
            out@ == start + children_text(focus_files@, nodes@.take(i as int)),
        decreases nodes@.len() - i,
    {
        proof {
            assert(nodes@.take(i + 1).drop_last() =~= nodes@.take(i as int));
        }
        let node = &nodes[i];
        if !node.outside_focus {
            append_child(out, focus_files, node);
        }
        proof {
            assert(out@ =~= start + children_text(focus_files@, nodes@.take(i + 1)));
        }
        i = i + 1;
    }
    proof {
        assert(nodes@.take(nodes@.len() as int) =~= nodes@);
    }
}

/// One interface of the focus.
pub open spec fn interface_text(i: Interface) -> Seq<char> {
    "- "@ + i.name@ + " — "@ + (match i.direction { Some(d) => d@, None => "unspecified direction"@ }) + " "@ + i.kind@
        + (match i.protocol { Some(p) => "/"@ + p@, None => Seq::empty() })
        + (match i.contract { Some(c) => ": `"@ + c@ + "`"@, None => Seq::empty() }) + "\n"@
        + (match i.description { Some(d) => "  "@ + d@ + "\n"@, None => Seq::empty() })
}

pub open spec fn interfaces_text(is: Seq<Interface>) -> Seq<char>
    decreases is.len(),
{
    if is.len() == 0 {
        Seq::empty()
    } else {
        interfaces_text(is.drop_last()) + interface_text(is.last())
    }
}

fn interface_line(it: &Interface) -> (r: String)
    ensures
        r@ == interface_text(*it),
{
    let direction = match &it.direction {
        Some(d) => d.clone(),
        None => String::from_str("unspecified direction"),
    };
    let protocol = match &it.protocol {
        Some(p) => cat2("/", p.as_str()),
        None => String::new(),
    };
    let contract = match &it.contract {
        Some(c) => cat3(": `", c.as_str(), "`"),
        None => String::new(),
    };
    let description = match &it.description {
        Some(d) => cat3("  ", d.as_str(), "\n"),
        None => String::new(),
    };
    let head = cat5("- ", it.name.as_str(), " — ", direction.as_str(), " ");
    let line = cat5(head.as_str(), it.kind.as_str(), protocol.as_str(), contract.as_str(), "\n");
    cat2(line.as_str(), description.as_str())
}

fn append_interfaces(out: &mut String, is: &Vec<Interface>)
    ensures
        final(out)@ == old(out)@ + interfaces_text(is@),
{
    let ghost start = out@;
    let mut i: usize = 0;
    proof {
        assert(start + interfaces_text(is@.take(0)) =~= start);
    }
    while i < is.len()
        invariant
            i <= is@.len(),
            out@ == start + interfaces_text(is@.take(i as int)),
        decreases is@.len() - i,
    {
        proof {
            assert(is@.take(i + 1).drop_last() =~= is@.take(i as int));
        }
        let line = interface_line(&is[i]);
        out.append(line.as_str());
        proof {
            vstd::seq_lib::lemma_concat_associative(start, interfaces_text(is@.take(i as int)), line@);
        }
        i = i + 1;
    }
    proof {
        assert(is@.take(is@.len() as int) =~= is@);
    }
}


/// Each text on a line of its own, after `- `.
pub open spec fn bullet_lines(xs: Seq<String>) -> Seq<char>
    decreases xs.len(),
{
    if xs.len() == 0 {
        Seq::empty()
    } else {
        bullet_lines(xs.drop_last()) + "- "@ + xs.last()@ + "\n"@
    }
}

fn append_bullets(out: &mut String, xs: &Vec<String>)
    ensures
        final(out)@ == old(out)@ + bullet_lines(xs@),
{
    let ghost start = out@;
    let mut i: usize = 0;
    proof {
        assert(start + bullet_lines(xs@.take(0)) =~= start);
    }
    while i < xs.len()
        invariant
            i <= xs@.len(),
            out@ == start + bullet_lines(xs@.take(i as int)),
        decreases xs@.len() - i,
    {
        proof {
            assert(xs@.take(i + 1).drop_last() =~= xs@.take(i as int));
        }
        let line = cat3("- ", xs[i].as_str(), "\n");
        out.append(line.as_str());
        proof {
            vstd::seq_lib::lemma_concat_associative(start, bullet_lines(xs@.take(i as int)), line@);
        }
        i = i + 1;
    }
    proof {
        assert(xs@.take(xs@.len() as int) =~= xs@);
    }
}

/// One manual edge behind a manual relationship.
pub open spec fn manual_line(m: ManualEdgeConfig) -> Seq<char> {
    "  - `"@ + m.id@ + "`: "@ + (match m.label { Some(l) => l@, None => m.kind@ })
        + (match m.description { Some(d) => " — "@ + d@, None => Seq::empty() }) + "\n"@
}

pub open spec fn manual_lines(ms: Seq<ManualEdgeConfig>) -> Seq<char>
    decreases ms.len(),
{
    if ms.len() == 0 {
        Seq::empty()
    } else {
        manual_lines(ms.drop_last()) + manual_line(ms.last())
    }
}

/// The manual relationships of the projection, each with its manual edges.
pub open spec fn manual_text(table: Seq<(u64, String)>, p: Projection, es: Seq<ProjectionEdge>) -> Seq<char>
    decreases es.len(),
{
    if es.len() == 0 {
        Seq::empty()
    } else {
        manual_text(table, p, es.drop_last()) + if es.last().edge.origin == EdgeOrigin::Manual {
            edge_text(table, p, es.last()) + manual_lines(es.last().edge.manual_edges@)
        } else {
            Seq::empty()
        }
    }
}

fn append_manuals(out: &mut String, ms: &Vec<ManualEdgeConfig>)
    ensures
        final(out)@ == old(out)@ + manual_lines(ms@),
{
    let ghost start = out@;
    let mut i: usize = 0;
    proof {
        assert(start + manual_lines(ms@.take(0)) =~= start);
    }
    while i < ms.len()
        invariant
            i <= ms@.len(),
            out@ == start + manual_lines(ms@.take(i as int)),
        decreases ms@.len() - i,
    {
        proof {
            assert(ms@.take(i + 1).drop_last() =~= ms@.take(i as int));
        }
        let m = &ms[i];
        let label = match &m.label {
            Some(l) => l.clone(),
            None => m.kind.clone(),
        };
        let description = match &m.description {
            Some(d) => cat2(" — ", d.as_str()),
            None => String::new(),
        };
        let line = cat5("  - `", m.id.as_str(), "`: ", label.as_str(), description.as_str());
        let line = cat2(line.as_str(), "\n");
        out.append(line.as_str());
        proof {
            vstd::seq_lib::lemma_concat_associative(start, manual_lines(ms@.take(i as int)), line@);
        }
        i = i + 1;
    }
    proof {
        assert(ms@.take(ms@.len() as int) =~= ms@);
    }
}

fn append_manual_section(out: &mut String, table: &Vec<(u64, String)>, p: &Projection)
    ensures
        final(out)@ == old(out)@ + "\n## Manual relationships (descriptive intent)\n\n"@ + manual_text(table@, *p, p.edges@),
{
    out.append("\n## Manual relationships (descriptive intent)\n\n");
    let ghost head = out@;
    let mut i: usize = 0;
    proof {
        assert(head + manual_text(table@, *p, p.edges@.take(0)) =~= head);
    }
    while i < p.edges.len()
        invariant
            i <= p.edges@.len(),
            out@ == head + manual_text(table@, *p, p.edges@.take(i as int)),
        decreases p.edges@.len() - i,
    {
        proof {
            assert(p.edges@.take(i + 1).drop_last() =~= p.edges@.take(i as int));
        }
        let pe = &p.edges[i];
        if pe.edge.origin == EdgeOrigin::Manual {
            let ghost before = out@;
            append_edge(out, table, p, pe);
            let ghost mid = out@;
            append_manuals(out, &pe.edge.manual_edges);
            proof {
                vstd::seq_lib::lemma_concat_associative(before, edge_text(table@, *p, *pe), manual_lines(pe.edge.manual_edges@));
                vstd::seq_lib::lemma_concat_associative(head, manual_text(table@, *p, p.edges@.take(i as int)),
                    edge_text(table@, *p, *pe) + manual_lines(pe.edge.manual_edges@));
            }
        } else {
            proof {
                assert(manual_text(table@, *p, p.edges@.take(i as int)) + Seq::<char>::empty() =~= manual_text(table@, *p, p.edges@.take(i as int)));
            }
        }
        i = i + 1;
    }
    proof {
        assert(p.edges@.take(p.edges@.len() as int) =~= p.edges@);
    }
}

/// One rule that concerns the node, as JSON.
pub open spec fn rule_text(rule: RuleConfig, json: Seq<char>) -> Seq<char> {
    "### `"@ + rule.id_view() + "`\n\n"@ + "```json\n"@ + json + "\n```\n\n"@
}

pub open spec fn rules_text(rules: Seq<RuleConfig>, json: Seq<String>, n: int) -> Seq<char>
    decreases n,
{
    if n <= 0 {
        Seq::empty()
    } else {
        rules_text(rules, json, n - 1) + rule_text(rules[n - 1], json[n - 1]@)
    }
}

fn append_rules(out: &mut String, rules: &Vec<RuleConfig>, json: &Vec<String>)
    requires
        json@.len() == rules@.len(),
    ensures
        final(out)@ == old(out)@ + rules_text(rules@, json@, rules@.len() as int),
{
    let ghost start = out@;
    let mut i: usize = 0;
    proof {
        assert(start + rules_text(rules@, json@, 0) =~= start);
    }
    while i < rules.len()
        invariant
            i <= rules@.len(),
            json@.len() == rules@.len(),
            out@ == start + rules_text(rules@, json@, i as int),
        decreases rules@.len() - i,
    {
        let line = cat5("### `", rules[i].id(), "`\n\n", "```json\n", json[i].as_str());
        let line = cat2(line.as_str(), "\n```\n\n");
        out.append(line.as_str());
        proof {
            vstd::seq_lib::lemma_concat_associative(start, rules_text(rules@, json@, i as int), line@);
        }
        i = i + 1;
    }
}

/// A suggested cut of a cycle.
pub open spec fn cut_line(c: CycleCut) -> Seq<char> {
    "- `"@ + c.from@ + "` → `"@ + c.to@ + "` × "@ + decimal_spec(c.count as nat) + "\n"@
}

pub open spec fn cut_lines(cs: Seq<CycleCut>) -> Seq<char>
    decreases cs.len(),
{
    if cs.len() == 0 {
        Seq::empty()
    } else {
        cut_lines(cs.drop_last()) + cut_line(cs.last())
    }
}

/// A dependency of a violation: where cuts are suggested, only the cut ones.
pub open spec fn violation_edge(table: Seq<(u64, String)>, cuts: Seq<CycleCut>, e: CompiledEdge) -> Seq<char> {
    if cuts.len() > 0 && !is_cut(cuts, e.from@, e.to@) {
        Seq::empty()
    } else {
        "- `"@ + e.from@ + "` → `"@ + e.to@ + "` ["@ + e.kind@ + "] × "@ + decimal_spec(e.count as nat) + "\n"@
            + evidence_block(table, e.evidence@, e.count)
    }
}

pub open spec fn violation_edges(table: Seq<(u64, String)>, cuts: Seq<CycleCut>, es: Seq<CompiledEdge>) -> Seq<char>
    decreases es.len(),
{
    if es.len() == 0 {
        Seq::empty()
    } else {
        violation_edges(table, cuts, es.drop_last()) + violation_edge(table, cuts, es.last())
    }
}

/// A violation: its rule and message, the layers and cuts of a cycle, and
/// its dependencies with their observations.
pub open spec fn violation_text(table: Seq<(u64, String)>, v: Violation) -> Seq<char> {
    "### `"@ + v.rule_id@ + "`\n\n"@ + v.message@ + "\n\n"@
        + (if v.suggested_cuts@.len() > 0 {
            "Layers, upper to lower: "@ + join(views(v.layer_order@), " > "@)
                + ". Removing these upward dependencies breaks the cycle with the fewest observed changes:\n\n"@
                + cut_lines(v.suggested_cuts@) + "\nEvidence for the suggested cut:\n\n"@
        } else {
            Seq::empty()
        })
        + violation_edges(table, v.suggested_cuts@, v.architecture_edges@)
}

pub open spec fn violations_text(table: Seq<(u64, String)>, vs: Seq<Violation>) -> Seq<char>
    decreases vs.len(),
{
    if vs.len() == 0 {
        Seq::empty()
    } else {
        violations_text(table, vs.drop_last()) + violation_text(table, vs.last())
    }
}

fn cuts_text(cuts: &Vec<CycleCut>) -> (r: String)
    ensures
        r@ == cut_lines(cuts@),
{
    let mut out = String::new();
    let mut i: usize = 0;
    proof {
        assert(out@ =~= cut_lines(cuts@.take(0)));
    }
    while i < cuts.len()
        invariant
            i <= cuts@.len(),
            out@ == cut_lines(cuts@.take(i as int)),
        decreases cuts@.len() - i,
    {
        proof {
            assert(cuts@.take(i + 1).drop_last() =~= cuts@.take(i as int));
        }
        let c = &cuts[i];
        let line = cat5("- `", c.from.as_str(), "` → `", c.to.as_str(), "` × ");
        let line = cat3(line.as_str(), decimal(c.count as u128).as_str(), "\n");
        out.append(line.as_str());
        i = i + 1;
    }
    proof {
        assert(cuts@.take(cuts@.len() as int) =~= cuts@);
    }
    out
}

fn append_violation_edges(out: &mut String, table: &Vec<(u64, String)>, cuts: &Vec<CycleCut>, es: &Vec<CompiledEdge>)
    ensures
        final(out)@ == old(out)@ + violation_edges(table@, cuts@, es@),
{
    let ghost start = out@;
    let mut i: usize = 0;
    proof {
        assert(start + violation_edges(table@, cuts@, es@.take(0)) =~= start);
    }
    while i < es.len()
        invariant
            i <= es@.len(),
            out@ == start + violation_edges(table@, cuts@, es@.take(i as int)),
        decreases es@.len() - i,
    {
        proof {
            assert(es@.take(i + 1).drop_last() =~= es@.take(i as int));
        }
        let e = &es[i];
        let ghost before = out@;
        if cuts.len() > 0 && !cut_listed(cuts, e.from.as_str(), e.to.as_str()) {
            proof {
                assert(before + Seq::<char>::empty() =~= before);
            }
        } else {
            let line = cat5("- `", e.from.as_str(), "` → `", e.to.as_str(), "` [");
            let line = cat5(line.as_str(), e.kind.as_str(), "] × ", decimal(e.count as u128).as_str(), "\n");
            out.append(line.as_str());
            append_evidence(out, table, &e.evidence, e.count);
            proof {
                vstd::seq_lib::lemma_concat_associative(before, line@, evidence_block(table@, e.evidence@, e.count));
            }
        }
        proof {
            vstd::seq_lib::lemma_concat_associative(start, violation_edges(table@, cuts@, es@.take(i as int)), violation_edge(table@, cuts@, *e));
        }
        i = i + 1;
    }
    proof {
        assert(es@.take(es@.len() as int) =~= es@);
    }
}

fn append_violation(out: &mut String, table: &Vec<(u64, String)>, v: &Violation)
    ensures
        final(out)@ == old(out)@ + violation_text(table@, *v),
{
    let ghost before = out@;
    let head = cat5("### `", v.rule_id.as_str(), "`\n\n", v.message.as_str(), "\n\n");
    let cut_part = if v.suggested_cuts.len() > 0 {
        let layers = join_strings(&v.layer_order, " > ");
        let cl = cuts_text(&v.suggested_cuts);
        let a = cat3("Layers, upper to lower: ", layers.as_str(), ". Removing these upward dependencies breaks the cycle with the fewest observed changes:\n\n");
        cat3(a.as_str(), cl.as_str(), "\nEvidence for the suggested cut:\n\n")
    } else {
        String::new()
    };
    let top = cat2(head.as_str(), cut_part.as_str());
    out.append(top.as_str());
    append_violation_edges(out, table, &v.suggested_cuts, &v.architecture_edges);
    proof {
        vstd::seq_lib::lemma_concat_associative(before, top@, violation_edges(table@, v.suggested_cuts@, v.architecture_edges@));
    }
}

fn append_violations(out: &mut String, table: &Vec<(u64, String)>, vs: &Vec<Violation>)
    ensures
        final(out)@ == old(out)@ + violations_text(table@, vs@),
{
    let ghost start = out@;
    let mut i: usize = 0;
    proof {
        assert(start + violations_text(table@, vs@.take(0)) =~= start);
    }
    while i < vs.len()
        invariant
            i <= vs@.len(),
            out@ == start + violations_text(table@, vs@.take(i as int)),
        decreases vs@.len() - i,
    {
        proof {
            assert(vs@.take(i + 1).drop_last() =~= vs@.take(i as int));
        }
        append_violation(out, table, &vs[i]);
        proof {
            vstd::seq_lib::lemma_concat_associative(start, violations_text(table@, vs@.take(i as int)), violation_text(table@, vs@[i as int]));
        }
        i = i + 1;
    }
    proof {
        assert(vs@.take(vs@.len() as int) =~= vs@);
    }
}


/// The head of the context: the focus, its size and its purpose.
pub open spec fn header_text(p: Projection) -> Seq<char> {
    "# Architecture context: "@ + p.focus.id@ + "\n\n"@ + "**"@ + p.focus.title@ + "** — "@
        + decimal_spec(p.focus.descendant_file_count as nat) + " files in this subtree, "@
        + decimal_spec(p.focus.observed_file_count as nat) + " with observed dependencies.\n\n"@ + "Purpose: "@
        + (match p.focus.description { Some(d) => d@, None => "No description authored."@ }) + "\n\n"@
        + "## Children and files\n\n"@
}

/// The agent context as Markdown: the focus, its entries and interfaces,
/// the observed dependencies inside it, into it and out of it, the manual
/// relationships, the rules (each as the JSON text `json` gives for it),
/// the violations with the layers and cuts of cycles, the coverage
/// diagnostics and the agent contract. Confidences are written as `table`
/// lists them.
pub open spec fn context_markdown(c: AgentContext, table: Seq<(u64, String)>, json: Seq<String>) -> Seq<char> {
    let p = c.projection;
    header_text(p) + children_text(p.focus.direct_files@, p.nodes@) + "\n## Interfaces\n\n"@
        + (if p.focus.interfaces@.len() == 0 { "No interfaces authored for this node.\n"@ } else { Seq::empty() })
        + interfaces_text(p.focus.interfaces@)
        + edge_section(table, p, "Observed internal dependencies"@, c.observed_internal@)
        + edge_section(table, p, "Observed incoming dependencies"@, c.observed_incoming@)
        + edge_section(table, p, "Observed outgoing dependencies"@, c.observed_outgoing@)
        + "\n## Manual relationships (descriptive intent)\n\n"@ + manual_text(table, p, p.edges@)
        + "\n## Rules affecting this node\n\n"@
        + (if c.rules@.len() == 0 { "No authored rules affect this node.\n"@ } else { Seq::empty() })
        + rules_text(c.rules@, json, c.rules@.len() as int)
        + "\n## Violations\n\n"@
        + (if p.violations@.len() == 0 { "No matching observed architecture violations.\n"@ } else { Seq::empty() })
        + violations_text(table, p.violations@)
        + (if c.diagnostics@.len() == 0 { Seq::empty() } else { "\n## Coverage diagnostics\n\n"@ + bullet_lines(c.diagnostics@) })
        + "\n## Agent contract\n\n"@ + bullet_lines(c.agent_contract@)
}

/// The agent context as Markdown; `table` says how each confidence is
/// written and `json` holds the JSON text of each rule of the context.
pub fn markdown(context: &AgentContext, table: &Vec<(u64, String)>, json: &Vec<String>) -> (r: String)
    requires
        json@.len() == context.rules@.len(),
    ensures
        r@ == context_markdown(*context, table@, json@),
{
    let p = &context.projection;
    let purpose = match &p.focus.description {
        Some(d) => d.clone(),
        None => String::from_str("No description authored."),
    };
    let h1 = cat3("# Architecture context: ", p.focus.id.as_str(), "\n\n");
    let h2 = cat5(h1.as_str(), "**", p.focus.title.as_str(), "** — ", decimal(p.focus.descendant_file_count as u128).as_str());
    let h3 = cat5(h2.as_str(), " files in this subtree, ", decimal(p.focus.observed_file_count as u128).as_str(),
        " with observed dependencies.\n\n", "Purpose: ");
    let mut out = cat4(h3.as_str(), purpose.as_str(), "\n\n", "## Children and files\n\n");
    proof {
        assert(out@ == header_text(*p));
    }
    append_children(&mut out, &p.focus.direct_files, &p.nodes);
    out.append("\n## Interfaces\n\n");
    let ghost b1 = out@;
    if p.focus.interfaces.len() == 0 {
        out.append("No interfaces authored for this node.\n");
    } else {
        proof {
            assert(out@ =~= b1 + Seq::<char>::empty());
        }
    }
    append_interfaces(&mut out, &p.focus.interfaces);
    append_edge_section(&mut out, table, p, "Observed internal dependencies", &context.observed_internal);
    append_edge_section(&mut out, table, p, "Observed incoming dependencies", &context.observed_incoming);
    append_edge_section(&mut out, table, p, "Observed outgoing dependencies", &context.observed_outgoing);
    append_manual_section(&mut out, table, p);
    out.append("\n## Rules affecting this node\n\n");
    let ghost b2 = out@;
    if context.rules.len() == 0 {
        out.append("No authored rules affect this node.\n");
    } else {
        proof {
            assert(out@ =~= b2 + Seq::<char>::empty());
        }
    }
    append_rules(&mut out, &context.rules, json);
    out.append("\n## Violations\n\n");
    let ghost b3 = out@;
    if p.violations.len() == 0 {
        out.append("No matching observed architecture violations.\n");
    } else {
        proof {
            assert(out@ =~= b3 + Seq::<char>::empty());
        }
    }
    append_violations(&mut out, table, &p.violations);
    let ghost before = out@;
    if context.diagnostics.len() > 0 {
        out.append("\n## Coverage diagnostics\n\n");
        append_bullets(&mut out, &context.diagnostics);
        proof {
            vstd::seq_lib::lemma_concat_associative(before, "\n## Coverage diagnostics\n\n"@, bullet_lines(context.diagnostics@));
        }
    } else {
        proof {
            assert(out@ =~= before + Seq::<char>::empty());
        }
    }
    out.append("\n## Agent contract\n\n");
    append_bullets(&mut out, &context.agent_contract);
    out
}

} // verus!
