//! The plain-text view of a projection.
use vstd::prelude::*;
use crate::model::EdgeOrigin;
use crate::projection::{Projection, ProjectionEdge, ProjectionNode};
use crate::rules::Violation;
use crate::text::{decimal, decimal_spec};

verus! {

/// Where an entry is: its file, else its architecture node, else its ID.
pub open spec fn node_place(n: ProjectionNode) -> Seq<char> {
    match n.file_path {
        Some(p) => p@,
        None => match n.architecture_id {
            Some(a) => a@,
            None => n.id@,
        },
    }
}

/// The two lines of an entry.
pub open spec fn node_text(n: ProjectionNode) -> Seq<char> {
    "  "@ + n.title@ + " — "@ + decimal_spec(n.file_count as nat) + " file(s)"@
        + (if n.outside_focus { " [outside focus]"@ } else { Seq::empty() })
        + (if n.violation_rule_ids@.len() == 0 { Seq::empty() } else { " [VIOLATION]"@ })
        + "\n    "@ + node_place(n) + "\n"@
}

pub open spec fn nodes_text(s: Seq<ProjectionNode>) -> Seq<char>
    decreases s.len(),
{
    if s.len() == 0 {
        Seq::empty()
    } else {
        nodes_text(s.drop_last()) + node_text(s.last())
    }
}

/// The line of a projected dependency.
pub open spec fn edge_text(pe: ProjectionEdge) -> Seq<char> {
    "  "@ + pe.edge.from@ + " -> "@ + pe.edge.to@ + "  "@ + pe.edge.kind@ + " × "@ + decimal_spec(pe.edge.count as nat)
        + (if pe.edge.origin == EdgeOrigin::Manual { " [manual]"@ } else { " [observed]"@ })
        + (if pe.violation_rule_ids@.len() == 0 { Seq::empty() } else { " [VIOLATION]"@ })
        + "\n"@
}

pub open spec fn edges_text(s: Seq<ProjectionEdge>) -> Seq<char>
    decreases s.len(),
{
    if s.len() == 0 {
        Seq::empty()
    } else {
        edges_text(s.drop_last()) + edge_text(s.last())
    }
}

pub open spec fn violation_text(v: Violation) -> Seq<char> {
    "  ["@ + v.rule_id@ + "] "@ + v.message@ + "\n"@
}

pub open spec fn violations_text(s: Seq<Violation>) -> Seq<char>
    decreases s.len(),
{
    if s.len() == 0 {
        Seq::empty()
    } else {
        violations_text(s.drop_last()) + violation_text(s.last())
    }
}

/// The text view: the focus, its entries, the projected dependencies, the
/// violations and the evidence notice.
pub open spec fn text_spec(p: Projection) -> Seq<char> {
    p.focus.id@ + " — "@ + p.focus.title@ + "\n"@
        + (match p.focus.description {
            Some(d) => d@ + "\n"@,
            None => Seq::empty(),
        })
        + "\nChildren / files\n"@ + nodes_text(p.nodes@)
        + "\nProjected dependencies\n"@ + edges_text(p.edges@)
        + "\nViolations touching this view: "@ + decimal_spec(p.violations@.len()) + "\n"@
        + violations_text(p.violations@)
        + "\n"@ + p.evidence_notice@ + "\n"@
}

fn node_lines(n: &ProjectionNode) -> (r: String)
    ensures
        r@ == node_text(*n),
{
    let mut out = String::new();
    out.append("  ");
    out.append(n.title.as_str());
    out.append(" — ");
    let count = decimal(n.file_count as u128);
    out.append(count.as_str());
    out.append(" file(s)");
    let ghost a = out@;
    if n.outside_focus {
        out.append(" [outside focus]");
    }
    let ghost b = out@;
    proof {
        assert(b =~= a + (if n.outside_focus { " [outside focus]"@ } else { Seq::<char>::empty() }));
    }
    if n.violation_rule_ids.len() > 0 {
        out.append(" [VIOLATION]");
    }
    let ghost c = out@;
    proof {
        assert(c =~= b + (if n.violation_rule_ids@.len() == 0 { Seq::<char>::empty() } else { " [VIOLATION]"@ }));
    }
    out.append("\n    ");
    match &n.file_path {
        Some(path) => out.append(path.as_str()),
        None => match &n.architecture_id {
            Some(a) => out.append(a.as_str()),
            None => out.append(n.id.as_str()),
        },
    }
    out.append("\n");
    proof {
        assert(out@ =~= node_text(*n));
    }
    out
}

fn edge_line(pe: &ProjectionEdge) -> (r: String)
    ensures
        r@ == edge_text(*pe),
{
    let mut out = String::new();
    out.append("  ");
    out.append(pe.edge.from.as_str());
    out.append(" -> ");
    out.append(pe.edge.to.as_str());
    out.append("  ");
    out.append(pe.edge.kind.as_str());
    out.append(" × ");
    let count = decimal(pe.edge.count as u128);
    out.append(count.as_str());
    let ghost a = out@;
    if pe.edge.origin == EdgeOrigin::Manual {
        out.append(" [manual]");
    } else {
        out.append(" [observed]");
    }
    let ghost b = out@;
    proof {
        assert(b =~= a + (if pe.edge.origin == EdgeOrigin::Manual { " [manual]"@ } else { " [observed]"@ }));
    }
    if pe.violation_rule_ids.len() > 0 {
        out.append(" [VIOLATION]");
    }
    let ghost c = out@;
    proof {
        assert(c =~= b + (if pe.violation_rule_ids@.len() == 0 { Seq::<char>::empty() } else { " [VIOLATION]"@ }));
    }
    out.append("\n");
    proof {
        assert(out@ =~= edge_text(*pe));
    }
    out
}

pub fn render(projection: &Projection) -> (r: String)
    ensures
        r@ == text_spec(*projection),
{
    let p = projection;
    let mut out = String::new();
    out.append(p.focus.id.as_str());
    out.append(" — ");
    out.append(p.focus.title.as_str());
    out.append("\n");
    match &p.focus.description {
        Some(d) => {
            out.append(d.as_str());
            out.append("\n");
        },
        None => {},
    }
    out.append("\nChildren / files\n");
    let ghost head = out@;
    let mut i: usize = 0;
    proof {
        assert(p.nodes@.take(0) =~= Seq::<ProjectionNode>::empty());
        assert(head + nodes_text(p.nodes@.take(0)) =~= head);
    }
    while i < p.nodes.len()
        invariant
            i <= p.nodes@.len(),
            out@ == head + nodes_text(p.nodes@.take(i as int)),
        decreases p.nodes@.len() - i,
    {
        let n = &p.nodes[i];
        let ghost before = out@;
        let lines = node_lines(n);
        out.append(lines.as_str());
        proof {
            assert(p.nodes@.take(i + 1).drop_last() =~= p.nodes@.take(i as int));
            assert(p.nodes@.take(i + 1).last() == *n);
            assert(out@ =~= before + node_text(*n));
        }
        i = i + 1;
    }
    proof {
        assert(p.nodes@.take(p.nodes@.len() as int) =~= p.nodes@);
    }
    out.append("\nProjected dependencies\n");
    let ghost mid = out@;
    let mut i: usize = 0;
    proof {
        assert(p.edges@.take(0) =~= Seq::<ProjectionEdge>::empty());
        assert(mid + edges_text(p.edges@.take(0)) =~= mid);
    }
    while i < p.edges.len()
        invariant
            i <= p.edges@.len(),
            out@ == mid + edges_text(p.edges@.take(i as int)),
        decreases p.edges@.len() - i,
    {
        let pe = &p.edges[i];
        let ghost before = out@;
        let line = edge_line(pe);
        out.append(line.as_str());
        proof {
            assert(p.edges@.take(i + 1).drop_last() =~= p.edges@.take(i as int));
            assert(p.edges@.take(i + 1).last() == *pe);
            assert(out@ =~= before + edge_text(*pe));
        }
        i = i + 1;
    }
    proof {
        assert(p.edges@.take(p.edges@.len() as int) =~= p.edges@);
    }
    out.append("\nViolations touching this view: ");
    let count = decimal(p.violations.len() as u128);
    out.append(count.as_str());
    out.append("\n");
    let ghost tail = out@;
    let mut i: usize = 0;
    proof {
        assert(p.violations@.take(0) =~= Seq::<Violation>::empty());
        assert(tail + violations_text(p.violations@.take(0)) =~= tail);
    }
    while i < p.violations.len()
        invariant
            i <= p.violations@.len(),
            out@ == tail + violations_text(p.violations@.take(i as int)),
        decreases p.violations@.len() - i,
    {
        let v = &p.violations[i];
        let ghost before = out@;
        out.append("  [");
        out.append(v.rule_id.as_str());
        out.append("] ");
        out.append(v.message.as_str());
        out.append("\n");
        proof {
            assert(p.violations@.take(i + 1).drop_last() =~= p.violations@.take(i as int));
            assert(p.violations@.take(i + 1).last() == *v);
            assert(out@ =~= before + violation_text(*v));
        }
        i = i + 1;
    }
    proof {
        assert(p.violations@.take(p.violations@.len() as int) =~= p.violations@);
    }
    out.append("\n");
    out.append(p.evidence_notice.as_str());
    out.append("\n");
    proof {
        assert(out@ =~= text_spec(*p));
    }
    out
}

} // verus!
