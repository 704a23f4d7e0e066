//! What `check` prints of a violation: a header, then each participating
//! dependency with its sampled observations, or, with a baseline, the
//! observations that are new.
use vstd::prelude::*;
use crate::baseline::BaselineEntry;
use crate::evidence::{CompiledEdge, EdgeEvidence};
use crate::model::CycleCut;
use crate::rules::Violation;
use crate::text::{decimal, decimal_spec, join, join_strings, views};

verus! {

fn push_str(s: &mut String, t: &str)
    ensures
        final(s)@ == old(s)@ + t@,
{
    s.append(t);
}

/// The details of an observation: its reason and its confidence, each where
/// it has one; `confidence` is how the confidence is written.
pub open spec fn detail_parts(reason: Option<Seq<char>>, confidence: Option<Seq<char>>) -> Seq<Seq<char>> {
    let a = match reason {
        Some(r) => seq![r],
        None => Seq::empty(),
    };
    match confidence {
        Some(c) => a.push("confidence "@ + c),
        None => a,
    }
}

/// One observation: its files, then its details in brackets.
pub open spec fn evidence_line_spec(e: EdgeEvidence, confidence: Option<Seq<char>>) -> Seq<char> {
    let parts = detail_parts(crate::text::opt_view(e.reason), confidence);
    let detail = if parts.len() == 0 {
        Seq::empty()
    } else {
        "  ("@ + join(parts, ", "@) + ")"@
    };
    e.from_file@ + " -> "@ + e.to_file@ + detail
}

/// One observation as `check` lists it; `confidence` is how its confidence
/// is written, present exactly when it has one.
pub fn evidence_line(e: &EdgeEvidence, confidence: Option<&str>) -> (r: String)
    requires
        confidence is Some <==> e.confidence is Some,
    ensures
        r@ == evidence_line_spec(*e, match confidence {
            Some(c) => Some(c@),
            None => None,
        }),
{
    let ghost cv = match confidence {
        Some(c) => Some(c@),
        None => None,
    };
    let mut parts: Vec<String> = Vec::new();
    match &e.reason {
        Some(r) => parts.push(r.clone()),
        None => {},
    }
    match confidence {
        Some(c) => {
            let mut t = String::from_str("confidence ");
            push_str(&mut t, c);
            parts.push(t);
        },
        None => {},
    }
    proof {
        assert(views(parts@) =~= detail_parts(crate::text::opt_view(e.reason), cv));
    }
    let mut line = e.from_file.clone();
    push_str(&mut line, " -> ");
    push_str(&mut line, e.to_file.as_str());
    if parts.len() > 0 {
        push_str(&mut line, "  (");
        let joined = join_strings(&parts, ", ");
        push_str(&mut line, joined.as_str());
        push_str(&mut line, ")");
    }
    proof {
        assert(line@ =~= evidence_line_spec(*e, cv));
    }
    line
}

/// What the cuts count together.
pub open spec fn cut_total(cuts: Seq<CycleCut>) -> nat
    decreases cuts.len(),
{
    if cuts.len() == 0 {
        0
    } else {
        cut_total(cuts.drop_last()) + cuts.last().count as nat
    }
}

/// The lines of the cuts, most significant first as listed.
pub open spec fn cut_lines(cuts: Seq<CycleCut>) -> Seq<char>
    decreases cuts.len(),
{
    if cuts.len() == 0 {
        Seq::empty()
    } else {
        let c = cuts.last();
        cut_lines(cuts.drop_last()) + "    "@ + c.from@ + " -> "@ + c.to@ + " × "@ + decimal_spec(c.count as nat) + "\n"@
    }
}

/// The header of a violation: its rule and message, or for a cycle with a
/// cut its members, the cheapest cut and the layers the cut leaves.
pub open spec fn header_spec(v: Violation) -> Seq<char> {
    if v.suggested_cuts@.len() == 0 {
        "\n["@ + v.rule_id@ + "] "@ + v.message@ + "\n"@
    } else {
        let from = match v.from {
            Some(f) => f@,
            None => Seq::empty(),
        };
        "\n["@ + v.rule_id@ + "] cycle among immediate children of `"@ + from + "`\n"@
            + "  Members: "@ + join(views(v.nodes@), ", "@) + "\n"@
            + "  Cheapest cut: "@ + decimal_spec(cut_total(v.suggested_cuts@)) + " of "@ + decimal_spec(v.count as nat)
            + " participating dependencies, most significant first:\n"@
            + cut_lines(v.suggested_cuts@)
            + "  Layers after the cut, upper to lower:\n"@
            + "    "@ + join(views(v.layer_order@), " > "@) + "\n"@
    }
}

pub fn violation_header(v: &Violation) -> (r: String)
    ensures
        r@ == header_spec(*v),
{
    if v.suggested_cuts.len() == 0 {
        let mut s = String::from_str("\n[");
        push_str(&mut s, v.rule_id.as_str());
        push_str(&mut s, "] ");
        push_str(&mut s, v.message.as_str());
        push_str(&mut s, "\n");
        proof {
            assert(s@ =~= header_spec(*v));
        }
        return s;
    }
    let ghost cuts = v.suggested_cuts@;
    let mut total: u128 = 0;
    let mut lines = String::new();
    let mut i: usize = 0;
    while i < v.suggested_cuts.len()
        invariant
            i <= cuts.len(),
            cuts == v.suggested_cuts@,
            total == cut_total(cuts.take(i as int)),
            total <= i * (usize::MAX as int),
            lines@ == cut_lines(cuts.take(i as int)),
        decreases cuts.len() - i,
    {
        let c = &v.suggested_cuts[i];
        proof {
            assert(cuts.take(i + 1).drop_last() =~= cuts.take(i as int));
            assert(cuts.take(i + 1).last() == cuts[i as int]);
            let m = usize::MAX as int;
            assert(total + c.count <= (i + 1) * m) by (nonlinear_arith)
                requires
                    total <= i * m,
                    c.count <= m,
            ;
            assert((i + 1) * m <= (usize::MAX as int + 1) * m) by (nonlinear_arith)
                requires
                    i <= m,
                    m >= 0,
            ;
            assert(m <= 0xffff_ffff_ffff_ffff);
            assert((m + 1) * m <= 0x1_0000_0000_0000_0000 * 0xffff_ffff_ffff_ffff) by (nonlinear_arith)
                requires
                    0 <= m <= 0xffff_ffff_ffff_ffff,
            ;
        }
        total = total + c.count as u128;
        push_str(&mut lines, "    ");
        push_str(&mut lines, c.from.as_str());
        push_str(&mut lines, " -> ");
        push_str(&mut lines, c.to.as_str());
        push_str(&mut lines, " × ");
        let n = decimal(c.count as u128);
        push_str(&mut lines, n.as_str());
        push_str(&mut lines, "\n");
        proof {
            assert(lines@ =~= cut_lines(cuts.take(i + 1)));
        }
        i = i + 1;
    }
    proof {
        assert(cuts.take(cuts.len() as int) =~= cuts);
    }
    let mut s = String::from_str("\n[");
    push_str(&mut s, v.rule_id.as_str());
    push_str(&mut s, "] cycle among immediate children of `");
    match &v.from {
        Some(f) => push_str(&mut s, f.as_str()),
        None => {},
    }
    push_str(&mut s, "`\n");
    push_str(&mut s, "  Members: ");
    let members = join_strings(&v.nodes, ", ");
    push_str(&mut s, members.as_str());
    push_str(&mut s, "\n");
    push_str(&mut s, "  Cheapest cut: ");
    let t = decimal(total);
    push_str(&mut s, t.as_str());
    push_str(&mut s, " of ");
    let n = decimal(v.count as u128);
    push_str(&mut s, n.as_str());
    push_str(&mut s, " participating dependencies, most significant first:\n");
    push_str(&mut s, lines.as_str());
    push_str(&mut s, "  Layers after the cut, upper to lower:\n");
    push_str(&mut s, "    ");
    let layers = join_strings(&v.layer_order, " > ");
    push_str(&mut s, layers.as_str());
    push_str(&mut s, "\n");
    proof {
        assert(s@ =~= header_spec(*v));
    }
    s
}

/// The dependency is one of the violation's suggested cuts.
pub open spec fn is_cut(cuts: Seq<CycleCut>, from: Seq<char>, to: Seq<char>) -> bool {
    exists|i: int| 0 <= i < cuts.len() && (#[trigger] cuts[i]).from@ == from && cuts[i].to@ == to
}

/// The confidences of the observations are written where they are given.
pub open spec fn confidences_fit(edges: Seq<CompiledEdge>, confidences: Seq<Vec<Option<String>>>) -> bool {
    &&& confidences.len() == edges.len()
    &&& forall|i: int| 0 <= i < edges.len() ==> (#[trigger] confidences[i])@.len() == edges[i].evidence@.len()
    &&& forall|i: int, j: int| 0 <= i < edges.len() && 0 <= j < edges[i].evidence@.len()
        ==> (#[trigger] confidences[i]@[j] is Some <==> #[trigger] edges[i].evidence@[j].confidence is Some)
}

pub open spec fn str_opt(o: Option<String>) -> Option<Seq<char>> {
    match o {
        Some(s) => Some(s@),
        None => None,
    }
}

/// The first `n` observation lines of an edge.
pub open spec fn evidence_lines(es: Seq<EdgeEvidence>, cs: Seq<Option<String>>, n: nat) -> Seq<char>
    decreases n,
{
    if n == 0 {
        Seq::empty()
    } else {
        evidence_lines(es, cs, (n - 1) as nat) + "    "@ + evidence_line_spec(es[n - 1], str_opt(cs[n - 1])) + "\n"@
    }
}

/// One dependency of a violation, with its observations unless a cut is
/// suggested elsewhere.
pub open spec fn edge_block(cuts: Seq<CycleCut>, e: CompiledEdge, cs: Seq<Option<String>>) -> Seq<char> {
    let cut = is_cut(cuts, e.from@, e.to@);
    let head = "  "@ + e.from@ + " -> "@ + e.to@ + " ["@ + e.kind@ + "] × "@ + decimal_spec(e.count as nat)
        + (if cut { " [CUT]"@ } else { Seq::empty() }) + "\n"@;
    if cuts.len() > 0 && !cut {
        head
    } else {
        head + evidence_lines(e.evidence@, cs, e.evidence@.len())
            + if e.evidence@.len() < e.count {
            "    (showing "@ + decimal_spec(e.evidence@.len()) + " of "@ + decimal_spec(e.count as nat) + " observations)\n"@
        } else {
            Seq::empty()
        }
    }
}

/// The first `n` dependencies of a violation.
pub open spec fn edge_blocks(cuts: Seq<CycleCut>, es: Seq<CompiledEdge>, cs: Seq<Vec<Option<String>>>, n: nat) -> Seq<char>
    decreases n,
{
    if n == 0 {
        Seq::empty()
    } else {
        edge_blocks(cuts, es, cs, (n - 1) as nat) + edge_block(cuts, es[n - 1], cs[n - 1]@)
    }
}

/// A violation as `check` prints it.
pub open spec fn violation_text_spec(v: Violation, cs: Seq<Vec<Option<String>>>) -> Seq<char> {
    header_spec(v) + (if v.suggested_cuts@.len() > 0 {
        "  Evidence for the cut; other cycle edges are summarized:\n"@
    } else {
        Seq::empty()
    }) + edge_blocks(v.suggested_cuts@, v.architecture_edges@, cs, v.architecture_edges@.len())
}

pub(crate) fn cut_listed(cuts: &Vec<CycleCut>, from: &str, to: &str) -> (r: bool)
    ensures
        r == is_cut(cuts@, from@, to@),
{
    let mut i: usize = 0;
    while i < cuts.len()
        invariant
            i <= cuts@.len(),
            forall|k: int| 0 <= k < i ==> !((#[trigger] cuts@[k]).from@ == from@ && cuts@[k].to@ == to@),
        decreases cuts@.len() - i,
    {
        if crate::text::str_eq(cuts[i].from.as_str(), from) && crate::text::str_eq(cuts[i].to.as_str(), to) {
            return true;
        }
        i = i + 1;
    }
    false
}

fn edge_text(cuts: &Vec<CycleCut>, e: &CompiledEdge, cs: &Vec<Option<String>>) -> (r: String)
    requires
        cs@.len() == e.evidence@.len(),
        forall|j: int| 0 <= j < e.evidence@.len() ==> (#[trigger] cs@[j] is Some <==> #[trigger] e.evidence@[j].confidence is Some),
    ensures
        r@ == edge_block(cuts@, *e, cs@),
{
    let cut = cut_listed(cuts, e.from.as_str(), e.to.as_str());
    let mut s = String::from_str("  ");
    push_str(&mut s, e.from.as_str());
    push_str(&mut s, " -> ");
    push_str(&mut s, e.to.as_str());
    push_str(&mut s, " [");
    push_str(&mut s, e.kind.as_str());
    push_str(&mut s, "] × ");
    let n = decimal(e.count as u128);
    push_str(&mut s, n.as_str());
    if cut {
        push_str(&mut s, " [CUT]");
    }
    push_str(&mut s, "\n");
    let ghost head = s@;
    proof {
        let h = "  "@ + e.from@ + " -> "@ + e.to@ + " ["@ + e.kind@ + "] × "@ + decimal_spec(e.count as nat)
            + (if cut { " [CUT]"@ } else { Seq::empty() }) + "\n"@;
        assert(head =~= h);
    }
    if cuts.len() > 0 && !cut {
        return s;
    }
    let mut j: usize = 0;
    while j < e.evidence.len()
        invariant
            j <= e.evidence@.len(),
            cs@.len() == e.evidence@.len(),
            forall|k: int| 0 <= k < e.evidence@.len() ==> (#[trigger] cs@[k] is Some <==> #[trigger] e.evidence@[k].confidence is Some),
            s@ == head + evidence_lines(e.evidence@, cs@, j as nat),
        decreases e.evidence@.len() - j,
    {
        proof {
            assert(cs@[j as int] is Some <==> e.evidence@[j as int].confidence is Some);
        }
        let c: Option<&str> = match &cs[j] {
            Some(t) => Some(t.as_str()),
            None => None,
        };
        let line = evidence_line(&e.evidence[j], c);
        push_str(&mut s, "    ");
        push_str(&mut s, line.as_str());
        push_str(&mut s, "\n");
        proof {
            assert(s@ =~= head + evidence_lines(e.evidence@, cs@, (j + 1) as nat));
        }
        j = j + 1;
    }
    if e.evidence.len() < e.count {
        push_str(&mut s, "    (showing ");
        let a = decimal(e.evidence.len() as u128);
        push_str(&mut s, a.as_str());
        push_str(&mut s, " of ");
        let b = decimal(e.count as u128);
        push_str(&mut s, b.as_str());
        push_str(&mut s, " observations)\n");
    }
    proof {
        assert(s@ =~= edge_block(cuts@, *e, cs@));
    }
    s
}

/// A violation as `check` prints it: the header, then each participating
/// dependency; where a cut is suggested, only the cut dependencies show
/// their observations. `confidences[i][j]` is how the confidence of the
/// `j`-th observation of the `i`-th dependency is written.
pub fn violation_text(v: &Violation, confidences: &Vec<Vec<Option<String>>>) -> (r: String)
    requires
        confidences_fit(v.architecture_edges@, confidences@),
    ensures
        r@ == violation_text_spec(*v, confidences@),
{
    let mut s = violation_header(v);
    if v.suggested_cuts.len() > 0 {
        push_str(&mut s, "  Evidence for the cut; other cycle edges are summarized:\n");
    }
    let ghost start = s@;
    let mut i: usize = 0;
    while i < v.architecture_edges.len()
        invariant
            i <= v.architecture_edges@.len(),
            confidences_fit(v.architecture_edges@, confidences@),
            s@ == start + edge_blocks(v.suggested_cuts@, v.architecture_edges@, confidences@, i as nat),
        decreases v.architecture_edges@.len() - i,
    {
        proof {
            assert(confidences@[i as int]@.len() == v.architecture_edges@[i as int].evidence@.len());
            assert forall|j: int| 0 <= j < v.architecture_edges@[i as int].evidence@.len() implies
                (#[trigger] confidences@[i as int]@[j] is Some <==> #[trigger] v.architecture_edges@[i as int].evidence@[j].confidence is Some) by {}
        }
        let block = edge_text(&v.suggested_cuts, &v.architecture_edges[i], &confidences[i]);
        push_str(&mut s, block.as_str());
        proof {
            assert(s@ =~= start + edge_blocks(v.suggested_cuts@, v.architecture_edges@, confidences@, (i + 1) as nat));
        }
        i = i + 1;
    }
    s
}

/// At most this many new observations are listed per violation.
pub const SHOWN: usize = 50;

/// The first `n` new observations, one line each.
pub open spec fn entry_lines(entries: Seq<BaselineEntry>, n: nat) -> Seq<char>
    decreases n,
{
    if n == 0 {
        Seq::empty()
    } else {
        let e = entries[n - 1];
        entry_lines(entries, (n - 1) as nat) + "    "@ + e.from_file@ + " -> "@ + e.to_file@ + " ["@ + e.kind@ + "]\n"@
    }
}

/// A violation with a baseline: the header and the observations new since
/// the baseline, at most `SHOWN` of them, with how many more there are.
pub open spec fn new_observations_spec(v: Violation, entries: Seq<BaselineEntry>) -> Seq<char> {
    let shown = if entries.len() < SHOWN { entries.len() } else { SHOWN as nat };
    header_spec(v) + "  New since baseline ("@ + decimal_spec(entries.len()) + "):\n"@ + entry_lines(entries, shown)
        + if entries.len() > SHOWN {
        "    ... and "@ + decimal_spec((entries.len() - SHOWN) as nat) + " more (use --json)\n"@
    } else {
        Seq::empty()
    }
}

pub fn new_observations_text(v: &Violation, entries: &Vec<BaselineEntry>) -> (r: String)
    ensures
        r@ == new_observations_spec(*v, entries@),
{
    let mut s = violation_header(v);
    push_str(&mut s, "  New since baseline (");
    let n = decimal(entries.len() as u128);
    push_str(&mut s, n.as_str());
    push_str(&mut s, "):\n");
    let ghost start = s@;
    let shown = if entries.len() < SHOWN { entries.len() } else { SHOWN };
    let mut i: usize = 0;
    while i < shown
        invariant
            i <= shown,
            shown <= entries@.len(),
            s@ == start + entry_lines(entries@, i as nat),
        decreases shown - i,
    {
        let e = &entries[i];
        push_str(&mut s, "    ");
        push_str(&mut s, e.from_file.as_str());
        push_str(&mut s, " -> ");
        push_str(&mut s, e.to_file.as_str());
        push_str(&mut s, " [");
        push_str(&mut s, e.kind.as_str());
        push_str(&mut s, "]\n");
        proof {
            assert(s@ =~= start + entry_lines(entries@, (i + 1) as nat));
        }
        i = i + 1;
    }
    if entries.len() > SHOWN {
        push_str(&mut s, "    ... and ");
        let m = decimal((entries.len() - SHOWN) as u128);
        push_str(&mut s, m.as_str());
        push_str(&mut s, " more (use --json)\n");
    }
    proof {
        assert(s@ =~= new_observations_spec(*v, entries@));
    }
    s
}

} // verus!
