//! Text that goes into Mermaid diagrams.
use vstd::prelude::*;
use crate::text::{cat2, chars_of, decimal, decimal_spec, str_eq, string_of};
use crate::model::EdgeOrigin;
use crate::projection::{has_entry, Projection, ProjectionEdge, ProjectionNode};

verus! {

/// Characters a Mermaid label may hold as they are.
pub open spec fn label_safe(c: char) -> bool {
    ('a' <= c && c <= 'z') || ('A' <= c && c <= 'Z') || ('0' <= c && c <= '9') || c == ' ' || c
        == '_' || c == '.' || c == '-' || c == '/'
}

/// One character of a label: itself when safe, else Mermaid's `#NN;` escape
/// with its code point in decimal.
pub open spec fn label_piece(c: char) -> Seq<char> {
    if label_safe(c) {
        seq![c]
    } else {
        seq!['#'] + decimal_spec(c as u32 as nat) + seq![';']
    }
}

pub open spec fn label_spec(s: Seq<char>) -> Seq<char>
    decreases s.len(),
{
    if s.len() == 0 {
        Seq::<char>::empty()
    } else {
        label_spec(s.drop_last()) + label_piece(s.last())
    }
}

fn label_safe_exec(c: char) -> (r: bool)
    ensures
        r == label_safe(c),
{
    ('a' <= c && c <= 'z') || ('A' <= c && c <= 'Z') || ('0' <= c && c <= '9') || c == ' ' || c
        == '_' || c == '.' || c == '-' || c == '/'
}

/// `value` with everything but letters, digits, space, `_`, `.`, `-` and `/`
/// escaped, so no label can break out of its quotes.
pub fn label(value: &str) -> (r: String)
    ensures
        r@ == label_spec(value@),
{
    let chars = chars_of(value);
    let mut out: Vec<char> = Vec::new();
    let mut i: usize = 0;
    while i < chars.len()
        invariant
            i <= chars@.len(),
            chars@ == value@,
            out@ == label_spec(value@.take(i as int)),
        decreases chars@.len() - i,
    {
        let c = chars[i];
        proof {
            assert(value@.take(i + 1).drop_last() =~= value@.take(i as int));
            assert(value@.take(i + 1).last() == c);
        }
        if label_safe_exec(c) {
            out.push(c);
            proof {
                assert(out@ =~= label_spec(value@.take(i + 1)));
            }
        } else {
            let ghost before = out@;
            out.push('#');
            let digits = decimal(c as u32 as u128);
            let dc = chars_of(digits.as_str());
            let mut k: usize = 0;
            while k < dc.len()
                invariant
                    k <= dc@.len(),
                    out@ == before + seq!['#'] + dc@.take(k as int),
                decreases dc@.len() - k,
            {
                out.push(dc[k]);
                proof {
                    assert(out@ =~= before + seq!['#'] + dc@.take(k + 1));
                }
                k = k + 1;
            }
            out.push(';');
            proof {
                assert(dc@.take(dc@.len() as int) =~= dc@);
                assert(out@ =~= before + label_piece(c));
            }
        }
        i = i + 1;
    }
    proof {
        assert(value@.take(chars@.len() as int) =~= value@);
    }
    string_of(out.as_slice())
}

/// No escaped label holds a character that Mermaid's grammar gives meaning
/// to: every character of it is safe, `#` or `;`.
pub proof fn lemma_label_harmless(s: Seq<char>)
    ensures
        forall|i: int| 0 <= i < label_spec(s).len() ==> {
            let c = #[trigger] label_spec(s)[i];
            label_safe(c) || c == '#' || c == ';'
        },
    decreases s.len(),
{
    if s.len() > 0 {
        lemma_label_harmless(s.drop_last());
        let p = label_piece(s.last());
        let prev = label_spec(s.drop_last());
        assert forall|i: int| 0 <= i < label_spec(s).len() implies {
            let c = #[trigger] label_spec(s)[i];
            label_safe(c) || c == '#' || c == ';'
        } by {
            if i < prev.len() {
                assert(label_spec(s)[i] == prev[i]);
            } else {
                let k = i - prev.len();
                assert(label_spec(s)[i] == p[k]);
                if !label_safe(s.last()) {
                    let d = decimal_spec(s.last() as u32 as nat);
                    if 0 < k < p.len() - 1 {
                        assert(p[k] == d[k - 1]);
                        lemma_decimal_digits(s.last() as u32 as nat);
                    }
                }
            }
        }
    }
}

/// Decimal digits are `0` to `9`.
pub proof fn lemma_decimal_digits(n: nat)
    ensures
        forall|i: int| 0 <= i < decimal_spec(n).len() ==> '0' <= #[trigger] decimal_spec(n)[i] <= '9',
    decreases n,
{
    if n >= 10 {
        lemma_decimal_digits(n / 10);
        let prev = decimal_spec(n / 10);
        assert forall|i: int| 0 <= i < decimal_spec(n).len() implies '0' <= #[trigger] decimal_spec(n)[i] <= '9' by {
            if i < prev.len() {
                assert(decimal_spec(n)[i] == prev[i]);
            }
        }
    }
}

/// The last position of an entry with the identity, or -1.
pub open spec fn last_index(nodes: Seq<ProjectionNode>, id: Seq<char>) -> int
    decreases nodes.len(),
{
    if nodes.len() == 0 {
        -1
    } else if nodes.last().id@ == id {
        nodes.len() - 1
    } else {
        last_index(nodes.drop_last(), id)
    }
}

/// The diagram name of an entry: `n` and its position.
pub open spec fn node_name(nodes: Seq<ProjectionNode>, id: Seq<char>) -> Seq<char> {
    "n"@ + decimal_spec(last_index(nodes, id) as nat)
}

pub open spec fn node_title(n: ProjectionNode) -> Seq<char> {
    n.title@ + (if n.outside_focus { " (outside)"@ } else { Seq::empty() })
        + (if n.violation_rule_ids@.len() == 0 { Seq::empty() } else { " [VIOLATION]"@ })
}

pub open spec fn node_decl(nodes: Seq<ProjectionNode>, n: ProjectionNode) -> Seq<char> {
    "  "@ + node_name(nodes, n.id@) + "[\""@ + label_spec(node_title(n)) + "\"]\n"@
}

pub open spec fn node_decls(nodes: Seq<ProjectionNode>, s: Seq<ProjectionNode>) -> Seq<char>
    decreases s.len(),
{
    if s.len() == 0 {
        Seq::empty()
    } else {
        node_decls(nodes, s.drop_last()) + node_decl(nodes, s.last())
    }
}

pub open spec fn edge_label(pe: ProjectionEdge) -> Seq<char> {
    pe.edge.kind@ + " × "@ + decimal_spec(pe.edge.count as nat)
        + (if pe.edge.origin == EdgeOrigin::Manual { " manual"@ } else { Seq::empty() })
        + (if pe.violation_rule_ids@.len() == 0 { Seq::empty() } else { " VIOLATION"@ })
}

pub open spec fn edge_decl(nodes: Seq<ProjectionNode>, pe: ProjectionEdge) -> Seq<char> {
    "  "@ + node_name(nodes, pe.edge.from@) + " "@
        + (if pe.edge.origin == EdgeOrigin::Manual { "-.->"@ } else { "-->"@ })
        + "|\""@ + label_spec(edge_label(pe)) + "\"| "@ + node_name(nodes, pe.edge.to@) + "\n"@
}

pub open spec fn edge_decls(nodes: Seq<ProjectionNode>, s: Seq<ProjectionEdge>) -> Seq<char>
    decreases s.len(),
{
    if s.len() == 0 {
        Seq::empty()
    } else {
        edge_decls(nodes, s.drop_last()) + edge_decl(nodes, s.last())
    }
}

/// The Mermaid flowchart of a projection: a box per entry, named by its
/// position, and an arrow per dependency, dotted for manual ones.
pub open spec fn mermaid_spec(p: Projection) -> Seq<char> {
    "flowchart LR\n"@ + node_decls(p.nodes@, p.nodes@) + edge_decls(p.nodes@, p.edges@)
}

proof fn lemma_last_index(nodes: Seq<ProjectionNode>, id: Seq<char>)
    ensures
        has_entry(nodes, id) ==> 0 <= last_index(nodes, id) < nodes.len() && nodes[last_index(nodes, id)].id@ == id,
    decreases nodes.len(),
{
    if nodes.len() > 0 && nodes.last().id@ != id {
        lemma_last_index(nodes.drop_last(), id);
        if has_entry(nodes, id) {
            let j = choose|j: int| 0 <= j < nodes.len() && (#[trigger] nodes[j]).id@ == id;
            assert(j != nodes.len() - 1);
            assert(nodes.drop_last()[j] == nodes[j]);
        }
    }
}

fn entry_name(nodes: &Vec<ProjectionNode>, id: &str) -> (r: String)
    requires
        has_entry(nodes@, id@),
    ensures
        r@ == node_name(nodes@, id@),
{
    let mut k = nodes.len();
    proof {
        assert(nodes@.take(k as int) =~= nodes@);
    }
    while k > 0 && !str_eq(nodes[k - 1].id.as_str(), id)
        invariant
            k <= nodes@.len(),
            last_index(nodes@, id@) == last_index(nodes@.take(k as int), id@),
        decreases k,
    {
        proof {
            assert(nodes@.take(k as int).drop_last() =~= nodes@.take(k - 1));
        }
        k = k - 1;
    }
    proof {
        lemma_last_index(nodes@, id@);
        if k == 0 {
            assert(nodes@.take(0) =~= Seq::<ProjectionNode>::empty());
        }
        assert(nodes@.take(k as int).last() == nodes@[k - 1]);
    }
    let digits = decimal((k - 1) as u128);
    cat2("n", digits.as_str())
}

fn node_line(nodes: &Vec<ProjectionNode>, n: &ProjectionNode) -> (r: String)
    requires
        has_entry(nodes@, n.id@),
    ensures
        r@ == node_decl(nodes@, *n),
{
    let mut title = n.title.clone();
    let ghost a = title@;
    if n.outside_focus {
        title.append(" (outside)");
    }
    let ghost b = title@;
    proof {
        assert(b =~= a + (if n.outside_focus { " (outside)"@ } else { Seq::<char>::empty() }));
    }
    if n.violation_rule_ids.len() > 0 {
        title.append(" [VIOLATION]");
    }
    proof {
        assert(title@ =~= node_title(*n));
    }
    let mut out = String::new();
    out.append("  ");
    let name = entry_name(nodes, n.id.as_str());
    out.append(name.as_str());
    out.append("[\"");
    let escaped = label(title.as_str());
    out.append(escaped.as_str());
    out.append("\"]\n");
    proof {
        assert(out@ =~= node_decl(nodes@, *n));
    }
    out
}

fn edge_line(nodes: &Vec<ProjectionNode>, pe: &ProjectionEdge) -> (r: String)
    requires
        has_entry(nodes@, pe.edge.from@),
        has_entry(nodes@, pe.edge.to@),
    ensures
        r@ == edge_decl(nodes@, *pe),
{
    let mut text = pe.edge.kind.clone();
    text.append(" × ");
    let count = decimal(pe.edge.count as u128);
    text.append(count.as_str());
    let ghost a = text@;
    if pe.edge.origin == EdgeOrigin::Manual {
        text.append(" manual");
    }
    let ghost b = text@;
    proof {
        assert(b =~= a + (if pe.edge.origin == EdgeOrigin::Manual { " manual"@ } else { Seq::<char>::empty() }));
    }
    if pe.violation_rule_ids.len() > 0 {
        text.append(" VIOLATION");
    }
    proof {
        assert(text@ =~= edge_label(*pe));
    }
    let mut out = String::new();
    out.append("  ");
    let from = entry_name(nodes, pe.edge.from.as_str());
    out.append(from.as_str());
    out.append(" ");
    let ghost c = out@;
    if pe.edge.origin == EdgeOrigin::Manual {
        out.append("-.->");
    } else {
        out.append("-->");
    }
    proof {
        assert(out@ =~= c + (if pe.edge.origin == EdgeOrigin::Manual { "-.->"@ } else { "-->"@ }));
    }
    out.append("|\"");
    let escaped = label(text.as_str());
    out.append(escaped.as_str());
    out.append("\"| ");
    let to = entry_name(nodes, pe.edge.to.as_str());
    out.append(to.as_str());
    out.append("\n");
    proof {
        assert(out@ =~= edge_decl(nodes@, *pe));
    }
    out
}

/// The Mermaid flowchart of a projection. Every dependency's ends are
/// entries of the projection.
pub fn render(projection: &Projection) -> (r: String)
    requires
        forall|i: int| 0 <= i < projection.edges@.len() ==> has_entry(projection.nodes@, (#[trigger] projection.edges@[i]).edge.from@)
            && has_entry(projection.nodes@, projection.edges@[i].edge.to@),
    ensures
        r@ == mermaid_spec(*projection),
{
    let p = projection;
    let mut out = String::new();
    out.append("flowchart LR\n");
    let ghost head = out@;
    let mut i: usize = 0;
    proof {
        assert(p.nodes@.take(0) =~= Seq::<ProjectionNode>::empty());
        assert(head + node_decls(p.nodes@, p.nodes@.take(0)) =~= head);
    }
    while i < p.nodes.len()
        invariant
            i <= p.nodes@.len(),
            out@ == head + node_decls(p.nodes@, p.nodes@.take(i as int)),
        decreases p.nodes@.len() - i,
    {
        let ghost before = out@;
        proof {
            assert(p.nodes@[i as int].id@ == p.nodes@[i as int].id@);
            assert(has_entry(p.nodes@, p.nodes@[i as int].id@));
        }
        let line = node_line(&p.nodes, &p.nodes[i]);
        out.append(line.as_str());
        proof {
            assert(p.nodes@.take(i + 1).drop_last() =~= p.nodes@.take(i as int));
            assert(p.nodes@.take(i + 1).last() == p.nodes@[i as int]);
            assert(out@ =~= before + node_decl(p.nodes@, p.nodes@[i as int]));
        }
        i = i + 1;
    }
    proof {
        assert(p.nodes@.take(p.nodes@.len() as int) =~= p.nodes@);
    }
    let ghost mid = out@;
    let mut i: usize = 0;
    proof {
        assert(p.edges@.take(0) =~= Seq::<ProjectionEdge>::empty());
        assert(mid + edge_decls(p.nodes@, p.edges@.take(0)) =~= mid);
    }
    while i < p.edges.len()
        invariant
            i <= p.edges@.len(),
            out@ == mid + edge_decls(p.nodes@, p.edges@.take(i as int)),
            forall|j: int| 0 <= j < p.edges@.len() ==> has_entry(p.nodes@, (#[trigger] p.edges@[j]).edge.from@)
                && has_entry(p.nodes@, p.edges@[j].edge.to@),
        decreases p.edges@.len() - i,
    {
        let ghost before = out@;
        proof {
            assert(has_entry(p.nodes@, p.edges@[i as int].edge.from@));
        }
        let line = edge_line(&p.nodes, &p.edges[i]);
        out.append(line.as_str());
        proof {
            assert(p.edges@.take(i + 1).drop_last() =~= p.edges@.take(i as int));
            assert(p.edges@.take(i + 1).last() == p.edges@[i as int]);
            assert(out@ =~= before + edge_decl(p.nodes@, p.edges@[i as int]));
        }
        i = i + 1;
    }
    proof {
        assert(p.edges@.take(p.edges@.len() as int) =~= p.edges@);
        assert(out@ =~= mermaid_spec(*p));
    }
    out
}

} // verus!
