//! What changed since a snapshot, as text.
use vstd::prelude::*;
use crate::baseline::BaselineEntry;
use crate::snapshot::{DependencyChange, Diff, FileChange, FileMove, Reassignment};
use crate::text::{cat, cat2, cat3, cat4, cat5, decimal, decimal_spec, opt_view, views};

verus! {

/// Beyond this many lines a section lists its first ones and a count.
pub const SECTION_LIMIT: usize = 50;

/// A node's name in a line, or that the file has none.
pub open spec fn node_text(node: Option<String>) -> Seq<char> {
    match node {
        Some(n) => n@,
        None => "(unassigned)"@,
    }
}

/// `lines`, each indented and ended.
pub open spec fn indented(lines: Seq<Seq<char>>) -> Seq<char>
    decreases lines.len(),
{
    if lines.len() == 0 {
        Seq::empty()
    } else {
        indented(lines.drop_last()) + "  "@ + lines.last() + "\n"@
    }
}

/// A titled section with its count and at most `SECTION_LIMIT` lines;
/// nothing for no lines.
pub open spec fn section_text(title: Seq<char>, lines: Seq<Seq<char>>) -> Seq<char> {
    if lines.len() == 0 {
        Seq::empty()
    } else {
        let shown = if lines.len() <= SECTION_LIMIT { lines } else { lines.take(SECTION_LIMIT as int) };
        let more = if lines.len() <= SECTION_LIMIT {
            Seq::empty()
        } else {
            "  … and "@ + decimal_spec((lines.len() - SECTION_LIMIT) as nat) + " more (--json lists all)\n"@
        };
        "\n"@ + title + " ("@ + decimal_spec(lines.len()) + "):\n"@ + indented(shown) + more
    }
}

pub open spec fn observation_line(e: BaselineEntry) -> Seq<char> {
    "["@ + e.rule_id@ + "] "@ + e.from_file@ + " -> "@ + e.to_file@ + " ["@ + e.kind@ + "]"@
}

pub open spec fn change_line(c: DependencyChange) -> Seq<char> {
    c.from_file@ + " -> "@ + c.to_file@ + " ["@ + c.kind@ + "]  ("@ + c.from_node@ + " -> "@ + c.to_node@ + ")"@
}

pub open spec fn move_line(m: FileMove) -> Seq<char> {
    if opt_view(m.node_before) == opt_view(m.node_after) {
        m.from@ + " -> "@ + m.to@ + "  ("@ + node_text(m.node_after) + ")"@
    } else {
        m.from@ + " -> "@ + m.to@ + "  ("@ + node_text(m.node_before) + " -> "@ + node_text(m.node_after) + ")"@
    }
}

pub open spec fn reassignment_line(r: Reassignment) -> Seq<char> {
    r.path@ + "  ("@ + node_text(r.node_before) + " -> "@ + node_text(r.node_after) + ")"@
}

pub open spec fn file_line(f: FileChange) -> Seq<char> {
    f.path@ + "  ("@ + node_text(f.node) + ")"@
}

/// The first twelve characters of a commit.
pub open spec fn short_commit(c: Seq<char>) -> Seq<char> {
    if c.len() <= 12 {
        c
    } else {
        c.take(12)
    }
}

pub open spec fn diff_header(d: Diff) -> Seq<char> {
    let commit = match d.commit {
        Some(c) => " (taken at "@ + short_commit(c@) + ")"@,
        None => Seq::empty(),
    };
    let scope = match d.scope {
        Some(s) => " in "@ + s@,
        None => Seq::empty(),
    };
    "Changes since snapshot `"@ + d.snapshot@ + "`"@ + commit + scope + "\n"@
}

pub open spec fn diff_counts(d: Diff) -> Seq<char> {
    "  violations: +"@ + decimal_spec(d.violations_appeared@.len()) + " / -"@ + decimal_spec(d.violations_resolved@.len())
        + " observation(s)\n  dependencies: +"@ + decimal_spec(d.dependencies_added@.len()) + " / -"@
        + decimal_spec(d.dependencies_removed@.len()) + "\n  files: +"@ + decimal_spec(d.files_added@.len()) + " / -"@
        + decimal_spec(d.files_removed@.len()) + ", "@ + decimal_spec(d.files_moved@.len()) + " moved, "@
        + decimal_spec(d.files_reassigned@.len()) + " reassigned\n"@
}

pub open spec fn diff_is_empty(d: Diff) -> bool {
    d.files_added@.len() == 0 && d.files_removed@.len() == 0 && d.files_moved@.len() == 0
        && d.files_reassigned@.len() == 0 && d.dependencies_added@.len() == 0 && d.dependencies_removed@.len() == 0
        && d.violations_appeared@.len() == 0 && d.violations_resolved@.len() == 0
}

/// The report of a diff.
pub open spec fn diff_text(d: Diff) -> Seq<char> {
    if diff_is_empty(d) {
        diff_header(d) + "\nNo changes: the same files, dependencies and violations.\n"@
    } else {
        diff_header(d) + diff_counts(d)
            + section_text("New violation observations"@, d.violations_appeared@.map_values(|e: BaselineEntry| observation_line(e)))
            + section_text("Resolved violation observations"@, d.violations_resolved@.map_values(|e: BaselineEntry| observation_line(e)))
            + section_text("Dependencies added"@, d.dependencies_added@.map_values(|c: DependencyChange| change_line(c)))
            + section_text("Dependencies removed"@, d.dependencies_removed@.map_values(|c: DependencyChange| change_line(c)))
            + section_text("Files moved"@, d.files_moved@.map_values(|m: FileMove| move_line(m)))
            + section_text("Files reassigned by the architecture"@, d.files_reassigned@.map_values(|r: Reassignment| reassignment_line(r)))
            + section_text("Files added"@, d.files_added@.map_values(|f: FileChange| file_line(f)))
            + section_text("Files removed"@, d.files_removed@.map_values(|f: FileChange| file_line(f)))
    }
}

fn node(owner: &Option<String>) -> (r: &str)
    ensures
        r@ == node_text(*owner),
{
    match owner {
        Some(n) => n.as_str(),
        None => "(unassigned)",
    }
}

/// Appends the section of `lines` under `title`.
fn section(out: &mut String, title: &str, lines: &Vec<String>)
    ensures
        final(out)@ == old(out)@ + section_text(title@, views(lines@)),
{
    if lines.len() == 0 {
        proof {
            assert(old(out)@ + section_text(title@, views(lines@)) =~= old(out)@);
        }
        return;
    }
    let ghost start = out@;
    let count = decimal(lines.len() as u128);
    let head = cat5("\n", title, " (", count.as_str(), "):\n");
    out.append(head.as_str());
    let ghost ls = views(lines@);
    let ghost shown = if ls.len() <= SECTION_LIMIT { ls } else { ls.take(SECTION_LIMIT as int) };
    let limit = if lines.len() <= SECTION_LIMIT { lines.len() } else { SECTION_LIMIT };
    let mut i: usize = 0;
    proof {
        assert(shown.take(0) =~= Seq::<Seq<char>>::empty());
    }
    while i < limit
        invariant
            i <= limit,
            limit == shown.len(),
            shown.len() <= ls.len(),
            ls == views(lines@),
            forall|k: int| 0 <= k < shown.len() ==> shown[k] == ls[k],
            out@ == start + head@ + indented(shown.take(i as int)),
        decreases limit - i,
    {
        let line = cat3("  ", lines[i].as_str(), "\n");
        out.append(line.as_str());
        proof {
            assert(shown.take(i + 1).drop_last() =~= shown.take(i as int));
            assert(shown.take(i + 1).last() == ls[i as int]);
        }
        i = i + 1;
    }
    proof {
        assert(shown.take(limit as int) =~= shown);
    }
    if lines.len() > SECTION_LIMIT {
        let rest = decimal((lines.len() - SECTION_LIMIT) as u128);
        let note = cat3("  … and ", rest.as_str(), " more (--json lists all)\n");
        out.append(note.as_str());
    }
    proof {
        assert(out@ =~= start + section_text(title@, ls));
    }
}

fn observation_lines(entries: &Vec<BaselineEntry>) -> (r: Vec<String>)
    ensures
        views(r@) == entries@.map_values(|e: BaselineEntry| observation_line(e)),
{
    let mut out: Vec<String> = Vec::new();
    let mut i: usize = 0;
    while i < entries.len()
        invariant
            i <= entries@.len(),
            views(out@) == entries@.take(i as int).map_values(|e: BaselineEntry| observation_line(e)),
        decreases entries@.len() - i,
    {
        let e = &entries[i];
        let head = cat5("[", e.rule_id.as_str(), "] ", e.from_file.as_str(), " -> ");
        let line = cat5(head.as_str(), e.to_file.as_str(), " [", e.kind.as_str(), "]");
        let ghost before = views(out@);
        out.push(line);
        proof {
            assert(line@ =~= observation_line(*e));
            assert(views(out@) =~= before.push(line@));
            assert(entries@.take(i + 1).map_values(|e: BaselineEntry| observation_line(e))
                =~= entries@.take(i as int).map_values(|e: BaselineEntry| observation_line(e)).push(observation_line(entries@[i as int])));
        }
        i = i + 1;
    }
    proof {
        assert(entries@.take(entries@.len() as int) =~= entries@);
    }
    out
}

fn change_lines(changes: &Vec<DependencyChange>) -> (r: Vec<String>)
    ensures
        views(r@) == changes@.map_values(|c: DependencyChange| change_line(c)),
{
    let mut out: Vec<String> = Vec::new();
    let mut i: usize = 0;
    while i < changes.len()
        invariant
            i <= changes@.len(),
            views(out@) == changes@.take(i as int).map_values(|c: DependencyChange| change_line(c)),
        decreases changes@.len() - i,
    {
        let c = &changes[i];
        let head = cat5(c.from_file.as_str(), " -> ", c.to_file.as_str(), " [", c.kind.as_str());
        let line = cat5(head.as_str(), "]  (", c.from_node.as_str(), " -> ", c.to_node.as_str());
        let line = cat2(line.as_str(), ")");
        let ghost before = views(out@);
        out.push(line);
        proof {
            assert(line@ =~= change_line(*c));
            assert(views(out@) =~= before.push(line@));
            assert(changes@.take(i + 1).map_values(|c: DependencyChange| change_line(c))
                =~= changes@.take(i as int).map_values(|c: DependencyChange| change_line(c)).push(change_line(changes@[i as int])));
        }
        i = i + 1;
    }
    proof {
        assert(changes@.take(changes@.len() as int) =~= changes@);
    }
    out
}

fn move_lines(moves: &Vec<FileMove>) -> (r: Vec<String>)
    ensures
        views(r@) == moves@.map_values(|m: FileMove| move_line(m)),
{
    let mut out: Vec<String> = Vec::new();
    let mut i: usize = 0;
    while i < moves.len()
        invariant
            i <= moves@.len(),
            views(out@) == moves@.take(i as int).map_values(|m: FileMove| move_line(m)),
        decreases moves@.len() - i,
    {
        let m = &moves[i];
        let same = match (&m.node_before, &m.node_after) {
            (None, None) => true,
            (Some(a), Some(b)) => crate::text::str_eq(a.as_str(), b.as_str()),
            _ => false,
        };
        let head = cat4(m.from.as_str(), " -> ", m.to.as_str(), "  (");
        let line = if same {
            cat3(head.as_str(), node(&m.node_after), ")")
        } else {
            cat5(head.as_str(), node(&m.node_before), " -> ", node(&m.node_after), ")")
        };
        let ghost before = views(out@);
        out.push(line);
        proof {
            assert(same == (opt_view(m.node_before) == opt_view(m.node_after)));
            assert(line@ =~= move_line(*m));
            assert(views(out@) =~= before.push(line@));
            assert(moves@.take(i + 1).map_values(|m: FileMove| move_line(m))
                =~= moves@.take(i as int).map_values(|m: FileMove| move_line(m)).push(move_line(moves@[i as int])));
        }
        i = i + 1;
    }
    proof {
        assert(moves@.take(moves@.len() as int) =~= moves@);
    }
    out
}

fn reassignment_lines(items: &Vec<Reassignment>) -> (r: Vec<String>)
    ensures
        views(r@) == items@.map_values(|x: Reassignment| reassignment_line(x)),
{
    let mut out: Vec<String> = Vec::new();
    let mut i: usize = 0;
    while i < items.len()
        invariant
            i <= items@.len(),
            views(out@) == items@.take(i as int).map_values(|x: Reassignment| reassignment_line(x)),
        decreases items@.len() - i,
    {
        let x = &items[i];
        let line = cat5(x.path.as_str(), "  (", node(&x.node_before), " -> ", node(&x.node_after));
        let line = cat2(line.as_str(), ")");
        let ghost before = views(out@);
        out.push(line);
        proof {
            assert(line@ =~= reassignment_line(*x));
            assert(views(out@) =~= before.push(line@));
            assert(items@.take(i + 1).map_values(|x: Reassignment| reassignment_line(x))
                =~= items@.take(i as int).map_values(|x: Reassignment| reassignment_line(x)).push(reassignment_line(items@[i as int])));
        }
        i = i + 1;
    }
    proof {
        assert(items@.take(items@.len() as int) =~= items@);
    }
    out
}

fn file_lines(items: &Vec<FileChange>) -> (r: Vec<String>)
    ensures
        views(r@) == items@.map_values(|f: FileChange| file_line(f)),
{
    let mut out: Vec<String> = Vec::new();
    let mut i: usize = 0;
    while i < items.len()
        invariant
            i <= items@.len(),
            views(out@) == items@.take(i as int).map_values(|f: FileChange| file_line(f)),
        decreases items@.len() - i,
    {
        let f = &items[i];
        let line = cat4(f.path.as_str(), "  (", node(&f.node), ")");
        let ghost before = views(out@);
        out.push(line);
        proof {
            assert(line@ =~= file_line(*f));
            assert(views(out@) =~= before.push(line@));
            assert(items@.take(i + 1).map_values(|f: FileChange| file_line(f))
                =~= items@.take(i as int).map_values(|f: FileChange| file_line(f)).push(file_line(items@[i as int])));
        }
        i = i + 1;
    }
    proof {
        assert(items@.take(items@.len() as int) =~= items@);
    }
    out
}

fn first_chars(s: &str, n: usize) -> (r: String)
    ensures
        r@ == if s@.len() <= n { s@ } else { s@.take(n as int) },
{
    let chars = crate::text::chars_of(s);
    if chars.len() <= n {
        return String::from_str(s);
    }
    let cut = crate::text::slice_chars(chars.as_slice(), 0, n);
    let r = crate::text::string_of(cut.as_slice());
    proof {
        assert(r@ =~= s@.take(n as int));
    }
    r
}

fn header(diff: &Diff) -> (r: String)
    ensures
        r@ == diff_header(*diff),
{
    let commit = match &diff.commit {
        Some(c) => {
            let short = first_chars(c.as_str(), 12);
            cat3(" (taken at ", short.as_str(), ")")
        },
        None => String::new(),
    };
    let scope = match &diff.scope {
        Some(s) => cat2(" in ", s.as_str()),
        None => String::new(),
    };
    let mut out = cat5("Changes since snapshot `", diff.snapshot.as_str(), "`", commit.as_str(), scope.as_str());
    out.append("\n");
    proof {
        assert(out@ =~= diff_header(*diff));
    }
    out
}

fn counts(diff: &Diff) -> (r: String)
    ensures
        r@ == diff_counts(*diff),
{
    let a = decimal(diff.violations_appeared.len() as u128);
    let b = decimal(diff.violations_resolved.len() as u128);
    let c = decimal(diff.dependencies_added.len() as u128);
    let d = decimal(diff.dependencies_removed.len() as u128);
    let e = decimal(diff.files_added.len() as u128);
    let f = decimal(diff.files_removed.len() as u128);
    let g = decimal(diff.files_moved.len() as u128);
    let h = decimal(diff.files_reassigned.len() as u128);
    let line1 = cat5("  violations: +", a.as_str(), " / -", b.as_str(), " observation(s)\n  dependencies: +");
    let line2 = cat5(c.as_str(), " / -", d.as_str(), "\n  files: +", e.as_str());
    let line3 = cat5(" / -", f.as_str(), ", ", g.as_str(), " moved, ");
    let line4 = cat2(h.as_str(), " reassigned\n");
    let r = cat4(line1.as_str(), line2.as_str(), line3.as_str(), line4.as_str());
    proof {
        assert(r@ =~= diff_counts(*diff));
    }
    r
}

/// The report of what changed since a snapshot.
pub fn render(diff: &Diff) -> (r: String)
    ensures
        r@ == diff_text(*diff),
{
    let mut out = header(diff);
    if diff.is_empty() {
        out.append("\nNo changes: the same files, dependencies and violations.\n");
        return out;
    }
    let c = counts(diff);
    out.append(c.as_str());
    section(&mut out, "New violation observations", &observation_lines(&diff.violations_appeared));
    section(&mut out, "Resolved violation observations", &observation_lines(&diff.violations_resolved));
    section(&mut out, "Dependencies added", &change_lines(&diff.dependencies_added));
    section(&mut out, "Dependencies removed", &change_lines(&diff.dependencies_removed));
    section(&mut out, "Files moved", &move_lines(&diff.files_moved));
    section(&mut out, "Files reassigned by the architecture", &reassignment_lines(&diff.files_reassigned));
    section(&mut out, "Files added", &file_lines(&diff.files_added));
    section(&mut out, "Files removed", &file_lines(&diff.files_removed));
    out
}


/// The report of a diff with changes opens with its header and then counts
/// what changed: observations behind violations that appeared and that
/// were resolved, dependencies added and removed, and files added,
/// removed, moved and reassigned, each the length of its list.
pub proof fn lemma_diff_counts_line(d: Diff)
    requires
        !diff_is_empty(d),
    ensures
        ({
            let line = "  violations: +"@ + decimal_spec(d.violations_appeared@.len()) + " / -"@
                + decimal_spec(d.violations_resolved@.len()) + " observation(s)\n  dependencies: +"@
                + decimal_spec(d.dependencies_added@.len()) + " / -"@ + decimal_spec(d.dependencies_removed@.len())
                + "\n  files: +"@ + decimal_spec(d.files_added@.len()) + " / -"@ + decimal_spec(d.files_removed@.len()) + ", "@
                + decimal_spec(d.files_moved@.len()) + " moved, "@ + decimal_spec(d.files_reassigned@.len()) + " reassigned\n"@;
            let head = diff_header(d) + line;
            &&& head.len() <= diff_text(d).len()
            &&& diff_text(d).take(head.len() as int) == head
        }),
{
    let line = "  violations: +"@ + decimal_spec(d.violations_appeared@.len()) + " / -"@
        + decimal_spec(d.violations_resolved@.len()) + " observation(s)\n  dependencies: +"@
        + decimal_spec(d.dependencies_added@.len()) + " / -"@ + decimal_spec(d.dependencies_removed@.len())
        + "\n  files: +"@ + decimal_spec(d.files_added@.len()) + " / -"@ + decimal_spec(d.files_removed@.len()) + ", "@
        + decimal_spec(d.files_moved@.len()) + " moved, "@ + decimal_spec(d.files_reassigned@.len()) + " reassigned\n"@;
    let head = diff_header(d) + line;
    let t = diff_text(d);
    let rest = t.skip(head.len() as int);
    assert(line == diff_counts(d));
    assert(t.take(head.len() as int) =~= head);
}

/// The report of a diff without changes is its header and the sentence
/// that nothing changed.
pub proof fn lemma_diff_no_changes(d: Diff)
    requires
        d.files_added@.len() == 0 && d.files_removed@.len() == 0 && d.files_moved@.len() == 0
            && d.files_reassigned@.len() == 0 && d.dependencies_added@.len() == 0 && d.dependencies_removed@.len() == 0
            && d.violations_appeared@.len() == 0 && d.violations_resolved@.len() == 0,
    ensures
        diff_text(d) == diff_header(d) + "\nNo changes: the same files, dependencies and violations.\n"@,
{
}

} // verus!
