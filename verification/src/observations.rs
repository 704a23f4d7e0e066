//! The observations behind an architecture's violations, as baseline
//! entries: what a baseline accepts and what a diff compares.

use vstd::prelude::*;
use crate::baseline::BaselineEntry;
use crate::config::{child_toward, immediate_child, RuleConfig};
use crate::evidence::ResolvedEdge;
use crate::extraction::{has_rkey, insert_new, rec_order_exec, strictly_keyed, Keyed};
use crate::model::ArchitectureIr;
use crate::order::seq_has;
use crate::rules::{forbidden_by, has_text, is_forbidden, projects, Violation};
use crate::snapshot::changes::diff_fits;
use crate::snapshot::{Diff, LevelDiff, Snapshot};
use crate::snapshot::level::{level_diff, level_result};
use crate::strmap::StrMap;
use crate::text::{opt_view, str_eq, views};

verus! {

impl Keyed for BaselineEntry {
    open spec fn rkey(&self) -> (Seq<char>, Seq<char>, int, Seq<char>, Seq<char>, int) {
        (self.rule_id@, self.from_file@, 0, self.to_file@, self.kind@, 0)
    }

    fn order_with(&self, other: &Self) -> (r: i8) {
        rec_order_exec(self.rule_id.as_str(), self.from_file.as_str(), 0, self.to_file.as_str(), self.kind.as_str(), false,
            other.rule_id.as_str(), other.from_file.as_str(), 0, other.to_file.as_str(), other.kind.as_str(), false)
    }
}

/// An observation behind a violation of `rule`: for a dependency rule, one
/// the rule forbids between the violation's nodes with its kind; for
/// `no_cycles`, one of a checked kind between two members of the cycle.
pub open spec fn observes(rule: RuleConfig, v: Violation, e: ResolvedEdge) -> bool {
    match rule {
        RuleConfig::NoCycles { within, edge_types, .. } => {
            &&& projects(e, within@, views(edge_types@))
            &&& seq_has(views(v.nodes@), child_toward(e.from@, within@)->0)
            &&& seq_has(views(v.nodes@), child_toward(e.to@, within@)->0)
        },
        _ => {
            &&& forbidden_by(rule, e)
            &&& opt_view(v.from) == Some(e.from@)
            &&& opt_view(v.to) == Some(e.to@)
            &&& opt_view(v.edge_kind) == Some(e.kind@)
        },
    }
}

/// The first rule with the ID.
pub open spec fn rule_named(rules: Seq<RuleConfig>, id: Seq<char>) -> Option<RuleConfig>
    decreases rules.len(),
{
    if rules.len() == 0 {
        None
    } else if rules[0].id_view() == id {
        Some(rules[0])
    } else {
        rule_named(rules.drop_first(), id)
    }
}

/// The baseline entry of an observation under a rule.
pub open spec fn entry_key(rule_id: Seq<char>, e: ResolvedEdge) -> (Seq<char>, Seq<char>, int, Seq<char>, Seq<char>, int) {
    (rule_id, e.evidence.from_file@, 0, e.evidence.to_file@, e.evidence.kind@, 0)
}

/// The entry is that of an observation behind one of the IR's violations.
pub open spec fn behind(ir: ArchitectureIr, k: (Seq<char>, Seq<char>, int, Seq<char>, Seq<char>, int)) -> bool {
    exists|v: int, e: int| 0 <= v < ir.violations@.len() && 0 <= e < ir.resolved_edges@.len()
        && (rule_named(ir.rules@, (#[trigger] ir.violations@[v]).rule_id@) matches Some(rule)
            && observes(rule, ir.violations@[v], #[trigger] ir.resolved_edges@[e]))
        && k == entry_key(ir.violations@[v].rule_id@, ir.resolved_edges@[e])
}

/// The entries of an IR: one per observation behind a violation, ordered by
/// rule, source file, target file and kind, without repeats.
pub open spec fn entries_of(ir: ArchitectureIr, s: Seq<BaselineEntry>) -> bool {
    &&& strictly_keyed(s)
    &&& forall|k: (Seq<char>, Seq<char>, int, Seq<char>, Seq<char>, int)| #[trigger] has_rkey(s, k) <==> behind(ir, k)
}

fn rule_with_id(rules: &Vec<RuleConfig>, id: &str) -> (r: Option<usize>)
    ensures
        match r {
            Some(i) => i < rules@.len() && rule_named(rules@, id@) == Some(rules@[i as int]),
            None => rule_named(rules@, id@) is None,
        },
{
    let mut i: usize = 0;
    proof {
        assert(rules@.skip(0) =~= rules@);
    }
    while i < rules.len()
        invariant
            i <= rules@.len(),
            rule_named(rules@, id@) == rule_named(rules@.skip(i as int), id@),
        decreases rules@.len() - i,
    {
        proof {
            assert(rules@.skip(i as int).drop_first() =~= rules@.skip(i + 1));
            assert(rules@.skip(i as int)[0] == rules@[i as int]);
        }
        if str_eq(rules[i].id(), id) {
            return Some(i);
        }
        i = i + 1;
    }
    None
}

fn same_text(o: &Option<String>, s: &str) -> (r: bool)
    ensures
        r == (opt_view(*o) == Some(s@)),
{
    match o {
        Some(t) => str_eq(t.as_str(), s),
        None => false,
    }
}

fn observes_exec(rule: &RuleConfig, v: &Violation, e: &ResolvedEdge) -> (r: bool)
    ensures
        r == observes(*rule, *v, *e),
{
    match rule {
        RuleConfig::NoCycles { within, edge_types, .. } => {
            if !has_text(edge_types, e.kind.as_str()) {
                return false;
            }
            match (immediate_child(e.from.as_str(), within.as_str()), immediate_child(e.to.as_str(), within.as_str())) {
                (Some(a), Some(b)) => !str_eq(a.as_str(), b.as_str()) && has_text(&v.nodes, a.as_str()) && has_text(&v.nodes, b.as_str()),
                _ => false,
            }
        },
        _ => is_forbidden(rule, e) && same_text(&v.from, e.from.as_str()) && same_text(&v.to, e.to.as_str())
            && same_text(&v.edge_kind, e.kind.as_str()),
    }
}

/// The baseline entries of the observations behind the IR's violations.
pub fn current_entries(ir: &ArchitectureIr) -> (r: Vec<BaselineEntry>)
    ensures
        entries_of(*ir, r@),
{
    let mut out: Vec<BaselineEntry> = Vec::new();
    let mut i: usize = 0;
    while i < ir.violations.len()
        invariant
            i <= ir.violations@.len(),
            strictly_keyed(out@),
            forall|k: (Seq<char>, Seq<char>, int, Seq<char>, Seq<char>, int)| #[trigger] has_rkey(out@, k) <==>
                exists|v: int, e: int| 0 <= v < i && 0 <= e < ir.resolved_edges@.len()
                    && (rule_named(ir.rules@, (#[trigger] ir.violations@[v]).rule_id@) matches Some(rule)
                        && observes(rule, ir.violations@[v], #[trigger] ir.resolved_edges@[e]))
                    && k == entry_key(ir.violations@[v].rule_id@, ir.resolved_edges@[e]),
        decreases ir.violations@.len() - i,
    {
        let v = &ir.violations[i];
        let found = rule_with_id(&ir.rules, v.rule_id.as_str());
        let mut j: usize = 0;
        let ghost base = out@;
        while j < ir.resolved_edges.len()
            invariant
                i < ir.violations@.len(),
                j <= ir.resolved_edges@.len(),
                *v == ir.violations@[i as int],
                match found {
                    Some(x) => x < ir.rules@.len() && rule_named(ir.rules@, v.rule_id@) == Some(ir.rules@[x as int]),
                    None => rule_named(ir.rules@, v.rule_id@) is None,
                },
                strictly_keyed(out@),
                forall|k: (Seq<char>, Seq<char>, int, Seq<char>, Seq<char>, int)| #[trigger] has_rkey(out@, k) <==> (has_rkey(base, k) ||
                    exists|e: int| 0 <= e < j
                        && (rule_named(ir.rules@, v.rule_id@) matches Some(rule) && observes(rule, *v, #[trigger] ir.resolved_edges@[e]))
                        && k == entry_key(v.rule_id@, ir.resolved_edges@[e])),
            decreases ir.resolved_edges@.len() - j,
        {
            let e = &ir.resolved_edges[j];
            let hit = match found {
                Some(x) => observes_exec(&ir.rules[x], v, e),
                None => false,
            };
            let ghost before = out@;
            if hit {
                let entry = BaselineEntry {
                    rule_id: v.rule_id.clone(),
                    from_file: e.evidence.from_file.clone(),
                    to_file: e.evidence.to_file.clone(),
                    kind: e.evidence.kind.clone(),
                };
                proof {
                    assert(entry.rkey() == entry_key(v.rule_id@, *e));
                }
                insert_new(&mut out, entry);
            }
            proof {
                assert forall|k: (Seq<char>, Seq<char>, int, Seq<char>, Seq<char>, int)| #[trigger] has_rkey(out@, k) <==> (has_rkey(base, k) ||
                    exists|e2: int| 0 <= e2 < j + 1
                        && (rule_named(ir.rules@, v.rule_id@) matches Some(rule) && observes(rule, *v, #[trigger] ir.resolved_edges@[e2]))
                        && k == entry_key(v.rule_id@, ir.resolved_edges@[e2])) by {
                    if exists|e2: int| 0 <= e2 < j + 1
                        && (rule_named(ir.rules@, v.rule_id@) matches Some(rule) && observes(rule, *v, #[trigger] ir.resolved_edges@[e2]))
                        && k == entry_key(v.rule_id@, ir.resolved_edges@[e2]) {
                        let e2 = choose|e2: int| 0 <= e2 < j + 1
                            && (rule_named(ir.rules@, v.rule_id@) matches Some(rule) && observes(rule, *v, #[trigger] ir.resolved_edges@[e2]))
                            && k == entry_key(v.rule_id@, ir.resolved_edges@[e2]);
                        if e2 < j {
                            assert(has_rkey(before, k));
                        }
                    }
                }
            }
            j = j + 1;
        }
        proof {
            assert forall|k: (Seq<char>, Seq<char>, int, Seq<char>, Seq<char>, int)| #[trigger] has_rkey(out@, k) <==>
                exists|v2: int, e: int| 0 <= v2 < i + 1 && 0 <= e < ir.resolved_edges@.len()
                    && (rule_named(ir.rules@, (#[trigger] ir.violations@[v2]).rule_id@) matches Some(rule)
                        && observes(rule, ir.violations@[v2], #[trigger] ir.resolved_edges@[e]))
                    && k == entry_key(ir.violations@[v2].rule_id@, ir.resolved_edges@[e]) by {
                if exists|v2: int, e: int| 0 <= v2 < i + 1 && 0 <= e < ir.resolved_edges@.len()
                    && (rule_named(ir.rules@, (#[trigger] ir.violations@[v2]).rule_id@) matches Some(rule)
                        && observes(rule, ir.violations@[v2], #[trigger] ir.resolved_edges@[e]))
                    && k == entry_key(ir.violations@[v2].rule_id@, ir.resolved_edges@[e]) {
                    let (v2, e) = choose|v2: int, e: int| 0 <= v2 < i + 1 && 0 <= e < ir.resolved_edges@.len()
                        && (rule_named(ir.rules@, (#[trigger] ir.violations@[v2]).rule_id@) matches Some(rule)
                            && observes(rule, ir.violations@[v2], #[trigger] ir.resolved_edges@[e]))
                        && k == entry_key(ir.violations@[v2].rule_id@, ir.resolved_edges@[e]);
                    if v2 < i {
                        assert(has_rkey(base, k));
                    } else {
                        assert(ir.violations@[v2] == *v);
                    }
                }
                if has_rkey(out@, k) && !has_rkey(base, k) {
                    let e = choose|e: int| 0 <= e < ir.resolved_edges@.len()
                        && (rule_named(ir.rules@, v.rule_id@) matches Some(rule) && observes(rule, *v, #[trigger] ir.resolved_edges@[e]))
                        && k == entry_key(v.rule_id@, ir.resolved_edges@[e]);
                    assert(ir.violations@[i as int] == *v);
                }
            }
        }
        i = i + 1;
    }
    out
}

/// What a snapshot compares with now, the observations behind the
/// violations of each side taken from its IR.
pub fn diff_irs(snapshot: &Snapshot, after: &ArchitectureIr, scope: Option<&str>, renames: &StrMap<String>) -> (r: Diff)
    ensures
        exists|olds: Seq<BaselineEntry>, news: Seq<BaselineEntry>| entries_of(snapshot.ir, olds) && entries_of(*after, news)
            && diff_fits(*snapshot, *after, crate::projection::zoom::opt_str(scope), *renames, olds, news, r),
{
    let olds = current_entries(&snapshot.ir);
    let news = current_entries(after);
    let r = crate::snapshot::changes::diff(snapshot, after, scope, renames, &olds, &news);
    proof {
        assert(entries_of(snapshot.ir, olds@) && entries_of(*after, news@));
    }
    r
}


/// One level of a snapshot compared with now, the observations behind the
/// violations of each side taken from its IR.
pub fn level_diff_irs(snapshot: &Snapshot, after: &ArchitectureIr, focus: &str, renames: &StrMap<String>) -> (r: Result<LevelDiff, String>)
    requires
        after.resolved_edges@.len() < usize::MAX,
        snapshot.ir.resolved_edges@.len() < usize::MAX,
    ensures
        exists|olds: Seq<BaselineEntry>, news: Seq<BaselineEntry>| entries_of(snapshot.ir, olds) && entries_of(*after, news)
            && level_result(*snapshot, *after, focus@, *renames, olds, news, r),
{
    let olds = current_entries(&snapshot.ir);
    let news = current_entries(after);
    let r = level_diff(snapshot, after, focus, renames, &olds, &news);
    proof {
        assert(entries_of(snapshot.ir, olds@) && entries_of(*after, news@));
    }
    r
}

} // verus!
