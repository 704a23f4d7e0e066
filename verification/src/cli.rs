//! What the command line decides apart from reading and printing.
use vstd::prelude::*;
use crate::baseline::{default_path, path_file_stem, path_with_file_name};
use crate::config::{overlaps, within, FilePolicy};
use crate::baseline::Comparison;
use crate::model::CoverageIssue;
use crate::model::ArchitectureIr;
use crate::order::seq_has;
use crate::projection::zoom::opt_str;
use crate::rules::{violation_touches, Violation};
use crate::text::cat3;

verus! {

/// What `Path::is_absolute` says of `path`.
pub uninterp spec fn path_absolute(path: Seq<char>) -> bool;

/// What `Path::join` gives for `base` and `path`.
pub uninterp spec fn path_joined(base: Seq<char>, path: Seq<char>) -> Seq<char>;

/// `Path::is_absolute`, on a UTF-8 path.
#[verifier::external_body]
fn is_absolute(path: &str) -> (r: bool)
    ensures
        r == path_absolute(path@),
{
    std::path::Path::new(path).is_absolute()
}

/// `Path::join`, on UTF-8 paths.
#[verifier::external_body]
pub(crate) fn join_path(base: &str, path: &str) -> (r: String)
    ensures
        r@ == path_joined(base@, path@),
{
    std::path::Path::new(base).join(path).to_string_lossy().into_owned()
}

/// Where the baseline of `check` and `baseline` lives: the given path, taken
/// from the repository root when relative, or the default next to the
/// configuration.
pub fn baseline_file(root: &str, config_path: &str, explicit: Option<String>) -> (r: String)
    ensures
        r@ == match explicit {
            Some(p) => if path_absolute(p@) {
                p@
            } else {
                path_joined(root@, p@)
            },
            None => path_with_file_name(
                config_path@,
                match path_file_stem(config_path@) {
                    Some(stem) => stem,
                    None => "architecture"@,
                } + ".baseline.json"@,
            ),
        },
{
    match explicit {
        Some(p) => if is_absolute(p.as_str()) {
            p
        } else {
            join_path(root, p.as_str())
        },
        None => default_path(config_path),
    }
}

/// How `show` prints the architecture.
#[derive(Debug, Clone, Copy, PartialEq, Eq, Structural)]
pub enum ShowFormat {
    Text,
    Json,
    Mermaid,
}

/// `check` exits with 0 when nothing is violated and with 2 otherwise (1 is
/// left for errors).
pub fn check_exit_code(violation_count: usize) -> (r: u8)
    ensures
        r == (if violation_count == 0 { 0u8 } else { 2u8 }),
{
    if violation_count == 0 {
        0
    } else {
        2
    }
}

/// The violation concerns the node: one of its affected nodes lies within.
pub open spec fn touches(v: Violation, node: Seq<char>) -> bool {
    exists|i: int| 0 <= i < v.affected_nodes@.len() && within(#[trigger] v.affected_nodes@[i]@, node)
}

/// The first `n` violations that concern the node, or all without one.
pub open spec fn matching_upto(vs: Seq<Violation>, node: Option<Seq<char>>, n: nat) -> Seq<Violation>
    decreases n,
{
    if n == 0 {
        Seq::empty()
    } else {
        let prev = matching_upto(vs, node, (n - 1) as nat);
        let v = vs[n - 1];
        if node is None || touches(v, node->0) {
            prev.push(v)
        } else {
            prev
        }
    }
}

pub open spec fn unknown_node_text(id: Seq<char>) -> Seq<char> {
    "unknown architecture node `"@ + id + "`; inspect `archgraph show` or use UI search"@
}

/// The violations that `check` reports for all of the architecture or for
/// one node's subtree; an unknown node is refused.
pub fn matching_violations<'a>(ir: &'a ArchitectureIr, node: Option<&str>) -> (r: Result<Vec<&'a Violation>, String>)
    ensures
        match r {
            Ok(v) => {
                &&& (node matches Some(id) ==> seq_has(ir.nodes.keys(), id@))
                &&& v@.map_values(|x: &Violation| *x) == matching_upto(ir.violations@, opt_str(node), ir.violations@.len())
            },
            Err(m) => node matches Some(id) && !seq_has(ir.nodes.keys(), id@) && m@ == unknown_node_text(id@),
        },
{
    if let Some(id) = node {
        if !ir.nodes.contains_key(id) {
            return Err(cat3("unknown architecture node `", id, "`; inspect `archgraph show` or use UI search"));
        }
    }
    let ghost f = opt_str(node);
    let mut out: Vec<&'a Violation> = Vec::new();
    let mut i: usize = 0;
    while i < ir.violations.len()
        invariant
            i <= ir.violations@.len(),
            f == opt_str(node),
            out@.map_values(|x: &Violation| *x) == matching_upto(ir.violations@, f, i as nat),
        decreases ir.violations@.len() - i,
    {
        let v = &ir.violations[i];
        let keep = match node {
            None => true,
            Some(id) => violation_touches(v, id),
        };
        let ghost o = out@;
        if keep {
            out.push(v);
            proof {
                assert(out@.map_values(|x: &Violation| *x) =~= o.map_values(|x: &Violation| *x).push(*v));
            }
        }
        i = i + 1;
    }
    Ok(out)
}


/// What `check` reports and how it exits.
pub struct CheckOutcome<'a> {
    /// The violations that fail the check.
    pub failing: Vec<&'a Violation>,
    /// The rule nodes too sparsely observed to verify, when that fails the check.
    pub coverage_failures: Vec<&'a CoverageIssue>,
    pub exit: u8,
}

pub open spec fn derefs<T>(s: Seq<&T>) -> Seq<T> {
    s.map_values(|x: &T| *x)
}

/// The coverage issues of the first `n` that concern the node, if one is
/// given, in order.
pub open spec fn coverage_upto(issues: Seq<CoverageIssue>, node: Option<Seq<char>>, n: nat) -> Seq<CoverageIssue>
    decreases n,
{
    if n == 0 || n > issues.len() {
        Seq::empty()
    } else {
        let rest = coverage_upto(issues, node, (n - 1) as nat);
        let issue = issues[n - 1];
        let keep = match node {
            None => true,
            Some(id) => within(issue.node@, id) || within(id, issue.node@),
        };
        if keep { rest.push(issue) } else { rest }
    }
}

/// The outcome of `check`: the violations with observations the baseline
/// lacks, or every matching one without a baseline; under an `Error`
/// coverage policy the coverage issues that concern the node; exit 1 when
/// coverage fails, else 2 when a violation fails, else 0.
pub fn check_outcome<'a>(
    matching: &Vec<&'a Violation>,
    comparison: Option<&Comparison<'a>>,
    low_coverage: &'a Vec<CoverageIssue>,
    policy: FilePolicy,
    node: Option<&str>,
) -> (r: CheckOutcome<'a>)
    ensures
        derefs(r.failing@) == match comparison {
            Some(c) => c.new@.map_values(|n: crate::baseline::NewViolation<'a>| *n.violation),
            None => derefs(matching@),
        },
        derefs(r.coverage_failures@) == if policy == FilePolicy::Error {
            coverage_upto(low_coverage@, opt_str(node), low_coverage@.len())
        } else {
            Seq::empty()
        },
        r.exit == if r.coverage_failures@.len() > 0 {
            1u8
        } else if r.failing@.len() == 0 {
            0u8
        } else {
            2u8
        },
{
    let mut failing: Vec<&'a Violation> = Vec::new();
    match comparison {
        Some(c) => {
            let mut i: usize = 0;
            while i < c.new.len()
                invariant
                    i <= c.new@.len(),
                    derefs(failing@) == c.new@.map_values(|n: crate::baseline::NewViolation<'a>| *n.violation).take(i as int),
                decreases c.new@.len() - i,
            {
                let ghost before = failing@;
                failing.push(c.new[i].violation);
                proof {
                    assert(derefs(failing@) =~= derefs(before).push(*c.new@[i as int].violation));
                    assert(c.new@.map_values(|n: crate::baseline::NewViolation<'a>| *n.violation).take(i + 1)
                        =~= c.new@.map_values(|n: crate::baseline::NewViolation<'a>| *n.violation).take(i as int).push(*c.new@[i as int].violation));
                }
                i = i + 1;
            }
            proof {
                assert(c.new@.map_values(|n: crate::baseline::NewViolation<'a>| *n.violation).take(c.new@.len() as int)
                    =~= c.new@.map_values(|n: crate::baseline::NewViolation<'a>| *n.violation));
            }
        },
        None => {
            let mut i: usize = 0;
            while i < matching.len()
                invariant
                    i <= matching@.len(),
                    derefs(failing@) == derefs(matching@).take(i as int),
                decreases matching@.len() - i,
            {
                let ghost before = failing@;
                failing.push(matching[i]);
                proof {
                    assert(derefs(failing@) =~= derefs(before).push(*matching@[i as int]));
                    assert(derefs(matching@).take(i + 1) =~= derefs(matching@).take(i as int).push(*matching@[i as int]));
                }
                i = i + 1;
            }
            proof {
                assert(derefs(matching@).take(matching@.len() as int) =~= derefs(matching@));
            }
        },
    }
    let mut coverage_failures: Vec<&'a CoverageIssue> = Vec::new();
    if policy == FilePolicy::Error {
        let mut i: usize = 0;
        while i < low_coverage.len()
            invariant
                i <= low_coverage@.len(),
                derefs(coverage_failures@) == coverage_upto(low_coverage@, opt_str(node), i as nat),
            decreases low_coverage@.len() - i,
        {
            let issue = &low_coverage[i];
            let keep = match node {
                None => true,
                Some(id) => overlaps(issue.node.as_str(), id),
            };
            if keep {
                let ghost before = coverage_failures@;
                coverage_failures.push(issue);
                proof {
                    assert(derefs(coverage_failures@) =~= derefs(before).push(*issue));
                }
            }
            i = i + 1;
        }
    } else {
        proof {
            assert(derefs(coverage_failures@) =~= Seq::<CoverageIssue>::empty());
        }
    }
    let exit = if coverage_failures.len() > 0 {
        1
    } else {
        check_exit_code(failing.len())
    };
    CheckOutcome { failing, coverage_failures, exit }
}

} // verus!
