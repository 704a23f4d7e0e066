//! Accepted violations for legacy code: the entries a baseline file holds
//! and where that file lives.
use vstd::prelude::*;
use crate::rules::Violation;
use crate::text::{cat2, cat3, decimal, decimal_spec, str_eq};

verus! {

pub const SCHEMA_VERSION: u32 = 1;

/// One accepted observation: a file-level dependency that violates a rule.
#[derive(Debug, Clone, PartialEq, Eq, PartialOrd, Ord)]
pub struct BaselineEntry {
    pub rule_id: String,
    pub from_file: String,
    pub to_file: String,
    pub kind: String,
}

#[derive(Debug, Clone)]
pub struct Baseline {
    pub schema_version: u32,
    pub note: String,
    pub entries: Vec<BaselineEntry>,
}

/// What `Path::file_stem` gives for `path`: the final component without its
/// last extension.
pub uninterp spec fn path_file_stem(path: Seq<char>) -> Option<Seq<char>>;

/// What `Path::with_file_name` gives: `path` with its final component
/// replaced by `name`.
pub uninterp spec fn path_with_file_name(path: Seq<char>, name: Seq<char>) -> Seq<char>;

/// `Path::file_stem`, on a UTF-8 path (so the lossy conversion loses nothing).
#[verifier::external_body]
fn file_stem(path: &str) -> (r: Option<String>)
    ensures
        match r {
            Some(s) => path_file_stem(path@) == Some(s@),
            None => path_file_stem(path@) is None,
        },
{
    std::path::Path::new(path).file_stem().map(|stem| stem.to_string_lossy().into_owned())
}

/// `Path::with_file_name`, on UTF-8 paths.
#[verifier::external_body]
fn with_file_name(path: &str, name: &str) -> (r: String)
    ensures
        r@ == path_with_file_name(path@, name@),
{
    std::path::Path::new(path).with_file_name(name).to_string_lossy().into_owned()
}

/// `architecture.yaml` -> `architecture.baseline.json`, next to the config.
pub fn default_path(config_path: &str) -> (r: String)
    ensures
        r@ == path_with_file_name(
            config_path@,
            match path_file_stem(config_path@) {
                Some(stem) => stem,
                None => "architecture"@,
            } + ".baseline.json"@,
        ),
{
    let stem = match file_stem(config_path) {
        Some(s) => s,
        None => String::from_str("architecture"),
    };
    let name = cat2(stem.as_str(), ".baseline.json");
    with_file_name(config_path, name.as_str())
}

/// What a baseline entry holds, as values.
pub open spec fn bl_view(e: BaselineEntry) -> (Seq<char>, Seq<char>, Seq<char>, Seq<char>) {
    (e.rule_id@, e.from_file@, e.to_file@, e.kind@)
}

pub open spec fn lists_entry(s: Seq<BaselineEntry>, x: (Seq<char>, Seq<char>, Seq<char>, Seq<char>)) -> bool {
    exists|i: int| 0 <= i < s.len() && bl_view(#[trigger] s[i]) == x
}

fn entry_listed(s: &Vec<BaselineEntry>, e: &BaselineEntry) -> (r: bool)
    ensures
        r == lists_entry(s@, bl_view(*e)),
{
    let mut i: usize = 0;
    while i < s.len()
        invariant
            i <= s@.len(),
            forall|k: int| 0 <= k < i ==> bl_view(#[trigger] s@[k]) != bl_view(*e),
        decreases s@.len() - i,
    {
        let x = &s[i];
        if str_eq(x.rule_id.as_str(), e.rule_id.as_str()) && str_eq(x.from_file.as_str(), e.from_file.as_str())
            && str_eq(x.to_file.as_str(), e.to_file.as_str()) && str_eq(x.kind.as_str(), e.kind.as_str()) {
            return true;
        }
        i = i + 1;
    }
    false
}

/// The entries of `s` that `accepted` does not list, in order.
pub open spec fn unaccepted(s: Seq<BaselineEntry>, accepted: Seq<BaselineEntry>) -> Seq<(Seq<char>, Seq<char>, Seq<char>, Seq<char>)>
    decreases s.len(),
{
    if s.len() == 0 {
        Seq::empty()
    } else if lists_entry(accepted, bl_view(s.last())) {
        unaccepted(s.drop_last(), accepted)
    } else {
        unaccepted(s.drop_last(), accepted).push(bl_view(s.last()))
    }
}

fn copy_entry(e: &BaselineEntry) -> (r: BaselineEntry)
    ensures
        bl_view(r) == bl_view(*e),
{
    BaselineEntry { rule_id: e.rule_id.clone(), from_file: e.from_file.clone(), to_file: e.to_file.clone(), kind: e.kind.clone() }
}

fn unaccepted_entries(s: &Vec<BaselineEntry>, accepted: &Vec<BaselineEntry>) -> (r: Vec<BaselineEntry>)
    ensures
        r@.map_values(|e: BaselineEntry| bl_view(e)) == unaccepted(s@, accepted@),
{
    let mut out: Vec<BaselineEntry> = Vec::new();
    let mut i: usize = 0;
    while i < s.len()
        invariant
            i <= s@.len(),
            out@.map_values(|e: BaselineEntry| bl_view(e)) == unaccepted(s@.take(i as int), accepted@),
        decreases s@.len() - i,
    {
        proof {
            assert(s@.take(i + 1).drop_last() =~= s@.take(i as int));
            assert(s@.take(i + 1).last() == s@[i as int]);
        }
        if !entry_listed(accepted, &s[i]) {
            let ghost o = out@;
            out.push(copy_entry(&s[i]));
            proof {
                assert(out@.map_values(|e: BaselineEntry| bl_view(e)) =~= o.map_values(|e: BaselineEntry| bl_view(e)).push(bl_view(s@[i as int])));
            }
        }
        i = i + 1;
    }
    proof {
        assert(s@.take(s@.len() as int) =~= s@);
    }
    out
}

/// How many entries of `s` are not listed in `current`.
pub open spec fn gone_count(s: Seq<BaselineEntry>, current: Seq<BaselineEntry>) -> nat
    decreases s.len(),
{
    if s.len() == 0 {
        0
    } else {
        gone_count(s.drop_last(), current) + if lists_entry(current, bl_view(s.last())) {
            0nat
        } else {
            1nat
        }
    }
}

/// A violation that has observations the baseline does not accept.
pub struct NewViolation<'a> {
    pub violation: &'a Violation,
    pub new_entries: Vec<BaselineEntry>,
}

pub struct Comparison<'a> {
    pub new: Vec<NewViolation<'a>>,
    pub accepted: Vec<&'a Violation>,
    pub accepted_entry_count: usize,
    /// Baseline entries no longer observed anywhere: debt that was paid off.
    pub fixed_entry_count: usize,
}

/// The first `n` reported violations with observations the baseline lacks,
/// each with those observations.
pub open spec fn new_upto(vs: Seq<&Violation>, entries: Seq<Vec<BaselineEntry>>, accepted: Seq<BaselineEntry>, n: nat) -> Seq<(Violation, Seq<(Seq<char>, Seq<char>, Seq<char>, Seq<char>)>)>
    decreases n,
{
    if n == 0 {
        Seq::empty()
    } else {
        let prev = new_upto(vs, entries, accepted, (n - 1) as nat);
        let fresh = unaccepted(entries[n - 1]@, accepted);
        if fresh.len() > 0 {
            prev.push((*vs[n - 1], fresh))
        } else {
            prev
        }
    }
}

/// The first `n` reported violations whose observations the baseline all
/// accepts.
pub open spec fn accepted_upto(vs: Seq<&Violation>, entries: Seq<Vec<BaselineEntry>>, accepted: Seq<BaselineEntry>, n: nat) -> Seq<Violation>
    decreases n,
{
    if n == 0 {
        Seq::empty()
    } else {
        let prev = accepted_upto(vs, entries, accepted, (n - 1) as nat);
        if unaccepted(entries[n - 1]@, accepted).len() == 0 {
            prev.push(*vs[n - 1])
        } else {
            prev
        }
    }
}

pub open spec fn new_view(n: NewViolation) -> (Violation, Seq<(Seq<char>, Seq<char>, Seq<char>, Seq<char>)>) {
    (*n.violation, n.new_entries@.map_values(|e: BaselineEntry| bl_view(e)))
}

/// The reported violations against a baseline: those with observations it
/// does not accept, with these observations, and the others. `entries[i]`
/// are the observations behind `violations[i]`, `current` those behind every
/// violation of the architecture.
pub fn compare<'a>(
    violations: &Vec<&'a Violation>,
    entries: &Vec<Vec<BaselineEntry>>,
    current: &Vec<BaselineEntry>,
    baseline: &Baseline,
) -> (r: Comparison<'a>)
    requires
        entries@.len() == violations@.len(),
    ensures
        r.new@.map_values(|n: NewViolation<'a>| new_view(n)) == new_upto(violations@, entries@, baseline.entries@, violations@.len()),
        r.accepted@.map_values(|v: &Violation| *v) == accepted_upto(violations@, entries@, baseline.entries@, violations@.len()),
        r.accepted_entry_count == baseline.entries@.len(),
        r.fixed_entry_count == gone_count(baseline.entries@, current@),
{
    let mut fixed: usize = 0;
    let mut k: usize = 0;
    while k < baseline.entries.len()
        invariant
            k <= baseline.entries@.len(),
            fixed == gone_count(baseline.entries@.take(k as int), current@),
            fixed <= k,
        decreases baseline.entries@.len() - k,
    {
        proof {
            let t = baseline.entries@.take(k + 1);
            assert(t.drop_last() =~= baseline.entries@.take(k as int));
            assert(t.last() == baseline.entries@[k as int]);
        }
        if !entry_listed(current, &baseline.entries[k]) {
            fixed = fixed + 1;
        }
        k = k + 1;
    }
    proof {
        assert(baseline.entries@.take(baseline.entries@.len() as int) =~= baseline.entries@);
    }
    let mut new: Vec<NewViolation<'a>> = Vec::new();
    let mut accepted: Vec<&'a Violation> = Vec::new();
    let mut i: usize = 0;
    while i < violations.len()
        invariant
            i <= violations@.len(),
            entries@.len() == violations@.len(),
            new@.map_values(|n: NewViolation<'a>| new_view(n)) == new_upto(violations@, entries@, baseline.entries@, i as nat),
            accepted@.map_values(|v: &Violation| *v) == accepted_upto(violations@, entries@, baseline.entries@, i as nat),
        decreases violations@.len() - i,
    {
        let fresh = unaccepted_entries(&entries[i], &baseline.entries);
        let v: &'a Violation = violations[i];
        if fresh.len() == 0 {
            let ghost o = accepted@;
            accepted.push(v);
            proof {
                assert(accepted@.map_values(|v: &Violation| *v) =~= o.map_values(|v: &Violation| *v).push(*v));
                assert(new_upto(violations@, entries@, baseline.entries@, (i + 1) as nat) == new_upto(violations@, entries@, baseline.entries@, i as nat));
            }
        } else {
            let ghost o = new@;
            let ghost fv = fresh@.map_values(|e: BaselineEntry| bl_view(e));
            new.push(NewViolation { violation: v, new_entries: fresh });
            proof {
                assert(new@.map_values(|n: NewViolation<'a>| new_view(n)) =~= o.map_values(|n: NewViolation<'a>| new_view(n)).push((*v, fv)));
                assert(accepted_upto(violations@, entries@, baseline.entries@, (i + 1) as nat) == accepted_upto(violations@, entries@, baseline.entries@, i as nat));
            }
        }
        i = i + 1;
    }
    Comparison { new, accepted, accepted_entry_count: baseline.entries.len(), fixed_entry_count: fixed }
}

/// What a baseline file says of itself.
pub open spec fn note_spec() -> Seq<char> {
    "Accepted architecture violations. `archgraph check` fails only on observations not listed here. Regenerate deliberately with `archgraph baseline`."@
}

/// A baseline accepting `entries`, as `archgraph baseline` writes it.
pub fn new_baseline(entries: Vec<BaselineEntry>) -> (r: Baseline)
    ensures
        r.schema_version == SCHEMA_VERSION,
        r.note@ == note_spec(),
        r.entries@ == entries@,
{
    Baseline {
        schema_version: SCHEMA_VERSION,
        note: String::from_str("Accepted architecture violations. `archgraph check` fails only on observations not listed here. Regenerate deliberately with `archgraph baseline`."),
        entries,
    }
}

/// What loading a file that does not parse as a baseline says.
pub open spec fn invalid_spec(path: Seq<char>) -> Seq<char> {
    path + " is not a valid ArchGraph baseline; regenerate it with `archgraph baseline`"@
}

pub fn invalid_text(path: &str) -> (r: String)
    ensures
        r@ == invalid_spec(path@),
{
    cat2(path, " is not a valid ArchGraph baseline; regenerate it with `archgraph baseline`")
}

/// What loading a baseline of another schema says.
pub open spec fn schema_spec(path: Seq<char>, version: nat) -> Seq<char> {
    path + ": unsupported baseline schema "@ + decimal_spec(version) + "; expected 1"@
}

/// A loaded baseline is usable only in the schema this version writes.
pub fn check_schema(path: &str, schema_version: u32) -> (r: Result<(), String>)
    ensures
        match r {
            Ok(()) => schema_version == SCHEMA_VERSION,
            Err(m) => schema_version != SCHEMA_VERSION && m@ == schema_spec(path@, schema_version as nat),
        },
{
    if schema_version == SCHEMA_VERSION {
        return Ok(());
    }
    let n = decimal(schema_version as u128);
    let m = cat3(cat2(path, ": unsupported baseline schema ").as_str(), n.as_str(), "; expected 1");
    proof {
        assert(m@ =~= schema_spec(path@, schema_version as nat));
    }
    Err(m)
}

} // verus!
