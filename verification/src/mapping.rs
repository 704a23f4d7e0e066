//! Which node owns each file: of the nodes whose `maps` match a file, the
//! deepest, as long as they all lie on one branch of the hierarchy.
use vstd::prelude::*;
use crate::config::{is_within, lemma_within_transitive, within, AmbiguityPolicy, FilePolicy, ValidatedConfig};
use crate::glob::{glob_match, glob_set_matches, glob_set_patterns};
use crate::model::{CompiledFile, Diagnostics};
use crate::order::{lex_lt, seq_has, sorted_unique, strictly_sorted};
use crate::paths::{normalize_relative, normalized, PathError};
use crate::strmap::StrMap;
use crate::text::{cat3, cat5, chars_of, copy_strings, decimal, decimal_spec, views};

verus! {

/// Each file with its owner, and what the mapping found wrong.
pub struct Memberships {
    pub files: Vec<CompiledFile>,
    pub diagnostics: Diagnostics,
}

/// Why files cannot be mapped.
pub enum MappingError {
    /// A file path is not a repository-relative path.
    Path { path: String, error: PathError },
    /// No node maps the file, and the policy forbids unassigned files.
    Unassigned(String),
    /// Nodes on different branches map the file, and the policy forbids it.
    Unrelated { path: String, first: String, second: String },
}

/// The number of `.` in an ID: its depth below its root.
pub open spec fn dots(s: Seq<char>) -> nat
    decreases s.len(),
{
    if s.len() == 0 {
        0
    } else {
        dots(s.drop_last()) + if s.last() == '.' { 1nat } else { 0nat }
    }
}

proof fn lemma_dots_add(a: Seq<char>, b: Seq<char>)
    ensures
        dots(a + b) == dots(a) + dots(b),
    decreases b.len(),
{
    if b.len() == 0 {
        assert(a + b =~= a);
    } else {
        assert((a + b).drop_last() =~= a + b.drop_last());
        lemma_dots_add(a, b.drop_last());
    }
}

/// Shallower IDs first; IDs of one depth in ascending order.
pub open spec fn rank_lt(a: Seq<char>, b: Seq<char>) -> bool {
    dots(a) < dots(b) || (dots(a) == dots(b) && lex_lt(a, b))
}

/// Some `maps` glob of node `owner` matches `path`.
pub open spec fn owner_matches(v: ValidatedConfig, path: Seq<char>, owner: Seq<char>) -> bool {
    exists|k: int|
        #![trigger v.mapping_owners@[k]]
        0 <= k < glob_set_patterns(v.mapping_globs).len() && glob_match(glob_set_patterns(v.mapping_globs)[k], path)
            && v.mapping_owners@[k]@ == owner
}

/// `r` lists the nodes that map `path`, shallowest first.
pub open spec fn ranked(v: ValidatedConfig, path: Seq<char>, r: Seq<Seq<char>>) -> bool {
    &&& forall|i: int, j: int| 0 <= i < j < r.len() ==> rank_lt(#[trigger] r[i], #[trigger] r[j])
    &&& forall|o: Seq<char>| #[trigger] seq_has(r, o) <==> owner_matches(v, path, o)
}

/// One of the two lies within the other.
pub open spec fn related(a: Seq<char>, b: Seq<char>) -> bool {
    within(a, b) || within(b, a)
}

/// No node maps the file.
pub open spec fn unowned(v: ValidatedConfig, path: Seq<char>) -> bool {
    !exists|o: Seq<char>| owner_matches(v, path, o)
}

/// The nodes that map the file lie on one branch.
pub open spec fn one_branch(v: ValidatedConfig, path: Seq<char>) -> bool {
    forall|a: Seq<char>, b: Seq<char>| owner_matches(v, path, a) && owner_matches(v, path, b) ==> #[trigger] related(a, b)
}

/// Nodes that map the file lie on different branches.
pub open spec fn ambiguous(v: ValidatedConfig, path: Seq<char>) -> bool {
    !unowned(v, path) && !one_branch(v, path)
}

/// The policy turns the file into an error.
pub open spec fn refused(v: ValidatedConfig, path: Seq<char>) -> bool {
    (unowned(v, path) && v.config.policies.unassigned_files == FilePolicy::Error)
        || (ambiguous(v, path) && v.config.policies.ambiguous_mapping == AmbiguityPolicy::Error)
}

/// `(r[i], r[j])` is the first pair of unrelated nodes in `r`, by `i` and
/// then by `j`.
pub open spec fn first_unrelated(r: Seq<Seq<char>>, i: int, j: int) -> bool {
    &&& 0 <= i < j < r.len()
    &&& !related(r[i], r[j])
    &&& forall|a: int, b: int| 0 <= a < b < r.len() && (a < i || (a == i && b < j)) ==> related(#[trigger] r[a], #[trigger] r[b])
}

/// `first` and `second` are the first unrelated pair among the nodes that
/// map `path`, shallowest first.
pub open spec fn unrelated_pair(v: ValidatedConfig, path: Seq<char>, first: Seq<char>, second: Seq<char>) -> bool {
    exists|r: Seq<Seq<char>>, i: int, j: int| ranked(v, path, r) && first_unrelated(r, i, j) && r[i] == first && r[j] == second
}

pub open spec fn unrelated_message(path: Seq<char>, first: Seq<char>, second: Seq<char>) -> Seq<char> {
    "file `"@ + path + "` matches unrelated architecture nodes `"@ + first + "` and `"@ + second
        + "`; make maps unambiguous or change policies.ambiguous_mapping"@
}

pub open spec fn unassigned_message(path: Seq<char>) -> Seq<char> {
    "file `"@ + path + "` is unassigned; add a node maps glob or change policies.unassigned_files"@
}

pub open spec fn unassigned_count_message(count: nat) -> Seq<char> {
    decimal_spec(count) + " unassigned file(s); add maps globs or adjust policies.unassigned_files"@
}

/// How `f` records `path`: the deepest matching node owns it when all lie on
/// one branch; otherwise none does, and the matches are listed.
pub open spec fn placed(v: ValidatedConfig, path: Seq<char>, f: CompiledFile) -> bool {
    &&& f.path@ == path
    &&& if unowned(v, path) {
        f.node is None && f.ambiguous_matches@.len() == 0
    } else if one_branch(v, path) {
        &&& f.node matches Some(o) && owner_matches(v, path, o@)
            && forall|x: Seq<char>| #[trigger] owner_matches(v, path, x) ==> within(o@, x)
        &&& f.ambiguous_matches@.len() == 0
    } else {
        &&& f.node is None
        &&& strictly_sorted(views(f.ambiguous_matches@))
        &&& forall|x: Seq<char>| #[trigger] seq_has(views(f.ambiguous_matches@), x) <==> owner_matches(v, path, x)
    }
}

/// The files' normalized paths, ascending and without repetitions.
pub open spec fn path_set(files: Seq<String>, paths: Seq<Seq<char>>) -> bool {
    &&& strictly_sorted(paths)
    &&& forall|x: Seq<char>| #[trigger] seq_has(paths, x) <==> exists|i: int|
        0 <= i < files.len() && normalized(#[trigger] files[i]@) == Ok::<Seq<char>, PathError>(x)
}

pub open spec fn all_normalized(files: Seq<String>) -> bool {
    forall|i: int| 0 <= i < files.len() ==> normalized(#[trigger] files[i]@) is Ok
}

/// The first file that is not a repository-relative path fails with `e`.
pub open spec fn first_path_error(files: Seq<String>, raw: Seq<char>, e: PathError) -> bool {
    exists|i: int|
        0 <= i < files.len() && normalized(#[trigger] files[i]@) == Err::<Seq<char>, PathError>(e) && files[i]@ == raw
            && forall|k: int| 0 <= k < i ==> normalized(#[trigger] files[k]@) is Ok
}

/// The error a refused file gives.
pub open spec fn refusal(v: ValidatedConfig, path: Seq<char>, e: MappingError) -> bool {
    match e {
        MappingError::Unassigned(p) => p@ == path && unowned(v, path),
        MappingError::Unrelated { path: p, first, second } => p@ == path && !unowned(v, path)
            && unrelated_pair(v, path, first@, second@),
        MappingError::Path { .. } => false,
    }
}

/// The paths no node maps, in order.
pub open spec fn unowned_paths(v: ValidatedConfig, paths: Seq<Seq<char>>) -> Seq<Seq<char>>
    decreases paths.len(),
{
    if paths.len() == 0 {
        Seq::empty()
    } else if unowned(v, paths.last()) {
        unowned_paths(v, paths.drop_last()).push(paths.last())
    } else {
        unowned_paths(v, paths.drop_last())
    }
}

/// A warning `resolve` gives for `paths`.
pub open spec fn mapping_warning(v: ValidatedConfig, paths: Seq<Seq<char>>, w: Seq<char>) -> bool {
    ||| (v.config.policies.ambiguous_mapping == AmbiguityPolicy::Warn && exists|i: int, a: Seq<char>, b: Seq<char>|
        #![trigger unrelated_pair(v, paths[i], a, b)]
        0 <= i < paths.len() && ambiguous(v, paths[i]) && unrelated_pair(v, paths[i], a, b)
            && w == unrelated_message(paths[i], a, b))
    ||| (v.config.policies.unassigned_files == FilePolicy::Warn && unowned_paths(v, paths).len() > 0
        && w == unassigned_count_message(unowned_paths(v, paths).len()))
}

/// What `resolve` reports for valid paths that no policy refuses.
pub open spec fn memberships_fit(v: ValidatedConfig, paths: Seq<Seq<char>>, m: Memberships) -> bool {
    &&& m.files@.len() == paths.len()
    &&& forall|i: int| 0 <= i < paths.len() ==> placed(v, paths[i], #[trigger] m.files@[i])
    &&& views(m.diagnostics.unassigned_files@) == unowned_paths(v, paths)
    &&& forall|x: Seq<char>| (#[trigger] m.diagnostics.ambiguous_files.lookup(x) is Some) <==> (seq_has(paths, x) && ambiguous(v, x))
    &&& forall|i: int| 0 <= i < paths.len() && ambiguous(v, paths[i]) ==> (m.diagnostics.ambiguous_files.lookup(paths[i])
        matches Some(l) && views(l@) == views((#[trigger] m.files@[i]).ambiguous_matches@))
    &&& strictly_sorted(views(m.diagnostics.warnings@))
    &&& forall|w: Seq<char>| #[trigger] seq_has(views(m.diagnostics.warnings@), w) <==> mapping_warning(v, paths, w)
    &&& m.diagnostics.low_coverage@.len() == 0
    &&& m.diagnostics.provider_anomalies@.len() == 0
    &&& m.diagnostics.unindexed_files@.len() == 0
}

proof fn lemma_dots_within(a: Seq<char>, b: Seq<char>)
    requires
        within(a, b),
        a != b,
    ensures
        dots(a) > dots(b),
{
    let rest = a.subrange(b.len() as int, a.len() as int);
    assert(a =~= b + rest);
    lemma_dots_add(b, rest);
    assert(rest =~= seq!['.'] + rest.drop_first());
    lemma_dots_add(seq!['.'], rest.drop_first());
    assert(seq!['.'].drop_last() =~= Seq::<char>::empty());
}

proof fn lemma_within_antisymmetric(a: Seq<char>, b: Seq<char>)
    requires
        within(a, b),
        within(b, a),
    ensures
        a == b,
{
    if a != b {
        lemma_dots_within(a, b);
        lemma_dots_within(b, a);
    }
}

/// In a ranking, consecutive nesting is the same as every pair being related,
/// and then the last node lies within all.
proof fn lemma_chain(r: Seq<Seq<char>>)
    requires
        forall|i: int, j: int| 0 <= i < j < r.len() ==> rank_lt(#[trigger] r[i], #[trigger] r[j]),
    ensures
        (forall|k: int| 0 <= k < r.len() - 1 ==> within(#[trigger] r[k + 1], r[k]))
            <==> (forall|i: int, j: int| 0 <= i < r.len() && 0 <= j < r.len() ==> related(#[trigger] r[i], #[trigger] r[j])),
        (forall|k: int| 0 <= k < r.len() - 1 ==> within(#[trigger] r[k + 1], r[k])) && r.len() > 0
            ==> forall|i: int| 0 <= i < r.len() ==> within(r.last(), #[trigger] r[i]),
{
    if forall|k: int| 0 <= k < r.len() - 1 ==> within(#[trigger] r[k + 1], r[k]) {
        assert forall|i: int, j: int| 0 <= i <= j < r.len() implies within(#[trigger] r[j], #[trigger] r[i]) by {
            lemma_chain_step(r, i, j);
        }
        assert forall|i: int, j: int| 0 <= i < r.len() && 0 <= j < r.len() implies related(#[trigger] r[i], #[trigger] r[j]) by {
            if i <= j {
                lemma_chain_step(r, i, j);
            } else {
                lemma_chain_step(r, j, i);
            }
        }
        if r.len() > 0 {
            assert forall|i: int| 0 <= i < r.len() implies within(r.last(), #[trigger] r[i]) by {
                lemma_chain_step(r, i, r.len() - 1);
            }
        }
    }
    if forall|i: int, j: int| 0 <= i < r.len() && 0 <= j < r.len() ==> related(#[trigger] r[i], #[trigger] r[j]) {
        assert forall|k: int| 0 <= k < r.len() - 1 implies within(#[trigger] r[k + 1], r[k]) by {
            assert(related(r[k], r[k + 1]));
            assert(rank_lt(r[k], r[k + 1]));
            if !within(r[k + 1], r[k]) {
                assert(within(r[k], r[k + 1]));
                if r[k] == r[k + 1] {
                    assert(!lex_lt(r[k], r[k + 1]));
                } else {
                    lemma_dots_within(r[k], r[k + 1]);
                }
            }
        }
    }
}

proof fn lemma_chain_step(r: Seq<Seq<char>>, i: int, j: int)
    requires
        forall|k: int| 0 <= k < r.len() - 1 ==> within(#[trigger] r[k + 1], r[k]),
        0 <= i <= j < r.len(),
    ensures
        within(r[j], r[i]),
    decreases j - i,
{
    if i == j {
        crate::config::lemma_within_reflexive(r[i]);
    } else {
        lemma_chain_step(r, i, j - 1);
        assert(within(r[(j - 1) + 1], r[j - 1]));
        lemma_within_transitive(r[j], r[j - 1], r[i]);
    }
}


/// The number of `.` in `s`.
pub fn dot_count(s: &str) -> (r: usize)
    ensures
        r == dots(s@),
{
    let chars = chars_of(s);
    let mut n: usize = 0;
    let mut i: usize = 0;
    proof {
        assert(chars@.take(0) =~= Seq::<char>::empty());
    }
    while i < chars.len()
        invariant
            i <= chars@.len(),
            n == dots(chars@.take(i as int)),
            n <= i,
        decreases chars@.len() - i,
    {
        proof {
            assert(chars@.take(i + 1).drop_last() =~= chars@.take(i as int));
        }
        if chars[i] == '.' {
            n = n + 1;
        }
        i = i + 1;
    }
    proof {
        assert(chars@.take(chars@.len() as int) =~= s@);
    }
    n
}

/// The owners of the globs that match `path`, with repetitions.
fn matched_owners(v: &ValidatedConfig, path: &str) -> (r: Vec<String>)
    requires
        v.mapping_owners@.len() == glob_set_patterns(v.mapping_globs).len(),
    ensures
        forall|o: Seq<char>| #[trigger] seq_has(views(r@), o) <==> owner_matches(*v, path@, o),
{
    let hits = glob_set_matches(&v.mapping_globs, path);
    let owner_count = v.mapping_owners.len();
    let ghost pats = glob_set_patterns(v.mapping_globs);
    let mut out: Vec<String> = Vec::new();
    let mut t: usize = 0;
    while t < hits.len()
        invariant
            t <= hits@.len(),
            pats == glob_set_patterns(v.mapping_globs),
            v.mapping_owners@.len() == pats.len(),
            forall|i: int| 0 <= i < hits@.len() ==> hits@[i] < pats.len(),
            forall|o: Seq<char>| #[trigger] seq_has(views(out@), o) <==> exists|q: int|
                0 <= q < t && v.mapping_owners@[hits@[q] as int]@ == o,
        decreases hits@.len() - t,
    {
        let ghost before = views(out@);
        out.push(v.mapping_owners[hits[t]].clone());
        proof {
            assert(views(out@) =~= before.push(v.mapping_owners@[hits@[t as int] as int]@));
            assert forall|o: Seq<char>| #[trigger] seq_has(views(out@), o) <==> exists|q: int|
                0 <= q < t + 1 && v.mapping_owners@[hits@[q] as int]@ == o by {
                if seq_has(views(out@), o) {
                    let k = choose|k: int| 0 <= k < views(out@).len() && views(out@)[k] == o;
                    if k < before.len() {
                        assert(seq_has(before, o));
                    }
                }
                if exists|q: int| 0 <= q < t + 1 && v.mapping_owners@[hits@[q] as int]@ == o {
                    let q = choose|q: int| 0 <= q < t + 1 && v.mapping_owners@[hits@[q] as int]@ == o;
                    if q < t {
                        assert(seq_has(before, o));
                        let k = choose|k: int| 0 <= k < before.len() && before[k] == o;
                        assert(views(out@)[k] == o);
                    } else {
                        assert(views(out@)[before.len() as int] == o);
                    }
                }
            }
        }
        t = t + 1;
    }
    proof {
        assert forall|o: Seq<char>| #[trigger] seq_has(views(out@), o) <==> owner_matches(*v, path@, o) by {
            if seq_has(views(out@), o) {
                let q = choose|q: int| 0 <= q < hits@.len() && v.mapping_owners@[hits@[q] as int]@ == o;
                let k = hits@[q] as int;
                assert(hits@.contains(k as usize));
                assert(glob_match(pats[k], path@));
                assert(v.mapping_owners@[k]@ == o);
            }
            if owner_matches(*v, path@, o) {
                assert(owner_count == pats.len());
                let k = choose|k: int|
                    #![trigger v.mapping_owners@[k]]
                    0 <= k < pats.len() && glob_match(pats[k], path@) && v.mapping_owners@[k]@ == o;
                assert((k as usize) as int == k);
                assert(hits@.contains(k as usize));
                let q = choose|q: int| 0 <= q < hits@.len() && hits@[q] == k as usize;
                assert(v.mapping_owners@[hits@[q] as int]@ == o);
            }
        }
    }
    out
}

/// The names, shallowest first; names of one depth keep their order.
fn rank(names: &Vec<String>) -> (r: Vec<String>)
    requires
        strictly_sorted(views(names@)),
    ensures
        forall|i: int, j: int| 0 <= i < j < r@.len() ==> rank_lt(#[trigger] views(r@)[i], #[trigger] views(r@)[j]),
        forall|x: Seq<char>| #[trigger] seq_has(views(r@), x) <==> seq_has(views(names@), x),
{
    let ghost ns = views(names@);
    let mut out: Vec<String> = Vec::new();
    let mut depths: Vec<usize> = Vec::new();
    let mut t: usize = 0;
    while t < names.len()
        invariant
            t <= names@.len(),
            ns == views(names@),
            strictly_sorted(ns),
            depths@.len() == out@.len(),
            forall|k: int| 0 <= k < out@.len() ==> depths@[k] == dots(#[trigger] views(out@)[k]),
            forall|i: int, j: int| 0 <= i < j < out@.len() ==> rank_lt(#[trigger] views(out@)[i], #[trigger] views(out@)[j]),
            forall|x: Seq<char>| #[trigger] seq_has(views(out@), x) <==> exists|q: int| 0 <= q < t && ns[q] == x,
        decreases names@.len() - t,
    {
        let x = names[t].clone();
        let d = dot_count(x.as_str());
        let mut p: usize = 0;
        while p < out.len() && depths[p] <= d
            invariant
                p <= out@.len(),
                depths@.len() == out@.len(),
                forall|k: int| 0 <= k < p ==> depths@[k] <= d,
            decreases out@.len() - p,
        {
            p = p + 1;
        }
        let ghost old_out = views(out@);
        let ghost old_depths = depths@;
        proof {
            assert forall|k: int| 0 <= k < old_out.len() implies lex_lt(#[trigger] old_out[k], x@) by {
                assert(seq_has(old_out, old_out[k]));
                let q = choose|q: int| 0 <= q < t && ns[q] == old_out[k];
                assert(ns[q] == old_out[k] && ns[t as int] == x@);
            }
            assert forall|k: int| p <= k < old_out.len() implies dots(#[trigger] old_out[k]) > d by {
                assert(depths@[p as int] > d);
                if k > p {
                    assert(rank_lt(old_out[p as int], old_out[k]));
                }
            }
        }
        out.insert(p, x);
        depths.insert(p, d);
        proof {
            let o = views(out@);
            assert(o =~= old_out.insert(p as int, x@));
            assert forall|k: int| 0 <= k < out@.len() implies depths@[k] == dots(#[trigger] views(out@)[k]) by {
                if k < p {
                    assert(o[k] == old_out[k] && depths@[k] == old_depths[k]);
                } else if k > p {
                    assert(o[k] == old_out[k - 1] && depths@[k] == old_depths[k - 1]);
                }
            }
            assert forall|i: int, j: int| 0 <= i < j < out@.len() implies rank_lt(#[trigger] views(out@)[i], #[trigger] views(out@)[j]) by {
                if j < p {
                    assert(o[i] == old_out[i] && o[j] == old_out[j]);
                } else if j == p {
                    assert(o[i] == old_out[i]);
                } else if i == p {
                    assert(o[j] == old_out[j - 1]);
                } else if i < p {
                    assert(o[i] == old_out[i] && o[j] == old_out[j - 1]);
                } else {
                    assert(o[i] == old_out[i - 1] && o[j] == old_out[j - 1]);
                }
            }
            assert forall|y: Seq<char>| #[trigger] seq_has(views(out@), y) <==> exists|q: int| 0 <= q < t + 1 && ns[q] == y by {
                if seq_has(o, y) {
                    let k = choose|k: int| 0 <= k < o.len() && o[k] == y;
                    if k < p {
                        assert(o[k] == old_out[k]);
                        assert(seq_has(old_out, y));
                    } else if k > p {
                        assert(o[k] == old_out[k - 1]);
                        assert(seq_has(old_out, y));
                    } else {
                        assert(ns[t as int] == y);
                    }
                }
                if exists|q: int| 0 <= q < t + 1 && ns[q] == y {
                    let q = choose|q: int| 0 <= q < t + 1 && ns[q] == y;
                    if q < t {
                        assert(seq_has(old_out, y));
                        let k = choose|k: int| 0 <= k < old_out.len() && old_out[k] == y;
                        if k < p {
                            assert(o[k] == y);
                        } else {
                            assert(o[k + 1] == y);
                        }
                    } else {
                        assert(o[p as int] == y);
                    }
                }
            }
        }
        t = t + 1;
    }
    proof {
        assert forall|x: Seq<char>| #[trigger] seq_has(views(out@), x) <==> seq_has(views(names@), x) by {
            if seq_has(views(out@), x) {
                let q = choose|q: int| 0 <= q < names@.len() && ns[q] == x;
                assert(ns[q] == x);
            }
        }
    }
    out
}


/// The file at `path` with its owner, and, when the matching nodes lie on
/// different branches, the first pair of them that shows it.
#[verifier::rlimit(30)]
fn place(v: &ValidatedConfig, path: &String) -> (r: (CompiledFile, Option<(String, String)>))
    requires
        v.mapping_owners@.len() == glob_set_patterns(v.mapping_globs).len(),
    ensures
        placed(*v, path@, r.0),
        match r.1 {
            Some(pair) => ambiguous(*v, path@) && unrelated_pair(*v, path@, pair.0@, pair.1@),
            None => !ambiguous(*v, path@),
        },
{
    let owners = matched_owners(v, path.as_str());
    let lex = sorted_unique(&owners);
    let ranking = rank(&lex);
    let ghost r = views(ranking@);
    proof {
        assert(ranked(*v, path@, r));
    }
    if ranking.len() == 0 {
        proof {
            assert(unowned(*v, path@)) by {
                if exists|o: Seq<char>| owner_matches(*v, path@, o) {
                    let o = choose|o: Seq<char>| owner_matches(*v, path@, o);
                    assert(seq_has(r, o));
                }
            }
        }
        let file = CompiledFile { path: path.clone(), node: None, ambiguous_matches: Vec::new() };
        return (file, None);
    }
    proof {
        assert(seq_has(r, r[0]));
        assert(!unowned(*v, path@));
    }
    let mut chain = true;
    let mut k: usize = 0;
    while k < ranking.len() - 1
        invariant
            r == views(ranking@),
            ranking@.len() > 0,
            k + 1 <= ranking@.len(),
            chain <==> forall|q: int| 0 <= q < k ==> within(#[trigger] r[q + 1], r[q]),
        decreases ranking@.len() - k,
    {
        if !is_within(ranking[k + 1].as_str(), ranking[k].as_str()) {
            chain = false;
        }
        proof {
            if chain {
                assert forall|q: int| 0 <= q < k + 1 implies within(#[trigger] r[q + 1], r[q]) by {
                    if q < k {
                    }
                }
            } else {
                if within(r[k + 1], r[k as int]) {
                    let q = choose|q: int| 0 <= q < k && !within(#[trigger] r[q + 1], r[q]);
                }
            }
        }
        k = k + 1;
    }
    proof {
        lemma_chain(r);
    }
    if chain {
        let last = ranking[ranking.len() - 1].clone();
        proof {
            assert(seq_has(r, r.last()));
            assert(r.last() == last@);
            assert forall|a: Seq<char>, b: Seq<char>| owner_matches(*v, path@, a) && owner_matches(*v, path@, b) implies #[trigger] related(a, b) by {
                assert(seq_has(r, a) && seq_has(r, b));
                let i = choose|i: int| 0 <= i < r.len() && r[i] == a;
                let j = choose|j: int| 0 <= j < r.len() && r[j] == b;
                assert(related(r[i], r[j]));
            }
            assert forall|x: Seq<char>| #[trigger] owner_matches(*v, path@, x) implies within(last@, x) by {
                assert(seq_has(r, x));
                let i = choose|i: int| 0 <= i < r.len() && r[i] == x;
                assert(within(r.last(), r[i]));
            }
        }
        let file = CompiledFile { path: path.clone(), node: Some(last), ambiguous_matches: Vec::new() };
        return (file, None);
    }
    proof {
        assert(!one_branch(*v, path@)) by {
            let (i, j) = choose|i: int, j: int| 0 <= i < r.len() && 0 <= j < r.len() && !related(#[trigger] r[i], #[trigger] r[j]);
            assert(seq_has(r, r[i]) && seq_has(r, r[j]));
            assert(owner_matches(*v, path@, r[i]) && owner_matches(*v, path@, r[j]));
        }
    }
    let ghost mut found_i: int = 0;
    let ghost mut found_j: int = 0;
    let mut pair: Option<(String, String)> = None;
    let mut i: usize = 0;
    while i < ranking.len() && pair.is_none()
        invariant
            r == views(ranking@),
            i <= ranking@.len(),
            pair is None ==> forall|a: int, b: int| 0 <= a < b < r.len() && a < i ==> related(#[trigger] r[a], #[trigger] r[b]),
            pair matches Some(p) ==> first_unrelated(r, found_i, found_j) && r[found_i] == p.0@ && r[found_j] == p.1@,
        decreases ranking@.len() - i,
    {
        let mut j: usize = i + 1;
        while j < ranking.len() && pair.is_none()
            invariant
                r == views(ranking@),
                i < ranking@.len(),
                i + 1 <= j <= ranking@.len(),
                pair is None ==> forall|a: int, b: int| 0 <= a < b < r.len() && a < i ==> related(#[trigger] r[a], #[trigger] r[b]),
                pair is None ==> forall|b: int| i < b < j ==> related(r[i as int], #[trigger] r[b]),
                pair matches Some(p) ==> first_unrelated(r, found_i, found_j) && r[found_i] == p.0@ && r[found_j] == p.1@,
            decreases ranking@.len() - j,
        {
            let a = ranking[i].as_str();
            let b = ranking[j].as_str();
            if !is_within(a, b) && !is_within(b, a) {
                proof {
                    found_i = i as int;
                    found_j = j as int;
                    assert forall|x: int, y: int| 0 <= x < y < r.len() && (x < found_i || (x == found_i && y < found_j)) implies related(#[trigger] r[x], #[trigger] r[y]) by {
                    }
                }
                pair = Some((ranking[i].clone(), ranking[j].clone()));
            }
            j = j + 1;
        }
        proof {
            if pair is None {
                assert forall|a: int, b: int| 0 <= a < b < r.len() && a < i + 1 implies related(#[trigger] r[a], #[trigger] r[b]) by {
                    if a == i {
                        assert(related(r[i as int], r[b]));
                    }
                }
            }
        }
        i = i + 1;
    }
    proof {
        if pair is None {
            assert forall|a: int, b: int| 0 <= a < r.len() && 0 <= b < r.len() implies related(#[trigger] r[a], #[trigger] r[b]) by {
                if a < b {
                } else if b < a {
                    assert(related(r[b], r[a]));
                } else {
                    crate::config::lemma_within_reflexive(r[a]);
                }
            }
            assert(false);
        }
    }
    let listed = copy_strings(&lex);
    let file = CompiledFile { path: path.clone(), node: None, ambiguous_matches: listed };
    proof {
        if pair is Some {
            let p = pair->0;
            assert(ranked(*v, path@, r) && first_unrelated(r, found_i, found_j) && r[found_i] == p.0@ && r[found_j] == p.1@);
            assert(unrelated_pair(*v, path@, p.0@, p.1@));
        }
        assert forall|x: Seq<char>| #[trigger] seq_has(views(file.ambiguous_matches@), x) <==> owner_matches(*v, path@, x) by {
            assert(seq_has(views(owners@), x) <==> owner_matches(*v, path@, x));
        }
    }
    (file, pair)
}


/// What a mapping error says.
pub open spec fn mapping_message(e: MappingError) -> Seq<char> {
    match e {
        MappingError::Path { path, error } => crate::paths::path_problem(path@, error),
        MappingError::Unassigned(path) => "file `"@ + path@
            + "` is unassigned; add a node maps glob or change policies.unassigned_files"@,
        MappingError::Unrelated { path, first, second } => unrelated_message(path@, first@, second@),
    }
}

impl MappingError {
    /// What the error says.
    pub fn message(&self) -> (r: String)
        ensures
            r@ == mapping_message(*self),
    {
        match self {
            MappingError::Path { path, error } => crate::paths::path_problem_text(path.as_str(), *error),
            MappingError::Unassigned(path) => cat3("file `", path.as_str(), "` is unassigned; add a node maps glob or change policies.unassigned_files"),
            MappingError::Unrelated { path, first, second } => unrelated_text(path.as_str(), first.as_str(), second.as_str()),
        }
    }
}

fn unrelated_text(path: &str, first: &str, second: &str) -> (r: String)
    ensures
        r@ == unrelated_message(path@, first@, second@),
{
    let head = cat5("file `", path, "` matches unrelated architecture nodes `", first, "` and `");
    let r = cat3(head.as_str(), second, "`; make maps unambiguous or change policies.ambiguous_mapping");
    proof {
        assert(r@ =~= unrelated_message(path@, first@, second@));
    }
    r
}

proof fn lemma_unowned_paths_take(v: ValidatedConfig, paths: Seq<Seq<char>>, k: int)
    requires
        0 <= k < paths.len(),
    ensures
        unowned_paths(v, paths.take(k + 1)) == if unowned(v, paths[k]) {
            unowned_paths(v, paths.take(k)).push(paths[k])
        } else {
            unowned_paths(v, paths.take(k))
        },
{
    assert(paths.take(k + 1).drop_last() =~= paths.take(k));
    assert(paths.take(k + 1).last() == paths[k]);
}

/// The warnings about the first `k` paths: one per ambiguous path, when the
/// policy only warns.
pub open spec fn warned(v: ValidatedConfig, ps: Seq<Seq<char>>, k: int, ws: Seq<Seq<char>>) -> bool {
    forall|w: Seq<char>| #[trigger] seq_has(ws, w) <==> (v.config.policies.ambiguous_mapping == AmbiguityPolicy::Warn
        && exists|q: int, a: Seq<char>, b: Seq<char>|
        #![trigger unrelated_pair(v, ps[q], a, b)]
        0 <= q < k && ambiguous(v, ps[q]) && unrelated_pair(v, ps[q], a, b) && w == unrelated_message(ps[q], a, b))
}

/// The ambiguous paths among the first `k`, each with its matches.
pub open spec fn listed_ambiguous(v: ValidatedConfig, ps: Seq<Seq<char>>, k: int, map: StrMap<Vec<String>>, files: Seq<CompiledFile>) -> bool {
    &&& forall|x: Seq<char>| (#[trigger] map.lookup(x) is Some) <==> (seq_has(ps.take(k), x) && ambiguous(v, x))
    &&& forall|q: int| 0 <= q < k && ambiguous(v, ps[q]) ==> (map.lookup(ps[q])
        matches Some(l) && views(l@) == views((#[trigger] files[q]).ambiguous_matches@))
}

proof fn lemma_warned_step(v: ValidatedConfig, ps: Seq<Seq<char>>, k: int, ws: Seq<Seq<char>>, next: Seq<Seq<char>>, pair: Option<(Seq<char>, Seq<char>)>)
    requires
        0 <= k < ps.len(),
        warned(v, ps, k, ws),
        match pair {
            Some(ab) => ambiguous(v, ps[k]) && unrelated_pair(v, ps[k], ab.0, ab.1)
                && (v.config.policies.ambiguous_mapping == AmbiguityPolicy::Warn ==> next == ws.push(unrelated_message(ps[k], ab.0, ab.1)))
                && (v.config.policies.ambiguous_mapping != AmbiguityPolicy::Warn ==> next == ws),
            None => !ambiguous(v, ps[k]) && next == ws,
        },
    ensures
        warned(v, ps, k + 1, next),
{
    assert forall|w: Seq<char>| #[trigger] seq_has(next, w) <==> (v.config.policies.ambiguous_mapping == AmbiguityPolicy::Warn
        && exists|q: int, a: Seq<char>, b: Seq<char>|
        #![trigger unrelated_pair(v, ps[q], a, b)]
        0 <= q < k + 1 && ambiguous(v, ps[q]) && unrelated_pair(v, ps[q], a, b) && w == unrelated_message(ps[q], a, b)) by {
        if seq_has(next, w) {
            let t = choose|t: int| 0 <= t < next.len() && next[t] == w;
            if t < ws.len() {
                assert(ws[t] == w);
                assert(seq_has(ws, w));
            } else {
                let ab = pair->0;
                assert(unrelated_pair(v, ps[k], ab.0, ab.1));
            }
        }
        if v.config.policies.ambiguous_mapping == AmbiguityPolicy::Warn && exists|q: int, a: Seq<char>, b: Seq<char>|
            #![trigger unrelated_pair(v, ps[q], a, b)]
            0 <= q < k + 1 && ambiguous(v, ps[q]) && unrelated_pair(v, ps[q], a, b) && w == unrelated_message(ps[q], a, b) {
            let (q, a, b) = choose|q: int, a: Seq<char>, b: Seq<char>|
                #![trigger unrelated_pair(v, ps[q], a, b)]
                0 <= q < k + 1 && ambiguous(v, ps[q]) && unrelated_pair(v, ps[q], a, b) && w == unrelated_message(ps[q], a, b);
            if q < k {
                assert(seq_has(ws, w));
                let t = choose|t: int| 0 <= t < ws.len() && ws[t] == w;
                assert(next[t] == w);
            } else {
                let ab = pair->0;
                lemma_unrelated_pair_unique(v, ps[k], a, b, ab.0, ab.1);
                assert(next[ws.len() as int] == w);
            }
        }
    }
}

proof fn lemma_listed_step(v: ValidatedConfig, ps: Seq<Seq<char>>, k: int, old_map: StrMap<Vec<String>>, map: StrMap<Vec<String>>,
    files: Seq<CompiledFile>, f: CompiledFile)
    requires
        0 <= k < ps.len(),
        strictly_sorted(ps),
        files.len() == k,
        listed_ambiguous(v, ps, k, old_map, files),
        placed(v, ps[k], f),
        ambiguous(v, ps[k]) ==> (map.lookup(ps[k]) matches Some(l) && views(l@) == views(f.ambiguous_matches@)),
        !ambiguous(v, ps[k]) ==> map.lookup(ps[k]) == old_map.lookup(ps[k]),
        forall|x: Seq<char>| x != ps[k] ==> #[trigger] map.lookup(x) == old_map.lookup(x),
    ensures
        listed_ambiguous(v, ps, k + 1, map, files.push(f)),
{
    let p = ps[k];
    let pk1 = ps.take(k + 1);
    let pk = ps.take(k);
    assert forall|x: Seq<char>| (#[trigger] map.lookup(x) is Some) <==> (seq_has(pk1, x) && ambiguous(v, x)) by {
        if x != p {
            assert(map.lookup(x) == old_map.lookup(x));
            if seq_has(pk1, x) {
                let t = choose|t: int| 0 <= t < pk1.len() && pk1[t] == x;
                assert(pk[t] == x);
            }
            if seq_has(pk, x) {
                let t = choose|t: int| 0 <= t < pk.len() && pk[t] == x;
                assert(pk1[t] == x);
            }
        } else {
            assert(pk1[k] == p);
            if !ambiguous(v, p) {
                if seq_has(pk, p) {
                    let t = choose|t: int| 0 <= t < pk.len() && pk[t] == p;
                    assert(lex_lt(ps[t], ps[k]));
                }
            }
        }
    }
    assert forall|q: int| 0 <= q < k + 1 && ambiguous(v, ps[q]) implies (map.lookup(ps[q])
        matches Some(l) && views(l@) == views((#[trigger] files.push(f)[q]).ambiguous_matches@)) by {
        if q < k {
            assert(ps[q] != p) by {
                assert(lex_lt(ps[q], ps[k]));
            }
            assert(files.push(f)[q] == files[q]);
        }
    }
}

/// What the mapping has found after the first `k` paths.
struct Progress {
    files: Vec<CompiledFile>,
    unassigned: Vec<String>,
    ambiguous_files: StrMap<Vec<String>>,
    warnings: Vec<String>,
}

#[verifier::opaque]
spec fn progress_fit(v: ValidatedConfig, ps: Seq<Seq<char>>, k: int, st: Progress) -> bool {
    &&& 0 <= k <= ps.len()
    &&& st.files@.len() == k
    &&& forall|q: int| 0 <= q < k ==> placed(v, ps[q], #[trigger] st.files@[q])
    &&& forall|q: int| 0 <= q < k ==> !refused(v, #[trigger] ps[q])
    &&& views(st.unassigned@) == unowned_paths(v, ps.take(k))
    &&& listed_ambiguous(v, ps, k, st.ambiguous_files, st.files@)
    &&& warned(v, ps, k, views(st.warnings@))
}

/// Records the `k`th path, or gives the error the policies make of it.
fn record(v: &ValidatedConfig, paths: &Vec<String>, k: usize, st: &mut Progress) -> (r: Result<(), MappingError>)
    requires
        v.mapping_owners@.len() == glob_set_patterns(v.mapping_globs).len(),
        strictly_sorted(views(paths@)),
        k < paths@.len(),
        progress_fit(*v, views(paths@), k as int, *old(st)),
    ensures
        match r {
            Ok(()) => progress_fit(*v, views(paths@), k + 1, *final(st)),
            Err(e) => refused(*v, views(paths@)[k as int]) && refusal(*v, views(paths@)[k as int], e),
        },
{
    proof {
        reveal(progress_fit);
    }
    let ghost ps = views(paths@);
    let (file, pair) = place(v, &paths[k]);
    let ghost p = ps[k as int];
    proof {
        lemma_unowned_paths_take(*v, ps, k as int);
    }
    let ghost old_warnings = views(st.warnings@);
    let ghost old_map = st.ambiguous_files;
    let ghost old_files = st.files@;
    if file.node.is_none() && pair.is_none() {
        st.unassigned.push(paths[k].clone());
        proof {
            assert(views(st.unassigned@) =~= unowned_paths(*v, ps.take(k as int)).push(p));
        }
        match v.config.policies.unassigned_files {
            FilePolicy::Error => {
                let e = MappingError::Unassigned(paths[k].clone());
                proof {
                    assert(refused(*v, p));
                    assert(refusal(*v, p, e));
                }
                return Err(e);
            },
            _ => {},
        }
    }
    match pair {
        Some((a, b)) => {
            let ghost ab = (a@, b@);
            match v.config.policies.ambiguous_mapping {
                AmbiguityPolicy::Error => {
                    let e = MappingError::Unrelated { path: paths[k].clone(), first: a, second: b };
                    proof {
                        assert(refused(*v, p));
                        assert(refusal(*v, p, e));
                    }
                    return Err(e);
                },
                AmbiguityPolicy::Warn => {
                    let message = unrelated_text(paths[k].as_str(), a.as_str(), b.as_str());
                    st.warnings.push(message);
                    proof {
                        assert(views(st.warnings@) =~= old_warnings.push(unrelated_message(p, a@, b@)));
                    }
                },
            }
            let listed = copy_strings(&file.ambiguous_matches);
            st.ambiguous_files.insert(paths[k].clone(), listed);
            proof {
                lemma_warned_step(*v, ps, k as int, old_warnings, views(st.warnings@), Some(ab));
            }
        },
        None => {
            proof {
                lemma_warned_step(*v, ps, k as int, old_warnings, views(st.warnings@), None);
            }
        },
    }
    proof {
        lemma_listed_step(*v, ps, k as int, old_map, st.ambiguous_files, old_files, file);
    }
    st.files.push(file);
    proof {
        assert forall|q: int| 0 <= q < k + 1 implies placed(*v, ps[q], #[trigger] st.files@[q]) by {
            if q < k {
                assert(st.files@[q] == old_files[q]);
            }
        }
        assert(!refused(*v, p));
    }
    Ok(())
}

/// Each file's owner: files are taken by their normalized paths, once each,
/// in ascending order; a policy set to `error` turns the first unassigned or
/// ambiguous file into the error.
pub fn resolve(files: &[String], validated: &ValidatedConfig) -> (r: Result<Memberships, MappingError>)
    requires
        validated.mapping_owners@.len() == glob_set_patterns(validated.mapping_globs).len(),
    ensures
        r matches Err(MappingError::Path { path, error }) ==> first_path_error(files@, path@, error),
        r matches Err(e) ==> (e is Path || all_normalized(files@) && exists|paths: Seq<Seq<char>>, k: int|
            #![trigger path_set(files@, paths), paths[k]]
            path_set(files@, paths) && 0 <= k < paths.len() && refused(*validated, paths[k])
                && (forall|j: int| 0 <= j < k ==> !refused(*validated, #[trigger] paths[j]))
                && refusal(*validated, paths[k], e)),
        r matches Ok(m) ==> all_normalized(files@) && exists|paths: Seq<Seq<char>>|
            #[trigger] path_set(files@, paths) && (forall|k: int| 0 <= k < paths.len() ==> !refused(*validated, #[trigger] paths[k]))
                && memberships_fit(*validated, paths, m),
{
    let v = validated;
    let paths = match normalize_all(files) {
        Ok(p) => p,
        Err((path, error)) => return Err(MappingError::Path { path, error }),
    };
    let ghost ps = views(paths@);
    let mut st = Progress {
        files: Vec::new(),
        unassigned: Vec::new(),
        ambiguous_files: StrMap::new(),
        warnings: Vec::new(),
    };
    proof {
        reveal(progress_fit);
        assert(ps.take(0) =~= Seq::<Seq<char>>::empty());
        assert(views(st.warnings@) =~= Seq::<Seq<char>>::empty());
        assert(progress_fit(*v, ps, 0, st));
    }
    let mut k: usize = 0;
    while k < paths.len()
        invariant
            k <= paths@.len(),
            v == validated,
            ps == views(paths@),
            path_set(files@, ps),
            all_normalized(files@),
            v.mapping_owners@.len() == glob_set_patterns(v.mapping_globs).len(),
            progress_fit(*v, ps, k as int, st),
        decreases paths@.len() - k,
    {
        match record(v, &paths, k, &mut st) {
            Ok(()) => {},
            Err(e) => {
                proof {
                    reveal(progress_fit);
                    assert(refused(*v, ps[k as int]));
                    assert(forall|j: int| 0 <= j < k ==> !refused(*v, #[trigger] ps[j]));
                    assert(refusal(*v, ps[k as int], e));
                    assert(!(e is Path));
                }
                return Err(e);
            },
        }
        k = k + 1;
    }
    proof {
        reveal(progress_fit);
        assert(ps.take(paths@.len() as int) =~= ps);
    }
    let Progress { files: placed_files, unassigned, ambiguous_files, warnings } = st;
    let mut all_warnings = warnings;
    let ghost before = views(all_warnings@);
    let unassigned_count = unassigned.len();
    let warn_unassigned = match v.config.policies.unassigned_files {
        FilePolicy::Warn => unassigned_count > 0,
        _ => false,
    };
    if warn_unassigned {
        let count = decimal(unassigned_count as u128);
        let note = crate::text::cat2(count.as_str(), " unassigned file(s); add maps globs or adjust policies.unassigned_files");
        all_warnings.push(note);
        proof {
            assert(views(all_warnings@) =~= before.push(unassigned_count_message(unowned_paths(*v, ps).len())));
        }
    }
    let sorted = sorted_unique(&all_warnings);
    let mut diagnostics = Diagnostics::new();
    diagnostics.unassigned_files = unassigned;
    diagnostics.ambiguous_files = ambiguous_files;
    diagnostics.warnings = sorted;
    let m = Memberships { files: placed_files, diagnostics };
    proof {
        assert forall|w: Seq<char>| #[trigger] seq_has(views(m.diagnostics.warnings@), w) <==> mapping_warning(*v, ps, w) by {
            let all = views(all_warnings@);
            assert(seq_has(views(m.diagnostics.warnings@), w) <==> seq_has(all, w));
            if seq_has(all, w) {
                let t = choose|t: int| 0 <= t < all.len() && all[t] == w;
                if t < before.len() {
                    assert(before[t] == w);
                    assert(seq_has(before, w));
                }
            }
            if seq_has(before, w) {
                let t = choose|t: int| 0 <= t < before.len() && before[t] == w;
                assert(all[t] == w);
            }
            if warn_unassigned && w == unassigned_count_message(unowned_paths(*v, ps).len()) {
                assert(all[before.len() as int] == w);
            }
        }
        assert(views(m.diagnostics.unassigned_files@) == unowned_paths(*v, ps));
        assert(forall|q: int| 0 <= q < ps.len() ==> placed(*v, ps[q], #[trigger] m.files@[q]));
        assert(listed_ambiguous(*v, ps, ps.len() as int, m.diagnostics.ambiguous_files, m.files@));
        assert(memberships_fit(*v, ps, m));
        assert(forall|k: int| 0 <= k < ps.len() ==> !refused(*v, #[trigger] ps[k]));
    }
    Ok(m)
}

/// The files' normalized paths, ascending and without repetitions, or the
/// error of the first file that has none.
fn normalize_all(files: &[String]) -> (r: Result<Vec<String>, (String, PathError)>)
    ensures
        match r {
            Ok(paths) => all_normalized(files@) && path_set(files@, views(paths@)),
            Err((raw, e)) => first_path_error(files@, raw@, e),
        },
{
    let mut normalized_paths: Vec<String> = Vec::new();
    let mut i: usize = 0;
    while i < files.len()
        invariant
            i <= files@.len(),
            normalized_paths@.len() == i,
            forall|k: int| 0 <= k < i ==> normalized(#[trigger] files@[k]@) == Ok::<Seq<char>, PathError>(normalized_paths@[k]@),
        decreases files@.len() - i,
    {
        match normalize_relative(files[i].as_str()) {
            Ok(p) => {
                normalized_paths.push(p);
            },
            Err(e) => {
                let raw = files[i].clone();
                proof {
                    assert(normalized(files@[i as int]@) == Err::<Seq<char>, PathError>(e));
                    assert(first_path_error(files@, raw@, e));
                }
                return Err((raw, e));
            },
        }
        i = i + 1;
    }
    let paths = sorted_unique(&normalized_paths);
    let ghost ps = views(paths@);
    proof {
        assert forall|x: Seq<char>| #[trigger] seq_has(ps, x) <==> exists|i: int|
            0 <= i < files@.len() && normalized(#[trigger] files@[i]@) == Ok::<Seq<char>, PathError>(x) by {
            if seq_has(ps, x) {
                assert(seq_has(views(normalized_paths@), x));
                let k = choose|k: int| 0 <= k < views(normalized_paths@).len() && views(normalized_paths@)[k] == x;
                assert(normalized(files@[k]@) == Ok::<Seq<char>, PathError>(x));
            }
            if exists|i: int| 0 <= i < files@.len() && normalized(#[trigger] files@[i]@) == Ok::<Seq<char>, PathError>(x) {
                let i = choose|i: int| 0 <= i < files@.len() && normalized(#[trigger] files@[i]@) == Ok::<Seq<char>, PathError>(x);
                assert(views(normalized_paths@)[i] == x);
                assert(seq_has(views(normalized_paths@), x));
            }
        }
    }
    Ok(paths)
}

/// Of the nodes matching a path, there is one first unrelated pair.
proof fn lemma_unrelated_pair_unique(v: ValidatedConfig, path: Seq<char>, a: Seq<char>, b: Seq<char>, c: Seq<char>, d: Seq<char>)
    requires
        unrelated_pair(v, path, a, b),
        unrelated_pair(v, path, c, d),
    ensures
        a == c && b == d,
{
    let (r, i, j) = choose|r: Seq<Seq<char>>, i: int, j: int| ranked(v, path, r) && first_unrelated(r, i, j) && r[i] == a && r[j] == b;
    let (s, x, y) = choose|s: Seq<Seq<char>>, x: int, y: int| ranked(v, path, s) && first_unrelated(s, x, y) && s[x] == c && s[y] == d;
    lemma_ranked_unique(v, path, r, s);
    if i < x || (i == x && j < y) {
        assert(related(s[i], s[j]));
    } else if x < i || (x == i && y < j) {
        assert(related(r[x], r[y]));
    }
}

proof fn lemma_ranked_unique(v: ValidatedConfig, path: Seq<char>, r: Seq<Seq<char>>, s: Seq<Seq<char>>)
    requires
        ranked(v, path, r),
        ranked(v, path, s),
    ensures
        r == s,
{
    lemma_rank_sorted_unique(r, s);
}

proof fn lemma_rank_asymmetric(a: Seq<char>, b: Seq<char>)
    requires
        rank_lt(a, b),
    ensures
        !rank_lt(b, a),
        a != b,
{
    if dots(a) == dots(b) && lex_lt(b, a) {
        crate::order::lemma_lex_antisymmetric(a, b);
    }
}

proof fn lemma_rank_sorted_unique(r: Seq<Seq<char>>, s: Seq<Seq<char>>)
    requires
        forall|i: int, j: int| 0 <= i < j < r.len() ==> rank_lt(#[trigger] r[i], #[trigger] r[j]),
        forall|i: int, j: int| 0 <= i < j < s.len() ==> rank_lt(#[trigger] s[i], #[trigger] s[j]),
        forall|x: Seq<char>| #[trigger] seq_has(r, x) <==> seq_has(s, x),
    ensures
        r == s,
    decreases r.len(),
{
    if r.len() == 0 {
        if s.len() > 0 {
            assert(seq_has(s, s[0]));
            assert(!seq_has(r, s[0]));
        }
        assert(r =~= s);
    } else {
        assert(seq_has(r, r[0]));
        assert(seq_has(s, r[0]));
        let k = choose|k: int| 0 <= k < s.len() && s[k] == r[0];
        if s.len() == 0 {
            assert(false);
        }
        assert(seq_has(s, s[0]));
        assert(seq_has(r, s[0]));
        let m = choose|m: int| 0 <= m < r.len() && r[m] == s[0];
        if k > 0 && m > 0 {
            assert(rank_lt(s[0], s[k]));
            assert(rank_lt(r[0], r[m]));
            lemma_rank_asymmetric(r[0], r[m]);
        }
        assert(r[0] == s[0]);
        let r1 = r.drop_first();
        let s1 = s.drop_first();
        assert forall|x: Seq<char>| #[trigger] seq_has(r1, x) <==> seq_has(s1, x) by {
            if seq_has(r1, x) {
                let i = choose|i: int| 0 <= i < r1.len() && r1[i] == x;
                assert(r[i + 1] == x);
                assert(seq_has(r, x));
                assert(seq_has(s, x));
                lemma_rank_asymmetric(r[0], r[i + 1]);
                let j = choose|j: int| 0 <= j < s.len() && s[j] == x;
                assert(j != 0);
                assert(s1[j - 1] == x);
            }
            if seq_has(s1, x) {
                let i = choose|i: int| 0 <= i < s1.len() && s1[i] == x;
                assert(s[i + 1] == x);
                assert(seq_has(s, x));
                assert(seq_has(r, x));
                lemma_rank_asymmetric(s[0], s[i + 1]);
                let j = choose|j: int| 0 <= j < r.len() && r[j] == x;
                assert(j != 0);
                assert(r1[j - 1] == x);
            }
        }
        assert forall|i: int, j: int| 0 <= i < j < r1.len() implies rank_lt(#[trigger] r1[i], #[trigger] r1[j]) by {
            assert(r1[i] == r[i + 1] && r1[j] == r[j + 1]);
        }
        assert forall|i: int, j: int| 0 <= i < j < s1.len() implies rank_lt(#[trigger] s1[i], #[trigger] s1[j]) by {
            assert(s1[i] == s[i + 1] && s1[j] == s[j + 1]);
        }
        lemma_rank_sorted_unique(r1, s1);
        assert(r =~= s) by {
            assert forall|i: int| 0 <= i < r.len() implies r[i] == s[i] by {
                if i > 0 {
                    assert(r[i] == r1[i - 1] && s[i] == s1[i - 1]);
                }
            }
        }
    }
}

} // verus!
