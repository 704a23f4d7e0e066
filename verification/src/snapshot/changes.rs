//! What changed between a snapshot and the live architecture: files added,
//! removed, moved or reassigned, dependencies gained and lost, and violation
//! observations that appeared or went away.
use vstd::prelude::*;
use crate::config::{is_within, overlaps, within};
use crate::model::CompiledFile;
use crate::evidence::{key_order, lemma_key_order, lemma_key_order_trans, order_of_text, ResolvedEdge};
use crate::order::{lex_lt, seq_has, sorted_unique, strictly_sorted};
use crate::strmap::StrMap;
use crate::text::{copy_opt, opt_view, str_eq, views};
use super::{Diff, FileChange, FileMove, Reassignment, Snapshot};
use crate::model::ArchitectureIr;
use crate::baseline::BaselineEntry;
use crate::evidence::{lemma_text_order, lemma_text_order_trans, text_order};

verus! {

/// Some file of the list has the path.
pub open spec fn has_path(files: Seq<CompiledFile>, p: Seq<char>) -> bool {
    exists|i: int| 0 <= i < files.len() && (#[trigger] files[i]).path@ == p
}

/// The node of the last file listed under the path, as a map collected from
/// the list keeps it.
pub open spec fn file_owner(files: Seq<CompiledFile>, p: Seq<char>) -> Option<Seq<char>>
    decreases files.len(),
{
    if files.len() == 0 {
        None
    } else if files.last().path@ == p {
        opt_view(files.last().node)
    } else {
        file_owner(files.drop_last(), p)
    }
}

/// A rename that a diff follows: the old file is gone, the new one is new.
pub open spec fn follows(before: Seq<CompiledFile>, after: Seq<CompiledFile>, old: Seq<char>, new: Seq<char>) -> bool {
    &&& has_path(before, old)
    &&& !has_path(after, old)
    &&& has_path(after, new)
    &&& !has_path(before, new)
}

/// Where a snapshot's file went, when it was renamed and the rename is
/// followed.
pub open spec fn followed(before: Seq<CompiledFile>, after: Seq<CompiledFile>, renames: StrMap<String>, old: Seq<char>) -> Option<Seq<char>> {
    match renames.lookup(old) {
        Some(n) => if follows(before, after, old, n@) {
            Some(n@)
        } else {
            None
        },
        None => None,
    }
}

/// A snapshot path moved to where its file is now.
pub open spec fn moved(before: Seq<CompiledFile>, after: Seq<CompiledFile>, renames: StrMap<String>, p: Seq<char>) -> Seq<char> {
    match followed(before, after, renames, p) {
        Some(n) => n,
        None => p,
    }
}

/// The `i`-th rename is followed and leads to `p`.
pub open spec fn renamed_to(before: Seq<CompiledFile>, after: Seq<CompiledFile>, renames: StrMap<String>, i: int, p: Seq<char>) -> bool {
    &&& 0 <= i < renames.keys().len()
    &&& follows(before, after, renames.keys()[i], renames.values()[i]@)
    &&& renames.values()[i]@ == p
}

/// The first old path, in order, whose followed rename leads to `p`.
pub open spec fn rename_source(before: Seq<CompiledFile>, after: Seq<CompiledFile>, renames: StrMap<String>, p: Seq<char>) -> Option<Seq<char>> {
    if exists|i: int| #[trigger] renamed_to(before, after, renames, i, p) {
        let i = choose|i: int| #[trigger] renamed_to(before, after, renames, i, p) && forall|j: int| 0 <= j < i ==> !renamed_to(before, after, renames, j, p);
        Some(renames.keys()[i])
    } else {
        None
    }
}

/// A change touches the scope: there is none, or the node lies within it.
pub open spec fn in_scope(scope: Option<Seq<char>>, node: Option<Seq<char>>) -> bool {
    match scope {
        None => true,
        Some(s) => match node {
            Some(n) => within(n, s),
            None => false,
        },
    }
}

pub open spec fn change_view(c: FileChange) -> (Seq<char>, Option<Seq<char>>) {
    (c.path@, opt_view(c.node))
}

pub open spec fn move_view(m: FileMove) -> (Seq<char>, Seq<char>, Option<Seq<char>>, Option<Seq<char>>) {
    (m.from@, m.to@, opt_view(m.node_before), opt_view(m.node_after))
}

pub open spec fn reassign_view(r: Reassignment) -> (Seq<char>, Option<Seq<char>>, Option<Seq<char>>) {
    (r.path@, opt_view(r.node_before), opt_view(r.node_after))
}

/// A file of the live architecture that is new: no followed rename leads to
/// it and the snapshot did not have it.
pub open spec fn added_file(before: Seq<CompiledFile>, after: Seq<CompiledFile>, renames: StrMap<String>, scope: Option<Seq<char>>, p: Seq<char>) -> bool {
    &&& has_path(after, p)
    &&& rename_source(before, after, renames, p) is None
    &&& !has_path(before, p)
    &&& in_scope(scope, file_owner(after, p))
}

/// A snapshot file that is gone and was not followed to a new path.
pub open spec fn removed_file(before: Seq<CompiledFile>, after: Seq<CompiledFile>, renames: StrMap<String>, scope: Option<Seq<char>>, p: Seq<char>) -> bool {
    &&& has_path(before, p)
    &&& !has_path(after, p)
    &&& followed(before, after, renames, p) is None
    &&& in_scope(scope, file_owner(before, p))
}

/// A file that stayed where it was but whose owning node changed.
pub open spec fn reassigned_file(before: Seq<CompiledFile>, after: Seq<CompiledFile>, renames: StrMap<String>, scope: Option<Seq<char>>, p: Seq<char>) -> bool {
    &&& has_path(after, p)
    &&& rename_source(before, after, renames, p) is None
    &&& has_path(before, p)
    &&& file_owner(before, p) != file_owner(after, p)
    &&& (in_scope(scope, file_owner(after, p)) || in_scope(scope, file_owner(before, p)))
}

/// A snapshot file followed to its new path, the first one to lead there.
#[verifier::opaque]
pub open spec fn moved_file(before: Seq<CompiledFile>, after: Seq<CompiledFile>, renames: StrMap<String>, scope: Option<Seq<char>>, old: Seq<char>) -> bool {
    match followed(before, after, renames, old) {
        Some(n) => {
            &&& rename_source(before, after, renames, n) == Some(old)
            &&& (in_scope(scope, file_owner(after, n)) || in_scope(scope, file_owner(before, old)))
        },
        None => false,
    }
}

fn has_file(files: &Vec<CompiledFile>, p: &str) -> (r: bool)
    ensures
        r == has_path(files@, p@),
{
    let mut i: usize = 0;
    while i < files.len()
        invariant
            i <= files@.len(),
            forall|k: int| 0 <= k < i ==> (#[trigger] files@[k]).path@ != p@,
        decreases files@.len() - i,
    {
        if str_eq(files[i].path.as_str(), p) {
            return true;
        }
        i = i + 1;
    }
    false
}

fn owner_of_file(files: &Vec<CompiledFile>, p: &str) -> (r: Option<String>)
    ensures
        opt_view(r) == file_owner(files@, p@),
{
    let mut k = files.len();
    proof {
        assert(files@.take(k as int) =~= files@);
    }
    while k > 0
        invariant
            k <= files@.len(),
            file_owner(files@, p@) == file_owner(files@.take(k as int), p@),
        decreases k,
    {
        proof {
            assert(files@.take(k as int).drop_last() =~= files@.take(k - 1));
            assert(files@.take(k as int).last() == files@[k - 1]);
        }
        if str_eq(files[k - 1].path.as_str(), p) {
            return copy_opt(&files[k - 1].node);
        }
        k = k - 1;
    }
    proof {
        assert(files@.take(0) =~= Seq::<CompiledFile>::empty());
    }
    None
}

/// The paths of the files, ascending without repetitions.
fn file_paths(files: &Vec<CompiledFile>) -> (r: Vec<String>)
    ensures
        strictly_sorted(views(r@)),
        forall|x: Seq<char>| #[trigger] seq_has(views(r@), x) <==> has_path(files@, x),
{
    let mut all: Vec<String> = Vec::new();
    let mut i: usize = 0;
    while i < files.len()
        invariant
            i <= files@.len(),
            all@.len() == i,
            forall|k: int| 0 <= k < i ==> (#[trigger] all@[k])@ == files@[k].path@,
        decreases files@.len() - i,
    {
        all.push(files[i].path.clone());
        i = i + 1;
    }
    let r = sorted_unique(&all);
    proof {
        assert forall|x: Seq<char>| #[trigger] seq_has(views(r@), x) <==> has_path(files@, x) by {
            if seq_has(views(all@), x) {
                let k = choose|k: int| 0 <= k < views(all@).len() && views(all@)[k] == x;
                assert(files@[k].path@ == x);
            }
            if has_path(files@, x) {
                let k = choose|k: int| 0 <= k < files@.len() && (#[trigger] files@[k]).path@ == x;
                assert(views(all@)[k] == x);
            }
        }
    }
    r
}

pub(crate) fn followed_exec(before: &Vec<CompiledFile>, after: &Vec<CompiledFile>, renames: &StrMap<String>, old: &str) -> (r: Option<String>)
    ensures
        opt_view(r) == followed(before@, after@, *renames, old@),
{
    match renames.get(old) {
        Some(n) => {
            if has_file(before, old) && !has_file(after, old) && has_file(after, n.as_str()) && !has_file(before, n.as_str()) {
                Some(n.clone())
            } else {
                None
            }
        },
        None => None,
    }
}

fn moved_exec(before: &Vec<CompiledFile>, after: &Vec<CompiledFile>, renames: &StrMap<String>, p: &str) -> (r: String)
    ensures
        r@ == moved(before@, after@, *renames, p@),
{
    match followed_exec(before, after, renames, p) {
        Some(n) => n,
        None => String::from_str(p),
    }
}

fn rename_source_exec(before: &Vec<CompiledFile>, after: &Vec<CompiledFile>, renames: &StrMap<String>, p: &str) -> (r: Option<String>)
    ensures
        opt_view(r) == rename_source(before@, after@, *renames, p@),
{
    let mut i: usize = 0;
    while i < renames.len()
        invariant
            i <= renames.keys().len(),
            forall|j: int| 0 <= j < i ==> !#[trigger] renamed_to(before@, after@, *renames, j, p@),
        decreases renames.keys().len() - i,
    {
        let old = renames.key(i);
        let new = renames.value(i);
        if str_eq(new.as_str(), p) && has_file(before, old.as_str()) && !has_file(after, old.as_str())
            && has_file(after, new.as_str()) && !has_file(before, new.as_str()) {
            proof {
                assert(renamed_to(before@, after@, *renames, i as int, p@));
                let c = choose|c: int| #[trigger] renamed_to(before@, after@, *renames, c, p@) && forall|j: int| 0 <= j < c ==> !renamed_to(before@, after@, *renames, j, p@);
                if c < i {
                } else if c > i {
                    assert(!renamed_to(before@, after@, *renames, i as int, p@));
                }
            }
            return Some(old.clone());
        }
        proof {
            assert(!renamed_to(before@, after@, *renames, i as int, p@));
        }
        i = i + 1;
    }
    proof {
        assert(!exists|c: int| #[trigger] renamed_to(before@, after@, *renames, c, p@));
    }
    None
}

fn scoped(scope: Option<&str>, node: &Option<String>) -> (r: bool)
    ensures
        r == in_scope(crate::projection::zoom::opt_str(scope), opt_view(*node)),
{
    match scope {
        None => true,
        Some(s) => match node {
            Some(n) => is_within(n.as_str(), s),
            None => false,
        },
    }
}

pub open spec fn added_fit(before: Seq<CompiledFile>, after: Seq<CompiledFile>, renames: StrMap<String>, scope: Option<Seq<char>>, s: Seq<FileChange>) -> bool {
    &&& forall|i: int, j: int| 0 <= i < j < s.len() ==> lex_lt((#[trigger] s[i]).path@, (#[trigger] s[j]).path@)
    &&& forall|x: Seq<char>| #[trigger] added_file(before, after, renames, scope, x) <==> exists|i: int| 0 <= i < s.len() && (#[trigger] s[i]).path@ == x
    &&& forall|i: int| 0 <= i < s.len() ==> opt_view((#[trigger] s[i]).node) == file_owner(after, s[i].path@)
}

pub open spec fn removed_fit(before: Seq<CompiledFile>, after: Seq<CompiledFile>, renames: StrMap<String>, scope: Option<Seq<char>>, s: Seq<FileChange>) -> bool {
    &&& forall|i: int, j: int| 0 <= i < j < s.len() ==> lex_lt((#[trigger] s[i]).path@, (#[trigger] s[j]).path@)
    &&& forall|x: Seq<char>| #[trigger] removed_file(before, after, renames, scope, x) <==> exists|i: int| 0 <= i < s.len() && (#[trigger] s[i]).path@ == x
    &&& forall|i: int| 0 <= i < s.len() ==> opt_view((#[trigger] s[i]).node) == file_owner(before, s[i].path@)
}

pub open spec fn reassigned_fit(before: Seq<CompiledFile>, after: Seq<CompiledFile>, renames: StrMap<String>, scope: Option<Seq<char>>, s: Seq<Reassignment>) -> bool {
    &&& forall|i: int, j: int| 0 <= i < j < s.len() ==> lex_lt((#[trigger] s[i]).path@, (#[trigger] s[j]).path@)
    &&& forall|x: Seq<char>| #[trigger] reassigned_file(before, after, renames, scope, x) <==> exists|i: int| 0 <= i < s.len() && (#[trigger] s[i]).path@ == x
    &&& forall|i: int| 0 <= i < s.len() ==> opt_view((#[trigger] s[i]).node_before) == file_owner(before, s[i].path@)
        && opt_view(s[i].node_after) == file_owner(after, s[i].path@)
}

pub open spec fn moved_fit(before: Seq<CompiledFile>, after: Seq<CompiledFile>, renames: StrMap<String>, scope: Option<Seq<char>>, s: Seq<FileMove>) -> bool {
    &&& forall|i: int, j: int| 0 <= i < j < s.len() ==> lex_lt((#[trigger] s[i]).from@, (#[trigger] s[j]).from@)
    &&& forall|x: Seq<char>| #[trigger] moved_file(before, after, renames, scope, x) <==> exists|i: int| 0 <= i < s.len() && (#[trigger] s[i]).from@ == x
    &&& forall|i: int| 0 <= i < s.len() ==> Some((#[trigger] s[i]).to@) == followed(before, after, renames, s[i].from@)
        && opt_view(s[i].node_before) == file_owner(before, s[i].from@)
        && opt_view(s[i].node_after) == file_owner(after, s[i].to@)
}

/// The files added since the snapshot and those reassigned, each by path.
fn added_and_reassigned(before: &Vec<CompiledFile>, after: &Vec<CompiledFile>, renames: &StrMap<String>, scope: Option<&str>) -> (r: (Vec<FileChange>, Vec<Reassignment>))
    ensures
        added_fit(before@, after@, *renames, crate::projection::zoom::opt_str(scope), r.0@),
        reassigned_fit(before@, after@, *renames, crate::projection::zoom::opt_str(scope), r.1@),
{
    let ghost sc = crate::projection::zoom::opt_str(scope);
    let paths = file_paths(after);
    let ghost ps = views(paths@);
    let mut added: Vec<FileChange> = Vec::new();
    let mut reassigned: Vec<Reassignment> = Vec::new();
    let mut t: usize = 0;
    while t < paths.len()
        invariant
            t <= paths@.len(),
            ps == views(paths@),
            sc == crate::projection::zoom::opt_str(scope),
            strictly_sorted(ps),
            forall|x: Seq<char>| #[trigger] seq_has(ps, x) <==> has_path(after@, x),
            forall|i: int, j: int| 0 <= i < j < added@.len() ==> lex_lt((#[trigger] added@[i]).path@, (#[trigger] added@[j]).path@),
            forall|x: Seq<char>| (#[trigger] added_file(before@, after@, *renames, sc, x) && exists|k: int| 0 <= k < t && ps[k] == x)
                <==> exists|i: int| 0 <= i < added@.len() && (#[trigger] added@[i]).path@ == x,
            forall|i: int| 0 <= i < added@.len() ==> exists|k: int| 0 <= k < t && ps[k] == (#[trigger] added@[i]).path@,
            forall|i: int| 0 <= i < added@.len() ==> opt_view((#[trigger] added@[i]).node) == file_owner(after@, added@[i].path@),
            forall|i: int, j: int| 0 <= i < j < reassigned@.len() ==> lex_lt((#[trigger] reassigned@[i]).path@, (#[trigger] reassigned@[j]).path@),
            forall|x: Seq<char>| (#[trigger] reassigned_file(before@, after@, *renames, sc, x) && exists|k: int| 0 <= k < t && ps[k] == x)
                <==> exists|i: int| 0 <= i < reassigned@.len() && (#[trigger] reassigned@[i]).path@ == x,
            forall|i: int| 0 <= i < reassigned@.len() ==> exists|k: int| 0 <= k < t && ps[k] == (#[trigger] reassigned@[i]).path@,
            forall|i: int| 0 <= i < reassigned@.len() ==> opt_view((#[trigger] reassigned@[i]).node_before) == file_owner(before@, reassigned@[i].path@)
                && opt_view(reassigned@[i].node_after) == file_owner(after@, reassigned@[i].path@),
        decreases paths@.len() - t,
    {
        let p = paths[t].as_str();
        let ghost x = ps[t as int];
        proof {
            assert(x == p@);
            assert(seq_has(ps, x));
        }
        let node = owner_of_file(after, p);
        let source = rename_source_exec(before, after, renames, p);
        let ghost a0 = added@;
        let ghost r0 = reassigned@;
        if source.is_none() {
            if !has_file(before, p) {
                if scoped(scope, &node) {
                    added.push(FileChange { path: paths[t].clone(), node: copy_opt(&node) });
                }
            } else {
                let before_node = owner_of_file(before, p);
                let same = match (&before_node, &node) {
                    (Some(a), Some(b)) => str_eq(a.as_str(), b.as_str()),
                    (None, None) => true,
                    _ => false,
                };
                proof {
                    assert(same == (opt_view(before_node) == opt_view(node)));
                }
                if !same && (scoped(scope, &node) || scoped(scope, &before_node)) {
                    reassigned.push(Reassignment { path: paths[t].clone(), node_before: before_node, node_after: copy_opt(&node) });
                }
            }
        }
        proof {
            assert forall|i: int| 0 <= i < a0.len() implies lex_lt(#[trigger] a0[i].path@, x) by {
                let k = choose|k: int| 0 <= k < t && ps[k] == a0[i].path@;
            }
            assert forall|i: int| 0 <= i < r0.len() implies lex_lt(#[trigger] r0[i].path@, x) by {
                let k = choose|k: int| 0 <= k < t && ps[k] == r0[i].path@;
            }
            assert forall|i: int, j: int| 0 <= i < j < added@.len() implies lex_lt((#[trigger] added@[i]).path@, (#[trigger] added@[j]).path@) by {
                if j < a0.len() {
                    assert(added@[i] == a0[i] && added@[j] == a0[j]);
                } else {
                    assert(added@[i] == a0[i]);
                }
            }
            assert forall|i: int, j: int| 0 <= i < j < reassigned@.len() implies lex_lt((#[trigger] reassigned@[i]).path@, (#[trigger] reassigned@[j]).path@) by {
                if j < r0.len() {
                    assert(reassigned@[i] == r0[i] && reassigned@[j] == r0[j]);
                } else {
                    assert(reassigned@[i] == r0[i]);
                }
            }
            assert forall|y: Seq<char>| (#[trigger] added_file(before@, after@, *renames, sc, y) && exists|k: int| 0 <= k < t + 1 && ps[k] == y)
                <==> exists|i: int| 0 <= i < added@.len() && (#[trigger] added@[i]).path@ == y by {
                if exists|i: int| 0 <= i < added@.len() && (#[trigger] added@[i]).path@ == y {
                    let i = choose|i: int| 0 <= i < added@.len() && (#[trigger] added@[i]).path@ == y;
                    if i < a0.len() {
                        assert(added@[i] == a0[i]);
                    }
                }
                if added_file(before@, after@, *renames, sc, y) && exists|k: int| 0 <= k < t + 1 && ps[k] == y {
                    let k = choose|k: int| 0 <= k < t + 1 && ps[k] == y;
                    if k < t {
                        let i = choose|i: int| 0 <= i < a0.len() && (#[trigger] a0[i]).path@ == y;
                        assert(added@[i] == a0[i]);
                    } else {
                        assert(added@[a0.len() as int].path@ == y);
                    }
                }
            }
            assert forall|y: Seq<char>| (#[trigger] reassigned_file(before@, after@, *renames, sc, y) && exists|k: int| 0 <= k < t + 1 && ps[k] == y)
                <==> exists|i: int| 0 <= i < reassigned@.len() && (#[trigger] reassigned@[i]).path@ == y by {
                if exists|i: int| 0 <= i < reassigned@.len() && (#[trigger] reassigned@[i]).path@ == y {
                    let i = choose|i: int| 0 <= i < reassigned@.len() && (#[trigger] reassigned@[i]).path@ == y;
                    if i < r0.len() {
                        assert(reassigned@[i] == r0[i]);
                    }
                }
                if reassigned_file(before@, after@, *renames, sc, y) && exists|k: int| 0 <= k < t + 1 && ps[k] == y {
                    let k = choose|k: int| 0 <= k < t + 1 && ps[k] == y;
                    if k < t {
                        let i = choose|i: int| 0 <= i < r0.len() && (#[trigger] r0[i]).path@ == y;
                        assert(reassigned@[i] == r0[i]);
                    } else {
                        assert(reassigned@[r0.len() as int].path@ == y);
                    }
                }
            }
            assert forall|i: int| 0 <= i < added@.len() implies exists|k: int| 0 <= k < t + 1 && ps[k] == (#[trigger] added@[i]).path@ by {
                if i < a0.len() {
                    assert(added@[i] == a0[i]);
                    let k = choose|k: int| 0 <= k < t && ps[k] == a0[i].path@;
                } else {
                    assert(ps[t as int] == added@[i].path@);
                }
            }
            assert forall|i: int| 0 <= i < reassigned@.len() implies exists|k: int| 0 <= k < t + 1 && ps[k] == (#[trigger] reassigned@[i]).path@ by {
                if i < r0.len() {
                    assert(reassigned@[i] == r0[i]);
                    let k = choose|k: int| 0 <= k < t && ps[k] == r0[i].path@;
                } else {
                    assert(ps[t as int] == reassigned@[i].path@);
                }
            }
        }
        t = t + 1;
    }
    proof {
        assert forall|x: Seq<char>| #[trigger] added_file(before@, after@, *renames, sc, x) <==> exists|i: int| 0 <= i < added@.len() && (#[trigger] added@[i]).path@ == x by {
            if added_file(before@, after@, *renames, sc, x) {
                assert(seq_has(ps, x));
                let k = choose|k: int| 0 <= k < ps.len() && ps[k] == x;
            }
        }
        assert forall|x: Seq<char>| #[trigger] reassigned_file(before@, after@, *renames, sc, x) <==> exists|i: int| 0 <= i < reassigned@.len() && (#[trigger] reassigned@[i]).path@ == x by {
            if reassigned_file(before@, after@, *renames, sc, x) {
                assert(seq_has(ps, x));
                let k = choose|k: int| 0 <= k < ps.len() && ps[k] == x;
            }
        }
    }
    (added, reassigned)
}

/// The snapshot's files that are gone, by path.
fn removed_files(before: &Vec<CompiledFile>, after: &Vec<CompiledFile>, renames: &StrMap<String>, scope: Option<&str>) -> (r: Vec<FileChange>)
    ensures
        removed_fit(before@, after@, *renames, crate::projection::zoom::opt_str(scope), r@),
{
    let ghost sc = crate::projection::zoom::opt_str(scope);
    let paths = file_paths(before);
    let ghost ps = views(paths@);
    let mut out: Vec<FileChange> = Vec::new();
    let mut t: usize = 0;
    while t < paths.len()
        invariant
            t <= paths@.len(),
            ps == views(paths@),
            sc == crate::projection::zoom::opt_str(scope),
            strictly_sorted(ps),
            forall|x: Seq<char>| #[trigger] seq_has(ps, x) <==> has_path(before@, x),
            forall|i: int, j: int| 0 <= i < j < out@.len() ==> lex_lt((#[trigger] out@[i]).path@, (#[trigger] out@[j]).path@),
            forall|x: Seq<char>| (#[trigger] removed_file(before@, after@, *renames, sc, x) && exists|k: int| 0 <= k < t && ps[k] == x)
                <==> exists|i: int| 0 <= i < out@.len() && (#[trigger] out@[i]).path@ == x,
            forall|i: int| 0 <= i < out@.len() ==> exists|k: int| 0 <= k < t && ps[k] == (#[trigger] out@[i]).path@,
            forall|i: int| 0 <= i < out@.len() ==> opt_view((#[trigger] out@[i]).node) == file_owner(before@, out@[i].path@),
        decreases paths@.len() - t,
    {
        let p = paths[t].as_str();
        let ghost x = ps[t as int];
        proof {
            assert(x == p@);
            assert(seq_has(ps, x));
        }
        let ghost o0 = out@;
        if !has_file(after, p) && followed_exec(before, after, renames, p).is_none() {
            let node = owner_of_file(before, p);
            if scoped(scope, &node) {
                out.push(FileChange { path: paths[t].clone(), node });
            }
        }
        proof {
            assert forall|i: int| 0 <= i < o0.len() implies lex_lt(#[trigger] o0[i].path@, x) by {
                let k = choose|k: int| 0 <= k < t && ps[k] == o0[i].path@;
            }
            assert forall|i: int, j: int| 0 <= i < j < out@.len() implies lex_lt((#[trigger] out@[i]).path@, (#[trigger] out@[j]).path@) by {
                if j < o0.len() {
                    assert(out@[i] == o0[i] && out@[j] == o0[j]);
                } else {
                    assert(out@[i] == o0[i]);
                }
            }
            assert forall|y: Seq<char>| (#[trigger] removed_file(before@, after@, *renames, sc, y) && exists|k: int| 0 <= k < t + 1 && ps[k] == y)
                <==> exists|i: int| 0 <= i < out@.len() && (#[trigger] out@[i]).path@ == y by {
                if exists|i: int| 0 <= i < out@.len() && (#[trigger] out@[i]).path@ == y {
                    let i = choose|i: int| 0 <= i < out@.len() && (#[trigger] out@[i]).path@ == y;
                    if i < o0.len() {
                        assert(out@[i] == o0[i]);
                    }
                }
                if removed_file(before@, after@, *renames, sc, y) && exists|k: int| 0 <= k < t + 1 && ps[k] == y {
                    let k = choose|k: int| 0 <= k < t + 1 && ps[k] == y;
                    if k < t {
                        let i = choose|i: int| 0 <= i < o0.len() && (#[trigger] o0[i]).path@ == y;
                        assert(out@[i] == o0[i]);
                    } else {
                        assert(out@[o0.len() as int].path@ == y);
                    }
                }
            }
            assert forall|i: int| 0 <= i < out@.len() implies exists|k: int| 0 <= k < t + 1 && ps[k] == (#[trigger] out@[i]).path@ by {
                if i < o0.len() {
                    assert(out@[i] == o0[i]);
                    let k = choose|k: int| 0 <= k < t && ps[k] == o0[i].path@;
                } else {
                    assert(ps[t as int] == out@[i].path@);
                }
            }
        }
        t = t + 1;
    }
    proof {
        assert forall|x: Seq<char>| #[trigger] removed_file(before@, after@, *renames, sc, x) <==> exists|i: int| 0 <= i < out@.len() && (#[trigger] out@[i]).path@ == x by {
            if removed_file(before@, after@, *renames, sc, x) {
                assert(seq_has(ps, x));
                let k = choose|k: int| 0 <= k < ps.len() && ps[k] == x;
            }
        }
    }
    out
}

/// The move of the snapshot file `old`, if it is one.
fn move_of(before: &Vec<CompiledFile>, after: &Vec<CompiledFile>, renames: &StrMap<String>, scope: Option<&str>, old: &str) -> (r: Option<FileMove>)
    ensures
        r is Some <==> moved_file(before@, after@, *renames, crate::projection::zoom::opt_str(scope), old@),
        r matches Some(m) ==> m.from@ == old@ && Some(m.to@) == followed(before@, after@, *renames, old@)
            && opt_view(m.node_before) == file_owner(before@, old@) && opt_view(m.node_after) == file_owner(after@, m.to@),
{
    reveal(moved_file);
    let new = match followed_exec(before, after, renames, old) {
        Some(n) => n,
        None => {
            return None;
        },
    };
    let first = match rename_source_exec(before, after, renames, new.as_str()) {
        Some(f) => f,
        None => {
            return None;
        },
    };
    if !str_eq(first.as_str(), old) {
        return None;
    }
    let node_after = owner_of_file(after, new.as_str());
    let node_before = owner_of_file(before, old);
    if scoped(scope, &node_after) || scoped(scope, &node_before) {
        Some(FileMove { from: String::from_str(old), to: new, node_before, node_after })
    } else {
        None
    }
}

/// The snapshot's files followed to new paths, by old path.
fn moved_files(before: &Vec<CompiledFile>, after: &Vec<CompiledFile>, renames: &StrMap<String>, scope: Option<&str>) -> (r: Vec<FileMove>)
    ensures
        moved_fit(before@, after@, *renames, crate::projection::zoom::opt_str(scope), r@),
{
    let ghost sc = crate::projection::zoom::opt_str(scope);
    renames.keys_sorted();
    let ghost ks = renames.keys();
    let mut out: Vec<FileMove> = Vec::new();
    let mut t: usize = 0;
    while t < renames.len()
        invariant
            t <= ks.len(),
            ks == renames.keys(),
            sc == crate::projection::zoom::opt_str(scope),
            strictly_sorted(ks),
            forall|i: int, j: int| 0 <= i < j < out@.len() ==> lex_lt((#[trigger] out@[i]).from@, (#[trigger] out@[j]).from@),
            forall|x: Seq<char>| (#[trigger] moved_file(before@, after@, *renames, sc, x) && exists|k: int| 0 <= k < t && ks[k] == x)
                <==> exists|i: int| 0 <= i < out@.len() && (#[trigger] out@[i]).from@ == x,
            forall|i: int| 0 <= i < out@.len() ==> exists|k: int| 0 <= k < t && ks[k] == (#[trigger] out@[i]).from@,
            forall|i: int| 0 <= i < out@.len() ==> Some((#[trigger] out@[i]).to@) == followed(before@, after@, *renames, out@[i].from@)
                && opt_view(out@[i].node_before) == file_owner(before@, out@[i].from@)
                && opt_view(out@[i].node_after) == file_owner(after@, out@[i].to@),
        decreases ks.len() - t,
    {
        let old = renames.key(t).as_str();
        let ghost x = ks[t as int];
        let ghost o0 = out@;
        proof {
            assert(x == old@);
        }
        match move_of(before, after, renames, scope, old) {
            Some(m) => out.push(m),
            None => {},
        }
        proof {
            assert forall|i: int| 0 <= i < o0.len() implies lex_lt(#[trigger] o0[i].from@, x) by {
                let k = choose|k: int| 0 <= k < t && ks[k] == o0[i].from@;
            }
            assert forall|i: int, j: int| 0 <= i < j < out@.len() implies lex_lt((#[trigger] out@[i]).from@, (#[trigger] out@[j]).from@) by {
                if j < o0.len() {
                    assert(out@[i] == o0[i] && out@[j] == o0[j]);
                } else {
                    assert(out@[i] == o0[i]);
                }
            }
            assert forall|y: Seq<char>| (#[trigger] moved_file(before@, after@, *renames, sc, y) && exists|k: int| 0 <= k < t + 1 && ks[k] == y)
                <==> exists|i: int| 0 <= i < out@.len() && (#[trigger] out@[i]).from@ == y by {
                if exists|i: int| 0 <= i < out@.len() && (#[trigger] out@[i]).from@ == y {
                    let i = choose|i: int| 0 <= i < out@.len() && (#[trigger] out@[i]).from@ == y;
                    if i < o0.len() {
                        assert(out@[i] == o0[i]);
                    }
                }
                if moved_file(before@, after@, *renames, sc, y) && exists|k: int| 0 <= k < t + 1 && ks[k] == y {
                    let k = choose|k: int| 0 <= k < t + 1 && ks[k] == y;
                    if k < t {
                        let i = choose|i: int| 0 <= i < o0.len() && (#[trigger] o0[i]).from@ == y;
                        assert(out@[i] == o0[i]);
                    } else {
                        assert(out@[o0.len() as int].from@ == y);
                    }
                }
            }
            assert forall|i: int| 0 <= i < out@.len() implies exists|k: int| 0 <= k < t + 1 && ks[k] == (#[trigger] out@[i]).from@ by {
                if i < o0.len() {
                    assert(out@[i] == o0[i]);
                    let k = choose|k: int| 0 <= k < t && ks[k] == o0[i].from@;
                } else {
                    assert(ks[t as int] == out@[i].from@);
                }
            }
        }
        t = t + 1;
    }
    proof {
        reveal(moved_file);
        assert forall|x: Seq<char>| #[trigger] moved_file(before@, after@, *renames, sc, x) <==> exists|i: int| 0 <= i < out@.len() && (#[trigger] out@[i]).from@ == x by {
            if moved_file(before@, after@, *renames, sc, x) {
                assert(seq_has(ks, x));
                let k = choose|k: int| 0 <= k < ks.len() && ks[k] == x;
            }
        }
    }
    out
}

/// The file-level key of a dependency: source file, target file, kind.
pub open spec fn after_key(e: ResolvedEdge) -> (Seq<char>, Seq<char>, Seq<char>) {
    (e.evidence.from_file@, e.evidence.to_file@, e.kind@)
}

/// The key of a snapshot dependency, its files moved to where they are now.
pub open spec fn before_key(before: Seq<CompiledFile>, after: Seq<CompiledFile>, renames: StrMap<String>, e: ResolvedEdge) -> (Seq<char>, Seq<char>, Seq<char>) {
    (moved(before, after, renames, e.evidence.from_file@), moved(before, after, renames, e.evidence.to_file@), e.kind@)
}

pub open spec fn after_keys(edges: Seq<ResolvedEdge>) -> Seq<(Seq<char>, Seq<char>, Seq<char>)>
    decreases edges.len(),
{
    if edges.len() == 0 {
        Seq::empty()
    } else {
        after_keys(edges.drop_last()).push(after_key(edges.last()))
    }
}

pub open spec fn before_keys(before: Seq<CompiledFile>, after: Seq<CompiledFile>, renames: StrMap<String>, edges: Seq<ResolvedEdge>) -> Seq<(Seq<char>, Seq<char>, Seq<char>)>
    decreases edges.len(),
{
    if edges.len() == 0 {
        Seq::empty()
    } else {
        before_keys(before, after, renames, edges.drop_last()).push(before_key(before, after, renames, edges.last()))
    }
}

pub open spec fn has_key3(ks: Seq<(Seq<char>, Seq<char>, Seq<char>)>, k: (Seq<char>, Seq<char>, Seq<char>)) -> bool {
    exists|i: int| 0 <= i < ks.len() && ks[i] == k
}

/// The nodes of the last dependency with the key, as a map collected from
/// the dependencies keeps them.
pub open spec fn nodes_at(edges: Seq<ResolvedEdge>, ks: Seq<(Seq<char>, Seq<char>, Seq<char>)>, k: (Seq<char>, Seq<char>, Seq<char>)) -> (Seq<char>, Seq<char>)
    decreases edges.len(),
{
    if edges.len() == 0 || ks.len() == 0 {
        (Seq::empty(), Seq::empty())
    } else if ks.last() == k {
        (edges.last().from@, edges.last().to@)
    } else {
        nodes_at(edges.drop_last(), ks.drop_last(), k)
    }
}

/// A dependency touches the scope: there is none, or one of its nodes
/// overlaps it.
pub open spec fn deps_touch(scope: Option<Seq<char>>, nodes: (Seq<char>, Seq<char>)) -> bool {
    match scope {
        None => true,
        Some(s) => within(nodes.0, s) || within(s, nodes.0) || within(nodes.1, s) || within(s, nodes.1),
    }
}

pub open spec fn dep_view(d: super::DependencyChange) -> ((Seq<char>, Seq<char>, Seq<char>), (Seq<char>, Seq<char>)) {
    ((d.from_file@, d.to_file@, d.kind@), (d.from_node@, d.to_node@))
}

/// A dependency of `ks` absent from `others` and touching the scope.
pub open spec fn dep_wanted(
    edges: Seq<ResolvedEdge>,
    ks: Seq<(Seq<char>, Seq<char>, Seq<char>)>,
    others: Seq<(Seq<char>, Seq<char>, Seq<char>)>,
    scope: Option<Seq<char>>,
    k: (Seq<char>, Seq<char>, Seq<char>),
) -> bool {
    has_key3(ks, k) && !has_key3(others, k) && deps_touch(scope, nodes_at(edges, ks, k))
}

/// The dependencies found only in `ks` (against `others`), in key order, each
/// with its nodes, touching the scope.
pub open spec fn deps_fit(
    edges: Seq<ResolvedEdge>,
    ks: Seq<(Seq<char>, Seq<char>, Seq<char>)>,
    others: Seq<(Seq<char>, Seq<char>, Seq<char>)>,
    scope: Option<Seq<char>>,
    s: Seq<super::DependencyChange>,
) -> bool {
    &&& forall|i: int, j: int| 0 <= i < j < s.len() ==> key_order(dep_view(#[trigger] s[i]).0, dep_view(#[trigger] s[j]).0) < 0
    &&& forall|k: (Seq<char>, Seq<char>, Seq<char>)| #[trigger] dep_wanted(edges, ks, others, scope, k)
        <==> exists|i: int| 0 <= i < s.len() && dep_view(#[trigger] s[i]).0 == k
    &&& forall|i: int| 0 <= i < s.len() ==> dep_view(#[trigger] s[i]).1 == nodes_at(edges, ks, dep_view(s[i]).0)
}

struct FileKey {
    from_file: String,
    to_file: String,
    kind: String,
}

spec fn fk(k: FileKey) -> (Seq<char>, Seq<char>, Seq<char>) {
    (k.from_file@, k.to_file@, k.kind@)
}

spec fn fks(v: Seq<FileKey>) -> Seq<(Seq<char>, Seq<char>, Seq<char>)> {
    v.map_values(|k: FileKey| fk(k))
}

fn keys_after(edges: &Vec<ResolvedEdge>) -> (r: Vec<FileKey>)
    ensures
        fks(r@) == after_keys(edges@),
        r@.len() == edges@.len(),
{
    let mut out: Vec<FileKey> = Vec::new();
    let mut i: usize = 0;
    proof {
        assert(edges@.take(0) =~= Seq::<ResolvedEdge>::empty());
        assert(fks(out@) =~= after_keys(edges@.take(0)));
    }
    while i < edges.len()
        invariant
            i <= edges@.len(),
            fks(out@) == after_keys(edges@.take(i as int)),
            out@.len() == i,
        decreases edges@.len() - i,
    {
        let e = &edges[i];
        let k = FileKey { from_file: e.evidence.from_file.clone(), to_file: e.evidence.to_file.clone(), kind: e.kind.clone() };
        let ghost o = out@;
        out.push(k);
        proof {
            assert(edges@.take(i + 1).drop_last() =~= edges@.take(i as int));
            assert(edges@.take(i + 1).last() == *e);
            assert(fks(out@) =~= fks(o).push(fk(k)));
        }
        i = i + 1;
    }
    proof {
        assert(edges@.take(edges@.len() as int) =~= edges@);
    }
    out
}

fn keys_before(before: &Vec<CompiledFile>, after: &Vec<CompiledFile>, renames: &StrMap<String>, edges: &Vec<ResolvedEdge>) -> (r: Vec<FileKey>)
    ensures
        fks(r@) == before_keys(before@, after@, *renames, edges@),
        r@.len() == edges@.len(),
{
    let mut out: Vec<FileKey> = Vec::new();
    let mut i: usize = 0;
    proof {
        assert(edges@.take(0) =~= Seq::<ResolvedEdge>::empty());
        assert(fks(out@) =~= before_keys(before@, after@, *renames, edges@.take(0)));
    }
    while i < edges.len()
        invariant
            i <= edges@.len(),
            fks(out@) == before_keys(before@, after@, *renames, edges@.take(i as int)),
            out@.len() == i,
        decreases edges@.len() - i,
    {
        let e = &edges[i];
        let k = FileKey {
            from_file: moved_exec(before, after, renames, e.evidence.from_file.as_str()),
            to_file: moved_exec(before, after, renames, e.evidence.to_file.as_str()),
            kind: e.kind.clone(),
        };
        let ghost o = out@;
        out.push(k);
        proof {
            assert(edges@.take(i + 1).drop_last() =~= edges@.take(i as int));
            assert(edges@.take(i + 1).last() == *e);
            assert(fks(out@) =~= fks(o).push(fk(k)));
        }
        i = i + 1;
    }
    proof {
        assert(edges@.take(edges@.len() as int) =~= edges@);
    }
    out
}

fn key_order_exec(a: &FileKey, b: &FileKey) -> (r: i8)
    ensures
        r == key_order(fk(*a), fk(*b)),
{
    let c = order_of_text(a.from_file.as_str(), b.from_file.as_str());
    if c != 0 {
        return c;
    }
    let c = order_of_text(a.to_file.as_str(), b.to_file.as_str());
    if c != 0 {
        return c;
    }
    order_of_text(a.kind.as_str(), b.kind.as_str())
}

fn key_listed(all: &Vec<FileKey>, k: &FileKey) -> (r: bool)
    ensures
        r == has_key3(fks(all@), fk(*k)),
{
    let mut i: usize = 0;
    while i < all.len()
        invariant
            i <= all@.len(),
            forall|j: int| 0 <= j < i ==> fks(all@)[j] != fk(*k),
        decreases all@.len() - i,
    {
        if key_order_exec(&all[i], k) == 0 {
            proof {
                lemma_key_order(fk(all@[i as int]), fk(*k));
                assert(fks(all@)[i as int] == fk(*k));
            }
            return true;
        }
        proof {
            lemma_key_order(fk(all@[i as int]), fk(*k));
        }
        i = i + 1;
    }
    false
}

/// The positions of the distinct keys, in key order.
fn distinct_keys(all: &Vec<FileKey>) -> (r: Vec<usize>)
    ensures
        forall|i: int| 0 <= i < r@.len() ==> r@[i] < all@.len(),
        forall|i: int, j: int| 0 <= i < j < r@.len() ==> key_order(fks(all@)[#[trigger] r@[i] as int], fks(all@)[#[trigger] r@[j] as int]) < 0,
        forall|k: (Seq<char>, Seq<char>, Seq<char>)| has_key3(fks(all@), k) <==> exists|i: int| 0 <= i < r@.len() && fks(all@)[#[trigger] r@[i] as int] == k,
{
    let ghost ks = fks(all@);
    let mut out: Vec<usize> = Vec::new();
    let mut n: usize = 0;
    while n < all.len()
        invariant
            n <= all@.len(),
            ks == fks(all@),
            forall|i: int| 0 <= i < out@.len() ==> out@[i] < all@.len(),
            forall|i: int, j: int| 0 <= i < j < out@.len() ==> key_order(ks[#[trigger] out@[i] as int], ks[#[trigger] out@[j] as int]) < 0,
            forall|k: (Seq<char>, Seq<char>, Seq<char>)| #[trigger] has_key3(ks.take(n as int), k) <==> exists|i: int| 0 <= i < out@.len() && ks[#[trigger] out@[i] as int] == k,
        decreases all@.len() - n,
    {
        let ghost x = ks[n as int];
        proof {
            assert(x == fk(all@[n as int]));
        }
        let mut pos: usize = 0;
        let mut stop = false;
        while pos < out.len() && !stop
            invariant
                pos <= out@.len(),
                n < all@.len(),
                ks == fks(all@),
                x == ks[n as int],
                forall|i: int| 0 <= i < out@.len() ==> out@[i] < all@.len(),
                forall|i: int| 0 <= i < pos ==> key_order(ks[#[trigger] out@[i] as int], x) < 0,
                stop ==> pos < out@.len() && key_order(ks[out@[pos as int] as int], x) >= 0,
                forall|i: int, j: int| 0 <= i < j < out@.len() ==> key_order(ks[#[trigger] out@[i] as int], ks[#[trigger] out@[j] as int]) < 0,
                forall|k: (Seq<char>, Seq<char>, Seq<char>)| #[trigger] has_key3(ks.take(n as int), k) <==> exists|i: int| 0 <= i < out@.len() && ks[#[trigger] out@[i] as int] == k,
            decreases out@.len() - pos + (if stop { 0int } else { 1int }),
        {
            if key_order_exec(&all[out[pos]], &all[n]) < 0 {
                pos = pos + 1;
            } else {
                stop = true;
            }
        }
        let ghost o = out@;
        proof {
            assert(ks.take(n + 1) =~= ks.take(n as int).push(x));
        }
        if stop && key_order_exec(&all[out[pos]], &all[n]) == 0 {
            proof {
                lemma_key_order(ks[o[pos as int] as int], x);
                assert forall|k: (Seq<char>, Seq<char>, Seq<char>)| #[trigger] has_key3(ks.take(n + 1), k) <==> exists|i: int| 0 <= i < out@.len() && ks[#[trigger] out@[i] as int] == k by {
                    if has_key3(ks.take(n + 1), k) {
                        let t1 = ks.take(n + 1);
                        let j = choose|j: int| 0 <= j < t1.len() && #[trigger] t1[j] == k;
                        if j < n {
                            assert(ks.take(n as int)[j] == k);
                            assert(has_key3(ks.take(n as int), k));
                        } else {
                            assert(t1[n as int] == x);
                            assert(ks[out@[pos as int] as int] == k);
                        }
                    }
                    if exists|i: int| 0 <= i < out@.len() && ks[#[trigger] out@[i] as int] == k {
                        let i = choose|i: int| 0 <= i < out@.len() && ks[#[trigger] out@[i] as int] == k;
                        assert(has_key3(ks.take(n as int), k));
                        let t0 = ks.take(n as int);
                        let j = choose|j: int| 0 <= j < t0.len() && #[trigger] t0[j] == k;
                        assert(ks.take(n + 1)[j] == k);
                    }
                }
            }
        } else {
            out.insert(pos, n);
            proof {
                if stop {
                    lemma_key_order(ks[o[pos as int] as int], x);
                }
                assert(out@ =~= o.insert(pos as int, n));
                assert forall|i: int, j: int| 0 <= i < j < out@.len() implies key_order(ks[#[trigger] out@[i] as int], ks[#[trigger] out@[j] as int]) < 0 by {
                    if j < pos {
                        assert(out@[i] == o[i] && out@[j] == o[j]);
                    } else if j == pos {
                        assert(out@[i] == o[i]);
                    } else if i < pos {
                        assert(out@[i] == o[i] && out@[j] == o[j - 1]);
                        lemma_key_order(ks[o[pos as int] as int], x);
                        if j - 1 > pos {
                            lemma_key_order_trans(x, ks[o[pos as int] as int], ks[o[j - 1] as int]);
                        }
                        lemma_key_order_trans(ks[o[i] as int], x, ks[o[j - 1] as int]);
                    } else if i == pos {
                        assert(out@[j] == o[j - 1]);
                        lemma_key_order(ks[o[pos as int] as int], x);
                        if j - 1 > pos {
                            lemma_key_order_trans(x, ks[o[pos as int] as int], ks[o[j - 1] as int]);
                        }
                    } else {
                        assert(out@[i] == o[i - 1] && out@[j] == o[j - 1]);
                    }
                }
                assert forall|k: (Seq<char>, Seq<char>, Seq<char>)| #[trigger] has_key3(ks.take(n + 1), k) <==> exists|i: int| 0 <= i < out@.len() && ks[#[trigger] out@[i] as int] == k by {
                    if has_key3(ks.take(n + 1), k) {
                        let t1 = ks.take(n + 1);
                        let j = choose|j: int| 0 <= j < t1.len() && #[trigger] t1[j] == k;
                        if j < n {
                            assert(ks.take(n as int)[j] == k);
                            assert(has_key3(ks.take(n as int), k));
                            let i = choose|i: int| 0 <= i < o.len() && ks[#[trigger] o[i] as int] == k;
                            if i < pos {
                                assert(out@[i] == o[i]);
                            } else {
                                assert(out@[i + 1] == o[i]);
                            }
                        } else {
                            assert(t1[n as int] == x);
                            assert(out@[pos as int] == n);
                        }
                    }
                    if exists|i: int| 0 <= i < out@.len() && ks[#[trigger] out@[i] as int] == k {
                        let i = choose|i: int| 0 <= i < out@.len() && ks[#[trigger] out@[i] as int] == k;
                        if i == pos {
                            assert(ks.take(n + 1)[n as int] == k);
                        } else {
                            let oi = if i < pos { i } else { i - 1 };
                            assert(out@[i] == o[oi]);
                            assert(has_key3(ks.take(n as int), k));
                            let t0 = ks.take(n as int);
                        let j = choose|j: int| 0 <= j < t0.len() && #[trigger] t0[j] == k;
                            assert(ks.take(n + 1)[j] == k);
                        }
                    }
                }
            }
        }
        n = n + 1;
    }
    proof {
        assert(ks.take(all@.len() as int) =~= ks);
    }
    out
}


fn entry_order_exec(a: &BaselineEntry, b: &BaselineEntry) -> (r: i8)
    ensures
        r == entry_order(entry_view(*a), entry_view(*b)),
{
    let c = order_of_text(a.rule_id.as_str(), b.rule_id.as_str());
    if c != 0 {
        return c;
    }
    let c = order_of_text(a.from_file.as_str(), b.from_file.as_str());
    if c != 0 {
        return c;
    }
    let c = order_of_text(a.to_file.as_str(), b.to_file.as_str());
    if c != 0 {
        return c;
    }
    order_of_text(a.kind.as_str(), b.kind.as_str())
}

fn entry_listed(all: &Vec<BaselineEntry>, x: &BaselineEntry) -> (r: bool)
    ensures
        r == has_entry4(entry_views(all@), entry_view(*x)),
{
    let mut i: usize = 0;
    while i < all.len()
        invariant
            i <= all@.len(),
            forall|j: int| 0 <= j < i ==> entry_views(all@)[j] != entry_view(*x),
        decreases all@.len() - i,
    {
        proof {
            lemma_entry_order(entry_view(all@[i as int]), entry_view(*x));
            assert(entry_views(all@)[i as int] == entry_view(all@[i as int]));
        }
        if entry_order_exec(&all[i], x) == 0 {
            return true;
        }
        i = i + 1;
    }
    false
}

fn moved_entries_exec(before: &Vec<CompiledFile>, after: &Vec<CompiledFile>, renames: &StrMap<String>, olds: &Vec<BaselineEntry>) -> (r: Vec<BaselineEntry>)
    ensures
        entry_views(r@) == moved_entries(before@, after@, *renames, olds@),
{
    let mut out: Vec<BaselineEntry> = Vec::new();
    let mut i: usize = 0;
    while i < olds.len()
        invariant
            i <= olds@.len(),
            entry_views(out@) == moved_entries(before@, after@, *renames, olds@).take(i as int),
        decreases olds@.len() - i,
    {
        let e = &olds[i];
        let m = BaselineEntry {
            rule_id: e.rule_id.clone(),
            from_file: moved_exec(before, after, renames, e.from_file.as_str()),
            to_file: moved_exec(before, after, renames, e.to_file.as_str()),
            kind: e.kind.clone(),
        };
        let ghost o = out@;
        out.push(m);
        proof {
            assert(entry_views(out@) =~= entry_views(o).push(entry_view(m)));
            assert(moved_entries(before@, after@, *renames, olds@).take(i + 1) =~= moved_entries(before@, after@, *renames, olds@).take(i as int).push(moved_entry(before@, after@, *renames, olds@[i as int])));
        }
        i = i + 1;
    }
    proof {
        assert(moved_entries(before@, after@, *renames, olds@).take(olds@.len() as int) =~= moved_entries(before@, after@, *renames, olds@));
    }
    out
}

/// The positions of the distinct observations, in order.
fn distinct_entries(all: &Vec<BaselineEntry>) -> (r: Vec<usize>)
    ensures
        forall|i: int| 0 <= i < r@.len() ==> r@[i] < all@.len(),
        forall|i: int, j: int| 0 <= i < j < r@.len() ==> entry_order(entry_views(all@)[#[trigger] r@[i] as int], entry_views(all@)[#[trigger] r@[j] as int]) < 0,
        forall|k: (Seq<char>, Seq<char>, Seq<char>, Seq<char>)| has_entry4(entry_views(all@), k) <==> exists|i: int| 0 <= i < r@.len() && entry_views(all@)[#[trigger] r@[i] as int] == k,
{
    let ghost ks = entry_views(all@);
    let mut out: Vec<usize> = Vec::new();
    let mut n: usize = 0;
    while n < all.len()
        invariant
            n <= all@.len(),
            ks == entry_views(all@),
            forall|i: int| 0 <= i < out@.len() ==> out@[i] < all@.len(),
            forall|i: int, j: int| 0 <= i < j < out@.len() ==> entry_order(ks[#[trigger] out@[i] as int], ks[#[trigger] out@[j] as int]) < 0,
            forall|k: (Seq<char>, Seq<char>, Seq<char>, Seq<char>)| #[trigger] has_entry4(ks.take(n as int), k) <==> exists|i: int| 0 <= i < out@.len() && ks[#[trigger] out@[i] as int] == k,
        decreases all@.len() - n,
    {
        let ghost x = ks[n as int];
        proof {
            assert(x == entry_view(all@[n as int]));
        }
        let mut pos: usize = 0;
        let mut stop = false;
        while pos < out.len() && !stop
            invariant
                pos <= out@.len(),
                n < all@.len(),
                ks == entry_views(all@),
                x == ks[n as int],
                forall|i: int| 0 <= i < out@.len() ==> out@[i] < all@.len(),
                forall|i: int| 0 <= i < pos ==> entry_order(ks[#[trigger] out@[i] as int], x) < 0,
                stop ==> pos < out@.len() && entry_order(ks[out@[pos as int] as int], x) >= 0,
                forall|i: int, j: int| 0 <= i < j < out@.len() ==> entry_order(ks[#[trigger] out@[i] as int], ks[#[trigger] out@[j] as int]) < 0,
                forall|k: (Seq<char>, Seq<char>, Seq<char>, Seq<char>)| #[trigger] has_entry4(ks.take(n as int), k) <==> exists|i: int| 0 <= i < out@.len() && ks[#[trigger] out@[i] as int] == k,
            decreases out@.len() - pos + (if stop { 0int } else { 1int }),
        {
            if entry_order_exec(&all[out[pos]], &all[n]) < 0 {
                pos = pos + 1;
            } else {
                stop = true;
            }
        }
        let ghost o = out@;
        proof {
            assert(ks.take(n + 1) =~= ks.take(n as int).push(x));
        }
        if stop && entry_order_exec(&all[out[pos]], &all[n]) == 0 {
            proof {
                lemma_entry_order(ks[o[pos as int] as int], x);
                assert forall|k: (Seq<char>, Seq<char>, Seq<char>, Seq<char>)| #[trigger] has_entry4(ks.take(n + 1), k) <==> exists|i: int| 0 <= i < out@.len() && ks[#[trigger] out@[i] as int] == k by {
                    if has_entry4(ks.take(n + 1), k) {
                        let t1 = ks.take(n + 1);
                        let j = choose|j: int| 0 <= j < t1.len() && #[trigger] t1[j] == k;
                        if j < n {
                            assert(ks.take(n as int)[j] == k);
                            assert(has_entry4(ks.take(n as int), k));
                        } else {
                            assert(t1[n as int] == x);
                            assert(ks[out@[pos as int] as int] == k);
                        }
                    }
                    if exists|i: int| 0 <= i < out@.len() && ks[#[trigger] out@[i] as int] == k {
                        let i = choose|i: int| 0 <= i < out@.len() && ks[#[trigger] out@[i] as int] == k;
                        assert(has_entry4(ks.take(n as int), k));
                        let t0 = ks.take(n as int);
                        let j = choose|j: int| 0 <= j < t0.len() && #[trigger] t0[j] == k;
                        assert(ks.take(n + 1)[j] == k);
                    }
                }
            }
        } else {
            out.insert(pos, n);
            proof {
                if stop {
                    lemma_entry_order(ks[o[pos as int] as int], x);
                }
                assert(out@ =~= o.insert(pos as int, n));
                assert forall|i: int, j: int| 0 <= i < j < out@.len() implies entry_order(ks[#[trigger] out@[i] as int], ks[#[trigger] out@[j] as int]) < 0 by {
                    if j < pos {
                        assert(out@[i] == o[i] && out@[j] == o[j]);
                    } else if j == pos {
                        assert(out@[i] == o[i]);
                    } else if i < pos {
                        assert(out@[i] == o[i] && out@[j] == o[j - 1]);
                        lemma_entry_order(ks[o[pos as int] as int], x);
                        if j - 1 > pos {
                            lemma_entry_order_trans(x, ks[o[pos as int] as int], ks[o[j - 1] as int]);
                        }
                        lemma_entry_order_trans(ks[o[i] as int], x, ks[o[j - 1] as int]);
                    } else if i == pos {
                        assert(out@[j] == o[j - 1]);
                        lemma_entry_order(ks[o[pos as int] as int], x);
                        if j - 1 > pos {
                            lemma_entry_order_trans(x, ks[o[pos as int] as int], ks[o[j - 1] as int]);
                        }
                    } else {
                        assert(out@[i] == o[i - 1] && out@[j] == o[j - 1]);
                    }
                }
                assert forall|k: (Seq<char>, Seq<char>, Seq<char>, Seq<char>)| #[trigger] has_entry4(ks.take(n + 1), k) <==> exists|i: int| 0 <= i < out@.len() && ks[#[trigger] out@[i] as int] == k by {
                    if has_entry4(ks.take(n + 1), k) {
                        let t1 = ks.take(n + 1);
                        let j = choose|j: int| 0 <= j < t1.len() && #[trigger] t1[j] == k;
                        if j < n {
                            assert(ks.take(n as int)[j] == k);
                            assert(has_entry4(ks.take(n as int), k));
                            let i = choose|i: int| 0 <= i < o.len() && ks[#[trigger] o[i] as int] == k;
                            if i < pos {
                                assert(out@[i] == o[i]);
                            } else {
                                assert(out@[i + 1] == o[i]);
                            }
                        } else {
                            assert(t1[n as int] == x);
                            assert(out@[pos as int] == n);
                        }
                    }
                    if exists|i: int| 0 <= i < out@.len() && ks[#[trigger] out@[i] as int] == k {
                        let i = choose|i: int| 0 <= i < out@.len() && ks[#[trigger] out@[i] as int] == k;
                        if i == pos {
                            assert(ks.take(n + 1)[n as int] == k);
                        } else {
                            let oi = if i < pos { i } else { i - 1 };
                            assert(out@[i] == o[oi]);
                            assert(has_entry4(ks.take(n as int), k));
                            let t0 = ks.take(n as int);
                        let j = choose|j: int| 0 <= j < t0.len() && #[trigger] t0[j] == k;
                            assert(ks.take(n + 1)[j] == k);
                        }
                    }
                }
            }
        }
        n = n + 1;
    }
    proof {
        assert(ks.take(all@.len() as int) =~= ks);
    }
    out
}

fn nodes_for(edges: &Vec<ResolvedEdge>, keys: &Vec<FileKey>, k: &FileKey) -> (r: (String, String))
    requires
        keys@.len() == edges@.len(),
    ensures
        (r.0@, r.1@) == nodes_at(edges@, fks(keys@), fk(*k)),
{
    let mut m = keys.len();
    proof {
        assert(edges@.take(m as int) =~= edges@);
        assert(fks(keys@).take(m as int) =~= fks(keys@));
    }
    while m > 0
        invariant
            m <= keys@.len(),
            keys@.len() == edges@.len(),
            nodes_at(edges@, fks(keys@), fk(*k)) == nodes_at(edges@.take(m as int), fks(keys@).take(m as int), fk(*k)),
        decreases m,
    {
        proof {
            assert(edges@.take(m as int).drop_last() =~= edges@.take(m - 1));
            assert(fks(keys@).take(m as int).drop_last() =~= fks(keys@).take(m - 1));
            assert(fks(keys@).take(m as int).last() == fk(keys@[m - 1]));
            assert(edges@.take(m as int).last() == edges@[m - 1]);
            lemma_key_order(fk(keys@[m - 1]), fk(*k));
        }
        if key_order_exec(&keys[m - 1], k) == 0 {
            return (edges[m - 1].from.clone(), edges[m - 1].to.clone());
        }
        m = m - 1;
    }
    proof {
        assert(edges@.take(0) =~= Seq::<ResolvedEdge>::empty());
    }
    (String::new(), String::new())
}

fn touching_scope(scope: Option<&str>, from: &str, to: &str) -> (r: bool)
    ensures
        r == deps_touch(crate::projection::zoom::opt_str(scope), (from@, to@)),
{
    match scope {
        None => true,
        Some(s) => overlaps(from, s) || overlaps(to, s),
    }
}

/// The change of the dependency at `idx`, when its key is not among
/// `others` and it touches the scope.
fn change_of(edges: &Vec<ResolvedEdge>, keys: &Vec<FileKey>, others: &Vec<FileKey>, scope: Option<&str>, idx: usize) -> (r: Option<super::DependencyChange>)
    requires
        keys@.len() == edges@.len(),
        idx < keys@.len(),
    ensures
        r is Some <==> (!has_key3(fks(others@), fks(keys@)[idx as int])
            && deps_touch(crate::projection::zoom::opt_str(scope), nodes_at(edges@, fks(keys@), fks(keys@)[idx as int]))),
        r matches Some(d) ==> dep_view(d) == (fks(keys@)[idx as int], nodes_at(edges@, fks(keys@), fks(keys@)[idx as int])),
{
    let k = &keys[idx];
    proof {
        assert(fks(keys@)[idx as int] == fk(*k));
    }
    if key_listed(others, k) {
        return None;
    }
    let (from_node, to_node) = nodes_for(edges, keys, k);
    if touching_scope(scope, from_node.as_str(), to_node.as_str()) {
        Some(super::DependencyChange {
            from_file: k.from_file.clone(),
            to_file: k.to_file.clone(),
            kind: k.kind.clone(),
            from_node,
            to_node,
        })
    } else {
        None
    }
}

spec fn wanted_upto(
    edges: Seq<ResolvedEdge>,
    ks: Seq<(Seq<char>, Seq<char>, Seq<char>)>,
    os: Seq<(Seq<char>, Seq<char>, Seq<char>)>,
    sc: Option<Seq<char>>,
    order: Seq<usize>,
    t: int,
    k: (Seq<char>, Seq<char>, Seq<char>),
) -> bool {
    &&& exists|u: int| 0 <= u < t && ks[#[trigger] order[u] as int] == k
    &&& !has_key3(os, k)
    &&& deps_touch(sc, nodes_at(edges, ks, k))
}

/// The dependencies of `edges` (with keys `keys`) whose key is not among
/// `others`, in key order, each once, touching the scope.
#[verifier::rlimit(40)]
fn only_in(edges: &Vec<ResolvedEdge>, keys: &Vec<FileKey>, others: &Vec<FileKey>, scope: Option<&str>) -> (r: Vec<super::DependencyChange>)
    requires
        keys@.len() == edges@.len(),
    ensures
        deps_fit(edges@, fks(keys@), fks(others@), crate::projection::zoom::opt_str(scope), r@),
{
    let ghost sc = crate::projection::zoom::opt_str(scope);
    let ghost ks = fks(keys@);
    let ghost os = fks(others@);
    let order = distinct_keys(keys);
    let mut out: Vec<super::DependencyChange> = Vec::new();
    let mut t: usize = 0;
    while t < order.len()
        invariant
            t <= order@.len(),
            keys@.len() == edges@.len(),
            ks == fks(keys@),
            os == fks(others@),
            sc == crate::projection::zoom::opt_str(scope),
            forall|i: int| 0 <= i < order@.len() ==> order@[i] < keys@.len(),
            forall|i: int, j: int| 0 <= i < j < order@.len() ==> key_order(ks[#[trigger] order@[i] as int], ks[#[trigger] order@[j] as int]) < 0,
            forall|k: (Seq<char>, Seq<char>, Seq<char>)| has_key3(ks, k) <==> exists|i: int| 0 <= i < order@.len() && ks[#[trigger] order@[i] as int] == k,
            forall|i: int, j: int| 0 <= i < j < out@.len() ==> key_order(dep_view(#[trigger] out@[i]).0, dep_view(#[trigger] out@[j]).0) < 0,
            forall|i: int| 0 <= i < out@.len() ==> exists|u: int| 0 <= u < t && ks[order@[u] as int] == dep_view(#[trigger] out@[i]).0,
            forall|k: (Seq<char>, Seq<char>, Seq<char>)| #[trigger] wanted_upto(edges@, ks, os, sc, order@, t as int, k)
                <==> exists|i: int| 0 <= i < out@.len() && dep_view(#[trigger] out@[i]).0 == k,
            forall|i: int| 0 <= i < out@.len() ==> dep_view(#[trigger] out@[i]).1 == nodes_at(edges@, ks, dep_view(out@[i]).0),
        decreases order@.len() - t,
    {
        let idx = order[t];
        let k = &keys[idx];
        let ghost x = ks[idx as int];
        proof {
            assert(x == fk(*k));
        }
        let ghost o0 = out@;
        let ch = change_of(edges, keys, others, scope, idx);
        let ghost chv = ch;
        match ch {
            Some(d) => out.push(d),
            None => {},
        }
        proof {
            if chv is Some {
                assert(out@ == o0.push(chv->0));
                assert(dep_view(out@[o0.len() as int]).0 == x);
                assert(!has_key3(os, x) && deps_touch(sc, nodes_at(edges@, ks, x)));
            } else {
                assert(out@ == o0);
                assert(!(!has_key3(os, x) && deps_touch(sc, nodes_at(edges@, ks, x))));
            }
        }
        proof {
            assert forall|i: int| 0 <= i < o0.len() implies key_order(dep_view(#[trigger] o0[i]).0, x) < 0 by {
                let u = choose|u: int| 0 <= u < t && ks[order@[u] as int] == dep_view(o0[i]).0;
                assert(key_order(ks[order@[u] as int], ks[order@[t as int] as int]) < 0);
            }
            assert forall|i: int, j: int| 0 <= i < j < out@.len() implies key_order(dep_view(#[trigger] out@[i]).0, dep_view(#[trigger] out@[j]).0) < 0 by {
                if j < o0.len() {
                    assert(out@[i] == o0[i] && out@[j] == o0[j]);
                } else {
                    assert(out@[i] == o0[i]);
                }
            }
            assert forall|i: int| 0 <= i < out@.len() implies exists|u: int| 0 <= u < t + 1 && ks[order@[u] as int] == dep_view(#[trigger] out@[i]).0 by {
                if i < o0.len() {
                    assert(out@[i] == o0[i]);
                    let u = choose|u: int| 0 <= u < t && ks[order@[u] as int] == dep_view(o0[i]).0;
                } else {
                    assert(ks[order@[t as int] as int] == dep_view(out@[i]).0);
                }
            }
            assert forall|k2: (Seq<char>, Seq<char>, Seq<char>)| #[trigger] wanted_upto(edges@, ks, os, sc, order@, t + 1, k2)
                <==> exists|i: int| 0 <= i < out@.len() && dep_view(#[trigger] out@[i]).0 == k2 by {
                if exists|i: int| 0 <= i < out@.len() && dep_view(#[trigger] out@[i]).0 == k2 {
                    let i = choose|i: int| 0 <= i < out@.len() && dep_view(#[trigger] out@[i]).0 == k2;
                    if i < o0.len() {
                        assert(out@[i] == o0[i]);
                        assert(wanted_upto(edges@, ks, os, sc, order@, t as int, k2));
                        let u = choose|u: int| 0 <= u < t && ks[#[trigger] order@[u] as int] == k2;
                        assert(ks[order@[u] as int] == k2);
                    } else {
                        assert(chv is Some);
                        assert(ks[order@[t as int] as int] == k2);
                    }
                }
                if wanted_upto(edges@, ks, os, sc, order@, t + 1, k2) {
                    let u = choose|u: int| 0 <= u < t + 1 && ks[#[trigger] order@[u] as int] == k2;
                    if u < t {
                        assert(ks[order@[u] as int] == k2);
                        assert(wanted_upto(edges@, ks, os, sc, order@, t as int, k2));
                        let i = choose|i: int| 0 <= i < o0.len() && dep_view(#[trigger] o0[i]).0 == k2;
                        assert(out@[i] == o0[i]);
                    } else {
                        assert(k2 == x);
                        assert(chv is Some);
                        assert(dep_view(out@[o0.len() as int]).0 == k2);
                    }
                }
            }
        }
        t = t + 1;
    }
    proof {
        assert forall|k: (Seq<char>, Seq<char>, Seq<char>)| #[trigger] dep_wanted(edges@, ks, os, sc, k)
            <==> exists|i: int| 0 <= i < out@.len() && dep_view(#[trigger] out@[i]).0 == k by {
            if has_key3(ks, k) {
                let i = choose|i: int| 0 <= i < order@.len() && ks[#[trigger] order@[i] as int] == k;
                if !has_key3(os, k) && deps_touch(sc, nodes_at(edges@, ks, k)) {
                    assert(wanted_upto(edges@, ks, os, sc, order@, t as int, k));
                }
            }
            if exists|i: int| 0 <= i < out@.len() && dep_view(#[trigger] out@[i]).0 == k {
                assert(wanted_upto(edges@, ks, os, sc, order@, t as int, k));
                let u = choose|u: int| 0 <= u < t && ks[#[trigger] order@[u] as int] == k;
                assert(has_key3(ks, k));
            }
        }
        assert(forall|i: int, j: int| 0 <= i < j < out@.len() ==> key_order(dep_view(#[trigger] out@[i]).0, dep_view(#[trigger] out@[j]).0) < 0);
        assert(forall|i: int| 0 <= i < out@.len() ==> dep_view(#[trigger] out@[i]).1 == nodes_at(edges@, ks, dep_view(out@[i]).0));
        assert(deps_fit(edges@, ks, os, sc, out@));
    }
    out
}

/// A violation observation as values: rule, source file, target file, kind.
pub open spec fn entry_view(e: BaselineEntry) -> (Seq<char>, Seq<char>, Seq<char>, Seq<char>) {
    (e.rule_id@, e.from_file@, e.to_file@, e.kind@)
}

/// A snapshot observation with its files moved to where they are now.
pub open spec fn moved_entry(before: Seq<CompiledFile>, after: Seq<CompiledFile>, renames: StrMap<String>, e: BaselineEntry) -> (Seq<char>, Seq<char>, Seq<char>, Seq<char>) {
    (e.rule_id@, moved(before, after, renames, e.from_file@), moved(before, after, renames, e.to_file@), e.kind@)
}

pub open spec fn has_entry4(s: Seq<(Seq<char>, Seq<char>, Seq<char>, Seq<char>)>, x: (Seq<char>, Seq<char>, Seq<char>, Seq<char>)) -> bool {
    exists|i: int| 0 <= i < s.len() && s[i] == x
}

pub open spec fn entry_views(s: Seq<BaselineEntry>) -> Seq<(Seq<char>, Seq<char>, Seq<char>, Seq<char>)> {
    s.map_values(|e: BaselineEntry| entry_view(e))
}

pub open spec fn moved_entries(before: Seq<CompiledFile>, after: Seq<CompiledFile>, renames: StrMap<String>, s: Seq<BaselineEntry>) -> Seq<(Seq<char>, Seq<char>, Seq<char>, Seq<char>)> {
    s.map_values(|e: BaselineEntry| moved_entry(before, after, renames, e))
}

/// The order of observations: rule, source file, target file, kind.
pub open spec fn entry_order(a: (Seq<char>, Seq<char>, Seq<char>, Seq<char>), b: (Seq<char>, Seq<char>, Seq<char>, Seq<char>)) -> int {
    if text_order(a.0, b.0) != 0 {
        text_order(a.0, b.0)
    } else {
        key_order((a.1, a.2, a.3), (b.1, b.2, b.3))
    }
}

proof fn lemma_entry_order(a: (Seq<char>, Seq<char>, Seq<char>, Seq<char>), b: (Seq<char>, Seq<char>, Seq<char>, Seq<char>))
    ensures
        entry_order(a, b) == -entry_order(b, a),
        entry_order(a, b) == 0 <==> a == b,
{
    lemma_text_order(a.0, b.0);
    lemma_key_order((a.1, a.2, a.3), (b.1, b.2, b.3));
}

proof fn lemma_entry_order_trans(a: (Seq<char>, Seq<char>, Seq<char>, Seq<char>), b: (Seq<char>, Seq<char>, Seq<char>, Seq<char>), c: (Seq<char>, Seq<char>, Seq<char>, Seq<char>))
    requires
        entry_order(a, b) < 0,
        entry_order(b, c) < 0,
    ensures
        entry_order(a, c) < 0,
{
    lemma_text_order(a.0, b.0);
    lemma_text_order(b.0, c.0);
    lemma_text_order(a.0, c.0);
    let ta = (a.1, a.2, a.3);
    let tb = (b.1, b.2, b.3);
    let tc = (c.1, c.2, c.3);
    lemma_key_order(ta, tb);
    lemma_key_order(tb, tc);
    if text_order(a.0, b.0) <= 0 && text_order(b.0, c.0) <= 0 {
        lemma_text_order_trans(a.0, b.0, c.0);
    }
    if key_order(ta, tb) < 0 && key_order(tb, tc) < 0 {
        lemma_key_order_trans(ta, tb, tc);
    }
}

/// A before path moves to `p`.
pub open spec fn moves_to(before: Seq<CompiledFile>, after: Seq<CompiledFile>, renames: StrMap<String>, q: Seq<char>, p: Seq<char>) -> bool {
    has_path(before, q) && moved(before, after, renames, q) == p
}

/// The owner, in the snapshot, of the file now at `p`: that of the last
/// snapshot path, in order, that moves there.
pub open spec fn moved_owner(before: Seq<CompiledFile>, after: Seq<CompiledFile>, renames: StrMap<String>, p: Seq<char>) -> Option<Seq<char>> {
    if exists|q: Seq<char>| #[trigger] moves_to(before, after, renames, q, p) {
        let q = choose|q: Seq<char>| #[trigger] moves_to(before, after, renames, q, p)
            && forall|q2: Seq<char>| #[trigger] moves_to(before, after, renames, q2, p) ==> crate::order::lex_le(q2, q);
        file_owner(before, q)
    } else {
        None
    }
}

/// An observation now, not in the snapshot, in the scope.
pub open spec fn appeared_entry(before: Seq<CompiledFile>, after: Seq<CompiledFile>, renames: StrMap<String>, scope: Option<Seq<char>>,
    olds: Seq<BaselineEntry>, news: Seq<BaselineEntry>, x: (Seq<char>, Seq<char>, Seq<char>, Seq<char>)) -> bool {
    &&& has_entry4(entry_views(news), x)
    &&& !has_entry4(moved_entries(before, after, renames, olds), x)
    &&& (in_scope(scope, file_owner(after, x.1)) || in_scope(scope, file_owner(after, x.2)))
}

/// An observation of the snapshot, moved, that is gone now, in the scope.
pub open spec fn resolved_entry(before: Seq<CompiledFile>, after: Seq<CompiledFile>, renames: StrMap<String>, scope: Option<Seq<char>>,
    olds: Seq<BaselineEntry>, news: Seq<BaselineEntry>, x: (Seq<char>, Seq<char>, Seq<char>, Seq<char>)) -> bool {
    &&& has_entry4(moved_entries(before, after, renames, olds), x)
    &&& !has_entry4(entry_views(news), x)
    &&& (in_scope(scope, moved_owner(before, after, renames, x.1)) || in_scope(scope, moved_owner(before, after, renames, x.2)))
}

/// The snapshot's paths in order, each with where its file is now and its
/// owner in the snapshot.
fn moved_table(before: &Vec<CompiledFile>, after: &Vec<CompiledFile>, renames: &StrMap<String>) -> (r: (Vec<String>, Vec<String>, Vec<Option<String>>))
    ensures
        r.0@.len() == r.1@.len(),
        r.0@.len() == r.2@.len(),
        strictly_sorted(views(r.0@)),
        forall|x: Seq<char>| #[trigger] seq_has(views(r.0@), x) <==> has_path(before@, x),
        forall|t: int| 0 <= t < r.0@.len() ==> (#[trigger] r.1@[t])@ == moved(before@, after@, *renames, r.0@[t]@)
            && opt_view(r.2@[t]) == file_owner(before@, r.0@[t]@),
{
    let paths = file_paths(before);
    let mut to: Vec<String> = Vec::new();
    let mut owners: Vec<Option<String>> = Vec::new();
    let mut t: usize = 0;
    while t < paths.len()
        invariant
            t <= paths@.len(),
            to@.len() == t,
            owners@.len() == t,
            forall|u: int| 0 <= u < t ==> (#[trigger] to@[u])@ == moved(before@, after@, *renames, paths@[u]@)
                && opt_view(owners@[u]) == file_owner(before@, paths@[u]@),
        decreases paths@.len() - t,
    {
        to.push(moved_exec(before, after, renames, paths[t].as_str()));
        owners.push(owner_of_file(before, paths[t].as_str()));
        t = t + 1;
    }
    (paths, to, owners)
}

spec fn table_fits(table: (Vec<String>, Vec<String>, Vec<Option<String>>), before: Seq<CompiledFile>, after: Seq<CompiledFile>, renames: StrMap<String>) -> bool {
    &&& table.0@.len() == table.1@.len()
    &&& table.0@.len() == table.2@.len()
    &&& strictly_sorted(views(table.0@))
    &&& forall|x: Seq<char>| #[trigger] seq_has(views(table.0@), x) <==> has_path(before, x)
    &&& forall|t: int| 0 <= t < table.0@.len() ==> (#[trigger] table.1@[t])@ == moved(before, after, renames, table.0@[t]@)
        && opt_view(table.2@[t]) == file_owner(before, table.0@[t]@)
}

fn moved_owner_exec(
    table: &(Vec<String>, Vec<String>, Vec<Option<String>>),
    p: &str,
    Ghost(before): Ghost<Seq<CompiledFile>>,
    Ghost(after): Ghost<Seq<CompiledFile>>,
    Ghost(renames): Ghost<StrMap<String>>,
) -> (r: Option<String>)
    requires
        table_fits(*table, before, after, renames),
    ensures
        opt_view(r) == moved_owner(before, after, renames, p@),
{
    let ghost ps = views(table.0@);
    let mut k = table.0.len();
    while k > 0
        invariant
            k <= table.0@.len(),
            ps == views(table.0@),
            table.0@.len() == table.1@.len(),
            table.0@.len() == table.2@.len(),
            strictly_sorted(ps),
            forall|x: Seq<char>| #[trigger] seq_has(ps, x) <==> has_path(before, x),
            forall|t: int| 0 <= t < table.0@.len() ==> (#[trigger] table.1@[t])@ == moved(before, after, renames, table.0@[t]@)
                && opt_view(table.2@[t]) == file_owner(before, table.0@[t]@),
            forall|u: int| k <= u < table.0@.len() ==> table.1@[u]@ != p@,
        decreases k,
    {
        if str_eq(table.1[k - 1].as_str(), p) {
            proof {
                let q = table.0@[k - 1]@;
                assert(ps[k - 1] == q);
                assert(seq_has(ps, q));
                assert(moves_to(before, after, renames, q, p@));
                assert forall|q2: Seq<char>| #[trigger] moves_to(before, after, renames, q2, p@) implies crate::order::lex_le(q2, q) by {
                    assert(seq_has(ps, q2));
                    let u = choose|u: int| 0 <= u < ps.len() && ps[u] == q2;
                    assert(table.0@[u]@ == q2);
                    if u > k - 1 {
                        assert(table.1@[u]@ != p@);
                    } else if u < k - 1 {
                        assert(lex_lt(ps[u], ps[k - 1]));
                    } else {
                        crate::order::lemma_lex_reflexive(q);
                    }
                }
                let c = choose|c: Seq<char>| #[trigger] moves_to(before, after, renames, c, p@)
                    && forall|q2: Seq<char>| #[trigger] moves_to(before, after, renames, q2, p@) ==> crate::order::lex_le(q2, c);
                assert(crate::order::lex_le(q, c));
                assert(crate::order::lex_le(c, q));
                crate::order::lemma_lex_antisymmetric(q, c);
            }
            return copy_opt(&table.2[k - 1]);
        }
        k = k - 1;
    }
    proof {
        assert forall|q: Seq<char>| !#[trigger] moves_to(before, after, renames, q, p@) by {
            if moves_to(before, after, renames, q, p@) {
                assert(seq_has(ps, q));
                let u = choose|u: int| 0 <= u < ps.len() && ps[u] == q;
                assert(table.0@[u]@ == q);
                assert(table.1@[u]@ == moved(before, after, renames, q));
            }
        }
    }
    None
}

/// Some observation of `all` with the value is kept.
pub open spec fn kept_in(all: Seq<BaselineEntry>, keep: Seq<bool>, x: (Seq<char>, Seq<char>, Seq<char>, Seq<char>)) -> bool {
    exists|i: int| 0 <= i < all.len() && entry_view(#[trigger] all[i]) == x && keep[i]
}

/// The distinct observations of `all` that are kept, in order.
#[verifier::rlimit(40)]
fn select_entries(all: &Vec<BaselineEntry>, keep: &Vec<bool>) -> (r: Vec<BaselineEntry>)
    requires
        keep@.len() == all@.len(),
        forall|i: int, j: int| 0 <= i < all@.len() && 0 <= j < all@.len() && entry_view(all@[i]) == entry_view(all@[j]) ==> keep@[i] == keep@[j],
    ensures
        forall|i: int, j: int| 0 <= i < j < r@.len() ==> entry_order(entry_view(#[trigger] r@[i]), entry_view(#[trigger] r@[j])) < 0,
        forall|x: (Seq<char>, Seq<char>, Seq<char>, Seq<char>)| #[trigger] kept_in(all@, keep@, x)
            <==> exists|i: int| 0 <= i < r@.len() && entry_view(#[trigger] r@[i]) == x,
{
    let ghost vs = entry_views(all@);
    let order = distinct_entries(all);
    let mut out: Vec<BaselineEntry> = Vec::new();
    let mut t: usize = 0;
    while t < order.len()
        invariant
            t <= order@.len(),
            vs == entry_views(all@),
            keep@.len() == all@.len(),
            forall|i: int, j: int| 0 <= i < all@.len() && 0 <= j < all@.len() && entry_view(all@[i]) == entry_view(all@[j]) ==> keep@[i] == keep@[j],
            forall|i: int| 0 <= i < order@.len() ==> order@[i] < all@.len(),
            forall|i: int, j: int| 0 <= i < j < order@.len() ==> entry_order(vs[#[trigger] order@[i] as int], vs[#[trigger] order@[j] as int]) < 0,
            forall|x: (Seq<char>, Seq<char>, Seq<char>, Seq<char>)| has_entry4(vs, x) <==> exists|i: int| 0 <= i < order@.len() && vs[#[trigger] order@[i] as int] == x,
            forall|x: (Seq<char>, Seq<char>, Seq<char>, Seq<char>)| #[trigger] chosen_upto(vs, order@, keep@, t as int, x)
                <==> exists|i: int| 0 <= i < out@.len() && entry_view(#[trigger] out@[i]) == x,
            forall|i: int, j: int| 0 <= i < j < out@.len() ==> entry_order(entry_view(#[trigger] out@[i]), entry_view(#[trigger] out@[j])) < 0,
        decreases order@.len() - t,
    {
        let idx = order[t];
        let ghost x = vs[idx as int];
        let ghost o0 = out@;
        proof {
            assert(x == entry_view(all@[idx as int]));
        }
        let take = keep[idx];
        if take {
            let e = BaselineEntry {
                rule_id: all[idx].rule_id.clone(),
                from_file: all[idx].from_file.clone(),
                to_file: all[idx].to_file.clone(),
                kind: all[idx].kind.clone(),
            };
            out.push(e);
            proof {
                assert(entry_view(e) == x);
            }
        }
        proof {
            if take {
                assert(out@ == o0.push(out@[o0.len() as int]));
            } else {
                assert(out@ == o0);
            }
            assert forall|i: int| 0 <= i < o0.len() implies entry_order(entry_view(#[trigger] o0[i]), x) < 0 by {
                assert(chosen_upto(vs, order@, keep@, t as int, entry_view(o0[i])));
                let u = choose|u: int| 0 <= u < t && vs[#[trigger] order@[u] as int] == entry_view(o0[i]) && keep@[order@[u] as int];
                assert(entry_order(vs[order@[u] as int], vs[order@[t as int] as int]) < 0);
            }
            assert forall|i: int, j: int| 0 <= i < j < out@.len() implies entry_order(entry_view(#[trigger] out@[i]), entry_view(#[trigger] out@[j])) < 0 by {
                if j < o0.len() {
                    assert(out@[i] == o0[i] && out@[j] == o0[j]);
                } else {
                    assert(out@[i] == o0[i]);
                }
            }
            assert forall|y: (Seq<char>, Seq<char>, Seq<char>, Seq<char>)| #[trigger] chosen_upto(vs, order@, keep@, t + 1, y)
                <==> exists|i: int| 0 <= i < out@.len() && entry_view(#[trigger] out@[i]) == y by {
                if chosen_upto(vs, order@, keep@, t + 1, y) {
                    let u = choose|u: int| 0 <= u < t + 1 && vs[#[trigger] order@[u] as int] == y && keep@[order@[u] as int];
                    if u < t {
                        assert(chosen_upto(vs, order@, keep@, t as int, y));
                        let i = choose|i: int| 0 <= i < o0.len() && entry_view(#[trigger] o0[i]) == y;
                        assert(out@[i] == o0[i]);
                    } else {
                        assert(take);
                        assert(entry_view(out@[o0.len() as int]) == y);
                    }
                }
                if exists|i: int| 0 <= i < out@.len() && entry_view(#[trigger] out@[i]) == y {
                    let i = choose|i: int| 0 <= i < out@.len() && entry_view(#[trigger] out@[i]) == y;
                    if i < o0.len() {
                        assert(out@[i] == o0[i]);
                        assert(chosen_upto(vs, order@, keep@, t as int, y));
                        let u = choose|u: int| 0 <= u < t && vs[#[trigger] order@[u] as int] == y && keep@[order@[u] as int];
                        assert(vs[order@[u] as int] == y);
                    } else {
                        assert(take);
                        assert(vs[order@[t as int] as int] == y);
                    }
                }
            }
        }
        t = t + 1;
    }
    proof {
        assert forall|x: (Seq<char>, Seq<char>, Seq<char>, Seq<char>)| #[trigger] kept_in(all@, keep@, x)
            <==> exists|i: int| 0 <= i < out@.len() && entry_view(#[trigger] out@[i]) == x by {
            if kept_in(all@, keep@, x) {
                let i = choose|i: int| 0 <= i < all@.len() && entry_view(#[trigger] all@[i]) == x && keep@[i];
                assert(vs[i] == x);
                assert(has_entry4(vs, x));
                let u = choose|u: int| 0 <= u < order@.len() && vs[#[trigger] order@[u] as int] == x;
                assert(keep@[order@[u] as int] == keep@[i]);
                assert(chosen_upto(vs, order@, keep@, t as int, x));
            }
            if exists|i: int| 0 <= i < out@.len() && entry_view(#[trigger] out@[i]) == x {
                assert(chosen_upto(vs, order@, keep@, t as int, x));
                let u = choose|u: int| 0 <= u < t && vs[#[trigger] order@[u] as int] == x && keep@[order@[u] as int];
                assert(entry_view(all@[order@[u] as int]) == x);
            }
        }
    }
    out
}

spec fn chosen_upto(vs: Seq<(Seq<char>, Seq<char>, Seq<char>, Seq<char>)>, order: Seq<usize>, keep: Seq<bool>, t: int, x: (Seq<char>, Seq<char>, Seq<char>, Seq<char>)) -> bool {
    exists|u: int| 0 <= u < t && vs[#[trigger] order[u] as int] == x && keep[order[u] as int]
}

pub open spec fn entries_fit_appeared(before: Seq<CompiledFile>, after: Seq<CompiledFile>, renames: StrMap<String>, scope: Option<Seq<char>>,
    olds: Seq<BaselineEntry>, news: Seq<BaselineEntry>, s: Seq<BaselineEntry>) -> bool {
    &&& forall|i: int, j: int| 0 <= i < j < s.len() ==> entry_order(entry_view(#[trigger] s[i]), entry_view(#[trigger] s[j])) < 0
    &&& forall|x: (Seq<char>, Seq<char>, Seq<char>, Seq<char>)| #[trigger] appeared_entry(before, after, renames, scope, olds, news, x)
        <==> exists|i: int| 0 <= i < s.len() && entry_view(#[trigger] s[i]) == x
}

pub open spec fn entries_fit_resolved(before: Seq<CompiledFile>, after: Seq<CompiledFile>, renames: StrMap<String>, scope: Option<Seq<char>>,
    olds: Seq<BaselineEntry>, news: Seq<BaselineEntry>, s: Seq<BaselineEntry>) -> bool {
    &&& forall|i: int, j: int| 0 <= i < j < s.len() ==> entry_order(entry_view(#[trigger] s[i]), entry_view(#[trigger] s[j])) < 0
    &&& forall|x: (Seq<char>, Seq<char>, Seq<char>, Seq<char>)| #[trigger] resolved_entry(before, after, renames, scope, olds, news, x)
        <==> exists|i: int| 0 <= i < s.len() && entry_view(#[trigger] s[i]) == x
}

/// The observations now that the snapshot did not have, in order.
fn appeared(before: &Vec<CompiledFile>, after: &Vec<CompiledFile>, renames: &StrMap<String>, scope: Option<&str>,
    moved_olds: &Vec<BaselineEntry>, news: &Vec<BaselineEntry>, Ghost(olds): Ghost<Seq<BaselineEntry>>) -> (r: Vec<BaselineEntry>)
    requires
        entry_views(moved_olds@) == moved_entries(before@, after@, *renames, olds),
    ensures
        entries_fit_appeared(before@, after@, *renames, crate::projection::zoom::opt_str(scope), olds, news@, r@),
{
    let ghost sc = crate::projection::zoom::opt_str(scope);
    let mut keep: Vec<bool> = Vec::new();
    let mut i: usize = 0;
    while i < news.len()
        invariant
            i <= news@.len(),
            keep@.len() == i,
            sc == crate::projection::zoom::opt_str(scope),
            forall|k: int| 0 <= k < i ==> keep@[k] == (!has_entry4(entry_views(moved_olds@), entry_view(#[trigger] news@[k]))
                && (in_scope(sc, file_owner(after@, news@[k].from_file@)) || in_scope(sc, file_owner(after@, news@[k].to_file@)))),
        decreases news@.len() - i,
    {
        let e = &news[i];
        let listed = entry_listed(moved_olds, e);
        let k = !listed && (scoped(scope, &owner_of_file(after, e.from_file.as_str())) || scoped(scope, &owner_of_file(after, e.to_file.as_str())));
        keep.push(k);
        i = i + 1;
    }
    let r = select_entries(news, &keep);
    proof {
        assert forall|x: (Seq<char>, Seq<char>, Seq<char>, Seq<char>)| #[trigger] appeared_entry(before@, after@, *renames, sc, olds, news@, x)
            <==> exists|i: int| 0 <= i < r@.len() && entry_view(#[trigger] r@[i]) == x by {
            if appeared_entry(before@, after@, *renames, sc, olds, news@, x) {
                let k = choose|k: int| 0 <= k < entry_views(news@).len() && entry_views(news@)[k] == x;
                assert(entry_view(news@[k]) == x);
                assert(kept_in(news@, keep@, x));
            }
            if exists|i: int| 0 <= i < r@.len() && entry_view(#[trigger] r@[i]) == x {
                assert(kept_in(news@, keep@, x));
                let k = choose|k: int| 0 <= k < news@.len() && entry_view(#[trigger] news@[k]) == x && keep@[k];
                assert(entry_views(news@)[k] == x);
            }
        }
    }
    r
}

/// The snapshot's observations, moved, that are gone now, in order.
#[verifier::rlimit(40)]
fn resolved(before: &Vec<CompiledFile>, after: &Vec<CompiledFile>, renames: &StrMap<String>, scope: Option<&str>,
    moved_olds: &Vec<BaselineEntry>, news: &Vec<BaselineEntry>, Ghost(olds): Ghost<Seq<BaselineEntry>>) -> (r: Vec<BaselineEntry>)
    requires
        entry_views(moved_olds@) == moved_entries(before@, after@, *renames, olds),
    ensures
        entries_fit_resolved(before@, after@, *renames, crate::projection::zoom::opt_str(scope), olds, news@, r@),
{
    let ghost sc = crate::projection::zoom::opt_str(scope);
    let table = moved_table(before, after, renames);
    let mut keep: Vec<bool> = Vec::new();
    let mut i: usize = 0;
    while i < moved_olds.len()
        invariant
            i <= moved_olds@.len(),
            keep@.len() == i,
            sc == crate::projection::zoom::opt_str(scope),
            table_fits(table, before@, after@, *renames),
            forall|k: int| 0 <= k < i ==> keep@[k] == (!has_entry4(entry_views(news@), entry_view(#[trigger] moved_olds@[k]))
                && (in_scope(sc, moved_owner(before@, after@, *renames, moved_olds@[k].from_file@))
                    || in_scope(sc, moved_owner(before@, after@, *renames, moved_olds@[k].to_file@)))),
        decreases moved_olds@.len() - i,
    {
        let e = &moved_olds[i];
        let listed = entry_listed(news, e);
        let from_owner = moved_owner_exec(&table, e.from_file.as_str(), Ghost(before@), Ghost(after@), Ghost(*renames));
        let to_owner = moved_owner_exec(&table, e.to_file.as_str(), Ghost(before@), Ghost(after@), Ghost(*renames));
        let k = !listed && (scoped(scope, &from_owner) || scoped(scope, &to_owner));
        keep.push(k);
        i = i + 1;
    }
    let r = select_entries(moved_olds, &keep);
    proof {
        let mo = entry_views(moved_olds@);
        assert forall|x: (Seq<char>, Seq<char>, Seq<char>, Seq<char>)| #[trigger] resolved_entry(before@, after@, *renames, sc, olds, news@, x)
            <==> exists|i: int| 0 <= i < r@.len() && entry_view(#[trigger] r@[i]) == x by {
            if resolved_entry(before@, after@, *renames, sc, olds, news@, x) {
                let k = choose|k: int| 0 <= k < mo.len() && mo[k] == x;
                assert(entry_view(moved_olds@[k]) == x);
                assert(kept_in(moved_olds@, keep@, x));
            }
            if exists|i: int| 0 <= i < r@.len() && entry_view(#[trigger] r@[i]) == x {
                assert(kept_in(moved_olds@, keep@, x));
                let k = choose|k: int| 0 <= k < moved_olds@.len() && entry_view(#[trigger] moved_olds@[k]) == x && keep@[k];
                assert(mo[k] == x);
            }
        }
    }
    r
}

/// What changed between the snapshot and the live architecture `after`,
/// within the scope, with the violation observations of both given.
pub open spec fn diff_fits(snapshot: Snapshot, after: ArchitectureIr, scope: Option<Seq<char>>, renames: StrMap<String>,
    olds: Seq<BaselineEntry>, news: Seq<BaselineEntry>, d: Diff) -> bool {
    let b = snapshot.ir.files@;
    let a = after.files@;
    let bk = before_keys(b, a, renames, snapshot.ir.resolved_edges@);
    let ak = after_keys(after.resolved_edges@);
    &&& d.snapshot@ == snapshot.name@
    &&& opt_view(d.commit) == opt_view(snapshot.commit)
    &&& opt_view(d.scope) == scope
    &&& added_fit(b, a, renames, scope, d.files_added@)
    &&& removed_fit(b, a, renames, scope, d.files_removed@)
    &&& moved_fit(b, a, renames, scope, d.files_moved@)
    &&& reassigned_fit(b, a, renames, scope, d.files_reassigned@)
    &&& deps_fit(after.resolved_edges@, ak, bk, scope, d.dependencies_added@)
    &&& deps_fit(snapshot.ir.resolved_edges@, bk, ak, scope, d.dependencies_removed@)
    &&& entries_fit_appeared(b, a, renames, scope, olds, news, d.violations_appeared@)
    &&& entries_fit_resolved(b, a, renames, scope, olds, news, d.violations_resolved@)
}

/// Compares a snapshot with the live architecture. `scope` keeps changes
/// that touch a subtree; `renames` (old path to new path) lets a moved file
/// stay one file rather than a removed and an added one. The observations
/// behind the violations of each side come in as `before_entries` and
/// `after_entries`.
pub fn diff(
    snapshot: &Snapshot,
    after: &ArchitectureIr,
    scope: Option<&str>,
    renames: &StrMap<String>,
    before_entries: &Vec<BaselineEntry>,
    after_entries: &Vec<BaselineEntry>,
) -> (r: Diff)
    ensures
        diff_fits(*snapshot, *after, crate::projection::zoom::opt_str(scope), *renames, before_entries@, after_entries@, r),
{
    let before = &snapshot.ir;
    let (files_added, files_reassigned) = added_and_reassigned(&before.files, &after.files, renames, scope);
    let files_removed = removed_files(&before.files, &after.files, renames, scope);
    let files_moved = moved_files(&before.files, &after.files, renames, scope);
    let after_keys_list = keys_after(&after.resolved_edges);
    let before_keys_list = keys_before(&before.files, &after.files, renames, &before.resolved_edges);
    let dependencies_added = only_in(&after.resolved_edges, &after_keys_list, &before_keys_list, scope);
    let dependencies_removed = only_in(&before.resolved_edges, &before_keys_list, &after_keys_list, scope);
    let moved_olds = moved_entries_exec(&before.files, &after.files, renames, before_entries);
    let violations_appeared = appeared(&before.files, &after.files, renames, scope, &moved_olds, after_entries, Ghost(before_entries@));
    let violations_resolved = resolved(&before.files, &after.files, renames, scope, &moved_olds, after_entries, Ghost(before_entries@));
    let scope_copy = match scope {
        Some(s) => Some(String::from_str(s)),
        None => None,
    };
    Diff {
        snapshot: snapshot.name.clone(),
        commit: copy_opt(&snapshot.commit),
        scope: scope_copy,
        files_added,
        files_removed,
        files_moved,
        files_reassigned,
        dependencies_added,
        dependencies_removed,
        violations_appeared,
        violations_resolved,
    }
}


proof fn lemma_unchanged_keys(files: Seq<CompiledFile>, renames: StrMap<String>, edges: Seq<ResolvedEdge>)
    ensures
        before_keys(files, files, renames, edges) == after_keys(edges),
    decreases edges.len(),
{
    if edges.len() > 0 {
        lemma_unchanged_keys(files, renames, edges.drop_last());
        let e = edges.last();
        assert(followed(files, files, renames, e.evidence.from_file@) is None);
        assert(followed(files, files, renames, e.evidence.to_file@) is None);
    }
}

/// Comparing a snapshot with an architecture that has the same files, the
/// same dependencies and the same observations behind its violations finds
/// nothing, whatever the scope and the renames.
pub proof fn lemma_identical_diff_is_empty(
    snapshot: Snapshot,
    after: ArchitectureIr,
    scope: Option<Seq<char>>,
    renames: StrMap<String>,
    olds: Seq<BaselineEntry>,
    news: Seq<BaselineEntry>,
    d: Diff,
)
    requires
        snapshot.ir.files@ == after.files@,
        snapshot.ir.resolved_edges@ == after.resolved_edges@,
        entry_views(olds) == entry_views(news),
        diff_fits(snapshot, after, scope, renames, olds, news, d),
    ensures
        d.files_added@.len() == 0,
        d.files_removed@.len() == 0,
        d.files_moved@.len() == 0,
        d.files_reassigned@.len() == 0,
        d.dependencies_added@.len() == 0,
        d.dependencies_removed@.len() == 0,
        d.violations_appeared@.len() == 0,
        d.violations_resolved@.len() == 0,
        d.snapshot@ == snapshot.name@,
        opt_view(d.commit) == opt_view(snapshot.commit),
        opt_view(d.scope) == scope,
{
    let f = after.files@;
    let es = after.resolved_edges@;
    assert forall|p: Seq<char>| #[trigger] followed(f, f, renames, p) is None by {}
    lemma_unchanged_keys(f, renames, es);
    let ks = after_keys(es);
    if d.files_added@.len() > 0 {
        let x = d.files_added@[0].path@;
        assert(added_file(f, f, renames, scope, x));
    }
    if d.files_removed@.len() > 0 {
        let x = d.files_removed@[0].path@;
        assert(removed_file(f, f, renames, scope, x));
    }
    if d.files_moved@.len() > 0 {
        let x = d.files_moved@[0].from@;
        assert(moved_file(f, f, renames, scope, x));
        reveal(moved_file);
    }
    if d.files_reassigned@.len() > 0 {
        let x = d.files_reassigned@[0].path@;
        assert(reassigned_file(f, f, renames, scope, x));
    }
    if d.dependencies_added@.len() > 0 {
        let k = dep_view(d.dependencies_added@[0]).0;
        assert(dep_wanted(es, ks, ks, scope, k));
    }
    if d.dependencies_removed@.len() > 0 {
        let k = dep_view(d.dependencies_removed@[0]).0;
        assert(dep_wanted(es, ks, ks, scope, k));
    }
    assert(moved_entries(f, f, renames, olds) =~= entry_views(olds)) by {
        assert forall|i: int| 0 <= i < olds.len() implies moved_entry(f, f, renames, olds[i]) == entry_view(olds[i]) by {
            assert(followed(f, f, renames, olds[i].from_file@) is None);
            assert(followed(f, f, renames, olds[i].to_file@) is None);
        }
    }
    if d.violations_appeared@.len() > 0 {
        let x = entry_view(d.violations_appeared@[0]);
        assert(appeared_entry(f, f, renames, scope, olds, news, x));
    }
    if d.violations_resolved@.len() > 0 {
        let x = entry_view(d.violations_resolved@[0]);
        assert(resolved_entry(f, f, renames, scope, olds, news, x));
    }
}

} // verus!
