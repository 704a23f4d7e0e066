//! Glob patterns of node maps and exclusions, compiled by `globset` with
//! `/` matched only literally and `\` taken as an ordinary character.
use vstd::prelude::*;
use globset::{GlobBuilder, GlobSet, GlobSetBuilder};
use crate::text::views;

verus! {

#[verifier::external_type_specification]
#[verifier::external_body]
pub struct ExGlobSet(GlobSet);

/// Whether `globset` accepts `pattern` as a glob (with this crate's options).
pub uninterp spec fn glob_valid(pattern: Seq<char>) -> bool;

/// Whether the glob `pattern` (with this crate's options) matches `path`.
pub uninterp spec fn glob_match(pattern: Seq<char>, path: Seq<char>) -> bool;

/// The patterns a compiled set holds, in the order they were added.
pub uninterp spec fn glob_set_patterns(set: GlobSet) -> Seq<Seq<char>>;

/// `GlobBuilder::build` with `literal_separator(true)` and
/// `backslash_escape(false)`: whether the pattern compiles. Which patterns
/// compile is named, not restated.
#[verifier::external_body]
pub(crate) fn glob_accepted(pattern: &str) -> (r: bool)
    ensures
        r == glob_valid(pattern@),
{
    GlobBuilder::new(pattern).literal_separator(true).backslash_escape(false).build().is_ok()
}

/// Whether `GlobSetBuilder::build` builds a set of the patterns, each of
/// which compiles: it refuses one whose compiled matchers exceed `globset`'s
/// size limits, which depend on the patterns alone.
pub uninterp spec fn glob_set_builds(patterns: Seq<Seq<char>>) -> bool;

/// `GlobSetBuilder::build` over the patterns compiled as `glob_accepted`
/// compiles them. It gives a set exactly when every pattern compiles and the
/// set of them builds.
#[verifier::external_body]
pub(crate) fn build_glob_set(patterns: &Vec<String>) -> (r: Option<GlobSet>)
    ensures
        r matches Some(set) ==> glob_set_patterns(set) == views(patterns@),
        r is Some <==> ((forall|i: int| 0 <= i < patterns@.len() ==> glob_valid(#[trigger] patterns@[i]@))
            && glob_set_builds(views(patterns@))),
{
    let mut builder = GlobSetBuilder::new();
    for pattern in patterns {
        match GlobBuilder::new(pattern).literal_separator(true).backslash_escape(false).build() {
            Ok(glob) => {
                builder.add(glob);
            },
            Err(_) => return None,
        }
    }
    builder.build().ok()
}

/// `GlobSet::matches`: the indices of the patterns that match `path`, in
/// ascending order without repetitions (the source sorts and dedups them).
#[verifier::external_body]
pub(crate) fn glob_set_matches(set: &GlobSet, path: &str) -> (r: Vec<usize>)
    ensures
        forall|i: int, j: int| 0 <= i < j < r@.len() ==> r@[i] < r@[j],
        forall|i: int| 0 <= i < r@.len() ==> r@[i] < glob_set_patterns(*set).len(),
        forall|k: int|
            0 <= k < glob_set_patterns(*set).len() ==> (glob_match(
                #[trigger] glob_set_patterns(*set)[k],
                path@,
            ) <==> r@.contains(k as usize)),
{
    set.matches(path)
}

} // verus!
