//! The key provider results are cached under between runs.
use vstd::prelude::*;
use crate::text::cat3;

verus! {

/// `None` when the provider cannot identify its index or its queries: such
/// results are never cached. Otherwise the fingerprint and the query
/// identity on two lines.
pub fn key(fingerprint: Option<&str>, query_identity: Option<&str>) -> (r: Option<String>)
    ensures
        match (fingerprint, query_identity) {
            (Some(f), Some(q)) => r matches Some(k) && k@ == f@ + "\n"@ + q@,
            _ => r is None,
        },
{
    match (fingerprint, query_identity) {
        (Some(f), Some(q)) => Some(cat3(f, "\n", q)),
        _ => None,
    }
}

} // verus!
