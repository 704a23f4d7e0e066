//! Which discovered files lie under which source root.
use vstd::prelude::*;
use crate::text::{chars_of, has_prefix, starts_with};

verus! {

/// `path` is `root` or lies below it at a `/`; every path lies under the
/// empty root.
pub open spec fn under_spec(path: Seq<char>, root: Seq<char>) -> bool {
    root.len() == 0 || path == root || (starts_with(path, root) && path.len() > root.len() && path[root.len() as int] == '/')
}

pub fn under(path: &str, root: &str) -> (r: bool)
    ensures
        r == under_spec(path@, root@),
{
    let p = chars_of(path);
    let q = chars_of(root);
    if q.len() == 0 {
        return true;
    }
    if crate::text::chars_eq(p.as_slice(), q.as_slice()) {
        return true;
    }
    has_prefix(p.as_slice(), q.as_slice()) && p.len() > q.len() && p[q.len()] == '/'
}

} // verus!
