//! Text reports over a compiled architecture.
use vstd::prelude::*;
use crate::config::{is_within, within};
use crate::model::CompiledFile;
use crate::strmap::StrMap;
use crate::text::opt_view;

pub mod diff;
pub mod text;

verus! {

/// The node owning `path`: that of the last file listed under `path` that
/// has one.
pub open spec fn owner_of(files: Seq<CompiledFile>, path: Seq<char>) -> Option<Seq<char>>
    decreases files.len(),
{
    if files.len() == 0 {
        None
    } else if files.last().path@ == path && files.last().node is Some {
        opt_view(files.last().node)
    } else {
        owner_of(files.drop_last(), path)
    }
}

/// The architecture node owning each file, for reports filtered to a
/// subtree.
pub struct Owners {
    owners: StrMap<String>,
}

impl Owners {
    pub closed spec fn owner(&self, path: Seq<char>) -> Option<Seq<char>> {
        match self.owners.lookup(path) {
            Some(n) => Some(n@),
            None => None,
        }
    }

    pub fn new(files: &Vec<CompiledFile>) -> (r: Owners)
        ensures
            forall|p: Seq<char>| #[trigger] r.owner(p) == owner_of(files@, p),
    {
        let mut owners: StrMap<String> = StrMap::new();
        let mut i: usize = 0;
        while i < files.len()
            invariant
                i <= files@.len(),
                forall|p: Seq<char>| #[trigger] owners.lookup(p) matches Some(n) ==> owner_of(files@.take(i as int), p) == Some(n@),
                forall|p: Seq<char>| owners.lookup(p) is None ==> #[trigger] owner_of(files@.take(i as int), p) is None,
            decreases files@.len() - i,
        {
            let f = &files[i];
            proof {
                assert(files@.take(i + 1).drop_last() =~= files@.take(i as int));
                assert(files@.take(i + 1).last() == *f);
            }
            match &f.node {
                Some(n) => {
                    owners.insert(f.path.clone(), n.clone());
                },
                None => {},
            }
            i = i + 1;
        }
        proof {
            assert(files@.take(files@.len() as int) =~= files@);
        }
        let r = Owners { owners };
        proof {
            assert forall|p: Seq<char>| #[trigger] r.owner(p) == owner_of(files@, p) by {
                match r.owners.lookup(p) {
                    Some(n) => {},
                    None => {},
                }
            }
        }
        r
    }

    /// The node owning `file`, if any.
    pub fn of(&self, file: &str) -> (r: Option<&str>)
        ensures
            match r {
                Some(n) => self.owner(file@) == Some(n@),
                None => self.owner(file@) is None,
            },
    {
        match self.owners.get(file) {
            Some(n) => Some(n.as_str()),
            None => None,
        }
    }

    /// Whether `file` lies within `node`; every file does when no node is
    /// given.
    pub fn within(&self, file: &str, node: Option<&str>) -> (r: bool)
        ensures
            r == match node {
                None => true,
                Some(n) => self.owner(file@) matches Some(o) && within(o, n@),
            },
    {
        match node {
            None => true,
            Some(n) => match self.of(file) {
                Some(owner) => is_within(owner, n),
                None => false,
            },
        }
    }
}

} // verus!
