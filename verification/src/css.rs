//! Stylesheets: where a script's import of a stylesheet leads.

use vstd::prelude::*;
use crate::paths::{normalize_relative, normalized, PathError};
use crate::repository::{join, joined, lemma_under_parent, parent, parent_path};
use crate::text::{cat2, cat3, cat4, chars_of, starts_with, views};

verus! {

/// The places a package stylesheet `specifier` may be, from the directory
/// `dir` up: its `node_modules`, then that of each directory above, the
/// root's last (`fuel` bounds the walk).
pub open spec fn candidates_from(dir: Seq<char>, specifier: Seq<char>, fuel: nat) -> Seq<Seq<char>>
    decreases fuel,
{
    let here = joined(dir, "node_modules/"@ + specifier);
    if fuel == 0 || dir.len() == 0 {
        seq![here]
    } else {
        seq![here] + candidates_from(parent_path(dir), specifier, (fuel - 1) as nat)
    }
}

/// Where a bundler looks for the package stylesheet `specifier` imported by
/// `importer`: the nearest `node_modules` first.
pub open spec fn stylesheet_candidates(importer: Seq<char>, specifier: Seq<char>) -> Seq<Seq<char>> {
    candidates_from(parent_path(importer), specifier, parent_path(importer).len())
}

/// The walk up ends at the root whatever fuel is left, once it suffices.
proof fn lemma_fuel(dir: Seq<char>, specifier: Seq<char>, fuel: nat)
    requires
        fuel >= dir.len(),
    ensures
        candidates_from(dir, specifier, fuel) == candidates_from(dir, specifier, dir.len()),
    decreases fuel,
{
    if dir.len() > 0 && fuel > 0 {
        lemma_under_parent(dir, dir);
        let p = parent_path(dir);
        lemma_fuel(p, specifier, (fuel - 1) as nat);
        lemma_fuel(p, specifier, (dir.len() - 1) as nat);
    }
}

/// The places to look for a package stylesheet, nearest first; the first
/// that is a file is the one a bundler takes.
pub fn stylesheet_places(importer: &str, specifier: &str) -> (r: Vec<String>)
    ensures
        views(r@) == stylesheet_candidates(importer@, specifier@),
{
    let mut dir = parent(importer);
    let mut out: Vec<String> = Vec::new();
    let ghost all = stylesheet_candidates(importer@, specifier@);
    loop
        invariant
            all == stylesheet_candidates(importer@, specifier@),
            views(out@) + candidates_from(dir@, specifier@, dir@.len()) == all,
        decreases dir@.len(),
    {
        let name = cat2("node_modules/", specifier);
        let here = join(dir.as_str(), name.as_str());
        let ghost before = views(out@);
        out.push(here);
        if chars_of(dir.as_str()).len() == 0 {
            proof {
                assert(views(out@) =~= before.push(here@));
                assert(candidates_from(dir@, specifier@, dir@.len()) == seq![here@]);
                assert(before + seq![here@] =~= before.push(here@));
                assert(views(out@) == all);
            }
            return out;
        }
        let next = parent(dir.as_str());
        proof {
            lemma_under_parent(dir@, dir@);
            lemma_fuel(next@, specifier@, (dir@.len() - 1) as nat);
            assert(views(out@) =~= before.push(here@));
            assert(candidates_from(dir@, specifier@, dir@.len()) == seq![here@] + candidates_from(next@, specifier@, next@.len()));
            assert(before + (seq![here@] + candidates_from(next@, specifier@, next@.len()))
                =~= before.push(here@) + candidates_from(next@, specifier@, next@.len()));
        }
        dir = next;
    }
}

/// A relative import (`./`, `../`) names a repository path, taken from the
/// importer's directory; any other names a package.
pub open spec fn resolved_import(importer: Seq<char>, specifier: Seq<char>) -> Result<Option<Seq<char>>, Seq<char>> {
    if !(starts_with(specifier, seq!['.', '/']) || starts_with(specifier, seq!['.', '.', '/'])) {
        Ok(None)
    } else {
        match normalized(parent_path(importer) + "/"@ + specifier) {
            Ok(p) => Ok(Some(p)),
            Err(_) => Err(importer + ": cannot resolve `"@ + specifier + "`"@),
        }
    }
}

/// The repository path a stylesheet import names, if it names one.
pub fn resolve_import(importer: &str, specifier: &str) -> (r: Result<Option<String>, String>)
    ensures
        match r {
            Ok(Some(p)) => resolved_import(importer@, specifier@) == Ok::<Option<Seq<char>>, Seq<char>>(Some(p@)),
            Ok(None) => resolved_import(importer@, specifier@) == Ok::<Option<Seq<char>>, Seq<char>>(None),
            Err(m) => resolved_import(importer@, specifier@) == Err::<Option<Seq<char>>, Seq<char>>(m@),
        },
{
    let s = chars_of(specifier);
    let dot = s.len() >= 2 && s[0] == '.' && s[1] == '/';
    let dots = s.len() >= 3 && s[0] == '.' && s[1] == '.' && s[2] == '/';
    proof {
        assert(dot == starts_with(specifier@, seq!['.', '/'])) by {
            if s@.len() >= 2 {
                assert(dot == (s@.take(2) =~= seq!['.', '/']));
            }
        }
        assert(dots == starts_with(specifier@, seq!['.', '.', '/'])) by {
            if s@.len() >= 3 {
                assert(dots == (s@.take(3) =~= seq!['.', '.', '/']));
            }
        }
    }
    if !(dot || dots) {
        return Ok(None);
    }
    let dir = parent(importer);
    let raw = cat3(dir.as_str(), "/", specifier);
    let n = normalize_relative(raw.as_str());
    proof {
        assert(raw@ == parent_path(importer@) + "/"@ + specifier@);
    }
    match n {
        Ok(p) => {
            proof {
                assert(normalized(raw@) == Ok::<Seq<char>, PathError>(p@));
            }
            let r: Result<Option<String>, String> = Ok(Some(p));
            proof {
                assert(resolved_import(importer@, specifier@) == Ok::<Option<Seq<char>>, Seq<char>>(Some(p@)));
            }
            r
        },
        Err(_) => Err(cat4(importer, ": cannot resolve `", specifier, "`")),
    }
}

} // verus!
