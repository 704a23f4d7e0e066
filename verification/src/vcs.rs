//! The Git facts baselines need, read from what Git prints.
use vstd::prelude::*;
use crate::source::utf8_text;
use crate::strmap::StrMap;
use crate::text::{cat3, chars_of, parts_view, split, split_chars, string_of, trim, trim_chars};

verus! {

/// `HEAD` from the output of `git rev-parse --verify -q HEAD`: the trimmed
/// text, or nothing when it is empty or not UTF-8 (outside a repository or
/// before the first commit).
pub fn head_commit(stdout: Vec<u8>) -> (r: Option<String>)
    ensures
        match r {
            Some(c) => vstd::utf8::valid_utf8(stdout@) && c@ == trim(vstd::utf8::decode_utf8(stdout@)) && c@.len() > 0,
            None => !vstd::utf8::valid_utf8(stdout@) || trim(vstd::utf8::decode_utf8(stdout@)).len() == 0,
        },
{
    let ghost bytes = stdout@;
    match utf8_text(stdout) {
        Ok(text) => {
            let chars = chars_of(text.as_str());
            let trimmed = trim_chars(chars.as_slice());
            if trimmed.len() == 0 {
                None
            } else {
                Some(string_of(trimmed.as_slice()))
            }
        },
        Err(_) => None,
    }
}

pub open spec fn is_hex_digit(c: char) -> bool {
    ('0' <= c && c <= '9') || ('a' <= c && c <= 'f') || ('A' <= c && c <= 'F')
}

pub open spec fn not_commit_text(commit: Seq<char>) -> Seq<char> {
    "baseline commit `"@ + commit + "` is not a commit id"@
}

/// A baseline's commit is handed to Git only when it is made of hex digits.
pub fn check_commit_id(commit: &str) -> (r: Result<(), String>)
    ensures
        match r {
            Ok(()) => forall|i: int| 0 <= i < commit@.len() ==> is_hex_digit(#[trigger] commit@[i]),
            Err(m) => (exists|i: int| 0 <= i < commit@.len() && !is_hex_digit(#[trigger] commit@[i])) && m@ == not_commit_text(commit@),
        },
{
    let c = chars_of(commit);
    let mut i: usize = 0;
    while i < c.len()
        invariant
            i <= c@.len(),
            c@ == commit@,
            forall|k: int| 0 <= k < i ==> is_hex_digit(#[trigger] c@[k]),
        decreases c@.len() - i,
    {
        let x = c[i];
        if !(('0' <= x && x <= '9') || ('a' <= x && x <= 'f') || ('A' <= x && x <= 'F')) {
            proof {
                assert(!is_hex_digit(commit@[i as int]));
            }
            return Err(cat3("baseline commit `", commit, "` is not a commit id"));
        }
        i = i + 1;
    }
    Ok(())
}

/// The nonempty parts, in order.
pub open spec fn nonempty(parts: Seq<Seq<char>>) -> Seq<Seq<char>>
    decreases parts.len(),
{
    if parts.len() == 0 {
        parts
    } else if parts.last().len() == 0 {
        nonempty(parts.drop_last())
    } else {
        nonempty(parts.drop_last()).push(parts.last())
    }
}

/// The fields of `git diff --name-status -z` output: what the NUL bytes
/// separate, empty ones left out.
pub open spec fn fields(text: Seq<char>) -> Seq<Seq<char>> {
    nonempty(split(text, '\0'))
}

/// The `i`-th record is whole (status, old path, new path) with a rename
/// status.
pub open spec fn record_ok(fs: Seq<Seq<char>>, i: int) -> bool {
    &&& 3 * i + 2 < fs.len()
    &&& fs[3 * i].len() > 0
    &&& fs[3 * i][0] == 'R'
}

/// What the first bad record makes the parse say.
pub open spec fn record_error(fs: Seq<Seq<char>>, i: int) -> Seq<char> {
    if 3 * i + 2 >= fs.len() {
        "unexpected `git diff --name-status` output after `"@ + fs[3 * i] + "`"@
    } else {
        "unexpected `git diff` status `"@ + fs[3 * i] + "`"@
    }
}

/// Where the first `j` records moved `old` to, the last one telling.
pub open spec fn moved_to(fs: Seq<Seq<char>>, old: Seq<char>, j: int) -> Option<Seq<char>>
    decreases j,
{
    if j <= 0 {
        None
    } else if fs[3 * (j - 1) + 1] == old {
        Some(fs[3 * (j - 1) + 2])
    } else {
        moved_to(fs, old, j - 1)
    }
}

pub open spec fn string_opt(o: Option<String>) -> Option<Seq<char>> {
    match o {
        Some(s) => Some(s@),
        None => None,
    }
}

/// Old path -> new path from the NUL-separated output of `git diff
/// --find-renames --diff-filter=R --name-status -z`, which lists a status,
/// the old path and the new path for each rename.
pub fn parse_renames(text: &str) -> (r: Result<StrMap<String>, String>)
    ensures
        match r {
            Ok(m) => {
                &&& fields(text@).len() % 3 == 0
                &&& forall|i: int| 0 <= i < fields(text@).len() / 3 ==> #[trigger] record_ok(fields(text@), i)
                &&& forall|x: Seq<char>| #[trigger] string_opt(m.lookup(x)) == moved_to(fields(text@), x, (fields(text@).len() / 3) as int)
            },
            Err(e) => exists|i: int| {
                &&& 0 <= 3 * i < fields(text@).len()
                &&& (forall|k: int| 0 <= k < i ==> #[trigger] record_ok(fields(text@), k))
                &&& !record_ok(fields(text@), i)
                &&& e@ == record_error(fields(text@), i)
            },
        },
{
    let c = chars_of(text);
    let parts = split_chars(c.as_slice(), '\0');
    let ghost sp = split(text@, '\0');
    let mut fs: Vec<Vec<char>> = Vec::new();
    let mut i: usize = 0;
    while i < parts.len()
        invariant
            i <= parts@.len(),
            parts_view(parts@) == sp,
            parts_view(fs@) == nonempty(sp.take(i as int)),
        decreases parts@.len() - i,
    {
        proof {
            assert(sp.take(i + 1).drop_last() =~= sp.take(i as int));
            assert(sp.take(i + 1).last() == parts@[i as int]@);
        }
        if parts[i].len() > 0 {
            let ghost o = fs@;
            fs.push(parts[i].clone());
            proof {
                assert(parts_view(fs@) =~= parts_view(o).push(parts@[i as int]@));
            }
        }
        i = i + 1;
    }
    proof {
        assert(sp.take(parts@.len() as int) =~= sp);
    }
    let ghost f = fields(text@);
    let mut m: StrMap<String> = StrMap::new();
    let mut t: usize = 0;
    let ghost mut j: int = 0;
    while t < fs.len()
        invariant
            parts_view(fs@) == f,
            f == fields(text@),
            t == 3 * j,
            t <= fs@.len(),
            forall|k: int| 0 <= k < j ==> #[trigger] record_ok(f, k),
            forall|x: Seq<char>| #[trigger] string_opt(m.lookup(x)) == moved_to(f, x, j),
        decreases fs@.len() - t,
    {
        proof {
            assert(f[t as int] == fs@[t as int]@);
        }
        if fs.len() - t < 3 {
            let status = string_of(fs[t].as_slice());
            proof {
                assert(!record_ok(f, j));
            }
            return Err(cat3("unexpected `git diff --name-status` output after `", status.as_str(), "`"));
        }
        if fs[t].len() == 0 || fs[t][0] != 'R' {
            let status = string_of(fs[t].as_slice());
            proof {
                assert(!record_ok(f, j));
            }
            return Err(cat3("unexpected `git diff` status `", status.as_str(), "`"));
        }
        let old = string_of(fs[t + 1].as_slice());
        let new = string_of(fs[t + 2].as_slice());
        proof {
            assert(old@ == f[t + 1]);
            assert(new@ == f[t + 2]);
            assert(record_ok(f, j));
        }
        let ghost m0 = m;
        let ghost ov = old@;
        m.insert(old, new);
        proof {
            assert forall|x: Seq<char>| #[trigger] string_opt(m.lookup(x)) == moved_to(f, x, j + 1) by {
                if x != ov {
                    assert(m.lookup(x) == m0.lookup(x));
                }
            }
            assert forall|k: int| 0 <= k < j + 1 implies #[trigger] record_ok(f, k) by {
                if k < j {
                    assert(record_ok(f, k));
                }
            }
            j = j + 1;
        }
        t = t + 3;
    }
    Ok(m)
}

} // verus!
