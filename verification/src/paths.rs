//! Repository-relative lexical paths. Nothing here touches the file system:
//! a path is only text, cleaned of separators and dot segments.
use vstd::prelude::*;
use crate::text::{
    chars_of, contains_char, has_char, has_prefix, join, join_chars, lower_code,
    lower_code_exec, parts_view, replace_char, replace_chars, slice_chars, split, split_chars,
    starts_with, string_of, lemma_split_join, lemma_split_parts_free,
};

verus! {

/// Why a path was refused.
#[derive(Debug, Clone, Copy, PartialEq, Eq, Structural)]
pub enum PathError {
    /// The path holds a NUL or a line break.
    Unsupported,
    /// The path is absolute (a leading `/` or a drive letter).
    Absolute,
    /// A `..` segment climbs above the repository root.
    Escapes,
    /// The file lies outside the repository.
    Outside,
    /// The path names the repository root itself, not a file.
    Empty,
}

pub open spec fn has_forbidden(s: Seq<char>) -> bool {
    contains_char(s, '\0') || contains_char(s, '\n') || contains_char(s, '\r')
}

/// The second byte of the UTF-8 text is `:` (a drive letter such as `C:`).
/// A first character of more than one byte puts a continuation byte there.
pub open spec fn second_byte_colon(s: Seq<char>) -> bool {
    s.len() >= 2 && (s[0] as u32) < 128 && s[1] == ':'
}

pub open spec fn looks_absolute(s: Seq<char>) -> bool {
    (s.len() > 0 && s[0] == '/') || second_byte_colon(s)
}

pub open spec fn is_dot(p: Seq<char>) -> bool {
    p == seq!['.']
}

pub open spec fn is_dot_dot(p: Seq<char>) -> bool {
    p == seq!['.', '.']
}

/// One segment applied to the segments kept so far: empty and `.` segments
/// vanish, `..` drops the last kept one (and fails when there is none).
pub open spec fn resolve_step(acc: Option<Seq<Seq<char>>>, p: Seq<char>) -> Option<Seq<Seq<char>>> {
    match acc {
        None => None,
        Some(kept) => if p.len() == 0 || is_dot(p) {
            Some(kept)
        } else if is_dot_dot(p) {
            if kept.len() == 0 {
                None
            } else {
                Some(kept.drop_last())
            }
        } else {
            Some(kept.push(p))
        },
    }
}

/// The segments kept after applying all of `ps` from left to right.
pub open spec fn resolve_segments(ps: Seq<Seq<char>>) -> Option<Seq<Seq<char>>>
    decreases ps.len(),
{
    if ps.len() == 0 {
        Some(Seq::<Seq<char>>::empty())
    } else {
        resolve_step(resolve_segments(ps.drop_last()), ps.last())
    }
}

/// The repository-relative form of `raw`: backslashes become slashes, empty
/// and `.` segments vanish, `..` removes the segment before it.
pub open spec fn normalized(raw: Seq<char>) -> Result<Seq<char>, PathError> {
    if has_forbidden(raw) {
        Err(PathError::Unsupported)
    } else {
        let r = replace_char(raw, '\\', '/');
        if looks_absolute(r) {
            Err(PathError::Absolute)
        } else {
            match resolve_segments(split(r, '/')) {
                None => Err(PathError::Escapes),
                Some(ps) => Ok(join(ps, seq!['/'])),
            }
        }
    }
}

pub open spec fn string_result(r: Result<String, PathError>) -> Result<Seq<char>, PathError> {
    match r {
        Ok(s) => Ok(s@),
        Err(e) => Err(e),
    }
}

/// A path that must name a file: the repository root itself is refused.
pub open spec fn nonempty_path(r: Result<Seq<char>, PathError>) -> Result<Seq<char>, PathError> {
    match r {
        Ok(s) => if s.len() == 0 {
            Err(PathError::Empty)
        } else {
            Ok(s)
        },
        Err(e) => Err(e),
    }
}

/// A segment that normalization keeps and leaves alone.
pub open spec fn proper_segment(p: Seq<char>) -> bool {
    &&& p.len() > 0
    &&& !is_dot(p)
    &&& !is_dot_dot(p)
    &&& !contains_char(p, '/')
    &&& !contains_char(p, '\\')
    &&& !has_forbidden(p)
}

proof fn lemma_resolve_none_extends(ps: Seq<Seq<char>>, i: int)
    requires
        0 <= i <= ps.len(),
        resolve_segments(ps.take(i)) is None,
    ensures
        resolve_segments(ps) is None,
    decreases ps.len() - i,
{
    if i < ps.len() {
        assert(ps.take(i + 1).drop_last() =~= ps.take(i));
        lemma_resolve_none_extends(ps, i + 1);
    } else {
        assert(ps.take(i) =~= ps);
    }
}

/// Segments free of the given characters resolve to proper segments.
proof fn lemma_resolve_proper(ps: Seq<Seq<char>>)
    requires
        forall|i: int|
            0 <= i < ps.len() ==> {
                &&& !contains_char(#[trigger] ps[i], '/')
                &&& !contains_char(ps[i], '\\')
                &&& !has_forbidden(ps[i])
            },
    ensures
        resolve_segments(ps) matches Some(kept) ==> forall|j: int|
            0 <= j < kept.len() ==> proper_segment(#[trigger] kept[j]),
    decreases ps.len(),
{
    if ps.len() > 0 {
        let init = ps.drop_last();
        assert forall|i: int| 0 <= i < init.len() implies {
            &&& !contains_char(#[trigger] init[i], '/')
            &&& !contains_char(init[i], '\\')
            &&& !has_forbidden(init[i])
        } by {
            assert(init[i] == ps[i]);
        }
        lemma_resolve_proper(init);
        let last = ps.last();
        assert(last == ps[ps.len() - 1]);
        if let Some(kept) = resolve_segments(init) {
            if last.len() == 0 || is_dot(last) {
            } else if is_dot_dot(last) {
                if kept.len() > 0 {
                    let d = kept.drop_last();
                    assert forall|j: int| 0 <= j < d.len() implies proper_segment(#[trigger] d[j]) by {
                        assert(d[j] == kept[j]);
                    }
                }
            } else {
                let k2 = kept.push(last);
                assert forall|j: int| 0 <= j < k2.len() implies proper_segment(#[trigger] k2[j]) by {
                    if j < kept.len() {
                        assert(k2[j] == kept[j]);
                    }
                }
            }
        }
    }
}

/// Proper segments resolve to themselves.
proof fn lemma_resolve_identity(ps: Seq<Seq<char>>)
    requires
        forall|i: int| 0 <= i < ps.len() ==> proper_segment(#[trigger] ps[i]),
    ensures
        resolve_segments(ps) == Some(ps),
    decreases ps.len(),
{
    if ps.len() > 0 {
        let init = ps.drop_last();
        assert forall|i: int| 0 <= i < init.len() implies proper_segment(#[trigger] init[i]) by {
            assert(init[i] == ps[i]);
        }
        lemma_resolve_identity(init);
        assert(proper_segment(ps[ps.len() - 1]));
        assert(init.push(ps.last()) =~= ps);
    }
}

/// Joining parts free of `c` with `/` (itself not `c`) gives a text free of `c`.
proof fn lemma_join_free(ps: Seq<Seq<char>>, c: char)
    requires
        c != '/',
        forall|i: int| 0 <= i < ps.len() ==> !contains_char(#[trigger] ps[i], c),
    ensures
        !contains_char(join(ps, seq!['/']), c),
    decreases ps.len(),
{
    if ps.len() == 1 {
        assert(!contains_char(ps[0], c));
    } else if ps.len() > 1 {
        let init = ps.drop_last();
        assert forall|i: int| 0 <= i < init.len() implies !contains_char(#[trigger] init[i], c) by {
            assert(init[i] == ps[i]);
        }
        lemma_join_free(init, c);
        let j = join(init, seq!['/']);
        let last = ps.last();
        assert(!contains_char(ps[ps.len() - 1], c));
        let whole = j + seq!['/'] + last;
        assert(whole == join(ps, seq!['/']));
        if contains_char(whole, c) {
            let k = choose|k: int| 0 <= k < whole.len() && whole[k] == c;
            if k < j.len() {
                assert(whole[k] == j[k]);
            } else if k == j.len() {
            } else {
                assert(whole[k] == last[k - j.len() - 1]);
            }
        }
    }
}

/// The first character of a join is that of its first part.
proof fn lemma_join_first(ps: Seq<Seq<char>>)
    requires
        ps.len() >= 1,
        ps[0].len() > 0,
    ensures
        join(ps, seq!['/']).len() > 0,
        join(ps, seq!['/'])[0] == ps[0][0],
    decreases ps.len(),
{
    if ps.len() > 1 {
        let init = ps.drop_last();
        assert(init[0] == ps[0]);
        lemma_join_first(init);
    }
}

/// A normalized path is made of proper segments joined with `/`.
pub proof fn lemma_normalized_shape(raw: Seq<char>)
    requires
        normalized(raw) is Ok,
    ensures
        ({
            let r = replace_char(raw, '\\', '/');
            &&& resolve_segments(split(r, '/')) is Some
            &&& normalized(raw) == Ok::<Seq<char>, PathError>(join(resolve_segments(split(r, '/'))->0, seq!['/']))
            &&& forall|j: int|
                0 <= j < resolve_segments(split(r, '/'))->0.len() ==> proper_segment(
                    #[trigger] resolve_segments(split(r, '/'))->0[j],
                )
        }),
{
    let r = replace_char(raw, '\\', '/');
    let pieces = split(r, '/');
    lemma_split_parts_free(r, '/');
    assert forall|i: int| 0 <= i < pieces.len() implies {
        &&& !contains_char(#[trigger] pieces[i], '/')
        &&& !contains_char(pieces[i], '\\')
        &&& !has_forbidden(pieces[i])
    } by {
        lemma_split_pieces_within(r, '/', i);
        let p = pieces[i];
        if contains_char(p, '\\') {
            let k = choose|k: int| 0 <= k < p.len() && p[k] == '\\';
            let m = choose|m: int| 0 <= m < r.len() && p[k] == r[m];
            assert(r[m] == (if raw[m] == '\\' { '/' } else { raw[m] }));
        }
        if has_forbidden(p) {
            let k = choose|k: int|
                0 <= k < p.len() && (p[k] == '\0' || p[k] == '\n' || p[k] == '\r');
            let m = choose|m: int| 0 <= m < r.len() && p[k] == r[m];
            assert(r[m] == (if raw[m] == '\\' { '/' } else { raw[m] }));
            assert(raw[m] == r[m]);
        }
    }
    lemma_resolve_proper(pieces);
}

/// Every character of a piece of `split(s, sep)` occurs in `s`.
proof fn lemma_split_pieces_within(s: Seq<char>, sep: char, i: int)
    requires
        0 <= i < split(s, sep).len(),
    ensures
        forall|k: int|
            0 <= k < split(s, sep)[i].len() ==> exists|m: int|
                0 <= m < s.len() && #[trigger] split(s, sep)[i][k] == s[m],
    decreases s.len(),
{
    if s.len() > 0 {
        let rest = split(s.drop_last(), sep);
        lemma_split_parts_free(s.drop_last(), sep);
        if s.last() == sep {
            if i < rest.len() {
                lemma_split_pieces_within(s.drop_last(), sep, i);
                assert forall|k: int| 0 <= k < split(s, sep)[i].len() implies exists|m: int|
                    0 <= m < s.len() && #[trigger] split(s, sep)[i][k] == s[m] by {
                    let m = choose|m: int|
                        0 <= m < s.drop_last().len() && rest[i][k] == s.drop_last()[m];
                    assert(s[m] == s.drop_last()[m]);
                }
            }
        } else {
            if i < rest.len() - 1 {
                lemma_split_pieces_within(s.drop_last(), sep, i);
                assert forall|k: int| 0 <= k < split(s, sep)[i].len() implies exists|m: int|
                    0 <= m < s.len() && #[trigger] split(s, sep)[i][k] == s[m] by {
                    let m = choose|m: int|
                        0 <= m < s.drop_last().len() && rest[i][k] == s.drop_last()[m];
                    assert(s[m] == s.drop_last()[m]);
                }
            } else {
                lemma_split_pieces_within(s.drop_last(), sep, i);
                let p = rest.last().push(s.last());
                assert(split(s, sep)[i] == p);
                assert forall|k: int| 0 <= k < split(s, sep)[i].len() implies exists|m: int|
                    0 <= m < s.len() && #[trigger] split(s, sep)[i][k] == s[m] by {
                    if k == p.len() - 1 {
                        assert(split(s, sep)[i][k] == s[s.len() - 1]);
                    } else {
                        assert(p[k] == rest[i][k]);
                        let m = choose|m: int|
                            0 <= m < s.drop_last().len() && rest[i][k] == s.drop_last()[m];
                        assert(s[m] == s.drop_last()[m]);
                    }
                }
            }
        }
    }
}

/// Normalizing a normalized path changes nothing, unless the result starts
/// like a drive (`a:b`), which a second pass refuses as absolute.
pub proof fn lemma_normalize_idempotent(raw: Seq<char>, out: Seq<char>)
    requires
        normalized(raw) == Ok::<Seq<char>, PathError>(out),
        !second_byte_colon(out),
    ensures
        normalized(out) == Ok::<Seq<char>, PathError>(out),
{
    lemma_normalized_shape(raw);
    let r = replace_char(raw, '\\', '/');
    let ps = resolve_segments(split(r, '/'))->0;
    assert(out == join(ps, seq!['/']));
    if ps.len() == 0 {
        assert(out.len() == 0);
        assert(!has_forbidden(out));
        assert(replace_char(out, '\\', '/') =~= out);
        assert(split(out, '/') =~= seq![Seq::<char>::empty()]);
        assert(seq![Seq::<char>::empty()].drop_last() =~= Seq::<Seq<char>>::empty());
        let e = seq![Seq::<char>::empty()];
        assert(resolve_segments(e.drop_last()) == Some(Seq::<Seq<char>>::empty()));
        assert(e.last().len() == 0);
        assert(resolve_segments(e) == Some(Seq::<Seq<char>>::empty()));
        assert(resolve_segments(split(out, '/')) == Some(Seq::<Seq<char>>::empty()));
        assert(!looks_absolute(replace_char(out, '\\', '/')));
    } else {
        lemma_join_free(ps, '\0');
        lemma_join_free(ps, '\n');
        lemma_join_free(ps, '\r');
        lemma_join_free(ps, '\\');
        assert(!has_forbidden(out));
        assert(replace_char(out, '\\', '/') =~= out) by {
            assert forall|k: int| 0 <= k < out.len() implies out[k] != '\\' by {}
        }
        assert(proper_segment(ps[0]));
        lemma_join_first(ps);
        assert(out[0] != '/') by {
            assert(ps[0][0] == out[0]);
            if out[0] == '/' {
                assert(contains_char(ps[0], '/'));
            }
        }
        assert forall|i: int| 0 <= i < ps.len() implies !contains_char(#[trigger] ps[i], '/') by {
            assert(proper_segment(ps[i]));
        }
        lemma_split_join(ps, '/');
        lemma_resolve_identity(ps);
        assert(!looks_absolute(out));
        assert(split(out, '/') == ps);
        assert(resolve_segments(split(out, '/')) == Some(ps));
    }
}

/// The repository-relative form of `raw`, or why it has none.
pub fn normalize_relative(raw: &str) -> (r: Result<String, PathError>)
    ensures
        string_result(r) == normalized(raw@),
{
    let chars = chars_of(raw);
    match normalize_chars(chars.as_slice()) {
        Ok(v) => Ok(string_of(v.as_slice())),
        Err(e) => Err(e),
    }
}

fn is_dot_exec(p: &Vec<char>) -> (r: bool)
    ensures
        r == is_dot(p@),
{
    if p.len() == 1 && p[0] == '.' {
        proof {
            assert(p@ =~= seq!['.']);
        }
        true
    } else {
        false
    }
}

fn is_dot_dot_exec(p: &Vec<char>) -> (r: bool)
    ensures
        r == is_dot_dot(p@),
{
    if p.len() == 2 && p[0] == '.' && p[1] == '.' {
        proof {
            assert(p@ =~= seq!['.', '.']);
        }
        true
    } else {
        false
    }
}

/// `normalize_relative` on characters.
pub fn normalize_chars(raw: &[char]) -> (r: Result<Vec<char>, PathError>)
    ensures
        match r {
            Ok(v) => normalized(raw@) == Ok::<Seq<char>, PathError>(v@),
            Err(e) => normalized(raw@) == Err::<Seq<char>, PathError>(e),
        },
{
    if has_char(raw, '\0') || has_char(raw, '\n') || has_char(raw, '\r') {
        return Err(PathError::Unsupported);
    }
    let replaced = replace_chars(raw, '\\', '/');
    if (replaced.len() > 0 && replaced[0] == '/') || (replaced.len() >= 2 && (replaced[0] as u32)
        < 128 && replaced[1] == ':') {
        return Err(PathError::Absolute);
    }
    let pieces = split_chars(replaced.as_slice(), '/');
    let ghost all = parts_view(pieces@);
    let mut parts: Vec<Vec<char>> = Vec::new();
    let mut i: usize = 0;
    proof {
        assert(all.take(0) =~= Seq::<Seq<char>>::empty());
        assert(parts_view(parts@) =~= Seq::<Seq<char>>::empty());
    }
    while i < pieces.len()
        invariant
            i <= pieces@.len(),
            all == parts_view(pieces@),
            all == split(replace_char(raw@, '\\', '/'), '/'),
            !has_forbidden(raw@),
            !looks_absolute(replace_char(raw@, '\\', '/')),
            resolve_segments(all.take(i as int)) == Some(parts_view(parts@)),
        decreases pieces@.len() - i,
    {
        let p = &pieces[i];
        proof {
            assert(all.take(i + 1).drop_last() =~= all.take(i as int));
            assert(all.take(i + 1).last() == p@);
        }
        if p.len() == 0 || is_dot_exec(p) {
        } else if is_dot_dot_exec(p) {
            if parts.len() == 0 {
                proof {
                    lemma_resolve_none_extends(all, i + 1);
                }
                return Err(PathError::Escapes);
            }
            let ghost before = parts_view(parts@);
            parts.pop();
            proof {
                assert(parts_view(parts@) =~= before.drop_last());
            }
        } else {
            let ghost before = parts_view(parts@);
            parts.push(p.clone());
            proof {
                assert(parts_view(parts@) =~= before.push(p@));
            }
        }
        i = i + 1;
    }
    proof {
        assert(all.take(pieces@.len() as int) =~= all);
    }
    Ok(join_chars(&parts, '/'))
}

/// `s` without its trailing `c` characters.
pub open spec fn trim_end_char(s: Seq<char>, c: char) -> Seq<char>
    decreases s.len(),
{
    if s.len() > 0 && s.last() == c {
        trim_end_char(s.drop_last(), c)
    } else {
        s
    }
}

pub open spec fn unc_marker() -> Seq<char> {
    seq!['/', '/', '?', '/', 'U', 'N', 'C', '/']
}

pub open spec fn verbatim_marker() -> Seq<char> {
    seq!['/', '/', '?', '/']
}

/// A Windows path with its verbatim prefix removed (`\\?\C:\x` is `C:/x`,
/// `\\?\UNC\server\x` is `//server/x`), with slashes for backslashes.
pub open spec fn portable(raw: Seq<char>) -> Seq<char> {
    let n = replace_char(raw, '\\', '/');
    if starts_with(n, unc_marker()) {
        seq!['/', '/'] + n.skip(8)
    } else if starts_with(n, verbatim_marker()) {
        n.skip(4)
    } else {
        n
    }
}

/// `prefix` starts `s`, comparing ASCII letters without case.
pub open spec fn starts_with_ignore_case(s: Seq<char>, prefix: Seq<char>) -> bool {
    prefix.len() <= s.len() && forall|i: int|
        0 <= i < prefix.len() ==> lower_code(#[trigger] s[i]) == lower_code(prefix[i])
}

/// The part of the provider's path below the repository root: the root prefix
/// is cut off when present (without case on a Windows root), else the path is
/// taken as it is.
pub open spec fn below_root(root: Seq<char>, raw: Seq<char>) -> Seq<char> {
    let path = portable(raw);
    let root_string = portable(root);
    let prefix = trim_end_char(root_string, '/').push('/');
    let windows_root = second_byte_colon(root_string) || starts_with(root_string, seq!['/', '/']);
    if windows_root && starts_with_ignore_case(path, prefix) {
        path.skip(prefix.len() as int)
    } else if starts_with(path, prefix) {
        path.skip(prefix.len() as int)
    } else {
        path
    }
}

fn portable_chars(raw: &[char]) -> (r: Vec<char>)
    ensures
        r@ == portable(raw@),
{
    let n = replace_chars(raw, '\\', '/');
    let unc = ['/', '/', '?', '/', 'U', 'N', 'C', '/'];
    let verbatim = ['/', '/', '?', '/'];
    proof {
        assert(unc@ =~= unc_marker());
        assert(verbatim@ =~= verbatim_marker());
    }
    if has_prefix(n.as_slice(), unc.as_slice()) {
        let mut r = vec!['/', '/'];
        let rest = slice_chars(n.as_slice(), 8, n.len());
        let mut i: usize = 0;
        let ghost base = r@;
        proof {
            assert(base =~= seq!['/', '/']);
        }
        while i < rest.len()
            invariant
                i <= rest@.len(),
                r@ == base + rest@.take(i as int),
            decreases rest@.len() - i,
        {
            r.push(rest[i]);
            proof {
                assert(r@ =~= base + rest@.take(i + 1));
            }
            i = i + 1;
        }
        proof {
            assert(rest@.take(rest@.len() as int) =~= rest@);
            assert(n@.subrange(8, n@.len() as int) =~= n@.skip(8));
        }
        r
    } else if has_prefix(n.as_slice(), verbatim.as_slice()) {
        proof {
            assert(n@.subrange(4, n@.len() as int) =~= n@.skip(4));
        }
        slice_chars(n.as_slice(), 4, n.len())
    } else {
        n
    }
}

/// A Windows path with its verbatim prefix removed and slashes for
/// backslashes; other paths only get slashes.
pub fn portable_absolute(raw: &str) -> (r: String)
    ensures
        r@ == portable(raw@),
{
    let chars = chars_of(raw);
    let p = portable_chars(chars.as_slice());
    string_of(p.as_slice())
}

fn starts_with_ignore_case_exec(s: &[char], prefix: &[char]) -> (r: bool)
    ensures
        r == starts_with_ignore_case(s@, prefix@),
{
    if prefix.len() > s.len() {
        return false;
    }
    let mut i: usize = 0;
    while i < prefix.len()
        invariant
            prefix@.len() <= s@.len(),
            i <= prefix@.len(),
            forall|j: int| 0 <= j < i ==> lower_code(#[trigger] s@[j]) == lower_code(prefix@[j]),
        decreases prefix@.len() - i,
    {
        if lower_code_exec(s[i]) != lower_code_exec(prefix[i]) {
            return false;
        }
        i = i + 1;
    }
    true
}

fn trim_end_chars(s: &[char], c: char) -> (r: Vec<char>)
    ensures
        r@ == trim_end_char(s@, c),
{
    let mut end = s.len();
    proof {
        assert(s@.take(end as int) =~= s@);
    }
    while end > 0 && s[end - 1] == c
        invariant
            end <= s@.len(),
            trim_end_char(s@, c) == trim_end_char(s@.take(end as int), c),
        decreases end,
    {
        proof {
            assert(s@.take(end as int).drop_last() =~= s@.take(end - 1));
        }
        end = end - 1;
    }
    proof {
        assert(s@.subrange(0, end as int) =~= s@.take(end as int));
    }
    slice_chars(s, 0, end)
}

pub(crate) fn below_root_chars(root: &[char], raw: &[char]) -> (r: Vec<char>)
    ensures
        r@ == below_root(root@, raw@),
{
    let path = portable_chars(raw);
    let root_string = portable_chars(root);
    let mut prefix = trim_end_chars(root_string.as_slice(), '/');
    prefix.push('/');
    let slash2 = ['/', '/'];
    proof {
        assert(slash2@ =~= seq!['/', '/']);
    }
    let windows_root = (root_string.len() >= 2 && (root_string[0] as u32) < 128 && root_string[1]
        == ':') || has_prefix(root_string.as_slice(), slash2.as_slice());
    if windows_root && starts_with_ignore_case_exec(path.as_slice(), prefix.as_slice()) {
        proof {
            assert(path@.subrange(prefix@.len() as int, path@.len() as int) =~= path@.skip(
                prefix@.len() as int,
            ));
        }
        slice_chars(path.as_slice(), prefix.len(), path.len())
    } else if has_prefix(path.as_slice(), prefix.as_slice()) {
        proof {
            assert(path@.subrange(prefix@.len() as int, path@.len() as int) =~= path@.skip(
                prefix@.len() as int,
            ));
        }
        slice_chars(path.as_slice(), prefix.len(), path.len())
    } else {
        path
    }
}

/// A provider's file path as a repository-relative path. An absolute path is
/// accepted only under `root`; a path outside it keeps its leading `/` and is
/// refused as absolute, never turned into a membership.
pub fn provider_path(root: &str, raw: &str) -> (r: Result<String, PathError>)
    ensures
        string_result(r) == nonempty_path(normalized(below_root(root@, raw@))),
{
    let root_chars = chars_of(root);
    let raw_chars = chars_of(raw);
    let relative = below_root_chars(root_chars.as_slice(), raw_chars.as_slice());
    match normalize_chars(relative.as_slice()) {
        Ok(v) => if v.len() == 0 {
            Err(PathError::Empty)
        } else {
            Ok(string_of(v.as_slice()))
        },
        Err(e) => Err(e),
    }
}

/// What `Path::strip_prefix` gives for `file` under `root`, compared by whole
/// components; `None` when `root` is not a leading part of `file`.
pub uninterp spec fn path_strip_prefix(file: Seq<char>, root: Seq<char>) -> Option<Seq<char>>;

/// `std::path::Path::strip_prefix`, on UTF-8 paths. Its result is named, not
/// described: the component comparison of `Path` is not restated here.
#[verifier::external_body]
fn strip_path_prefix(file: &str, root: &str) -> (r: Option<String>)
    ensures
        match r {
            Some(s) => path_strip_prefix(file@, root@) == Some(s@),
            None => path_strip_prefix(file@, root@) is None,
        },
{
    match std::path::Path::new(file).strip_prefix(root) {
        Ok(rest) => Some(rest.to_string_lossy().into_owned()),
        Err(_) => None,
    }
}

/// A discovered file's path relative to the repository root.
pub open spec fn relative_file_result(root: Seq<char>, file: Seq<char>) -> Result<Seq<char>, PathError> {
    match path_strip_prefix(file, root) {
        None => Err(PathError::Outside),
        Some(rest) => nonempty_path(normalized(rest)),
    }
}

/// The repository-relative path of `file`, which must lie under `root` and
/// name a file rather than the root itself.
pub fn relative_file(root: &str, file: &str) -> (r: Result<String, PathError>)
    ensures
        string_result(r) == relative_file_result(root@, file@),
{
    match strip_path_prefix(file, root) {
        None => Err(PathError::Outside),
        Some(rest) => {
            let chars = chars_of(rest.as_str());
            match normalize_chars(chars.as_slice()) {
                Ok(v) => if v.len() == 0 {
                    Err(PathError::Empty)
                } else {
                    Ok(string_of(v.as_slice()))
                },
                Err(e) => Err(e),
            }
        },
    }
}

/// What `format!("{:?}", s)` writes for a string: it quoted, with escapes.
pub uninterp spec fn debug_quoted(s: Seq<char>) -> Seq<char>;

/// `<str as Debug>::fmt`, through `format!`; its escaping is named, not
/// restated.
#[verifier::external_body]
pub(crate) fn debug_text(s: &str) -> (r: String)
    ensures
        r@ == debug_quoted(s@),
{
    format!("{:?}", s)
}

/// What a path that is refused is told, naming the path as it was given.
pub open spec fn path_problem(raw: Seq<char>, e: PathError) -> Seq<char> {
    match e {
        PathError::Unsupported => "path contains an unsupported NUL/newline: "@ + debug_quoted(raw),
        PathError::Absolute => "path `"@ + raw + "` must be repository-relative, not absolute"@,
        PathError::Escapes => "path `"@ + raw + "` escapes the repository root"@,
        PathError::Outside => "file is outside the repository"@,
        PathError::Empty => "expected a file path, got repository root"@,
    }
}

pub fn path_problem_text(raw: &str, e: PathError) -> (r: String)
    ensures
        r@ == path_problem(raw@, e),
{
    match e {
        PathError::Unsupported => crate::text::cat2("path contains an unsupported NUL/newline: ", debug_text(raw).as_str()),
        PathError::Absolute => crate::text::cat3("path `", raw, "` must be repository-relative, not absolute"),
        PathError::Escapes => crate::text::cat3("path `", raw, "` escapes the repository root"),
        PathError::Outside => String::from_str("file is outside the repository"),
        PathError::Empty => String::from_str("expected a file path, got repository root"),
    }
}


/// What is said when no directory from the start up holds `.git`.
pub open spec fn no_repository_text(start: Seq<char>) -> Seq<char> {
    "no Git repository found above "@ + start + "; run from a repository or pass --root <directory>"@
}

/// The repository a command runs in: the first of `ancestors` (the start
/// directory, then each parent up to the root) that holds `.git`, as
/// `has_git` tells; worktrees have a `.git` file, which counts too.
pub fn repository_among(start: &str, ancestors: &Vec<String>, has_git: &Vec<bool>) -> (r: Result<String, String>)
    requires
        has_git@.len() == ancestors@.len(),
    ensures
        match r {
            Ok(root) => exists|i: int| 0 <= i < ancestors@.len() && has_git@[i] && root@ == (#[trigger] ancestors@[i])@
                && forall|j: int| 0 <= j < i ==> !(#[trigger] has_git@[j]),
            Err(m) => m@ == no_repository_text(start@) && forall|j: int| 0 <= j < has_git@.len() ==> !(#[trigger] has_git@[j]),
        },
{
    let mut i: usize = 0;
    while i < ancestors.len()
        invariant
            i <= ancestors@.len(),
            has_git@.len() == ancestors@.len(),
            forall|j: int| 0 <= j < i ==> !(#[trigger] has_git@[j]),
        decreases ancestors@.len() - i,
    {
        if has_git[i] {
            return Ok(ancestors[i].clone());
        }
        i = i + 1;
    }
    Err(crate::text::cat3("no Git repository found above ", start, "; run from a repository or pass --root <directory>"))
}


/// What `normalize_relative` does: it refuses a path with NUL or a line
/// break, one that starts with `/` or a drive once backslashes are slashes,
/// and one whose `..` has nothing left to remove; otherwise it gives a path
/// with no backslash, no leading `/`, and proper segments only (none empty,
/// `.` or `..`), which normalizes to itself unless it starts like a drive.
pub proof fn lemma_normalize_relative_law(raw: Seq<char>)
    ensures
        normalized(raw) is Err <==> (has_forbidden(raw) || looks_absolute(replace_char(raw, '\\', '/'))
            || resolve_segments(split(replace_char(raw, '\\', '/'), '/')) is None),
        normalized(raw) matches Ok(s) ==> {
            &&& !contains_char(s, '\\')
            &&& (s.len() > 0 ==> s[0] != '/')
            &&& (s.len() > 0 ==> forall|j: int| 0 <= j < split(s, '/').len() ==> proper_segment(#[trigger] split(s, '/')[j]))
            &&& (!second_byte_colon(s) ==> normalized(s) == Ok::<Seq<char>, PathError>(s))
        },
{
    if normalized(raw) is Ok {
        let s = normalized(raw)->Ok_0;
        lemma_normalized_shape(raw);
        let ps = resolve_segments(split(replace_char(raw, '\\', '/'), '/'))->0;
        assert(s == join(ps, seq!['/']));
        assert forall|i: int| 0 <= i < ps.len() implies !contains_char(#[trigger] ps[i], '\\') by {
            assert(proper_segment(ps[i]));
        }
        lemma_join_free(ps, '\\');
        if ps.len() >= 1 {
            assert(proper_segment(ps[0]));
            lemma_join_first(ps);
            if ps[0][0] == '/' {
                assert(contains_char(ps[0], '/'));
            }
            assert forall|i: int| 0 <= i < ps.len() implies !contains_char(#[trigger] ps[i], '/') by {
                assert(proper_segment(ps[i]));
            }
            lemma_split_join(ps, '/');
        }
        if !second_byte_colon(s) {
            lemma_normalize_idempotent(raw, s);
        }
    }
}

} // verus!
