//! Character-level helpers shared by the parsers of this crate: splitting,
//! joining and trimming sequences of characters, with their specifications.
use vstd::prelude::*;

verus! {

/// `s` split at every `sep`: `n` separators give `n + 1` parts.
pub open spec fn split(s: Seq<char>, sep: char) -> Seq<Seq<char>>
    decreases s.len(),
{
    if s.len() == 0 {
        seq![Seq::<char>::empty()]
    } else {
        let rest = split(s.drop_last(), sep);
        if s.last() == sep {
            rest.push(Seq::<char>::empty())
        } else {
            rest.update(rest.len() - 1, rest.last().push(s.last()))
        }
    }
}

/// The parts joined with `sep` between consecutive ones.
pub open spec fn join(parts: Seq<Seq<char>>, sep: Seq<char>) -> Seq<char>
    decreases parts.len(),
{
    if parts.len() == 0 {
        Seq::<char>::empty()
    } else if parts.len() == 1 {
        parts[0]
    } else {
        join(parts.drop_last(), sep) + sep + parts.last()
    }
}

/// Every character of `s` with `from` replaced by `to`.
pub open spec fn replace_char(s: Seq<char>, from: char, to: char) -> Seq<char> {
    s.map_values(|c: char| if c == from { to } else { c })
}

/// The code point of `c` with an ASCII capital lowered; two characters are
/// equal ignoring ASCII case exactly when these codes are equal.
pub open spec fn lower_code(c: char) -> u32 {
    if 'A' <= c && c <= 'Z' {
        ((c as u32) + 32) as u32
    } else {
        c as u32
    }
}

pub open spec fn is_ascii_alphanumeric(c: char) -> bool {
    ('a' <= c && c <= 'z') || ('A' <= c && c <= 'Z') || ('0' <= c && c <= '9')
}

/// White space as `char::is_whitespace` (and so `str::trim`) understands it:
/// the Unicode `White_Space` property.
pub open spec fn is_space(c: char) -> bool {
    c == ' ' || c == '\t' || c == '\n' || c == '\r' || c == '\x0B' || c == '\x0C'
        || c == '\u{85}' || c == '\u{A0}' || c == '\u{1680}' || ('\u{2000}' <= c && c <= '\u{200A}')
        || c == '\u{2028}' || c == '\u{2029}' || c == '\u{202F}' || c == '\u{205F}'
        || c == '\u{3000}'
}

/// Number of leading white-space characters.
pub open spec fn leading_space(s: Seq<char>) -> nat
    decreases s.len(),
{
    if s.len() > 0 && is_space(s[0]) {
        1 + leading_space(s.drop_first())
    } else {
        0
    }
}

/// Number of trailing white-space characters.
pub open spec fn trailing_space(s: Seq<char>) -> nat
    decreases s.len(),
{
    if s.len() > 0 && is_space(s.last()) {
        1 + trailing_space(s.drop_last())
    } else {
        0
    }
}

/// `s` without white space at either end, as `str::trim` gives it.
pub open spec fn trim(s: Seq<char>) -> Seq<char> {
    let front = s.skip(leading_space(s) as int);
    front.take(front.len() - trailing_space(front))
}

pub open spec fn starts_with(s: Seq<char>, prefix: Seq<char>) -> bool {
    prefix.len() <= s.len() && s.take(prefix.len() as int) == prefix
}

pub open spec fn ends_with(s: Seq<char>, suffix: Seq<char>) -> bool {
    suffix.len() <= s.len() && s.skip(s.len() - suffix.len()) == suffix
}

pub open spec fn contains_char(s: Seq<char>, c: char) -> bool {
    exists|i: int| 0 <= i < s.len() && s[i] == c
}

/// The view of each character vector of a sequence.
pub open spec fn parts_view(v: Seq<Vec<char>>) -> Seq<Seq<char>> {
    v.map_values(|p: Vec<char>| p@)
}

/// The view of each string of a sequence.
pub open spec fn views(v: Seq<String>) -> Seq<Seq<char>> {
    v.map_values(|s: String| s@)
}

proof fn lemma_leading_space_bound(s: Seq<char>)
    ensures
        leading_space(s) <= s.len(),
    decreases s.len(),
{
    if s.len() > 0 && is_space(s[0]) {
        lemma_leading_space_bound(s.drop_first());
    }
}

proof fn lemma_trailing_space_bound(s: Seq<char>)
    ensures
        trailing_space(s) <= s.len(),
    decreases s.len(),
{
    if s.len() > 0 && is_space(s.last()) {
        lemma_trailing_space_bound(s.drop_last());
    }
}

proof fn lemma_leading_stop(s: Seq<char>)
    ensures
        leading_space(s) <= s.len(),
        leading_space(s) < s.len() ==> !is_space(s[leading_space(s) as int]),
    decreases s.len(),
{
    if s.len() > 0 && is_space(s[0]) {
        lemma_leading_stop(s.drop_first());
    }
}

proof fn lemma_trailing_stop(s: Seq<char>)
    ensures
        trailing_space(s) <= s.len(),
        trailing_space(s) < s.len() ==> !is_space(s[s.len() - 1 - trailing_space(s)]),
    decreases s.len(),
{
    if s.len() > 0 && is_space(s.last()) {
        lemma_trailing_stop(s.drop_last());
    }
}

/// Trimming a trimmed text changes nothing.
pub proof fn lemma_trim_idempotent(s: Seq<char>)
    ensures
        trim(trim(s)) == trim(s),
{
    let a = leading_space(s);
    lemma_leading_stop(s);
    let front = s.skip(a as int);
    lemma_trailing_stop(front);
    let t = trim(s);
    if t.len() > 0 {
        assert(t[0] == s[a as int]);
        assert(t.last() == front[front.len() - 1 - trailing_space(front)]);
        assert(leading_space(t) == 0);
        assert(trailing_space(t) == 0);
        assert(t.skip(0) =~= t);
        assert(t.take(t.len() as int) =~= t);
    } else {
        assert(trim(t) =~= t);
    }
}

/// Every part of `split(s, sep)` is free of `sep`.
pub proof fn lemma_split_parts_free(s: Seq<char>, sep: char)
    ensures
        split(s, sep).len() >= 1,
        forall|i: int| 0 <= i < split(s, sep).len() ==> !contains_char(#[trigger] split(s, sep)[i], sep),
    decreases s.len(),
{
    if s.len() > 0 {
        lemma_split_parts_free(s.drop_last(), sep);
        let rest = split(s.drop_last(), sep);
        let r = split(s, sep);
        if s.last() != sep {
            assert forall|i: int| 0 <= i < r.len() implies !contains_char(#[trigger] r[i], sep) by {
                if i == r.len() - 1 {
                    let p = rest.last().push(s.last());
                    assert(!contains_char(rest[rest.len() - 1], sep));
                    if contains_char(p, sep) {
                        let j = choose|j: int| 0 <= j < p.len() && p[j] == sep;
                        if j < p.len() - 1 {
                            assert(rest[rest.len() - 1][j] == sep);
                        }
                    }
                } else {
                    assert(r[i] == rest[i]);
                }
            }
        } else {
            assert forall|i: int| 0 <= i < r.len() implies !contains_char(#[trigger] r[i], sep) by {
                if i < r.len() - 1 {
                    assert(r[i] == rest[i]);
                } else {
                    assert(r[i].len() == 0);
                }
            }
        }
    }
}

/// Splitting a text that ends in a separator-free tail extends the last part.
proof fn lemma_split_append_free(a: Seq<char>, b: Seq<char>, sep: char)
    requires
        !contains_char(b, sep),
    ensures
        split(a + b, sep) == split(a, sep).update(
            split(a, sep).len() - 1,
            split(a, sep).last() + b,
        ),
    decreases b.len(),
{
    lemma_split_parts_free(a, sep);
    if b.len() == 0 {
        assert(a + b =~= a);
        assert(split(a, sep).last() + b =~= split(a, sep).last());
        assert(split(a, sep).update(split(a, sep).len() - 1, split(a, sep).last())
            =~= split(a, sep));
    } else {
        let b0 = b.drop_last();
        assert(!contains_char(b0, sep)) by {
            if contains_char(b0, sep) {
                let j = choose|j: int| 0 <= j < b0.len() && b0[j] == sep;
                assert(b[j] == sep);
            }
        }
        lemma_split_append_free(a, b0, sep);
        assert((a + b).drop_last() =~= a + b0);
        assert((a + b).last() == b.last());
        assert(b.last() != sep) by {
            assert(b[b.len() - 1] == b.last());
        }
        let sa = split(a, sep);
        assert(split(a + b, sep) =~= sa.update(sa.len() - 1, sa.last() + b0).update(
            sa.len() - 1,
            (sa.last() + b0).push(b.last()),
        ));
        assert((sa.last() + b0).push(b.last()) =~= sa.last() + b);
        assert(split(a + b, sep) =~= sa.update(sa.len() - 1, sa.last() + b));
    }
}

/// Splitting undoes joining, when no part holds the separator.
pub proof fn lemma_split_join(parts: Seq<Seq<char>>, sep: char)
    requires
        parts.len() >= 1,
        forall|i: int| 0 <= i < parts.len() ==> !contains_char(#[trigger] parts[i], sep),
    ensures
        split(join(parts, seq![sep]), sep) == parts,
    decreases parts.len(),
{
    if parts.len() == 1 {
        let empty = Seq::<char>::empty();
        assert(empty + parts[0] =~= parts[0]);
        lemma_split_append_free(empty, parts[0], sep);
        assert(split(empty, sep) =~= seq![empty]);
        assert(split(join(parts, seq![sep]), sep) =~= parts);
    } else {
        let init = parts.drop_last();
        assert forall|i: int| 0 <= i < init.len() implies !contains_char(#[trigger] init[i], sep) by {
            assert(init[i] == parts[i]);
        }
        lemma_split_join(init, sep);
        let j = join(init, seq![sep]);
        let with_sep = j + seq![sep];
        assert(with_sep.drop_last() =~= j);
        assert(split(with_sep, sep) =~= split(j, sep).push(Seq::<char>::empty()));
        assert(!contains_char(parts.last(), sep)) by {
            assert(parts.last() == parts[parts.len() - 1]);
        }
        lemma_split_append_free(with_sep, parts.last(), sep);
        assert(join(parts, seq![sep]) =~= with_sep + parts.last());
        let s = split(with_sep, sep);
        assert(s.last() + parts.last() =~= parts.last());
        assert(s.update(s.len() - 1, s.last() + parts.last()) =~= parts);
    }
}

/// The characters of `s`, in order.
pub fn chars_of(s: &str) -> (r: Vec<char>)
    ensures
        r@ == s@,
{
    let mut r: Vec<char> = Vec::new();
    for c in it: s.chars()
        invariant
            r@ == it.seq().take(it.index() as int),
    {
        r.push(c);
    }
    proof {
        assert(r@ =~= s@);
    }
    r
}

/// `String::push`: appends one character.
#[verifier::external_body]
fn push_char(s: &mut String, c: char)
    ensures
        final(s)@ == old(s)@.push(c),
{
    s.push(c);
}

/// A string holding exactly the given characters.
pub fn string_of(chars: &[char]) -> (r: String)
    ensures
        r@ == chars@,
{
    let mut r = String::new();
    let mut i: usize = 0;
    while i < chars.len()
        invariant
            i <= chars@.len(),
            r@ == chars@.take(i as int),
        decreases chars@.len() - i,
    {
        push_char(&mut r, chars[i]);
        proof {
            assert(r@ =~= chars@.take(i + 1));
        }
        i = i + 1;
    }
    proof {
        assert(chars@.take(chars@.len() as int) =~= chars@);
    }
    r
}

/// A copy of `s`.
pub fn copy_string(s: &str) -> (r: String)
    ensures
        r@ == s@,
{
    let chars = chars_of(s);
    string_of(chars.as_slice())
}

/// Whether two character sequences are equal.
pub fn chars_eq(a: &[char], b: &[char]) -> (r: bool)
    ensures
        r == (a@ == b@),
{
    if a.len() != b.len() {
        return false;
    }
    let mut i: usize = 0;
    while i < a.len()
        invariant
            a@.len() == b@.len(),
            i <= a@.len(),
            forall|j: int| 0 <= j < i ==> a@[j] == b@[j],
        decreases a@.len() - i,
    {
        if a[i] != b[i] {
            return false;
        }
        i = i + 1;
    }
    proof {
        assert(a@ =~= b@);
    }
    true
}

/// Whether two strings are equal.
pub fn str_eq(a: &str, b: &str) -> (r: bool)
    ensures
        r == (a@ == b@),
{
    let x = chars_of(a);
    let y = chars_of(b);
    chars_eq(x.as_slice(), y.as_slice())
}

/// Whether `s` contains `c`.
pub fn has_char(s: &[char], c: char) -> (r: bool)
    ensures
        r == contains_char(s@, c),
{
    let mut i: usize = 0;
    while i < s.len()
        invariant
            i <= s@.len(),
            forall|j: int| 0 <= j < i ==> s@[j] != c,
        decreases s@.len() - i,
    {
        if s[i] == c {
            return true;
        }
        i = i + 1;
    }
    false
}

/// Whether `s` starts with `prefix`.
pub fn has_prefix(s: &[char], prefix: &[char]) -> (r: bool)
    ensures
        r == starts_with(s@, prefix@),
{
    if prefix.len() > s.len() {
        return false;
    }
    let mut i: usize = 0;
    while i < prefix.len()
        invariant
            prefix@.len() <= s@.len(),
            i <= prefix@.len(),
            forall|j: int| 0 <= j < i ==> s@[j] == prefix@[j],
        decreases prefix@.len() - i,
    {
        if s[i] != prefix[i] {
            proof {
                assert(s@.take(prefix@.len() as int)[i as int] != prefix@[i as int]);
            }
            return false;
        }
        i = i + 1;
    }
    proof {
        assert(s@.take(prefix@.len() as int) =~= prefix@);
    }
    true
}

/// Whether `s` ends with `suffix`.
pub fn has_suffix(s: &[char], suffix: &[char]) -> (r: bool)
    ensures
        r == ends_with(s@, suffix@),
{
    if suffix.len() > s.len() {
        return false;
    }
    let n = s.len();
    let offset = n - suffix.len();
    let mut i: usize = 0;
    while i < suffix.len()
        invariant
            n == s@.len(),
            suffix@.len() <= s@.len(),
            offset + suffix@.len() == s@.len(),
            i <= suffix@.len(),
            forall|j: int| 0 <= j < i ==> s@[offset + j] == suffix@[j],
        decreases suffix@.len() - i,
    {
        if s[offset + i] != suffix[i] {
            proof {
                assert(s@.skip(offset as int)[i as int] != suffix@[i as int]);
            }
            return false;
        }
        i = i + 1;
    }
    proof {
        assert(s@.skip(offset as int) =~= suffix@);
    }
    true
}

/// The characters of `s` from `start` (inclusive) to `end` (exclusive).
pub fn slice_chars(s: &[char], start: usize, end: usize) -> (r: Vec<char>)
    requires
        start <= end <= s@.len(),
    ensures
        r@ == s@.subrange(start as int, end as int),
{
    let mut r: Vec<char> = Vec::new();
    let mut i = start;
    while i < end
        invariant
            start <= i <= end <= s@.len(),
            r@ == s@.subrange(start as int, i as int),
        decreases end - i,
    {
        r.push(s[i]);
        proof {
            assert(r@ =~= s@.subrange(start as int, i + 1));
        }
        i = i + 1;
    }
    r
}

/// `a` followed by `b`.
pub fn concat_chars(a: &[char], b: &[char]) -> (r: Vec<char>)
    ensures
        r@ == a@ + b@,
{
    let mut r = slice_chars(a, 0, a.len());
    let mut i: usize = 0;
    while i < b.len()
        invariant
            i <= b@.len(),
            r@ == a@ + b@.take(i as int),
        decreases b@.len() - i,
    {
        r.push(b[i]);
        proof {
            assert(r@ =~= a@ + b@.take(i + 1));
        }
        i = i + 1;
    }
    proof {
        assert(b@.take(b@.len() as int) =~= b@);
        assert(a@.subrange(0, a@.len() as int) =~= a@);
    }
    r
}

/// `s` with every `from` replaced by `to`.
pub fn replace_chars(s: &[char], from: char, to: char) -> (r: Vec<char>)
    ensures
        r@ == replace_char(s@, from, to),
{
    let mut r: Vec<char> = Vec::new();
    let mut i: usize = 0;
    while i < s.len()
        invariant
            i <= s@.len(),
            r@ == replace_char(s@.take(i as int), from, to),
        decreases s@.len() - i,
    {
        let c = if s[i] == from { to } else { s[i] };
        r.push(c);
        proof {
            assert(replace_char(s@.take(i + 1), from, to) =~= replace_char(s@.take(i as int), from, to).push(c));
        }
        i = i + 1;
    }
    proof {
        assert(s@.take(s@.len() as int) =~= s@);
    }
    r
}

/// `s` split at every `sep`.
pub fn split_chars(s: &[char], sep: char) -> (r: Vec<Vec<char>>)
    ensures
        parts_view(r@) == split(s@, sep),
{
    let mut r: Vec<Vec<char>> = Vec::new();
    r.push(Vec::new());
    let mut i: usize = 0;
    proof {
        assert(s@.take(0) =~= Seq::<char>::empty());
        assert(parts_view(r@) =~= split(s@.take(0), sep));
    }
    while i < s.len()
        invariant
            i <= s@.len(),
            r@.len() >= 1,
            parts_view(r@) == split(s@.take(i as int), sep),
        decreases s@.len() - i,
    {
        let c = s[i];
        proof {
            assert(s@.take(i + 1).drop_last() =~= s@.take(i as int));
            assert(s@.take(i + 1).last() == c);
        }
        if c == sep {
            r.push(Vec::new());
            proof {
                assert(parts_view(r@) =~= split(s@.take(i + 1), sep));
            }
        } else {
            let last = r.len() - 1;
            let mut part = r[last].clone();
            part.push(c);
            let ghost before = parts_view(r@);
            r.set(last, part);
            proof {
                assert(parts_view(r@) =~= before.update(before.len() - 1, before.last().push(c)));
            }
        }
        i = i + 1;
    }
    proof {
        assert(s@.take(s@.len() as int) =~= s@);
    }
    r
}

/// The parts joined with `sep`.
pub fn join_chars(parts: &Vec<Vec<char>>, sep: char) -> (r: Vec<char>)
    ensures
        r@ == join(parts_view(parts@), seq![sep]),
{
    let mut r: Vec<char> = Vec::new();
    let mut i: usize = 0;
    while i < parts.len()
        invariant
            i <= parts@.len(),
            r@ == join(parts_view(parts@).take(i as int), seq![sep]),
        decreases parts@.len() - i,
    {
        let ghost prev = parts_view(parts@).take(i as int);
        let ghost next = parts_view(parts@).take(i + 1);
        proof {
            assert(next.drop_last() =~= prev);
            assert(next.last() == parts[i as int]@);
        }
        if i > 0 {
            r.push(sep);
        }
        let mut j: usize = 0;
        let ghost base = r@;
        while j < parts[i].len()
            invariant
                i < parts@.len(),
                j <= parts@[i as int]@.len(),
                r@ == base + parts@[i as int]@.take(j as int),
            decreases parts@[i as int]@.len() - j,
        {
            r.push(parts[i][j]);
            proof {
                assert(r@ =~= base + parts@[i as int]@.take(j + 1));
            }
            j = j + 1;
        }
        proof {
            assert(parts@[i as int]@.take(parts@[i as int]@.len() as int) =~= parts@[i as int]@);
            if i == 0 {
                assert(r@ =~= join(next, seq![sep]));
            } else {
                assert(r@ =~= join(next, seq![sep]));
            }
        }
        i = i + 1;
    }
    proof {
        assert(parts_view(parts@).take(parts@.len() as int) =~= parts_view(parts@));
    }
    r
}

/// `s` without leading and trailing white space.
pub fn trim_chars(s: &[char]) -> (r: Vec<char>)
    ensures
        r@ == trim(s@),
{
    let mut start: usize = 0;
    proof {
        assert(s@.skip(0) =~= s@);
    }
    while start < s.len() && is_space_exec(s[start])
        invariant
            start <= s@.len(),
            leading_space(s@) == start + leading_space(s@.skip(start as int)),
        decreases s@.len() - start,
    {
        proof {
            assert(s@.skip(start as int).drop_first() =~= s@.skip(start + 1));
        }
        start = start + 1;
    }
    proof {
        assert(leading_space(s@.skip(start as int)) == 0);
    }
    let mut end: usize = s.len();
    let ghost front = s@.skip(start as int);
    proof {
        lemma_leading_space_bound(s@);
        assert(front.take(end - start) =~= front);
    }
    while end > start && is_space_exec(s[end - 1])
        invariant
            start <= end <= s@.len(),
            front == s@.skip(start as int),
            trailing_space(front) == (s@.len() - end) + trailing_space(
                front.take(end - start),
            ),
        decreases end,
    {
        proof {
            let t = front.take(end - start);
            assert(t.last() == s@[end - 1]);
            assert(t.drop_last() =~= front.take(end - 1 - start));
        }
        end = end - 1;
    }
    proof {
        assert(front.take(s@.len() - start) =~= front);
        let t = front.take(end - start);
        if t.len() > 0 {
            assert(t.last() == s@[end - 1]);
        }
        assert(trailing_space(t) == 0);
        assert(front.take(front.len() - trailing_space(front)) =~= s@.subrange(start as int, end as int));
    }
    slice_chars(s, start, end)
}

/// The parts one after another.
pub open spec fn concat_all(parts: Seq<Seq<char>>) -> Seq<char>
    decreases parts.len(),
{
    if parts.len() == 0 {
        Seq::<char>::empty()
    } else {
        concat_all(parts.drop_last()) + parts.last()
    }
}

pub open spec fn str_views(parts: Seq<&str>) -> Seq<Seq<char>> {
    parts.map_values(|p: &str| p@)
}

/// The given pieces of text one after another.
pub fn cat(parts: &[&str]) -> (r: String)
    ensures
        r@ == concat_all(str_views(parts@)),
{
    let mut r = String::new();
    let mut i: usize = 0;
    proof {
        assert(str_views(parts@).take(0) =~= Seq::<Seq<char>>::empty());
    }
    while i < parts.len()
        invariant
            i <= parts@.len(),
            r@ == concat_all(str_views(parts@).take(i as int)),
        decreases parts@.len() - i,
    {
        r.append(parts[i]);
        proof {
            assert(str_views(parts@).take(i + 1).drop_last() =~= str_views(parts@).take(i as int));
        }
        i = i + 1;
    }
    proof {
        assert(str_views(parts@).take(parts@.len() as int) =~= str_views(parts@));
    }
    r
}

proof fn lemma_concat_push(parts: Seq<Seq<char>>, x: Seq<char>)
    ensures
        concat_all(parts.push(x)) == concat_all(parts) + x,
{
    assert(parts.push(x).drop_last() =~= parts);
}

pub fn cat2(a: &str, b: &str) -> (r: String)
    ensures
        r@ == a@ + b@,
{
    let parts = [a, b];
    proof {
        let e = Seq::<Seq<char>>::empty();
        assert(str_views(parts@) =~= e.push(a@).push(b@));
        lemma_concat_push(e, a@);
        lemma_concat_push(e.push(a@), b@);
        assert(concat_all(e) + a@ =~= a@);
    }
    cat(&parts)
}

pub fn cat3(a: &str, b: &str, c: &str) -> (r: String)
    ensures
        r@ == a@ + b@ + c@,
{
    let parts = [a, b, c];
    proof {
        let e = Seq::<Seq<char>>::empty();
        assert(str_views(parts@) =~= e.push(a@).push(b@).push(c@));
        lemma_concat_push(e, a@);
        lemma_concat_push(e.push(a@), b@);
        lemma_concat_push(e.push(a@).push(b@), c@);
        assert(concat_all(e) + a@ =~= a@);
    }
    cat(&parts)
}

pub fn cat4(a: &str, b: &str, c: &str, d: &str) -> (r: String)
    ensures
        r@ == a@ + b@ + c@ + d@,
{
    let parts = [a, b, c, d];
    proof {
        let e = Seq::<Seq<char>>::empty();
        assert(str_views(parts@) =~= e.push(a@).push(b@).push(c@).push(d@));
        lemma_concat_push(e, a@);
        lemma_concat_push(e.push(a@), b@);
        lemma_concat_push(e.push(a@).push(b@), c@);
        lemma_concat_push(e.push(a@).push(b@).push(c@), d@);
        assert(concat_all(e) + a@ =~= a@);
    }
    cat(&parts)
}

pub fn cat5(a: &str, b: &str, c: &str, d: &str, f: &str) -> (r: String)
    ensures
        r@ == a@ + b@ + c@ + d@ + f@,
{
    let parts = [a, b, c, d, f];
    proof {
        let e = Seq::<Seq<char>>::empty();
        assert(str_views(parts@) =~= e.push(a@).push(b@).push(c@).push(d@).push(f@));
        lemma_concat_push(e, a@);
        lemma_concat_push(e.push(a@), b@);
        lemma_concat_push(e.push(a@).push(b@), c@);
        lemma_concat_push(e.push(a@).push(b@).push(c@), d@);
        lemma_concat_push(e.push(a@).push(b@).push(c@).push(d@), f@);
        assert(concat_all(e) + a@ =~= a@);
    }
    cat(&parts)
}

pub open spec fn digit_char(d: nat) -> char {
    if d == 0 { '0' } else if d == 1 { '1' } else if d == 2 { '2' } else if d == 3 { '3' }
    else if d == 4 { '4' } else if d == 5 { '5' } else if d == 6 { '6' } else if d == 7 { '7' }
    else if d == 8 { '8' } else { '9' }
}

/// The decimal digits of `n`, without leading zeros.
pub open spec fn decimal_spec(n: nat) -> Seq<char>
    decreases n,
{
    if n < 10 {
        seq![digit_char(n)]
    } else {
        decimal_spec(n / 10).push(digit_char(n % 10))
    }
}

fn digit_char_exec(d: u64) -> (r: char)
    requires
        d < 10,
    ensures
        r == digit_char(d as nat),
{
    if d == 0 { '0' } else if d == 1 { '1' } else if d == 2 { '2' } else if d == 3 { '3' }
    else if d == 4 { '4' } else if d == 5 { '5' } else if d == 6 { '6' } else if d == 7 { '7' }
    else if d == 8 { '8' } else { '9' }
}

/// `n` written in decimal, as `format!("{n}")` writes it.
pub fn decimal(n: u128) -> (r: String)
    ensures
        r@ == decimal_spec(n as nat),
{
    let mut digits: Vec<char> = Vec::new();
    let mut m = n;
    let ghost mut rest: Seq<char> = Seq::empty();
    while m >= 10
        invariant
            decimal_spec(n as nat) == decimal_spec(m as nat) + rest,
            digits@ == rest.reverse(),
        decreases m,
    {
        let d = (m % 10) as u64;
        let c = digit_char_exec(d);
        proof {
            assert(decimal_spec(m as nat) == decimal_spec((m / 10) as nat).push(c));
            assert(decimal_spec((m / 10) as nat).push(c) + rest =~= decimal_spec((m / 10) as nat) + (seq![c] + rest));
            assert((seq![c] + rest).reverse() =~= rest.reverse().push(c));
            rest = seq![c] + rest;
        }
        digits.push(c);
        m = m / 10;
    }
    let c = digit_char_exec(m as u64);
    digits.push(c);
    proof {
        assert(decimal_spec(m as nat) == seq![c]);
        rest = seq![c] + rest;
        assert(digits@ =~= rest.reverse());
        assert(rest =~= decimal_spec(n as nat));
    }
    let mut out: Vec<char> = Vec::new();
    let mut i = digits.len();
    while i > 0
        invariant
            i <= digits@.len(),
            digits@ == rest.reverse(),
            out@ == rest.take(digits@.len() - i),
        decreases i,
    {
        i = i - 1;
        out.push(digits[i]);
        proof {
            assert(rest.take(digits@.len() - i) =~= rest.take(digits@.len() - i - 1).push(digits@[i as int]));
        }
    }
    proof {
        assert(rest.take(digits@.len() as int) =~= rest);
    }
    string_of(out.as_slice())
}

pub fn lower_code_exec(c: char) -> (r: u32)
    ensures
        r == lower_code(c),
{
    if 'A' <= c && c <= 'Z' {
        (c as u32) + 32
    } else {
        c as u32
    }
}

pub fn is_space_exec(c: char) -> (r: bool)
    ensures
        r == is_space(c),
{
    c == ' ' || c == '\t' || c == '\n' || c == '\r' || c == '\x0B' || c == '\x0C'
        || c == '\u{85}' || c == '\u{A0}' || c == '\u{1680}' || ('\u{2000}' <= c && c <= '\u{200A}')
        || c == '\u{2028}' || c == '\u{2029}' || c == '\u{202F}' || c == '\u{205F}'
        || c == '\u{3000}'
}


/// The text an optional string holds.
pub open spec fn opt_view(o: Option<String>) -> Option<Seq<char>> {
    match o {
        Some(s) => Some(s@),
        None => None,
    }
}

/// A copy of an optional string.
pub fn copy_opt(o: &Option<String>) -> (r: Option<String>)
    ensures
        opt_view(r) == opt_view(*o),
{
    match o {
        Some(s) => Some(s.clone()),
        None => None,
    }
}

/// A copy of a list of strings.
pub fn copy_strings(v: &Vec<String>) -> (r: Vec<String>)
    ensures
        views(r@) == views(v@),
{
    let r = v.clone();
    proof {
        assert(r@ =~= v@);
    }
    r
}

/// The strings joined with `sep` between consecutive ones.
pub fn join_strings(parts: &Vec<String>, sep: &str) -> (r: String)
    ensures
        r@ == join(views(parts@), sep@),
{
    let mut r = String::new();
    let mut i: usize = 0;
    while i < parts.len()
        invariant
            i <= parts@.len(),
            r@ == join(views(parts@).take(i as int), sep@),
        decreases parts@.len() - i,
    {
        let ghost prev = views(parts@).take(i as int);
        let ghost next = views(parts@).take(i + 1);
        proof {
            assert(next.drop_last() =~= prev);
            assert(next.last() == parts@[i as int]@);
        }
        if i > 0 {
            r.append(sep);
        }
        r.append(parts[i].as_str());
        proof {
            if i == 0 {
                assert(next.len() == 1);
                assert(r@ =~= join(next, sep@));
            } else {
                assert(r@ =~= join(next, sep@));
            }
        }
        i = i + 1;
    }
    proof {
        assert(views(parts@).take(parts@.len() as int) =~= views(parts@));
    }
    r
}

} // verus!
