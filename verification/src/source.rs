//! What the code viewer may show of a mapped file, and how it is described:
//! the checks on the requested path, the text checks on the bytes read, and
//! the line count and hash of the answer. Reading the file is left to the
//! caller, after these checks.
use vstd::prelude::*;
use vstd::utf8::{decode_utf8, encode_utf8, valid_utf8};
use crate::model::CompiledFile;
use crate::order::seq_has;
use crate::paths::{looks_absolute, normalize_relative, normalized, PathError};
use crate::text::{cat2, cat3, cat5, chars_eq, chars_of, decimal, decimal_spec, replace_char, replace_chars, split, str_eq};

verus! {

/// Larger files are refused: the viewer is for reading code, not data.
pub const SOURCE_SIZE_LIMIT: u64 = 1048576;

#[derive(Debug, Clone, PartialEq, Eq)]
pub struct SourceFile {
    pub path: String,
    /// The node owning the file in the IR the check used.
    pub node: String,
    /// Absent when the caller already has this content (`if_hash`).
    pub text: Option<String>,
    pub line_count: usize,
    pub bytes: usize,
    /// FNV-1a 64 of the bytes, in hex: tells a changed file from an
    /// unchanged one, nothing more. It is not a security hash.
    pub hash: String,
    pub unchanged: bool,
}

/// Why a file is not served. `reason` is a stable code the UI and the tests
/// match on; `message` says what to do.
#[derive(Debug, Clone, PartialEq, Eq)]
pub struct Refusal {
    pub status: u16,
    pub reason: String,
    pub message: String,
}

pub fn refuse(status: u16, reason: &str, message: String) -> (r: Refusal)
    ensures
        r.status == status,
        r.reason@ == reason@,
        r.message@ == message@,
{
    Refusal { status, reason: String::from_str(reason), message }
}

/// The refusal code `checked_path` gives for `raw`, if any.
pub open spec fn path_refusal(raw: Seq<char>) -> Option<Seq<char>> {
    if raw.len() == 0 {
        Some("empty"@)
    } else if (raw[0] == '/' || raw[0] == '\\') || looks_absolute(raw) {
        Some("absolute"@)
    } else if seq_has(split(replace_char(raw, '\\', '/'), '/'), seq!['.', '.']) {
        Some("parent"@)
    } else {
        match normalized(raw) {
            Ok(n) => if n == raw { None } else { Some("not_normalized"@) },
            Err(_) => Some("invalid"@),
        }
    }
}

fn has_parent_segment(raw: &[char]) -> (r: bool)
    ensures
        r == seq_has(split(replace_char(raw@, '\\', '/'), '/'), seq!['.', '.']),
{
    let replaced = replace_chars(raw, '\\', '/');
    let pieces = crate::text::split_chars(replaced.as_slice(), '/');
    let mut i: usize = 0;
    while i < pieces.len()
        invariant
            i <= pieces@.len(),
            crate::text::parts_view(pieces@) == split(replace_char(raw@, '\\', '/'), '/'),
            forall|j: int| 0 <= j < i ==> split(replace_char(raw@, '\\', '/'), '/')[j] != seq!['.', '.'],
        decreases pieces@.len() - i,
    {
        let q = &pieces[i];
        proof {
            assert(split(replace_char(raw@, '\\', '/'), '/')[i as int] == q@);
        }
        if q.len() == 2 && q[0] == '.' && q[1] == '.' {
            proof {
                assert(q@ =~= seq!['.', '.']);
            }
            return true;
        }
        i = i + 1;
    }
    false
}

/// A repository-relative path exactly as the IR spells it: no leading slash
/// or drive, no `.` or `..` segment, no backslash, no NUL.
pub fn checked_path(raw: &str) -> (r: Result<String, Refusal>)
    ensures
        match r {
            Ok(p) => path_refusal(raw@) is None && p@ == raw@,
            Err(e) => path_refusal(raw@) == Some(e.reason@) && e.status == 400,
        },
{
    let c = chars_of(raw);
    if c.len() == 0 {
        return Err(refuse(400, "empty", String::from_str("pass the repository-relative path of a mapped file in `path`")));
    }
    if c[0] == '/' || c[0] == '\\' || (c.len() >= 2 && (c[0] as u32) < 128 && c[1] == ':') {
        return Err(refuse(400, "absolute", cat3("`", raw, "` is absolute; pass a repository-relative path")));
    }
    if has_parent_segment(c.as_slice()) {
        return Err(refuse(400, "parent", cat3("`", raw, "` contains `..`; pass the file's own repository-relative path")));
    }
    match normalize_relative(raw) {
        Ok(normalized_path) => {
            if str_eq(normalized_path.as_str(), raw) {
                Ok(normalized_path)
            } else {
                Err(refuse(400, "not_normalized", cat5("`", raw, "` is not in normal form; use `", normalized_path.as_str(), "`")))
            }
        },
        Err(error) => Err(refuse(400, "invalid", crate::paths::path_problem_text(raw, error))),
    }
}

/// What a refused path is told, by why it is refused.
pub open spec fn path_error_message(e: PathError) -> Seq<char> {
    match e {
        PathError::Unsupported => "path contains an unsupported NUL/newline"@,
        PathError::Absolute => "path must be repository-relative, not absolute"@,
        PathError::Escapes => "path escapes the repository root"@,
        PathError::Outside => "file is outside the repository"@,
        PathError::Empty => "expected a file path, got repository root"@,
    }
}

/// What a refused path is told.
pub fn path_error_text(e: PathError) -> (r: String)
    ensures
        r@ == path_error_message(e),
{
    match e {
        PathError::Unsupported => String::from_str("path contains an unsupported NUL/newline"),
        PathError::Absolute => String::from_str("path must be repository-relative, not absolute"),
        PathError::Escapes => String::from_str("path escapes the repository root"),
        PathError::Outside => String::from_str("file is outside the repository"),
        PathError::Empty => String::from_str("expected a file path, got repository root"),
    }
}

/// The file the IR lists under `path`, when `files` is sorted by path.
pub open spec fn file_at(files: Seq<CompiledFile>, path: Seq<char>) -> Option<CompiledFile> {
    if exists|i: int| 0 <= i < files.len() && files[i].path@ == path {
        Some(files[choose|i: int| 0 <= i < files.len() && files[i].path@ == path])
    } else {
        None
    }
}

/// The node owning `path` in the IR's files, which are sorted by path and
/// listed once each. Excluded, unassigned, ambiguous and unknown files are
/// refused alike.
pub fn mapped_node(files: &Vec<CompiledFile>, path: &str) -> (r: Result<String, Refusal>)
    requires
        forall|i: int, j: int| 0 <= i < j < files@.len() ==> files@[i].path@ != files@[j].path@,
    ensures
        match r {
            Ok(node) => file_at(files@, path@) matches Some(f) && f.node matches Some(n) && n@ == node@,
            Err(e) => e.status == 403 && e.reason@ == "unmapped"@ && (file_at(files@, path@) matches Some(f) ==> f.node is None),
        },
{
    let mut i: usize = 0;
    while i < files.len()
        invariant
            i <= files@.len(),
            forall|a: int, b: int| 0 <= a < b < files@.len() ==> files@[a].path@ != files@[b].path@,
            forall|k: int| 0 <= k < i ==> files@[k].path@ != path@,
        decreases files@.len() - i,
    {
        if str_eq(files[i].path.as_str(), path) {
            proof {
                let j = choose|j: int| 0 <= j < files@.len() && files@[j].path@ == path@;
                assert(j == i);
            }
            return match &files[i].node {
                Some(node) => Ok(node.clone()),
                None => Err(refuse(403, "unmapped", cat3("`", path, "` is not mapped to a single architecture node (unassigned or ambiguous); only mapped files are served"))),
            };
        }
        i = i + 1;
    }
    Err(refuse(403, "unmapped", cat3("`", path, "` is not a mapped file of this architecture (excluded, outside the source roots or unknown); only mapped files are served")))
}

/// `String::from_utf8`: the text when the bytes are valid UTF-8, else the
/// length of their longest valid prefix (`Utf8Error::valid_up_to`).
#[verifier::external_body]
pub(crate) fn utf8_text(bytes: Vec<u8>) -> (r: Result<String, usize>)
    ensures
        match r {
            Ok(s) => valid_utf8(bytes@) && s@ == decode_utf8(bytes@),
            Err(n) => !valid_utf8(bytes@) && n <= bytes@.len() && valid_utf8(bytes@.take(n as int))
                && forall|m: int| n < m <= bytes@.len() ==> !valid_utf8(#[trigger] bytes@.take(m)),
        },
{
    match String::from_utf8(bytes) {
        Ok(s) => Ok(s),
        Err(e) => Err(e.utf8_error().valid_up_to()),
    }
}

/// Text only: a NUL byte marks a binary file, and anything else must be
/// valid UTF-8 (nothing is guessed or replaced).
pub fn decode(bytes: Vec<u8>, path: &str) -> (r: Result<String, Refusal>)
    ensures
        match r {
            Ok(s) => !bytes@.contains(0u8) && valid_utf8(bytes@) && s@ == decode_utf8(bytes@),
            Err(e) => e.status == 415 && (if bytes@.contains(0u8) {
                e.reason@ == "binary"@
            } else {
                e.reason@ == "not_utf8"@ && !valid_utf8(bytes@)
            }),
        },
{
    let mut i: usize = 0;
    while i < bytes.len()
        invariant
            i <= bytes@.len(),
            forall|k: int| 0 <= k < i ==> bytes@[k] != 0u8,
        decreases bytes@.len() - i,
    {
        if bytes[i] == 0 {
            proof {
                assert(bytes@.contains(0u8));
            }
            return Err(refuse(415, "binary", cat3("`", path, "` looks binary (it contains NUL bytes); only text is shown")));
        }
        i = i + 1;
    }
    proof {
        assert(!bytes@.contains(0u8));
    }
    match utf8_text(bytes) {
        Ok(s) => Ok(s),
        Err(at) => {
            let n = decimal(at as u128);
            let head = cat3("`", path, "` is not valid UTF-8 (at byte ");
            Err(refuse(415, "not_utf8", cat3(head.as_str(), n.as_str(), "); only UTF-8 text is shown")))
        },
    }
}

pub open spec fn count_char(s: Seq<char>, c: char) -> nat
    decreases s.len(),
{
    if s.len() == 0 {
        0
    } else {
        count_char(s.drop_last(), c) + if s.last() == c { 1nat } else { 0nat }
    }
}

/// Lines as an editor numbers them: a final newline ends the last line
/// rather than starting another.
pub open spec fn lines_in(text: Seq<char>) -> nat {
    if text.len() == 0 {
        0
    } else {
        count_char(text, '\n') + if text.last() == '\n' { 0nat } else { 1nat }
    }
}

proof fn lemma_count_bound(s: Seq<char>, c: char)
    ensures
        count_char(s, c) <= s.len(),
    decreases s.len(),
{
    if s.len() > 0 {
        lemma_count_bound(s.drop_last(), c);
    }
}

pub fn line_count(text: &str) -> (r: usize)
    ensures
        r == lines_in(text@),
{
    let c = chars_of(text);
    let n = c.len();
    if n == 0 {
        return 0;
    }
    let mut count: usize = 0;
    let mut i: usize = 0;
    while i < n
        invariant
            n == c@.len(),
            c@ == text@,
            i <= n,
            count == count_char(c@.take(i as int), '\n'),
        decreases n - i,
    {
        proof {
            assert(c@.take(i + 1).drop_last() =~= c@.take(i as int));
            lemma_count_bound(c@.take(i as int), '\n');
        }
        if c[i] == '\n' {
            count = count + 1;
        }
        i = i + 1;
    }
    proof {
        assert(c@.take(n as int) =~= c@);
        lemma_count_bound(c@, '\n');
    }
    if c[n - 1] == '\n' {
        count
    } else {
        proof {
            lemma_count_bound(c@.drop_last(), '\n');
            assert(count == count_char(c@.drop_last(), '\n'));
            assert(count < n);
        }
        count + 1
    }
}

/// FNV-1a, 64 bits, over the bytes.
pub open spec fn fnv1a_spec(bytes: Seq<u8>) -> u64
    decreases bytes.len(),
{
    if bytes.len() == 0 {
        0xcbf2_9ce4_8422_2325u64
    } else {
        vstd::wrapping::u64_specs::wrapping_mul(
            fnv1a_spec(bytes.drop_last()) ^ (bytes.last() as u64),
            0x0000_0100_0000_01b3u64,
        )
    }
}

pub fn fnv1a(bytes: &[u8]) -> (r: u64)
    ensures
        r == fnv1a_spec(bytes@),
{
    let mut hash: u64 = 0xcbf2_9ce4_8422_2325;
    let mut i: usize = 0;
    while i < bytes.len()
        invariant
            i <= bytes@.len(),
            hash == fnv1a_spec(bytes@.take(i as int)),
        decreases bytes@.len() - i,
    {
        proof {
            assert(bytes@.take(i + 1).drop_last() =~= bytes@.take(i as int));
        }
        hash = (hash ^ (bytes[i] as u64)).wrapping_mul(0x0000_0100_0000_01b3);
        i = i + 1;
    }
    proof {
        assert(bytes@.take(bytes@.len() as int) =~= bytes@);
    }
    hash
}

pub open spec fn hex_digit(d: nat) -> char {
    if d < 10 { crate::text::digit_char(d) } else if d == 10 { 'a' } else if d == 11 { 'b' }
    else if d == 12 { 'c' } else if d == 13 { 'd' } else if d == 14 { 'e' } else { 'f' }
}

/// `n` in lower-case hexadecimal, `width` digits, as `{:016x}` writes a
/// 64-bit value.
pub open spec fn hex_spec(n: nat, width: nat) -> Seq<char>
    decreases width,
{
    if width == 0 {
        Seq::<char>::empty()
    } else {
        hex_spec(n / 16, (width - 1) as nat).push(hex_digit(n % 16))
    }
}

fn hex_digit_exec(d: u64) -> (r: char)
    requires
        d < 16,
    ensures
        r == hex_digit(d as nat),
{
    if d == 0 { '0' } else if d == 1 { '1' } else if d == 2 { '2' } else if d == 3 { '3' }
    else if d == 4 { '4' } else if d == 5 { '5' } else if d == 6 { '6' } else if d == 7 { '7' }
    else if d == 8 { '8' } else if d == 9 { '9' } else if d == 10 { 'a' } else if d == 11 { 'b' }
    else if d == 12 { 'c' } else if d == 13 { 'd' } else if d == 14 { 'e' } else { 'f' }
}

/// The hash as sixteen lower-case hex digits.
pub fn hex16(n: u64) -> (r: String)
    ensures
        r@ == hex_spec(n as nat, 16),
{
    let mut digits: Vec<char> = Vec::new();
    let mut m = n;
    let mut k: usize = 0;
    let ghost mut rest: Seq<char> = Seq::empty();
    while k < 16
        invariant
            k <= 16,
            hex_spec(n as nat, 16) == hex_spec(m as nat, (16 - k) as nat) + rest,
            digits@ == rest.reverse(),
        decreases 16 - k,
    {
        let d = m % 16;
        let c = hex_digit_exec(d);
        proof {
            assert(hex_spec(m as nat, (16 - k) as nat) == hex_spec((m / 16) as nat, (16 - k - 1) as nat).push(c));
            assert(hex_spec((m / 16) as nat, (16 - k - 1) as nat).push(c) + rest =~= hex_spec((m / 16) as nat, (16 - k - 1) as nat) + (seq![c] + rest));
            assert((seq![c] + rest).reverse() =~= rest.reverse().push(c));
            rest = seq![c] + rest;
        }
        digits.push(c);
        m = m / 16;
        k = k + 1;
    }
    proof {
        assert(hex_spec(m as nat, 0) + rest =~= rest);
    }
    let mut out: Vec<char> = Vec::new();
    let mut i = digits.len();
    while i > 0
        invariant
            i <= digits@.len(),
            digits@ == rest.reverse(),
            out@ == rest.take(digits@.len() - i),
        decreases i,
    {
        i = i - 1;
        out.push(digits[i]);
        proof {
            assert(rest.take(digits@.len() - i) =~= rest.take(digits@.len() - i - 1).push(digits@[i as int]));
        }
    }
    proof {
        assert(rest.take(digits@.len() as int) =~= rest);
    }
    crate::text::string_of(out.as_slice())
}

/// The answer for a mapped file whose text was read and decoded: its line
/// count, size and hash, and the text itself unless the caller already shows
/// this very version (`if_hash`).
pub fn source_file(path: String, node: String, text: String, if_hash: Option<&str>) -> (r: SourceFile)
    ensures
        r.path == path,
        r.node == node,
        r.line_count == lines_in(text@),
        r.bytes == encode_utf8(text@).len(),
        r.hash@ == hex_spec(fnv1a_spec(encode_utf8(text@)) as nat, 16),
        r.unchanged == (if_hash matches Some(h) && h@ == r.hash@),
        r.unchanged ==> r.text is None,
        !r.unchanged ==> r.text == Some(text),
{
    let bytes = text.as_str().as_bytes();
    let hash = hex16(fnv1a(bytes));
    let unchanged = match if_hash {
        Some(h) => str_eq(h, hash.as_str()),
        None => false,
    };
    let lines = line_count(text.as_str());
    let size = bytes.len();
    SourceFile {
        line_count: lines,
        bytes: size,
        path,
        node,
        text: if unchanged { None } else { Some(text) },
        hash,
        unchanged,
    }
}

} // verus!
