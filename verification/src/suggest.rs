//! `init --suggest`: a draft architecture from the directory layout. It cannot
//! know responsibilities, only where code is; the draft says so and asks the
//! user to rename, merge and describe nodes.
use vstd::prelude::*;
use crate::config::{id_char, valid_id};
use crate::discovery::under_spec;
use crate::order::{lex_lt, seq_has, sorted_unique, strictly_sorted};
use crate::repository::{last_segment, parent, parent_path};
use crate::strmap::StrMap;
use crate::text::{cat2, cat3, cat4, cat5, chars_of, decimal, decimal_spec, string_of, views, join, replace_char};
use crate::model::CompiledNode;

verus! {

/// A directory becomes a node only with this share of all code files...
pub const MIN_SHARE: usize = 40;
/// ...and at least this many.
pub const MIN_FILES: usize = 5;
pub const MAX_DEPTH: usize = 3;
/// Share of a directory's code that makes a single child a mere wrapper
/// (such as `src/`), which is descended into instead of becoming a node.
pub const WRAPPER_PERCENT: usize = 80;
pub const LOW_COVERAGE_PERCENT: usize = 50;

#[derive(Debug, Clone, PartialEq)]
pub struct SuggestedNode {
    pub id: String,
    /// Repository-relative directory; empty for the root node.
    pub path: String,
    pub code_files: usize,
}

#[derive(Debug)]
pub struct Draft {
    pub project: String,
    pub nodes: Vec<SuggestedNode>,
    /// `no_cycles` scopes: nodes with at least two children.
    pub cycle_scopes: Vec<String>,
    pub non_code_extensions: Vec<String>,
    pub ruby: bool,
    /// Stylesheets next to scripts: observe CSS (`provider.css`).
    pub css: bool,
    pub min_files: usize,
}

/// What `Path::extension` gives for `path`: the part of its file name after
/// the last `.`, when the name has one that does not start it.
pub uninterp spec fn path_extension(path: Seq<char>) -> Option<Seq<char>>;

/// `Path::extension`, on a UTF-8 path.
#[verifier::external_body]
fn raw_extension(path: &str) -> (r: Option<String>)
    ensures
        crate::text::opt_view(r) == path_extension(path@),
{
    std::path::Path::new(path).extension().map(|extension| extension.to_string_lossy().into_owned())
}

pub open spec fn ascii_lower(c: char) -> char {
    if 'A' <= c && c <= 'Z' {
        ((c as u32) + 32) as char
    } else {
        c
    }
}

pub open spec fn lowercase(s: Seq<char>) -> Seq<char> {
    s.map_values(|c: char| ascii_lower(c))
}

fn lowercase_exec(s: &str) -> (r: String)
    ensures
        r@ == lowercase(s@),
{
    let chars = chars_of(s);
    let mut out: Vec<char> = Vec::new();
    let mut i: usize = 0;
    while i < chars.len()
        invariant
            i <= chars@.len(),
            chars@ == s@,
            out@ == lowercase(s@).take(i as int),
        decreases chars@.len() - i,
    {
        let c = chars[i];
        let l = if 'A' <= c && c <= 'Z' {
            let code = (c as u32) + 32;
            let lowered = ((c as u8) + 32) as char;
            proof {
                assert((c as u8) as u32 == c as u32);
            }
            lowered
        } else {
            c
        };
        out.push(l);
        proof {
            assert(out@ =~= lowercase(s@).take(i + 1));
        }
        i = i + 1;
    }
    proof {
        assert(lowercase(s@).take(chars@.len() as int) =~= lowercase(s@));
    }
    string_of(out.as_slice())
}

/// A file's extension in lower case.
pub open spec fn extension_of(path: Seq<char>) -> Option<Seq<char>> {
    match path_extension(path) {
        Some(e) => Some(lowercase(e)),
        None => None,
    }
}

pub fn extension(path: &str) -> (r: Option<String>)
    ensures
        crate::text::opt_view(r) == extension_of(path@),
{
    match raw_extension(path) {
        Some(e) => Some(lowercase_exec(e.as_str())),
        None => None,
    }
}

/// A character kept in a node ID; anything else becomes `-`.
pub open spec fn cleaned_char(c: char) -> char {
    if id_char(c) {
        c
    } else {
        '-'
    }
}

/// Number of leading `-`.
pub open spec fn leading_dashes(s: Seq<char>) -> nat
    decreases s.len(),
{
    if s.len() > 0 && s[0] == '-' {
        1 + leading_dashes(s.drop_first())
    } else {
        0
    }
}

/// Number of trailing `-`.
pub open spec fn trailing_dashes(s: Seq<char>) -> nat
    decreases s.len(),
{
    if s.len() > 0 && s.last() == '-' {
        1 + trailing_dashes(s.drop_last())
    } else {
        0
    }
}

/// A directory name as a node ID segment: characters other than ASCII
/// letters, digits, `_` and `-` become `-`, `-` at either end goes, and
/// nothing left is `dir`.
pub open spec fn segment_spec(name: Seq<char>) -> Seq<char> {
    let cleaned = name.map_values(|c: char| cleaned_char(c));
    let front = cleaned.skip(leading_dashes(cleaned) as int);
    let trimmed = front.take(front.len() - trailing_dashes(front));
    if trimmed.len() == 0 {
        "dir"@
    } else {
        trimmed
    }
}

proof fn lemma_leading(s: Seq<char>)
    ensures
        leading_dashes(s) <= s.len(),
        forall|i: int| 0 <= i < leading_dashes(s) ==> s[i] == '-',
        leading_dashes(s) < s.len() ==> s[leading_dashes(s) as int] != '-',
    decreases s.len(),
{
    if s.len() > 0 && s[0] == '-' {
        lemma_leading(s.drop_first());
        assert forall|i: int| 0 <= i < leading_dashes(s) implies s[i] == '-' by {
            if i > 0 {
                assert(s[i] == s.drop_first()[i - 1]);
            }
        }
    }
}

proof fn lemma_trailing(s: Seq<char>)
    ensures
        trailing_dashes(s) <= s.len(),
        forall|i: int| s.len() - trailing_dashes(s) <= i < s.len() ==> s[i] == '-',
        trailing_dashes(s) < s.len() ==> s[s.len() - 1 - trailing_dashes(s)] != '-',
    decreases s.len(),
{
    if s.len() > 0 && s.last() == '-' {
        lemma_trailing(s.drop_last());
        assert forall|i: int| s.len() - trailing_dashes(s) <= i < s.len() implies s[i] == '-' by {
            if i < s.len() - 1 {
                assert(s[i] == s.drop_last()[i]);
            }
        }
        if trailing_dashes(s) < s.len() {
            assert(s[s.len() - 1 - trailing_dashes(s)] == s.drop_last()[s.drop_last().len() - 1 - trailing_dashes(s.drop_last())]);
        }
    }
}

/// A directory name as a node ID segment.
pub fn segment(name: &str) -> (r: String)
    ensures
        r@ == segment_spec(name@),
        valid_id(r@),
        forall|i: int| 0 <= i < r@.len() ==> r@[i] != '.',
{
    let chars = chars_of(name);
    let mut cleaned: Vec<char> = Vec::new();
    let mut i: usize = 0;
    while i < chars.len()
        invariant
            i <= chars@.len(),
            chars@ == name@,
            cleaned@ == name@.map_values(|c: char| cleaned_char(c)).take(i as int),
        decreases chars@.len() - i,
    {
        let c = chars[i];
        let kept = ('a' <= c && c <= 'z') || ('A' <= c && c <= 'Z') || ('0' <= c && c <= '9') || c == '_' || c == '-';
        cleaned.push(if kept { c } else { '-' });
        proof {
            assert(cleaned@ =~= name@.map_values(|c: char| cleaned_char(c)).take(i + 1));
        }
        i = i + 1;
    }
    let ghost cl = name@.map_values(|c: char| cleaned_char(c));
    proof {
        assert(cl.take(chars@.len() as int) =~= cl);
        lemma_leading(cl);
    }
    let mut start: usize = 0;
    while start < cleaned.len() && cleaned[start] == '-'
        invariant
            start <= cleaned@.len(),
            cleaned@ == cl,
            forall|k: int| 0 <= k < start ==> cl[k] == '-',
            start <= leading_dashes(cl),
            leading_dashes(cl) <= cl.len(),
            leading_dashes(cl) < cl.len() ==> cl[leading_dashes(cl) as int] != '-',
        decreases cleaned@.len() - start,
    {
        proof {
            if start == leading_dashes(cl) {
                assert(cl[leading_dashes(cl) as int] != '-');
            }
        }
        start = start + 1;
    }
    proof {
        if start < leading_dashes(cl) {
            assert(cl[start as int] == '-');
        }
        assert(start == leading_dashes(cl));
    }
    let ghost front = cl.skip(start as int);
    proof {
        lemma_trailing(front);
    }
    let mut end: usize = cleaned.len();
    while end > start && cleaned[end - 1] == '-'
        invariant
            start <= end <= cleaned@.len(),
            cleaned@ == cl,
            front == cl.skip(start as int),
            cleaned@.len() - end <= trailing_dashes(front),
            trailing_dashes(front) <= front.len(),
            trailing_dashes(front) < front.len() ==> front[front.len() - 1 - trailing_dashes(front)] != '-',
        decreases end,
    {
        proof {
            if cleaned@.len() - end == trailing_dashes(front) {
                assert(front[front.len() - 1 - trailing_dashes(front)] == cl[end - 1]);
            }
        }
        end = end - 1;
    }
    proof {
        if end > start && cleaned@.len() - end < trailing_dashes(front) {
            assert(front[end - 1 - start] == cl[end - 1]);
        }
        assert(cleaned@.len() - end == trailing_dashes(front));
    }
    if end == start {
        let r = String::from_str("dir");
        proof {
            reveal_strlit("dir");
            assert(r@ == segment_spec(name@));
            assert(r@ =~= seq!['d', 'i', 'r']);
        }
        return r;
    }
    let kept = crate::text::slice_chars(cleaned.as_slice(), start, end);
    let r = string_of(kept.as_slice());
    proof {
        assert(r@ =~= front.take(front.len() - trailing_dashes(front)));
        assert forall|k: int| 0 <= k < r@.len() implies id_char(#[trigger] r@[k]) by {
            assert(r@[k] == cl[start + k]);
        }
        assert(r@[0] == cl[start as int]);
        assert(r@.last() == cl[end - 1]);
    }
    r
}

/// The directory of a path: everything before its last `/`.
pub fn parent_dir(path: &str) -> (r: String)
    ensures
        r@ == parent_path(path@),
{
    parent(path)
}

impl Draft {
    pub open spec fn edge_types_spec(&self) -> Seq<char> {
        "["@ + "IMPORTS"@ + (if self.ruby { ", CALLS, EXTENDS, IMPLEMENTS"@ } else { Seq::empty() })
            + (if self.css { ", USES_CLASS"@ } else { Seq::empty() }) + "]"@
    }

    /// The relations the draft observes, as a YAML list: imports, and the
    /// call-like relations of autoloaded Ruby, and CSS classes.
    pub fn edge_types(&self) -> (r: String)
        ensures
            r@ == self.edge_types_spec(),
    {
        let ruby = if self.ruby { ", CALLS, EXTENDS, IMPLEMENTS" } else { "" };
        let css = if self.css { ", USES_CLASS" } else { "" };
        let head = cat3("[IMPORTS", ruby, css);
        let r = cat2(head.as_str(), "]");
        proof {
            reveal_strlit("");
            reveal_strlit("[IMPORTS");
            reveal_strlit("[");
            reveal_strlit("IMPORTS");
            assert("[IMPORTS"@ =~= "["@ + "IMPORTS"@);
            assert(r@ =~= self.edge_types_spec());
        }
        r
    }
}


/// The code files at or below directory `d` (`""` is the root).
pub open spec fn dir_count(files: Seq<Seq<char>>, d: Seq<char>) -> nat
    decreases files.len(),
{
    if files.len() == 0 {
        0
    } else {
        dir_count(files.drop_last(), d) + if under_spec(parent_path(files.last()), d) { 1nat } else { 0nat }
    }
}

/// `c` is a subdirectory of `d` that holds code.
pub open spec fn is_child(files: Seq<Seq<char>>, d: Seq<char>, c: Seq<char>) -> bool {
    c.len() > 0 && parent_path(c) == d && exists|i: int| 0 <= i < files.len() && #[trigger] under_spec(parent_path(files[i]), c)
}

proof fn lemma_dir_count_bound(files: Seq<Seq<char>>, d: Seq<char>)
    ensures
        dir_count(files, d) <= files.len(),
    decreases files.len(),
{
    if files.len() > 0 {
        lemma_dir_count_bound(files.drop_last(), d);
    }
}

/// The code files of the repository by directory.
pub struct Tree {
    /// Code files at or below each directory (`""` is the repository root).
    counts: StrMap<usize>,
    children: StrMap<Vec<String>>,
}

impl Tree {
    pub closed spec fn count_of(&self, d: Seq<char>) -> nat {
        match self.counts.lookup(d) {
            Some(n) => n as nat,
            None => 0,
        }
    }

    /// The subdirectories of `d` that hold code, ascending.
    pub closed spec fn kids(&self, d: Seq<char>) -> Seq<Seq<char>> {
        match self.children.lookup(d) {
            Some(v) => views(v@),
            None => Seq::empty(),
        }
    }

    /// The tree is that of `files`.
    pub open spec fn models(&self, files: Seq<Seq<char>>) -> bool {
        &&& forall|d: Seq<char>| #[trigger] self.count_of(d) == dir_count(files, d)
        &&& forall|d: Seq<char>| strictly_sorted(#[trigger] self.kids(d))
        &&& forall|d: Seq<char>, c: Seq<char>| #[trigger] seq_has(self.kids(d), c) <==> is_child(files, d, c)
    }

    pub fn new(code_files: &Vec<String>) -> (t: Tree)
        ensures
            t.models(views(code_files@)),
    {
        let ghost all = views(code_files@);
        let mut t = Tree { counts: StrMap::new(), children: StrMap::new() };
        proof {
            assert(all.take(0) =~= Seq::<Seq<char>>::empty());
            assert forall|d: Seq<char>| #[trigger] t.count_of(d) == dir_count(all.take(0), d) by {
                assert(!seq_has(t.counts.keys(), d));
            }
            assert forall|d: Seq<char>| strictly_sorted(#[trigger] t.kids(d)) by {
                assert(!seq_has(t.children.keys(), d));
            }
            assert forall|d: Seq<char>, c: Seq<char>| #[trigger] seq_has(t.kids(d), c) <==> is_child(all.take(0), d, c) by {
                assert(!seq_has(t.children.keys(), d));
            }
        }
        let n = code_files.len();
        let mut i: usize = 0;
        while i < n
            invariant
                i <= code_files@.len(),
                n == code_files@.len(),
                all == views(code_files@),
                t.models(all.take(i as int)),
            decreases code_files@.len() - i,
        {
            let ghost before = t;
            let ghost f = all[i as int];
            let ghost p0 = parent_path(f);
            proof {
                assert(all.take(i + 1).drop_last() =~= all.take(i as int));
                assert(all.take(i + 1).last() == f);
                lemma_dir_count_bound(all.take(i as int), p0);
                crate::repository::lemma_under_self(p0);
            }
            let mut directory = parent(code_files[i].as_str());
            loop
                invariant_except_break
                    under_spec(p0, directory@),
                    forall|y: Seq<char>| under_spec(directory@, y) ==> under_spec(p0, y),
                    forall|d: Seq<char>| #[trigger] t.count_of(d) == before.count_of(d) + if crate::repository::climbed(p0, directory@, d) { 1nat } else { 0nat },
                    forall|d: Seq<char>| strictly_sorted(#[trigger] t.kids(d)),
                    forall|d: Seq<char>, c: Seq<char>| #[trigger] seq_has(t.kids(d), c) <==> (seq_has(before.kids(d), c)
                        || (crate::repository::climbed(p0, directory@, c) && d == parent_path(c))),
                invariant
                    i < code_files@.len(),
                    n == code_files@.len(),
                    all == views(code_files@),
                    f == all[i as int],
                    p0 == parent_path(f),
                    all.take(i + 1).drop_last() == all.take(i as int),
                    all.take(i + 1).last() == f,
                    forall|d: Seq<char>| #[trigger] before.count_of(d) == dir_count(all.take(i as int), d),
                    forall|d: Seq<char>, c: Seq<char>| #[trigger] seq_has(before.kids(d), c) <==> is_child(all.take(i as int), d, c),
                ensures
                    t.models(all.take(i + 1)),
                decreases directory@.len(),
            {
                let ghost cur = directory@;
                let current = t.count(directory.as_str());
                proof {
                    lemma_dir_count_bound(all.take(i as int), cur);
                    crate::repository::lemma_under_self(cur);
                    assert(!crate::repository::climbed(p0, cur, cur));
                    assert(t.count_of(cur) == before.count_of(cur));
                    assert(current < n);
                }
                let ghost mid = t;
                t.counts.insert(directory.clone(), current + 1);
                proof {
                    assert forall|d: Seq<char>| #[trigger] t.kids(d) == mid.kids(d) by {}
                }
                if chars_of(directory.as_str()).len() == 0 {
                    proof {
                        assert(cur =~= Seq::<char>::empty());
                        assert forall|d: Seq<char>| #[trigger] t.count_of(d) == dir_count(all.take(i + 1), d) by {
                            crate::repository::lemma_under_root(d);
                            if d.len() > 0 {
                                assert(t.counts.lookup(d) == mid.counts.lookup(d));
                                assert(t.count_of(d) == mid.count_of(d));
                            } else {
                                assert(d =~= cur);
                                assert(t.count_of(d) == current + 1);
                            }
                        }
                        assert forall|d: Seq<char>, c: Seq<char>| #[trigger] seq_has(t.kids(d), c) <==> is_child(all.take(i + 1), d, c) by {
                            crate::repository::lemma_under_root(c);
                            let fs = all.take(i + 1);
                            if is_child(fs, d, c) {
                                let k = choose|k: int| 0 <= k < fs.len() && #[trigger] under_spec(parent_path(fs[k]), c);
                                if k < i {
                                    assert(all.take(i as int)[k] == fs[k]);
                                    assert(is_child(all.take(i as int), d, c));
                                }
                            }
                            if is_child(all.take(i as int), d, c) {
                                let k = choose|k: int| 0 <= k < all.take(i as int).len() && #[trigger] under_spec(parent_path(all.take(i as int)[k]), c);
                                assert(fs[k] == all.take(i as int)[k]);
                            }
                            if crate::repository::climbed(p0, cur, c) && d == parent_path(c) {
                                assert(fs[i as int] == f);
                            }
                        }
                    }
                    break;
                }
                let above = parent(directory.as_str());
                let mut list = match t.children.get(above.as_str()) {
                    Some(v) => crate::text::copy_strings(v),
                    None => Vec::new(),
                };
                proof {
                    assert(views(list@) == t.kids(above@));
                }
                let ghost old_list = views(list@);
                crate::order::insert_unique(&mut list, directory.clone());
                let ghost mid2 = t;
                t.children.insert(above.clone(), list);
                proof {
                    crate::repository::lemma_under_parent(cur, cur);
                    assert forall|y: Seq<char>| under_spec(above@, y) implies under_spec(p0, y) by {
                        crate::repository::lemma_climb_step(p0, cur, y);
                    }
                    assert forall|d: Seq<char>| #[trigger] t.count_of(d) == before.count_of(d) + if crate::repository::climbed(p0, above@, d) { 1nat } else { 0nat } by {
                        crate::repository::lemma_climb_step(p0, cur, d);
                        assert(t.counts.lookup(d) == mid2.counts.lookup(d));
                        if d != cur {
                            assert(mid.counts.lookup(d) == t.counts.lookup(d));
                            assert(mid.count_of(d) == t.count_of(d));
                        } else {
                            assert(t.count_of(d) == current + 1);
                        }
                    }
                    assert forall|d: Seq<char>| strictly_sorted(#[trigger] t.kids(d)) by {
                        if d != above@ {
                            assert(t.children.lookup(d) == mid2.children.lookup(d));
                            assert(t.kids(d) == mid2.kids(d));
                            assert(mid2.kids(d) == mid.kids(d));
                        } else {
                            assert(t.kids(d) == views(list@));
                        }
                    }
                    assert forall|d: Seq<char>, c: Seq<char>| #[trigger] seq_has(t.kids(d), c) <==> (seq_has(before.kids(d), c)
                        || (crate::repository::climbed(p0, above@, c) && d == parent_path(c))) by {
                        crate::repository::lemma_climb_step(p0, cur, c);
                        if d != above@ {
                            assert(t.children.lookup(d) == mid2.children.lookup(d));
                            assert(t.kids(d) == mid.kids(d));
                        }
                    }
                }
                directory = above;
            }
            i = i + 1;
        }
        proof {
            assert(all.take(code_files@.len() as int) =~= all);
        }
        t
    }

    /// The code files at or below `directory`.
    pub fn count(&self, directory: &str) -> (r: usize)
        ensures
            r == self.count_of(directory@),
    {
        match self.counts.get(directory) {
            Some(n) => *n,
            None => 0,
        }
    }
}


/// File types GitNexus can extract dependencies from, or plausibly will.
pub open spec fn code_extensions() -> Seq<&'static str> {
    seq![
        "c", "cc", "cjs", "clj", "cljs", "coffee", "cpp", "cs", "cts", "cxx", "dart", "erl", "ex",
        "exs", "go", "h", "hh", "hpp", "hxx", "java", "js", "jsx", "kt", "kts", "lua", "m", "mjs",
        "mm", "mts", "php", "py", "pyi", "rake", "rb", "rs", "scala", "svelte", "swift", "ts", "tsx",
        "vue",
    ]
}

fn code_extension_list() -> (r: [&'static str; 41])
    ensures
        r@ == code_extensions(),
{
    let r = [
        "c", "cc", "cjs", "clj", "cljs", "coffee", "cpp", "cs", "cts", "cxx", "dart", "erl", "ex",
        "exs", "go", "h", "hh", "hpp", "hxx", "java", "js", "jsx", "kt", "kts", "lua", "m", "mjs",
        "mm", "mts", "php", "py", "pyi", "rake", "rb", "rs", "scala", "svelte", "swift", "ts", "tsx",
        "vue",
    ];
    proof {
        assert(r@ =~= code_extensions());
    }
    r
}


/// Well-known file types without code dependencies. Only those present are
/// excluded; unknown types stay mapped rather than guessed about.
pub open spec fn non_code_extensions() -> Seq<&'static str> {
    seq![
        "adoc", "asc", "avif", "bmp", "cfg", "conf", "crt", "csr", "csv", "ejs", "env", "eot", "erb",
        "eco", "gif", "gql", "graphql", "haml", "hbs", "htm", "html", "ico", "ini", "jpeg", "jpg",
        "json", "jst", "key", "less", "lock", "log", "map", "md", "mov", "mp3", "mp4", "mustache",
        "ogg", "otf", "pdf", "pem", "pgp", "png", "po", "pot", "properties", "proto", "rst", "rtf",
        "sass", "scss", "sh", "slim", "snap", "sql", "styl", "svg", "tiff", "toml", "tsv", "ttf",
        "txt", "wav", "webm", "webp", "woff", "woff2", "xml", "yaml", "yml",
    ]
}

fn non_code_extension_list() -> (r: [&'static str; 70])
    ensures
        r@ == non_code_extensions(),
{
    let r = [
        "adoc", "asc", "avif", "bmp", "cfg", "conf", "crt", "csr", "csv", "ejs", "env", "eot", "erb",
        "eco", "gif", "gql", "graphql", "haml", "hbs", "htm", "html", "ico", "ini", "jpeg", "jpg",
        "json", "jst", "key", "less", "lock", "log", "map", "md", "mov", "mp3", "mp4", "mustache",
        "ogg", "otf", "pdf", "pem", "pgp", "png", "po", "pot", "properties", "proto", "rst", "rtf",
        "sass", "scss", "sh", "slim", "snap", "sql", "styl", "svg", "tiff", "toml", "tsv", "ttf",
        "txt", "wav", "webm", "webp", "woff", "woff2", "xml", "yaml", "yml",
    ];
    proof {
        assert(r@ =~= non_code_extensions());
    }
    r
}

pub open spec fn ruby_extensions() -> Seq<&'static str> {
    seq!["rake", "rb"]
}

/// Script types whose stylesheets ArchGraph reads.
pub open spec fn script_extensions() -> Seq<&'static str> {
    seq!["ts", "tsx", "js", "jsx", "mjs", "cjs", "mts", "cts"]
}

/// `list` holds `e`.
pub open spec fn listed(list: Seq<&'static str>, e: Seq<char>) -> bool {
    exists|k: int| 0 <= k < list.len() && (#[trigger] list[k])@ == e
}

fn listed_exec(list: &[&'static str], e: &str) -> (r: bool)
    ensures
        r == listed(list@, e@),
{
    let mut k: usize = 0;
    while k < list.len()
        invariant
            k <= list@.len(),
            forall|j: int| 0 <= j < k ==> (#[trigger] list@[j])@ != e@,
        decreases list@.len() - k,
    {
        if crate::text::str_eq(list[k], e) {
            return true;
        }
        k = k + 1;
    }
    false
}

/// The file's extension is one of `list`.
pub open spec fn has_extension(path: Seq<char>, list: Seq<&'static str>) -> bool {
    extension_of(path) matches Some(e) && listed(list, e)
}

fn has_extension_exec(path: &str, list: &[&'static str]) -> (r: bool)
    ensures
        r == has_extension(path@, list@),
{
    match extension(path) {
        Some(e) => listed_exec(list, e.as_str()),
        None => false,
    }
}

/// The code files among `files`, in order.
pub open spec fn code_files(files: Seq<Seq<char>>) -> Seq<Seq<char>>
    decreases files.len(),
{
    if files.len() == 0 {
        Seq::empty()
    } else if has_extension(files.last(), code_extensions()) {
        code_files(files.drop_last()).push(files.last())
    } else {
        code_files(files.drop_last())
    }
}

/// The number of files among `files` of a type in `list`.
pub open spec fn count_with(files: Seq<Seq<char>>, list: Seq<&'static str>) -> nat
    decreases files.len(),
{
    if files.len() == 0 {
        0
    } else {
        count_with(files.drop_last(), list) + if has_extension(files.last(), list) { 1nat } else { 0nat }
    }
}

proof fn lemma_code_files_len(files: Seq<Seq<char>>)
    ensures
        code_files(files).len() <= files.len(),
    decreases files.len(),
{
    if files.len() > 0 {
        lemma_code_files_len(files.drop_last());
    }
}

proof fn lemma_count_with_len(files: Seq<Seq<char>>, list: Seq<&'static str>)
    ensures
        count_with(files, list) <= files.len(),
    decreases files.len(),
{
    if files.len() > 0 {
        lemma_count_with_len(files.drop_last(), list);
    }
}

/// Some file among `files` is of a type in `list`.
pub open spec fn any_with(files: Seq<Seq<char>>, list: Seq<&'static str>) -> bool {
    exists|i: int| 0 <= i < files.len() && #[trigger] has_extension(files[i], list)
}

/// Some file among `files` is a stylesheet.
pub open spec fn any_stylesheet(files: Seq<Seq<char>>) -> bool {
    exists|i: int| 0 <= i < files.len() && crate::text::ends_with(#[trigger] files[i], ".css"@)
}

/// The extensions of `files` that are well known to hold no code.
pub open spec fn found_non_code(files: Seq<Seq<char>>, e: Seq<char>) -> bool {
    exists|i: int| 0 <= i < files.len() && #[trigger] extension_of(files[i]) == Some(e) && listed(non_code_extensions(), e)
}

/// The files' code files, the non-code extensions found, how many code
/// files are Ruby, whether there are stylesheets, and whether there are
/// scripts.
fn survey(files: &Vec<String>) -> (r: (Vec<String>, Vec<String>, usize, bool, bool))
    ensures
        views(r.0@) == code_files(views(files@)),
        strictly_sorted(views(r.1@)),
        forall|e: Seq<char>| #[trigger] seq_has(views(r.1@), e) <==> found_non_code(views(files@), e),
        r.2 == count_with(code_files(views(files@)), ruby_extensions()),
        r.3 == any_stylesheet(views(files@)),
        r.4 == any_with(code_files(views(files@)), script_extensions()),
{
    let ghost fs = views(files@);
    let code_list = code_extension_list();
    let non_code_list = non_code_extension_list();
    let ruby_list = ["rake", "rb"];
    let script_list = ["ts", "tsx", "js", "jsx", "mjs", "cjs", "mts", "cts"];
    proof {
        assert(ruby_list@ =~= ruby_extensions());
        assert(script_list@ =~= script_extensions());
    }
    let mut code: Vec<String> = Vec::new();
    let mut found: Vec<String> = Vec::new();
    let mut ruby: usize = 0;
    let mut css = false;
    let mut scripts = false;
    let mut i: usize = 0;
    proof {
        assert(fs.take(0) =~= Seq::<Seq<char>>::empty());
    }
    while i < files.len()
        invariant
            i <= files@.len(),
            fs == views(files@),
            code_list@ == code_extensions(),
            non_code_list@ == non_code_extensions(),
            ruby_list@ == ruby_extensions(),
            script_list@ == script_extensions(),
            views(code@) == code_files(fs.take(i as int)),
            code@.len() <= i,
            ruby == count_with(code_files(fs.take(i as int)), ruby_extensions()),
            css == any_stylesheet(fs.take(i as int)),
            scripts == any_with(code_files(fs.take(i as int)), script_extensions()),
            forall|e: Seq<char>| #[trigger] seq_has(views(found@), e) <==> found_non_code(fs.take(i as int), e),
        decreases files@.len() - i,
    {
        let f = &files[i];
        let ghost pre = fs.take(i as int);
        proof {
            assert(fs.take(i + 1).drop_last() =~= pre);
            assert(fs.take(i + 1).last() == f@);
            lemma_code_files_len(pre);
            lemma_count_with_len(code_files(pre), ruby_extensions());
        }
        let is_code = has_extension_exec(f.as_str(), &code_list);
        if is_code {
            let ghost before = views(code@);
            code.push(f.clone());
            proof {
                assert(views(code@) =~= before.push(f@));
            }
            if has_extension_exec(f.as_str(), &ruby_list) {
                ruby = ruby + 1;
            }
            if has_extension_exec(f.as_str(), &script_list) {
                scripts = true;
            }
        }
        let fchars = chars_of(f.as_str());
        if crate::text::has_suffix(fchars.as_slice(), &['.', 'c', 's', 's']) {
            css = true;
        }
        match extension(f.as_str()) {
            Some(e) => {
                if listed_exec(&non_code_list, e.as_str()) {
                    let ghost old_found = views(found@);
                    let ghost ev = e@;
                    found.push(e);
                    proof {
                        assert(views(found@) =~= old_found.push(ev));
                        assert forall|x: Seq<char>| #[trigger] seq_has(views(found@), x) <==> (seq_has(old_found, x) || x == ev) by {
                            if seq_has(views(found@), x) {
                                let k = choose|k: int| 0 <= k < views(found@).len() && views(found@)[k] == x;
                                if k < old_found.len() {
                                    assert(old_found[k] == x);
                                }
                            }
                            if seq_has(old_found, x) {
                                let k = choose|k: int| 0 <= k < old_found.len() && old_found[k] == x;
                                assert(views(found@)[k] == x);
                            }
                            if x == ev {
                                assert(views(found@)[old_found.len() as int] == x);
                            }
                        }
                    }
                }
            },
            None => {},
        }
        proof {
            let post = fs.take(i + 1);
            reveal_strlit(".css");
            assert(seq!['.', 'c', 's', 's'] =~= ".css"@);
            let cp = code_files(pre);
            let cpost = code_files(post);
            assert forall|x: Seq<char>| #[trigger] seq_has(views(found@), x) <==> found_non_code(post, x) by {
                if found_non_code(post, x) {
                    let k = choose|k: int| 0 <= k < post.len() && #[trigger] extension_of(post[k]) == Some(x) && listed(non_code_extensions(), x);
                    if k < pre.len() {
                        assert(pre[k] == post[k]);
                    }
                }
                if found_non_code(pre, x) {
                    let k = choose|k: int| 0 <= k < pre.len() && #[trigger] extension_of(pre[k]) == Some(x) && listed(non_code_extensions(), x);
                    assert(post[k] == pre[k]);
                }
            }
            assert(ruby == count_with(cpost, ruby_extensions())) by {
                if is_code {
                    assert(cpost.drop_last() =~= cp);
                }
            }
            assert(css == any_stylesheet(post)) by {
                if any_stylesheet(post) && !crate::text::ends_with(f@, ".css"@) {
                    let k = choose|k: int| 0 <= k < post.len() && crate::text::ends_with(#[trigger] post[k], ".css"@);
                    assert(pre[k] == post[k]);
                }
                if any_stylesheet(pre) {
                    let k = choose|k: int| 0 <= k < pre.len() && crate::text::ends_with(#[trigger] pre[k], ".css"@);
                    assert(post[k] == pre[k]);
                }
            }
            assert(scripts == any_with(cpost, script_extensions())) by {
                if any_with(cpost, script_extensions()) && !(is_code && has_extension(f@, script_extensions())) {
                    let k = choose|k: int| 0 <= k < cpost.len() && #[trigger] has_extension(cpost[k], script_extensions());
                    assert(cp[k] == cpost[k]);
                }
                if any_with(cp, script_extensions()) {
                    let k = choose|k: int| 0 <= k < cp.len() && #[trigger] has_extension(cp[k], script_extensions());
                    if is_code {
                        assert(cpost[k] == cp[k]);
                    }
                }
            }
        }
        i = i + 1;
    }
    proof {
        assert(fs.take(files@.len() as int) =~= fs);
    }
    let sorted = sorted_unique(&found);
    (code, sorted, ruby, css, scripts)
}


/// The subdirectories among `cs` with at least `min` code files.
pub open spec fn big_of(t: Tree, cs: Seq<Seq<char>>, min: nat) -> Seq<Seq<char>>
    decreases cs.len(),
{
    if cs.len() == 0 {
        Seq::empty()
    } else if t.count_of(cs.last()) >= min {
        big_of(t, cs.drop_last(), min).push(cs.last())
    } else {
        big_of(t, cs.drop_last(), min)
    }
}

/// The subdirectories of `d` that may become nodes, ascending.
pub open spec fn big_kids(t: Tree, d: Seq<char>, min: nat) -> Seq<Seq<char>> {
    big_of(t, t.kids(d), min)
}

/// `d` holds one candidate with nearly all of its code: a wrapper such as
/// `src/`.
pub open spec fn is_wrapper(t: Tree, d: Seq<char>, min: nat) -> bool {
    big_kids(t, d, min).len() == 1 && t.count_of(big_kids(t, d, min)[0]) * 100 >= t.count_of(d) * WRAPPER_PERCENT
}

/// The directory reached from `d` by descending through wrappers.
pub open spec fn descend(t: Tree, d: Seq<char>, min: nat, fuel: nat) -> Seq<char>
    decreases fuel,
{
    if fuel > 0 && is_wrapper(t, d, min) {
        descend(t, big_kids(t, d, min)[0], min, (fuel - 1) as nat)
    } else {
        d
    }
}

/// `base` with the suffix `-k`.
pub open spec fn suffixed(base: Seq<char>, k: nat) -> Seq<char> {
    base + "-"@ + decimal_spec(k)
}

/// `k` is the first suffix from 2 on that no name in `used` has.
pub open spec fn first_free(base: Seq<char>, used: Seq<Seq<char>>, k: nat) -> bool {
    k >= 2 && !seq_has(used, suffixed(base, k)) && forall|j: nat| 2 <= j < k ==> seq_has(used, #[trigger] suffixed(base, j))
}

/// `base`, or it with the first free suffix when a sibling already has it.
pub open spec fn unique_name(base: Seq<char>, used: Seq<Seq<char>>) -> Seq<char> {
    if !seq_has(used, base) {
        base
    } else {
        suffixed(base, choose|k: nat| first_free(base, used, k))
    }
}

/// A suggested node as plain values.
pub open spec fn node_view(n: SuggestedNode) -> (Seq<char>, Seq<char>, nat) {
    (n.id@, n.path@, n.code_files as nat)
}

pub open spec fn node_views(ns: Seq<SuggestedNode>) -> Seq<(Seq<char>, Seq<char>, nat)> {
    ns.map_values(|n: SuggestedNode| node_view(n))
}

/// The nodes and `no_cycles` scopes that splitting directory `d`, the node
/// `id` at `depth`, adds: each candidate below the wrappers becomes a child
/// node, split in turn, when there are at least two and the depth allows.
pub open spec fn split_spec(t: Tree, d: Seq<char>, id: Seq<char>, depth: int, min: nat, fuel: nat)
    -> (Seq<(Seq<char>, Seq<char>, nat)>, Seq<Seq<char>>)
    decreases (if depth < MAX_DEPTH { MAX_DEPTH - depth } else { 0 }), 1int, 0int,
{
    if depth < 0 || depth >= MAX_DEPTH {
        (Seq::empty(), Seq::empty())
    } else {
        let cs = big_kids(t, descend(t, d, min, fuel), min);
        if cs.len() < 2 {
            (Seq::empty(), Seq::empty())
        } else {
            let r = split_kids(t, cs, 0, Seq::empty(), id, depth, min, fuel);
            (r.0, seq![id] + r.1)
        }
    }
}

/// The nodes and scopes of the candidates from `k` on, `used` holding the
/// names their siblings took.
pub open spec fn split_kids(t: Tree, cs: Seq<Seq<char>>, k: int, used: Seq<Seq<char>>, id: Seq<char>, depth: int, min: nat, fuel: nat)
    -> (Seq<(Seq<char>, Seq<char>, nat)>, Seq<Seq<char>>)
    decreases (if depth < MAX_DEPTH { MAX_DEPTH - depth } else { 0 }), 0int, cs.len() - k,
{
    if depth < 0 || depth >= MAX_DEPTH || k < 0 || k >= cs.len() {
        (Seq::empty(), Seq::empty())
    } else {
        let child = cs[k];
        let unique = unique_name(segment_spec(last_segment(child)), used);
        let child_id = id + "."@ + unique;
        let below = split_spec(t, child, child_id, depth + 1, min, fuel);
        let rest = split_kids(t, cs, k + 1, used.push(unique), id, depth, min, fuel);
        (seq![(child_id, child, t.count_of(child))] + below.0 + rest.0, below.1 + rest.1)
    }
}

proof fn lemma_decimal_len(n: nat)
    ensures
        decimal_spec(n).len() >= 1,
        n >= 10 ==> decimal_spec(n).len() >= 2,
    decreases n,
{
    if n >= 10 {
        lemma_decimal_len(n / 10);
    }
}

proof fn lemma_digit_injective(a: nat, b: nat)
    requires
        a < 10,
        b < 10,
        crate::text::digit_char(a) == crate::text::digit_char(b),
    ensures
        a == b,
{
}

proof fn lemma_decimal_injective(a: nat, b: nat)
    requires
        decimal_spec(a) == decimal_spec(b),
    ensures
        a == b,
    decreases a,
{
    lemma_decimal_len(a);
    lemma_decimal_len(b);
    if a < 10 && b < 10 {
        assert(decimal_spec(a)[0] == crate::text::digit_char(a));
        assert(decimal_spec(b)[0] == crate::text::digit_char(b));
        lemma_digit_injective(a, b);
    } else if a >= 10 && b >= 10 {
        let da = decimal_spec(a);
        let db = decimal_spec(b);
        assert(da.drop_last() == decimal_spec(a / 10));
        assert(db.drop_last() == decimal_spec(b / 10));
        lemma_decimal_injective(a / 10, b / 10);
        assert(da.last() == crate::text::digit_char(a % 10));
        assert(db.last() == crate::text::digit_char(b % 10));
        lemma_digit_injective(a % 10, b % 10);
    }
}

proof fn lemma_suffixed_injective(base: Seq<char>, a: nat, b: nat)
    requires
        suffixed(base, a) == suffixed(base, b),
    ensures
        a == b,
{
    reveal_strlit("-");
    let n: int = base.len() as int + 1;
    assert(suffixed(base, a).skip(n) =~= decimal_spec(a));
    assert(suffixed(base, b).skip(n) =~= decimal_spec(b));
    lemma_decimal_injective(a, b);
}

/// Names `base-2` up to `base-(s-1)` in `used` are distinct, so there are no
/// more of them than names in `used`.
proof fn lemma_suffix_bound(base: Seq<char>, used: Seq<Seq<char>>, s: nat)
    requires
        s >= 2,
        seq_has(used, base),
        forall|j: nat| 2 <= j < s ==> seq_has(used, #[trigger] suffixed(base, j)),
    ensures
        s - 1 <= used.len(),
{
    let x = vstd::set_lib::set_int_range(2, s as int);
    vstd::set_lib::lemma_int_range(2, s as int);
    let f = |j: int| suffixed(base, j as nat);
    assert(vstd::relations::injective_on(f, x)) by {
        assert forall|p: int, q: int| x.contains(p) && x.contains(q) && #[trigger] f(p) == #[trigger] f(q) implies p == q by {
            lemma_suffixed_injective(base, p as nat, q as nat);
        }
    }
    let y = x.map(f);
    vstd::set_lib::lemma_map_size(x, y, f);
    let u = used.to_set();
    assert(y.subset_of(u)) by {
        assert forall|v: Seq<char>| y.contains(v) implies u.contains(v) by {
            let j = choose|j: int| x.contains(j) && f(j) == v;
            assert(seq_has(used, suffixed(base, j as nat)));
            let k = choose|k: int| 0 <= k < used.len() && used[k] == suffixed(base, j as nat);
            assert(used.contains(v));
        }
    }
    vstd::seq_lib::seq_to_set_is_finite(used);
    assert(!y.contains(base)) by {
        if y.contains(base) {
            let j = choose|j: int| x.contains(j) && f(j) == base;
            reveal_strlit("-");
            assert(suffixed(base, j as nat).len() > base.len());
        }
    }
    let yb = y.insert(base);
    assert(yb.subset_of(u)) by {
        let k = choose|k: int| 0 <= k < used.len() && used[k] == base;
        assert(used.contains(base));
    }
    vstd::set_lib::lemma_len_subset(yb, u);
    used.lemma_cardinality_of_set();
}


/// The longest of the paths.
pub open spec fn max_len(files: Seq<Seq<char>>) -> nat
    decreases files.len(),
{
    if files.len() == 0 {
        0
    } else {
        let m = max_len(files.drop_last());
        if files.last().len() > m { files.last().len() } else { m }
    }
}

proof fn lemma_max_len(files: Seq<Seq<char>>, i: int)
    requires
        0 <= i < files.len(),
    ensures
        files[i].len() <= max_len(files),
    decreases files.len(),
{
    if i < files.len() - 1 {
        lemma_max_len(files.drop_last(), i);
    }
}

/// How far a descent through wrappers can go.
pub open spec fn depth_fuel(files: Seq<Seq<char>>) -> nat {
    max_len(files) + 1
}

proof fn lemma_under_len(x: Seq<char>, c: Seq<char>)
    requires
        under_spec(x, c),
    ensures
        c.len() <= x.len(),
{
}

/// A subdirectory holding code is longer than its parent and no longer than
/// the longest path.
proof fn lemma_kid_len(t: Tree, files: Seq<Seq<char>>, d: Seq<char>, c: Seq<char>)
    requires
        t.models(files),
        seq_has(t.kids(d), c),
    ensures
        d.len() < c.len() <= max_len(files),
        t.count_of(c) >= 1,
{
    assert(is_child(files, d, c));
    let i = choose|i: int| 0 <= i < files.len() && #[trigger] under_spec(parent_path(files[i]), c);
    lemma_under_len(parent_path(files[i]), c);
    crate::repository::lemma_last_slash(files[i]);
    lemma_max_len(files, i);
    crate::repository::lemma_under_parent(c, c);
    lemma_dir_count_pos(files, c, i);
}

proof fn lemma_dir_count_pos(files: Seq<Seq<char>>, c: Seq<char>, i: int)
    requires
        0 <= i < files.len(),
        under_spec(parent_path(files[i]), c),
    ensures
        dir_count(files, c) >= 1,
    decreases files.len(),
{
    if i < files.len() - 1 {
        lemma_dir_count_pos(files.drop_last(), c, i);
    }
}

proof fn lemma_big_of_sub(t: Tree, cs: Seq<Seq<char>>, min: nat, c: Seq<char>)
    requires
        seq_has(big_of(t, cs, min), c),
    ensures
        seq_has(cs, c),
    decreases cs.len(),
{
    if cs.len() > 0 {
        let b = big_of(t, cs.drop_last(), min);
        if seq_has(b, c) {
            lemma_big_of_sub(t, cs.drop_last(), min, c);
            let k = choose|k: int| 0 <= k < cs.drop_last().len() && cs.drop_last()[k] == c;
            assert(cs[k] == c);
        } else {
            assert(cs[cs.len() - 1] == c);
        }
    }
}

impl Tree {
    /// The subdirectories of `directory` with at least `min` code files.
    fn big_children(&self, directory: &str, min: usize) -> (r: Vec<String>)
        ensures
            views(r@) == big_kids(*self, directory@, min as nat),
    {
        let kids = match self.children.get(directory) {
            Some(v) => crate::text::copy_strings(v),
            None => Vec::new(),
        };
        proof {
            assert(views(kids@) == self.kids(directory@));
        }
        let ghost ks = views(kids@);
        let mut out: Vec<String> = Vec::new();
        let mut i: usize = 0;
        proof {
            assert(ks.take(0) =~= Seq::<Seq<char>>::empty());
        }
        while i < kids.len()
            invariant
                i <= kids@.len(),
                ks == views(kids@),
                views(out@) == big_of(*self, ks.take(i as int), min as nat),
            decreases kids@.len() - i,
        {
            proof {
                assert(ks.take(i + 1).drop_last() =~= ks.take(i as int));
                assert(ks.take(i + 1).last() == kids@[i as int]@);
            }
            if self.count(kids[i].as_str()) >= min {
                let ghost before = views(out@);
                out.push(kids[i].clone());
                proof {
                    assert(views(out@) =~= before.push(kids@[i as int]@));
                }
            }
            i = i + 1;
        }
        proof {
            assert(ks.take(kids@.len() as int) =~= ks);
        }
        out
    }

    /// The directory below `directory` that descending through wrappers
    /// reaches, and its candidates.
    fn descend_exec(&self, directory: &str, min: usize, Ghost(files): Ghost<Seq<Seq<char>>>) -> (r: (String, Vec<String>))
        requires
            self.models(files),
        ensures
            r.0@ == descend(*self, directory@, min as nat, depth_fuel(files)),
            views(r.1@) == big_kids(*self, r.0@, min as nat),
    {
        let ghost fuel = depth_fuel(files);
        let mut dir = String::from_str(directory);
        let ghost mut steps: nat = 0;
        loop
            invariant
                self.models(files),
                fuel == depth_fuel(files),
                descend(*self, directory@, min as nat, fuel) == descend(*self, dir@, min as nat, (fuel - steps) as nat),
                steps <= dir@.len(),
                steps > 0 ==> dir@.len() <= max_len(files),
                steps <= fuel,
            decreases fuel - dir@.len(),
        {
            let cands = self.big_children(dir.as_str(), min);
            let wrapper = cands.len() == 1 && (self.count(cands[0].as_str()) as u128) * 100 >= (self.count(dir.as_str()) as u128) * 80;
            if !wrapper {
                proof {
                    assert(!is_wrapper(*self, dir@, min as nat));
                }
                return (dir, cands);
            }
            proof {
                let c = big_kids(*self, dir@, min as nat)[0];
                assert(seq_has(big_kids(*self, dir@, min as nat), c));
                lemma_big_of_sub(*self, self.kids(dir@), min as nat, c);
                lemma_kid_len(*self, files, dir@, c);
                assert(fuel - steps > 0);
                assert(is_wrapper(*self, dir@, min as nat));
                steps = steps + 1;
            }
            dir = cands[0].clone();
        }
    }
}

/// `base`, or it with the first free suffix when a sibling already has it.
fn unique_name_exec(base: &String, used: &Vec<String>) -> (r: String)
    requires
        used@.len() < usize::MAX,
    ensures
        r@ == unique_name(base@, views(used@)),
{
    let ghost u = views(used@);
    if !crate::repository::contains_text(used, base.as_str()) {
        return base.clone();
    }
    let mut suffix: usize = 2;
    let mut candidate = cat3(base.as_str(), "-", decimal(2).as_str());
    proof {
        reveal_strlit("-");
    }
    while crate::repository::contains_text(used, candidate.as_str())
        invariant
            u == views(used@),
            used@.len() < usize::MAX,
            seq_has(u, base@),
            suffix >= 2,
            candidate@ == suffixed(base@, suffix as nat),
            forall|j: nat| 2 <= j < suffix ==> seq_has(u, #[trigger] suffixed(base@, j)),
        decreases used@.len() + 1 - suffix,
    {
        proof {
            assert forall|j: nat| 2 <= j < suffix + 1 implies seq_has(u, #[trigger] suffixed(base@, j)) by {
                if j == suffix {
                }
            }
            lemma_suffix_bound(base@, u, (suffix + 1) as nat);
        }
        suffix = suffix + 1;
        candidate = cat3(base.as_str(), "-", decimal(suffix as u128).as_str());
    }
    proof {
        assert(first_free(base@, u, suffix as nat));
        let k = choose|k: nat| first_free(base@, u, k);
        if k < suffix {
            assert(seq_has(u, suffixed(base@, k)));
        } else if suffix < k {
            assert(seq_has(u, suffixed(base@, suffix as nat)));
        }
    }
    candidate
}


impl Tree {
    /// Adds to `draft` the nodes and `no_cycles` scopes below `directory`,
    /// the node `id` at `depth`.
    fn split(&self, directory: &str, id: &str, depth: usize, min_files: usize, draft: &mut Draft, Ghost(files): Ghost<Seq<Seq<char>>>)
        requires
            self.models(files),
            depth <= MAX_DEPTH,
        ensures
            node_views(final(draft).nodes@) == node_views(old(draft).nodes@)
                + split_spec(*self, directory@, id@, depth as int, min_files as nat, depth_fuel(files)).0,
            views(final(draft).cycle_scopes@) == views(old(draft).cycle_scopes@)
                + split_spec(*self, directory@, id@, depth as int, min_files as nat, depth_fuel(files)).1,
            final(draft).project@ == old(draft).project@,
            views(final(draft).non_code_extensions@) == views(old(draft).non_code_extensions@),
            final(draft).ruby == old(draft).ruby,
            final(draft).css == old(draft).css,
            final(draft).min_files == old(draft).min_files,
        decreases MAX_DEPTH - depth,
    {
        let ghost fuel = depth_fuel(files);
        let ghost min = min_files as nat;
        if depth >= MAX_DEPTH {
            proof {
                assert(node_views(draft.nodes@) =~= node_views(draft.nodes@) + Seq::<(Seq<char>, Seq<char>, nat)>::empty());
                assert(views(draft.cycle_scopes@) =~= views(draft.cycle_scopes@) + Seq::<Seq<char>>::empty());
            }
            return;
        }
        let (target, cands) = self.descend_exec(directory, min_files, Ghost(files));
        let ghost cs = views(cands@);
        if cands.len() < 2 {
            proof {
                assert(node_views(draft.nodes@) =~= node_views(draft.nodes@) + Seq::<(Seq<char>, Seq<char>, nat)>::empty());
                assert(views(draft.cycle_scopes@) =~= views(draft.cycle_scopes@) + Seq::<Seq<char>>::empty());
            }
            return;
        }
        let ghost start_nodes = node_views(draft.nodes@);
        let ghost start_scopes = views(draft.cycle_scopes@);
        let ghost all = split_kids(*self, cs, 0, Seq::empty(), id@, depth as int, min, fuel);
        draft.cycle_scopes.push(String::from_str(id));
        let mut used: Vec<String> = Vec::new();
        let mut k: usize = 0;
        proof {
            assert(views(used@) =~= Seq::<Seq<char>>::empty());
            assert(node_views(draft.nodes@) + all.0 =~= start_nodes + all.0);
            assert(views(draft.cycle_scopes@) + all.1 =~= start_scopes + (seq![id@] + all.1));
        }
        while k < cands.len()
            invariant
                self.models(files),
                fuel == depth_fuel(files),
                min == min_files as nat,
                depth < MAX_DEPTH,
                cs == views(cands@),
                k <= cands@.len(),
                used@.len() == k,
                all == split_kids(*self, cs, 0, Seq::empty(), id@, depth as int, min, fuel),
                node_views(draft.nodes@) + split_kids(*self, cs, k as int, views(used@), id@, depth as int, min, fuel).0
                    == start_nodes + all.0,
                views(draft.cycle_scopes@) + split_kids(*self, cs, k as int, views(used@), id@, depth as int, min, fuel).1
                    == start_scopes + (seq![id@] + all.1),
                draft.project@ == old(draft).project@,
                views(draft.non_code_extensions@) == views(old(draft).non_code_extensions@),
                draft.ruby == old(draft).ruby,
                draft.css == old(draft).css,
                draft.min_files == old(draft).min_files,
            decreases cands@.len() - k,
        {
            let child = &cands[k];
            let name = crate::repository::last_segment_exec(child.as_str());
            let base = segment(name.as_str());
            let unique = unique_name_exec(&base, &used);
            let child_id = cat3(id, ".", unique.as_str());
            let count = self.count(child.as_str());
            let ghost here = split_kids(*self, cs, k as int, views(used@), id@, depth as int, min, fuel);
            let ghost below = split_spec(*self, child@, child_id@, depth + 1, min, fuel);
            let ghost rest = split_kids(*self, cs, k + 1, views(used@).push(unique@), id@, depth as int, min, fuel);
            let ghost node = (child_id@, child@, count as nat);
            proof {
                reveal_strlit(".");
                assert(child@ == cs[k as int]);
                assert(here.0 == seq![node] + below.0 + rest.0);
                assert(here.1 == below.1 + rest.1);
            }
            let ghost nodes0 = node_views(draft.nodes@);
            let ghost scopes0 = views(draft.cycle_scopes@);
            draft.nodes.push(SuggestedNode { id: child_id.clone(), path: child.clone(), code_files: count });
            proof {
                assert(node_views(draft.nodes@) =~= nodes0.push(node));
            }
            let ghost nodes1 = node_views(draft.nodes@);
            self.split(child.as_str(), child_id.as_str(), depth + 1, min_files, draft, Ghost(files));
            let ghost before_used = views(used@);
            used.push(unique);
            proof {
                assert(views(used@) =~= before_used.push(unique@));
                assert(node_views(draft.nodes@) + rest.0 =~= nodes0 + here.0);
                assert(views(draft.cycle_scopes@) + rest.1 =~= scopes0 + here.1);
            }
            k = k + 1;
        }
        proof {
            assert(split_kids(*self, cs, k as int, views(used@), id@, depth as int, min, fuel).0 =~= Seq::<(Seq<char>, Seq<char>, nat)>::empty());
            assert(node_views(draft.nodes@) =~= start_nodes + all.0);
            assert(views(draft.cycle_scopes@) =~= start_scopes + (seq![id@] + all.1));
        }
    }
}


/// `a.b` is a valid ID when `a` and `b` are.
proof fn lemma_join_valid(a: Seq<char>, b: Seq<char>)
    requires
        valid_id(a),
        valid_id(b),
    ensures
        valid_id(a + "."@ + b),
{
    reveal_strlit(".");
    let j = a + "."@ + b;
    assert forall|i: int| 0 <= i < j.len() implies id_char(#[trigger] j[i]) || j[i] == '.' by {
        if i < a.len() {
            assert(j[i] == a[i]);
        } else if i > a.len() {
            assert(j[i] == b[i - a.len() - 1]);
        }
    }
    assert forall|i: int| 0 <= i < j.len() - 1 implies !(#[trigger] j[i] == '.' && j[i + 1] == '.') by {
        if i < a.len() - 1 {
            assert(j[i] == a[i] && j[i + 1] == a[i + 1]);
        } else if i == a.len() - 1 {
            assert(j[i] == a.last());
        } else if i == a.len() {
            assert(j[i + 1] == b[0]);
        } else {
            assert(j[i] == b[i - a.len() - 1] && j[i + 1] == b[i - a.len()]);
        }
    }
    assert(j[0] == a[0]);
    assert(j.last() == b.last());
}

/// A segment is a valid ID without dots.
proof fn lemma_segment_valid(name: Seq<char>)
    ensures
        valid_id(segment_spec(name)),
        forall|i: int| 0 <= i < segment_spec(name).len() ==> segment_spec(name)[i] != '.',
{
    let cleaned = name.map_values(|c: char| cleaned_char(c));
    let front = cleaned.skip(leading_dashes(cleaned) as int);
    lemma_leading(cleaned);
    lemma_trailing(front);
    let trimmed = front.take(front.len() - trailing_dashes(front));
    if trimmed.len() == 0 {
        reveal_strlit("dir");
        assert("dir"@ =~= seq!['d', 'i', 'r']);
    } else {
        assert forall|i: int| 0 <= i < trimmed.len() implies id_char(#[trigger] trimmed[i]) by {
            assert(trimmed[i] == cleaned[i + leading_dashes(cleaned)]);
        }
    }
}

/// A name with a suffix is a valid ID without dots.
proof fn lemma_unique_valid(base: Seq<char>, used: Seq<Seq<char>>)
    requires
        valid_id(base),
        forall|i: int| 0 <= i < base.len() ==> base[i] != '.',
    ensures
        valid_id(unique_name(base, used)),
        forall|i: int| 0 <= i < unique_name(base, used).len() ==> unique_name(base, used)[i] != '.',
{
    if seq_has(used, base) {
        let k = choose|k: nat| first_free(base, used, k);
        reveal_strlit("-");
        let u = suffixed(base, k);
        lemma_decimal_len(k);
        lemma_decimal_digits_id(k);
        assert forall|i: int| 0 <= i < u.len() implies id_char(#[trigger] u[i]) && u[i] != '.' by {
            if i < base.len() {
                assert(u[i] == base[i]);
            } else if i == base.len() {
                assert(u[i] == '-');
            } else {
                assert(u[i] == decimal_spec(k)[i - base.len() - 1]);
            }
        }
        assert(u[0] == base[0]);
    }
}

proof fn lemma_decimal_digits_id(n: nat)
    ensures
        forall|i: int| 0 <= i < decimal_spec(n).len() ==> id_char(#[trigger] decimal_spec(n)[i]),
    decreases n,
{
    if n >= 10 {
        lemma_decimal_digits_id(n / 10);
        assert forall|i: int| 0 <= i < decimal_spec(n).len() implies id_char(#[trigger] decimal_spec(n)[i]) by {
            if i < decimal_spec(n).len() - 1 {
                assert(decimal_spec(n)[i] == decimal_spec(n / 10)[i]);
            }
        }
    }
}

/// Every node splitting adds has a valid ID.
proof fn lemma_split_valid(t: Tree, d: Seq<char>, id: Seq<char>, depth: int, min: nat, fuel: nat)
    requires
        valid_id(id),
    ensures
        forall|i: int| 0 <= i < split_spec(t, d, id, depth, min, fuel).0.len() ==> valid_id(#[trigger] split_spec(t, d, id, depth, min, fuel).0[i].0),
    decreases (if depth < MAX_DEPTH { MAX_DEPTH - depth } else { 0 }), 1int, 0int,
{
    if 0 <= depth < MAX_DEPTH {
        let cs = big_kids(t, descend(t, d, min, fuel), min);
        if cs.len() >= 2 {
            lemma_kids_valid(t, cs, 0, Seq::empty(), id, depth, min, fuel);
            assert(split_spec(t, d, id, depth, min, fuel).0 == split_kids(t, cs, 0, Seq::empty(), id, depth, min, fuel).0);
        }
    }
}

proof fn lemma_kids_valid(t: Tree, cs: Seq<Seq<char>>, k: int, used: Seq<Seq<char>>, id: Seq<char>, depth: int, min: nat, fuel: nat)
    requires
        valid_id(id),
    ensures
        forall|i: int| 0 <= i < split_kids(t, cs, k, used, id, depth, min, fuel).0.len() ==> valid_id(#[trigger] split_kids(t, cs, k, used, id, depth, min, fuel).0[i].0),
    decreases (if depth < MAX_DEPTH { MAX_DEPTH - depth } else { 0 }), 0int, cs.len() - k,
{
    if 0 <= depth < MAX_DEPTH && 0 <= k < cs.len() {
        let child = cs[k];
        let base = segment_spec(last_segment(child));
        lemma_segment_valid(last_segment(child));
        let unique = unique_name(base, used);
        lemma_unique_valid(base, used);
        let child_id = id + "."@ + unique;
        lemma_join_valid(id, unique);
        lemma_split_valid(t, child, child_id, depth + 1, min, fuel);
        lemma_kids_valid(t, cs, k + 1, used.push(unique), id, depth, min, fuel);
        let below = split_spec(t, child, child_id, depth + 1, min, fuel);
        let rest = split_kids(t, cs, k + 1, used.push(unique), id, depth, min, fuel);
        let all = seq![(child_id, child, t.count_of(child))] + below.0 + rest.0;
        assert forall|i: int| 0 <= i < all.len() implies valid_id(#[trigger] all[i].0) by {
            if i == 0 {
            } else if i < 1 + below.0.len() {
                assert(all[i] == below.0[i - 1]);
            } else {
                assert(all[i] == rest.0[i - 1 - below.0.len()]);
            }
        }
    }
}

/// The share of all code files a directory needs to become a node, and at
/// least `MIN_FILES`.
pub open spec fn min_files_for(code: nat) -> nat {
    if code / (MIN_SHARE as nat) > MIN_FILES { code / (MIN_SHARE as nat) } else { MIN_FILES as nat }
}

/// The draft architecture of a repository named `name` with `files`: the
/// root node maps everything; directories holding enough code become nodes,
/// through wrappers, to `MAX_DEPTH` levels; each node with two or more
/// children gets a `no_cycles` rule.
pub fn draft(name: &str, files: &Vec<String>) -> (r: Draft)
    ensures
        r.project@ == segment_spec(name@),
        r.min_files == min_files_for(code_files(views(files@)).len()),
        strictly_sorted(views(r.non_code_extensions@)),
        forall|e: Seq<char>| #[trigger] seq_has(views(r.non_code_extensions@), e) <==> found_non_code(views(files@), e),
        r.ruby == (count_with(code_files(views(files@)), ruby_extensions()) * 10 >= (if code_files(views(files@)).len() > 1 {
            code_files(views(files@)).len()
        } else {
            1
        })),
        r.css == (any_stylesheet(views(files@)) && any_with(code_files(views(files@)), script_extensions())),
        r.nodes@.len() >= 1,
        node_view(r.nodes@[0]) == (segment_spec(name@), Seq::<char>::empty(), code_files(views(files@)).len()),
        exists|t: Tree| #[trigger] t.models(code_files(views(files@))) && {
            let split = split_spec(t, Seq::empty(), segment_spec(name@), 0, r.min_files as nat, depth_fuel(code_files(views(files@))));
            &&& node_views(r.nodes@).drop_first() == split.0
            &&& views(r.cycle_scopes@) == split.1
        },
        forall|i: int| 0 <= i < r.nodes@.len() ==> valid_id(#[trigger] r.nodes@[i].id@),
{
    let (code, non_code, ruby_files, any_css, scripts) = survey(files);
    let ghost cf = views(code@);
    let project = segment(name);
    let count = code.len();
    let quota = count / MIN_SHARE;
    let min_files = if quota > MIN_FILES { quota } else { MIN_FILES };
    let floor = if count > 1 { count } else { 1 };
    let ruby = (ruby_files as u128) * 10 >= floor as u128;
    let root = SuggestedNode { id: project.clone(), path: String::new(), code_files: count };
    let mut nodes: Vec<SuggestedNode> = Vec::new();
    nodes.push(root);
    let mut result = Draft {
        project: project.clone(),
        nodes,
        cycle_scopes: Vec::new(),
        non_code_extensions: non_code,
        ruby,
        css: any_css && scripts,
        min_files,
    };
    let tree = Tree::new(&code);
    let ghost before = node_views(result.nodes@);
    proof {
        assert(views(result.cycle_scopes@) =~= Seq::<Seq<char>>::empty());
    }
    tree.split("", project.as_str(), 0, min_files, &mut result, Ghost(cf));
    proof {
        reveal_strlit("");
        let split = split_spec(tree, Seq::empty(), segment_spec(name@), 0, min_files as nat, depth_fuel(cf));
        assert(""@ =~= Seq::<char>::empty());
        assert(node_views(result.nodes@) == before + split.0);
        assert(node_views(result.nodes@).drop_first() =~= split.0);
        assert(views(result.cycle_scopes@) =~= split.1);
        assert(before[0] == node_view(root));
        assert(node_views(result.nodes@)[0] == node_view(root));
        assert(node_view(result.nodes@[0]) == node_view(root));
        lemma_split_valid(tree, Seq::empty(), project@, 0, min_files as nat, depth_fuel(cf));
        assert forall|i: int| 0 <= i < result.nodes@.len() implies valid_id(#[trigger] result.nodes@[i].id@) by {
            if i > 0 {
                assert(node_views(result.nodes@)[i] == split.0[i - 1]);
                assert(node_views(result.nodes@)[i].0 == result.nodes@[i].id@);
            }
        }
        assert(tree.models(cf));
    }
    result
}


pub open spec fn hex_digit(d: nat) -> char {
    if d < 10 {
        (('0' as u32) + d) as char
    } else {
        (('a' as u32) + d - 10) as char
    }
}

/// How JSON writes one character of a string: `"` and `\` behind a
/// backslash, the control characters with a short escape where there is
/// one and as `\u00` and two lowercase hex digits otherwise, any other
/// character as it is.
pub open spec fn json_char(c: char) -> Seq<char> {
    if c == '"' {
        seq!['\\', '"']
    } else if c == '\\' {
        seq!['\\', '\\']
    } else if c == '\u{8}' {
        seq!['\\', 'b']
    } else if c == '\t' {
        seq!['\\', 't']
    } else if c == '\n' {
        seq!['\\', 'n']
    } else if c == '\u{c}' {
        seq!['\\', 'f']
    } else if c == '\r' {
        seq!['\\', 'r']
    } else if (c as u32) < 0x20 {
        seq!['\\', 'u', '0', '0', hex_digit((c as u32 / 16) as nat), hex_digit((c as u32 % 16) as nat)]
    } else {
        seq![c]
    }
}

/// The characters of a string as JSON writes them inside its quotes.
pub open spec fn json_body(text: Seq<char>) -> Seq<char>
    decreases text.len(),
{
    if text.len() == 0 {
        Seq::empty()
    } else {
        json_body(text.drop_last()) + json_char(text.last())
    }
}

/// What `serde_json::to_string` gives for a string: it quoted, each
/// character written as `json_char` says.
pub open spec fn json_quoted(text: Seq<char>) -> Seq<char> {
    seq!['"'] + json_body(text) + seq!['"']
}

/// `serde_json::to_string` of a string, which cannot fail; it writes the
/// string as the escape table of `serde_json`'s serializer says.
#[verifier::external_body]
fn quoted(text: &str) -> (r: String)
    ensures
        r@ == json_quoted(text@),
{
    serde_json::to_string(text).unwrap_or_default()
}

/// Third-party, generated and tool directories; hidden directories as well.
pub open spec fn base_exclude() -> Seq<&'static str> {
    seq!["**/target/**", "**/node_modules/**", "**/vendor/**", "**/.venv/**", "**/__pycache__/**", "**/dist/**", "**/.*/**"]
}

/// What the index says of a node's files, as a comment; `None` for a node
/// the compiled draft does not have.
pub open spec fn coverage_text(nodes: StrMap<CompiledNode>, id: Seq<char>) -> Option<Seq<char>> {
    match nodes.lookup(id) {
        None => None,
        Some(node) => {
            let total = node.descendant_file_count as nat;
            if total == 0 {
                Some("no mapped files"@)
            } else {
                let percent = node.observed_file_count as nat * 100 / total;
                Some(decimal_spec(node.observed_file_count as nat) + " of "@ + decimal_spec(total)
                    + " files have an observed dependency ("@ + decimal_spec(percent) + "%)"@
                    + (if node.unindexed_file_count > 0 { ", "@ + decimal_spec(node.unindexed_file_count as nat) + " not indexed"@ } else { Seq::empty() })
                    + (if percent < LOW_COVERAGE_PERCENT { "; checks here are weak"@ } else { Seq::empty() }))
            }
        },
    }
}

fn coverage_comment(nodes: &StrMap<CompiledNode>, id: &str) -> (r: Option<String>)
    ensures
        crate::text::opt_view(r) == coverage_text(*nodes, id@),
{
    let node = match nodes.get(id) {
        Some(n) => n,
        None => {
            return None;
        },
    };
    let total = node.descendant_file_count;
    if total == 0 {
        return Some(String::from_str("no mapped files"));
    }
    let percent = (node.observed_file_count as u128) * 100 / (total as u128);
    let observed = decimal(node.observed_file_count as u128);
    let all = decimal(total as u128);
    let share = decimal(percent);
    let mut comment = cat5(observed.as_str(), " of ", all.as_str(), " files have an observed dependency (", share.as_str());
    comment.append("%)");
    if node.unindexed_file_count > 0 {
        let missing = decimal(node.unindexed_file_count as u128);
        let extra = cat3(", ", missing.as_str(), " not indexed");
        comment.append(extra.as_str());
    }
    if percent < 50 {
        comment.append("; checks here are weak");
    }
    proof {
        assert(comment@ =~= coverage_text(*nodes, id@)->0);
    }
    Some(comment)
}

/// `lines`, each ended by a line break.
pub open spec fn text_of(lines: Seq<Seq<char>>) -> Seq<char>
    decreases lines.len(),
{
    if lines.len() == 0 {
        Seq::empty()
    } else {
        text_of(lines.drop_last()) + lines.last() + "\n"@
    }
}

/// The lines of the draft's header: how it came about.
pub open spec fn header_lines(d: Draft, covered: bool, note: Option<Seq<char>>) -> Seq<Seq<char>> {
    seq![
        "# Draft generated by `archgraph init --suggest` from the directory layout."@,
        "# A directory became a node if it holds at least "@ + decimal_spec(d.min_files as nat) + " code files."@,
        "# Directories are not responsibilities: rename nodes, merge and split them,"@,
        "# describe each one, and replace the generic no_cycles rules with real ones."@,
    ] + if covered {
        seq![
            "# Coverage comments come from the current GitNexus index. A node where"@,
            "# few files have an observed dependency cannot meaningfully fail a rule."@,
        ]
    } else {
        match note {
            Some(n) => seq!["# No coverage comments: "@ + n],
            None => Seq::empty(),
        }
    }
}

pub open spec fn exclude_lines(globs: Seq<&'static str>) -> Seq<Seq<char>>
    decreases globs.len(),
{
    if globs.len() == 0 {
        Seq::empty()
    } else {
        exclude_lines(globs.drop_last()).push("    - "@ + json_quoted(globs.last()@))
    }
}

/// The `project` and `provider` sections.
pub open spec fn settings_lines(d: Draft) -> Seq<Seq<char>> {
    seq!["version: 1"@, "project:"@, "  name: "@ + json_quoted(d.project@), "  root: "@ + d.project@,
        "  source_roots: [\".\"]"@, "  exclude:"@]
    + exclude_lines(base_exclude())
    + (if d.non_code_extensions@.len() > 0 {
        seq!["    # Common non-code file types found here; nothing to check in them."@,
            "    - "@ + json_quoted("**/*.{"@ + join(views(d.non_code_extensions@), ","@) + "}"@)]
    } else {
        Seq::empty()
    })
    + seq!["provider:"@, "  kind: gitnexus"@, "  command: gitnexus"@, "  repo: null"@, "  page_size: 5000"@]
    + (if d.ruby {
        seq!["  # Ruby constants are autoloaded, so Ruby dependencies appear as CALLS,"@,
            "  # EXTENDS and IMPLEMENTS rather than IMPORTS. min_confidence 0.6 drops"@,
            "  # GitNexus's global-name-fallback guesses (0.5)."@]
    } else {
        seq!["  # Add CALLS, EXTENDS and IMPLEMENTS where imports do not show dependencies."@]
    })
    + seq!["  edge_types: "@ + d.edge_types_spec(), "  exclude_reasons: [markdown-link]"@]
    + (if d.css {
        seq!["  # GitNexus parses no CSS; ArchGraph reads stylesheets and class names"@,
            "  # itself (IMPORTS of stylesheets, USES_CLASS; see `archgraph styles`)."@, "  css: true"@]
    } else {
        Seq::empty()
    })
    + (if d.ruby { seq!["  min_confidence: 0.6"@] } else { Seq::empty() })
    + seq!["policies:"@, "  unassigned_files: warn"@, "  ambiguous_mapping: error"@, "nodes:"@]
}

/// The lines of one node, with its coverage comment when there is one.
pub open spec fn node_lines(project: Seq<char>, coverage: Option<StrMap<CompiledNode>>, n: SuggestedNode) -> Seq<Seq<char>> {
    let comment = match coverage {
        Some(nodes) => match coverage_text(nodes, n.id@) {
            Some(c) => seq!["  # "@ + c],
            None => Seq::empty(),
        },
        None => Seq::empty(),
    };
    comment + seq!["  "@ + n.id@ + ":"@] + if n.path@.len() == 0 {
        seq!["    title: "@ + json_quoted(project), "    maps: [\"**\"]"@]
    } else {
        seq![
            "    title: "@ + json_quoted(last_segment(n.path@)),
            "    description: "@ + json_quoted("Draft: "@ + decimal_spec(n.code_files as nat) + " code files under "@ + n.path@
                + "/. Describe its responsibility."@),
            "    maps: ["@ + json_quoted(n.path@ + "/**"@) + "]"@,
        ]
    }
}

pub open spec fn nodes_lines(project: Seq<char>, coverage: Option<StrMap<CompiledNode>>, ns: Seq<SuggestedNode>) -> Seq<Seq<char>>
    decreases ns.len(),
{
    if ns.len() == 0 {
        Seq::empty()
    } else {
        nodes_lines(project, coverage, ns.drop_last()) + node_lines(project, coverage, ns.last())
    }
}

pub open spec fn rule_line(scope: Seq<char>, edge_types: Seq<char>) -> Seq<char> {
    "  - {id: "@ + json_quoted("no-cycles-in-"@ + replace_char(scope, '.', '-')) + ", kind: no_cycles, within: "@ + scope
        + ", edge_types: "@ + edge_types + "}"@
}

pub open spec fn rule_lines(scopes: Seq<Seq<char>>, edge_types: Seq<char>) -> Seq<Seq<char>>
    decreases scopes.len(),
{
    if scopes.len() == 0 {
        Seq::empty()
    } else {
        rule_lines(scopes.drop_last(), edge_types).push(rule_line(scopes.last(), edge_types))
    }
}

/// The YAML of the draft.
pub open spec fn draft_text(d: Draft, coverage: Option<StrMap<CompiledNode>>, note: Option<Seq<char>>) -> Seq<char> {
    text_of(header_lines(d, coverage is Some, note) + settings_lines(d) + nodes_lines(d.project@, coverage, d.nodes@)
        + seq!["edges: []"@]
        + if d.cycle_scopes@.len() == 0 {
            seq!["rules: []"@]
        } else {
            seq!["rules:"@] + rule_lines(views(d.cycle_scopes@), d.edge_types_spec())
        })
}

proof fn lemma_text_of_add(a: Seq<Seq<char>>, b: Seq<Seq<char>>)
    ensures
        text_of(a + b) == text_of(a) + text_of(b),
    decreases b.len(),
{
    if b.len() == 0 {
        assert(a + b =~= a);
        assert(text_of(a) + text_of(b) =~= text_of(a));
    } else {
        assert((a + b).drop_last() =~= a + b.drop_last());
        lemma_text_of_add(a, b.drop_last());
    }
}

/// Appends `lines` to `out`, each ended by a line break.
fn append_lines(out: &mut String, lines: &Vec<String>)
    ensures
        final(out)@ == old(out)@ + text_of(views(lines@)),
{
    let mut i: usize = 0;
    let ghost start = out@;
    proof {
        assert(views(lines@).take(0) =~= Seq::<Seq<char>>::empty());
    }
    while i < lines.len()
        invariant
            i <= lines@.len(),
            out@ == start + text_of(views(lines@).take(i as int)),
        decreases lines@.len() - i,
    {
        out.append(lines[i].as_str());
        out.append("\n");
        proof {
            assert(views(lines@).take(i + 1).drop_last() =~= views(lines@).take(i as int));
            assert(views(lines@).take(i + 1).last() == lines@[i as int]@);
        }
        i = i + 1;
    }
    proof {
        assert(views(lines@).take(lines@.len() as int) =~= views(lines@));
    }
}

fn push_line(lines: &mut Vec<String>, line: String)
    ensures
        views(final(lines)@) == views(old(lines)@).push(line@),
{
    lines.push(line);
    proof {
        assert(views(lines@) =~= views(old(lines)@).push(line@));
    }
}

fn push_str(lines: &mut Vec<String>, line: &str)
    ensures
        views(final(lines)@) == views(old(lines)@).push(line@),
{
    push_line(lines, String::from_str(line));
}

impl Draft {
    fn header(&self, covered: bool, note: Option<&str>) -> (r: Vec<String>)
        ensures
            views(r@) == header_lines(*self, covered, match note { Some(n) => Some(n@), None => None }),
    {
        let mut lines: Vec<String> = Vec::new();
        push_str(&mut lines, "# Draft generated by `archgraph init --suggest` from the directory layout.");
        let min = decimal(self.min_files as u128);
        push_line(&mut lines, cat3("# A directory became a node if it holds at least ", min.as_str(), " code files."));
        push_str(&mut lines, "# Directories are not responsibilities: rename nodes, merge and split them,");
        push_str(&mut lines, "# describe each one, and replace the generic no_cycles rules with real ones.");
        if covered {
            push_str(&mut lines, "# Coverage comments come from the current GitNexus index. A node where");
            push_str(&mut lines, "# few files have an observed dependency cannot meaningfully fail a rule.");
        } else {
            match note {
                Some(n) => push_line(&mut lines, cat2("# No coverage comments: ", n)),
                None => {},
            }
        }
        proof {
            assert(views(lines@) =~= header_lines(*self, covered, match note { Some(n) => Some(n@), None => None }));
        }
        lines
    }

    #[verifier::rlimit(60)]
    fn settings(&self) -> (r: Vec<String>)
        ensures
            views(r@) == settings_lines(*self),
    {
        let mut lines: Vec<String> = Vec::new();
        push_str(&mut lines, "version: 1");
        push_str(&mut lines, "project:");
        let name = quoted(self.project.as_str());
        push_line(&mut lines, cat2("  name: ", name.as_str()));
        push_line(&mut lines, cat2("  root: ", self.project.as_str()));
        push_str(&mut lines, "  source_roots: [\".\"]");
        push_str(&mut lines, "  exclude:");
        let ghost before_globs = views(lines@);
        let globs = ["**/target/**", "**/node_modules/**", "**/vendor/**", "**/.venv/**", "**/__pycache__/**", "**/dist/**", "**/.*/**"];
        proof {
            assert(globs@ =~= base_exclude());
            assert(globs@.take(0) =~= Seq::<&'static str>::empty());
        }
        let mut g: usize = 0;
        while g < globs.len()
            invariant
                g <= globs@.len(),
                globs@ == base_exclude(),
                views(lines@) == before_globs + exclude_lines(globs@.take(g as int)),
            decreases globs@.len() - g,
        {
            let q = quoted(globs[g]);
            push_line(&mut lines, cat2("    - ", q.as_str()));
            proof {
                assert(globs@.take(g + 1).drop_last() =~= globs@.take(g as int));
            }
            g = g + 1;
        }
        proof {
            assert(globs@.take(globs@.len() as int) =~= globs@);
        }
        if self.non_code_extensions.len() > 0 {
            push_str(&mut lines, "    # Common non-code file types found here; nothing to check in them.");
            let listed = crate::rules::join_text(&self.non_code_extensions, ",");
            let pattern = cat3("**/*.{", listed.as_str(), "}");
            let q = quoted(pattern.as_str());
            push_line(&mut lines, cat2("    - ", q.as_str()));
        }
        push_str(&mut lines, "provider:");
        push_str(&mut lines, "  kind: gitnexus");
        push_str(&mut lines, "  command: gitnexus");
        push_str(&mut lines, "  repo: null");
        push_str(&mut lines, "  page_size: 5000");
        if self.ruby {
            push_str(&mut lines, "  # Ruby constants are autoloaded, so Ruby dependencies appear as CALLS,");
            push_str(&mut lines, "  # EXTENDS and IMPLEMENTS rather than IMPORTS. min_confidence 0.6 drops");
            push_str(&mut lines, "  # GitNexus's global-name-fallback guesses (0.5).");
        } else {
            push_str(&mut lines, "  # Add CALLS, EXTENDS and IMPLEMENTS where imports do not show dependencies.");
        }
        let types = self.edge_types();
        push_line(&mut lines, cat2("  edge_types: ", types.as_str()));
        push_str(&mut lines, "  exclude_reasons: [markdown-link]");
        if self.css {
            push_str(&mut lines, "  # GitNexus parses no CSS; ArchGraph reads stylesheets and class names");
            push_str(&mut lines, "  # itself (IMPORTS of stylesheets, USES_CLASS; see `archgraph styles`).");
            push_str(&mut lines, "  css: true");
        }
        if self.ruby {
            push_str(&mut lines, "  min_confidence: 0.6");
        }
        push_str(&mut lines, "policies:");
        push_str(&mut lines, "  unassigned_files: warn");
        push_str(&mut lines, "  ambiguous_mapping: error");
        push_str(&mut lines, "nodes:");
        proof {
            assert(views(lines@) =~= settings_lines(*self));
        }
        lines
    }

    fn node(&self, coverage: Option<&StrMap<CompiledNode>>, n: &SuggestedNode) -> (r: Vec<String>)
        ensures
            views(r@) == node_lines(self.project@, match coverage { Some(c) => Some(*c), None => None }, *n),
    {
        let mut lines: Vec<String> = Vec::new();
        match coverage {
            Some(nodes) => match coverage_comment(nodes, n.id.as_str()) {
                Some(c) => push_line(&mut lines, cat2("  # ", c.as_str())),
                None => {},
            },
            None => {},
        }
        push_line(&mut lines, cat3("  ", n.id.as_str(), ":"));
        if chars_of(n.path.as_str()).len() == 0 {
            let title = quoted(self.project.as_str());
            push_line(&mut lines, cat2("    title: ", title.as_str()));
            push_str(&mut lines, "    maps: [\"**\"]");
        } else {
            let name = crate::repository::last_segment_exec(n.path.as_str());
            let title = quoted(name.as_str());
            push_line(&mut lines, cat2("    title: ", title.as_str()));
            let count = decimal(n.code_files as u128);
            let text = cat5("Draft: ", count.as_str(), " code files under ", n.path.as_str(), "/. Describe its responsibility.");
            let description = quoted(text.as_str());
            push_line(&mut lines, cat2("    description: ", description.as_str()));
            let glob = cat2(n.path.as_str(), "/**");
            let maps = quoted(glob.as_str());
            push_line(&mut lines, cat3("    maps: [", maps.as_str(), "]"));
        }
        proof {
            assert(views(lines@) =~= node_lines(self.project@, match coverage { Some(c) => Some(*c), None => None }, *n));
        }
        lines
    }

    /// The draft as `architecture.yaml`; with the draft compiled against the
    /// index (`coverage`, its nodes), each node says how many of its files
    /// have an observed dependency; `note` explains a missing index.
    pub fn render(&self, coverage: Option<&StrMap<CompiledNode>>, note: Option<&str>) -> (r: String)
        ensures
            r@ == draft_text(*self, match coverage { Some(c) => Some(*c), None => None }, match note { Some(n) => Some(n@), None => None }),
    {
        let ghost cov = match coverage { Some(c) => Some(*c), None => None };
        let ghost nt = match note { Some(n) => Some(n@), None => None };
        let mut out = String::new();
        let header = self.header(coverage.is_some(), note);
        append_lines(&mut out, &header);
        let settings = self.settings();
        append_lines(&mut out, &settings);
        let mut k: usize = 0;
        let ghost before_nodes = out@;
        proof {
            assert(self.nodes@.take(0) =~= Seq::<SuggestedNode>::empty());
        }
        while k < self.nodes.len()
            invariant
                k <= self.nodes@.len(),
                out@ == before_nodes + text_of(nodes_lines(self.project@, cov, self.nodes@.take(k as int))),
                cov == match coverage { Some(c) => Some(*c), None => None },
            decreases self.nodes@.len() - k,
        {
            let lines = self.node(coverage, &self.nodes[k]);
            append_lines(&mut out, &lines);
            proof {
                assert(self.nodes@.take(k + 1).drop_last() =~= self.nodes@.take(k as int));
                lemma_text_of_add(nodes_lines(self.project@, cov, self.nodes@.take(k as int)), views(lines@));
            }
            k = k + 1;
        }
        proof {
            assert(self.nodes@.take(self.nodes@.len() as int) =~= self.nodes@);
        }
        let mut tail: Vec<String> = Vec::new();
        push_str(&mut tail, "edges: []");
        let types = self.edge_types();
        if self.cycle_scopes.len() == 0 {
            push_str(&mut tail, "rules: []");
        } else {
            push_str(&mut tail, "rules:");
            let ghost before_rules = views(tail@);
            let mut j: usize = 0;
            proof {
                assert(views(self.cycle_scopes@).take(0) =~= Seq::<Seq<char>>::empty());
            }
            while j < self.cycle_scopes.len()
                invariant
                    j <= self.cycle_scopes@.len(),
                    types@ == self.edge_types_spec(),
                    views(tail@) == before_rules + rule_lines(views(self.cycle_scopes@).take(j as int), types@),
                decreases self.cycle_scopes@.len() - j,
            {
                let scope = &self.cycle_scopes[j];
                let chars = chars_of(scope.as_str());
                let dashed = string_of(crate::text::replace_chars(chars.as_slice(), '.', '-').as_slice());
                let rule_id = cat2("no-cycles-in-", dashed.as_str());
                let q = quoted(rule_id.as_str());
                let head = cat4("  - {id: ", q.as_str(), ", kind: no_cycles, within: ", scope.as_str());
                push_line(&mut tail, cat4(head.as_str(), ", edge_types: ", types.as_str(), "}"));
                proof {
                    assert(views(self.cycle_scopes@).take(j + 1).drop_last() =~= views(self.cycle_scopes@).take(j as int));
                    assert(views(self.cycle_scopes@).take(j + 1).last() == scope@);
                    assert(views(tail@).last() =~= rule_line(scope@, types@));
                    assert(views(tail@) =~= before_rules + rule_lines(views(self.cycle_scopes@).take(j + 1), types@));
                }
                j = j + 1;
            }
            proof {
                assert(views(self.cycle_scopes@).take(self.cycle_scopes@.len() as int) =~= views(self.cycle_scopes@));
            }
        }
        append_lines(&mut out, &tail);
        proof {
            let h = header_lines(*self, coverage is Some, nt);
            let st = settings_lines(*self);
            let nl = nodes_lines(self.project@, cov, self.nodes@);
            let t = views(tail@);
            lemma_text_of_add(h, st);
            lemma_text_of_add(h + st, nl);
            lemma_text_of_add(h + st + nl, t);
            assert(t =~= seq!["edges: []"@] + if self.cycle_scopes@.len() == 0 {
                seq!["rules: []"@]
            } else {
                seq!["rules:"@] + rule_lines(views(self.cycle_scopes@), self.edge_types_spec())
            });
            assert(h + st + nl + t =~= h + st + nl + seq!["edges: []"@] + if self.cycle_scopes@.len() == 0 {
                seq!["rules: []"@]
            } else {
                seq!["rules:"@] + rule_lines(views(self.cycle_scopes@), self.edge_types_spec())
            });
        }
        out
    }
}

} // verus!
