//! Imports of third-party packages: what a parser found in a file, and how a
//! module specifier names an npm package or a path the provider resolved.
use vstd::prelude::*;
use crate::text::{cat3, cat5, chars_eq, chars_of, contains_char, has_suffix, slice_chars, split, str_eq, string_of, ends_with, views};
use crate::discovery::under_spec;
use crate::order::seq_has;
use crate::repository::{joined, parent_path, types_package, Repository};

verus! {

/// One import statement.
#[derive(Debug, Clone, PartialEq, Eq)]
pub struct Import {
    pub line: usize,
    /// As written: `ortools.constraint_solver`, `..models`, `react-dom/client`.
    pub specifier: String,
    pub type_only: bool,
}

/// What a parser found in one file.
#[derive(Debug, Clone)]
pub struct Facts {
    pub imports: Vec<Import>,
    /// Dynamic imports of a computed module: line and expression.
    pub unresolved: Vec<(usize, String)>,
}

pub open spec fn name_char(c: char) -> bool {
    ('a' <= c && c <= 'z') || ('A' <= c && c <= 'Z') || ('0' <= c && c <= '9') || c == '-' || c
        == '.' || c == '_'
}

/// A segment of an npm package name: nonempty, not starting with `.` or `_`,
/// made of ASCII letters, digits, `-`, `.` and `_`.
pub open spec fn segment_ok(s: Seq<char>) -> bool {
    s.len() > 0 && s[0] != '.' && s[0] != '_' && forall|i: int| 0 <= i < s.len() ==> name_char(#[trigger] s[i])
}

/// The package a bare specifier names: `@scope/name` or `name`.
pub open spec fn npm_name_spec(specifier: Seq<char>) -> Option<Seq<char>> {
    let parts = split(specifier, '/');
    let first = parts[0];
    if first.len() > 0 && first[0] == '@' {
        if parts.len() >= 2 && segment_ok(first.drop_first()) && segment_ok(parts[1]) {
            Some(first + seq!['/'] + parts[1])
        } else {
            None
        }
    } else if segment_ok(first) {
        Some(first)
    } else {
        None
    }
}

fn segment_ok_exec(s: &[char]) -> (r: bool)
    ensures
        r == segment_ok(s@),
{
    if s.len() == 0 || s[0] == '.' || s[0] == '_' {
        return false;
    }
    let mut i: usize = 0;
    while i < s.len()
        invariant
            i <= s@.len(),
            forall|k: int| 0 <= k < i ==> name_char(#[trigger] s@[k]),
        decreases s@.len() - i,
    {
        let c = s[i];
        if !(('a' <= c && c <= 'z') || ('A' <= c && c <= 'Z') || ('0' <= c && c <= '9') || c == '-'
            || c == '.' || c == '_') {
            return false;
        }
        i = i + 1;
    }
    true
}

/// The package a bare specifier names (`@scope/name` or `name`), or `None`
/// when it cannot be an npm package name (`@/x`, `~/x`, `$lib/x`), which
/// makes it a bundler or TypeScript path alias.
pub fn npm_name(specifier: &str) -> (r: Option<String>)
    ensures
        match r {
            Some(n) => npm_name_spec(specifier@) == Some(n@),
            None => npm_name_spec(specifier@) is None,
        },
{
    let s = chars_of(specifier);
    let parts = crate::text::split_chars(s.as_slice(), '/');
    proof {
        crate::text::lemma_split_parts_free(s@, '/');
        assert(parts@[0]@ == split(specifier@, '/')[0]);
    }
    let first = &parts[0];
    if first.len() > 0 && first[0] == '@' {
        if parts.len() >= 2 {
            proof {
                assert(parts@[1]@ == split(specifier@, '/')[1]);
            }
            let scope = slice_chars(first.as_slice(), 1, first.len());
            proof {
                assert(scope@ =~= first@.drop_first());
            }
            if segment_ok_exec(scope.as_slice()) && segment_ok_exec(parts[1].as_slice()) {
                let mut name = first.clone();
                name.push('/');
                let second = &parts[1];
                let mut k: usize = 0;
                let ghost base = name@;
                while k < second.len()
                    invariant
                        k <= second@.len(),
                        name@ == base + second@.take(k as int),
                    decreases second@.len() - k,
                {
                    name.push(second[k]);
                    proof {
                        assert(name@ =~= base + second@.take(k + 1));
                    }
                    k = k + 1;
                }
                proof {
                    assert(second@.take(second@.len() as int) =~= second@);
                    assert(name@ =~= first@ + seq!['/'] + second@);
                }
                return Some(string_of(name.as_slice()));
            }
        }
        None
    } else if segment_ok_exec(first.as_slice()) {
        Some(string_of(first.as_slice()))
    } else {
        None
    }
}

/// The index of the last `c` in `s`.
pub open spec fn last_index(s: Seq<char>, c: char) -> Option<int>
    decreases s.len(),
{
    if s.len() == 0 {
        None
    } else if s.last() == c {
        Some(s.len() - 1)
    } else {
        last_index(s.drop_last(), c)
    }
}

/// `s` without its trailing `c` characters.
pub open spec fn trim_end(s: Seq<char>, c: char) -> Seq<char>
    decreases s.len(),
{
    if s.len() > 0 && s.last() == c { trim_end(s.drop_last(), c) } else { s }
}

pub open spec fn index_suffix() -> Seq<char> {
    seq!['/', 'i', 'n', 'd', 'e', 'x']
}

/// A module path without its extension and without a final `/index`: what
/// a specifier and the file it resolves to have in common.
pub open spec fn module_stem(path: Seq<char>) -> Seq<char> {
    let name_start = match last_index(path, '/') {
        Some(i) => i + 1,
        None => 0,
    };
    let name = path.skip(name_start);
    let without = match last_index(name, '.') {
        Some(dot) => if dot > 0 { path.take(name_start + dot) } else { path },
        None => path,
    };
    if ends_with(without, index_suffix()) {
        without.take(without.len() - 6)
    } else {
        without
    }
}

/// The specifier after its first segment, without trailing slashes.
pub open spec fn alias_rest(specifier: Seq<char>) -> Option<Seq<char>> {
    let parts = split(specifier, '/');
    if parts.len() < 2 {
        None
    } else {
        let rest = specifier.skip((parts[0].len() + 1) as int);
        let t = trim_end(rest, '/');
        if t.len() == 0 { None } else { Some(t) }
    }
}

/// Whether the provider resolved `specifier` to one of `targets`: a target's
/// stem is the specifier's stem after its first segment, or ends with it at
/// a `/`, as a TypeScript path alias maps `@app/utils/date` to
/// `src/app/utils/date.ts`.
pub open spec fn resolved_by(targets: Seq<Seq<char>>, specifier: Seq<char>) -> bool {
    match alias_rest(specifier) {
        None => false,
        Some(rest) => exists|i: int| 0 <= i < targets.len() && {
            let t = module_stem(#[trigger] targets[i]);
            let w = module_stem(rest);
            t == w || ends_with(t, seq!['/'] + w)
        },
    }
}

fn last_index_exec(s: &[char], c: char) -> (r: Option<usize>)
    ensures
        match r {
            Some(i) => last_index(s@, c) == Some(i as int) && i < s@.len(),
            None => last_index(s@, c) is None,
        },
{
    let mut i = s.len();
    proof {
        assert(s@.take(i as int) =~= s@);
    }
    while i > 0
        invariant
            i <= s@.len(),
            last_index(s@, c) == last_index(s@.take(i as int), c),
        decreases i,
    {
        if s[i - 1] == c {
            return Some(i - 1);
        }
        proof {
            assert(s@.take(i as int).drop_last() =~= s@.take(i - 1));
        }
        i = i - 1;
    }
    None
}

fn module_stem_exec(path: &[char]) -> (r: Vec<char>)
    ensures
        r@ == module_stem(path@),
{
    proof {
        lemma_last_index_range(path@, '/');
    }
    let n: usize = path.len();
    let name_start = match last_index_exec(path, '/') {
        Some(i) => {
            assert(i < n);
            i + 1
        },
        None => 0,
    };
    let name = slice_chars(path, name_start, path.len());
    proof {
        assert(name@ =~= path@.skip(name_start as int));
        lemma_last_index_range(name@, '.');
    }
    let without = match last_index_exec(name.as_slice(), '.') {
        Some(dot) => if dot > 0 {
            proof {
                assert(path@.subrange(0, name_start + dot) =~= path@.take(name_start + dot));
            }
            slice_chars(path, 0, name_start + dot)
        } else {
            proof {
                assert(path@.subrange(0, path@.len() as int) =~= path@);
            }
            slice_chars(path, 0, path.len())
        },
        None => {
            proof {
                assert(path@.subrange(0, path@.len() as int) =~= path@);
            }
            slice_chars(path, 0, path.len())
        },
    };
    let suffix = ['/', 'i', 'n', 'd', 'e', 'x'];
    proof {
        assert(suffix@ =~= index_suffix());
    }
    if has_suffix(without.as_slice(), suffix.as_slice()) {
        proof {
            assert(without@.subrange(0, without@.len() - 6) =~= without@.take(without@.len() - 6));
        }
        slice_chars(without.as_slice(), 0, without.len() - 6)
    } else {
        without
    }
}

proof fn lemma_last_index_range(s: Seq<char>, c: char)
    ensures
        last_index(s, c) matches Some(i) ==> 0 <= i < s.len(),
    decreases s.len(),
{
    if s.len() > 0 && s.last() != c {
        lemma_last_index_range(s.drop_last(), c);
    }
}

/// Whether the provider resolved `specifier`, imported by the file, to one
/// of `targets`.
pub fn provider_resolved(targets: &[String], specifier: &str) -> (r: bool)
    ensures
        r == resolved_by(targets@.map_values(|t: String| t@), specifier@),
{
    let s = chars_of(specifier);
    let parts = crate::text::split_chars(s.as_slice(), '/');
    if parts.len() < 2 {
        return false;
    }
    let first_len = parts[0].len();
    proof {
        assert(parts@[0]@ == split(specifier@, '/')[0]);
        lemma_split_first_len(specifier@, '/');
    }
    let sl: usize = s.len();
    assert(first_len < sl);
    let rest = slice_chars(s.as_slice(), first_len + 1, sl);
    proof {
        assert(rest@ =~= specifier@.skip(first_len + 1));
    }
    let mut end = rest.len();
    proof {
        assert(rest@.take(end as int) =~= rest@);
    }
    while end > 0 && rest[end - 1] == '/'
        invariant
            end <= rest@.len(),
            trim_end(rest@, '/') == trim_end(rest@.take(end as int), '/'),
        decreases end,
    {
        proof {
            assert(rest@.take(end as int).drop_last() =~= rest@.take(end - 1));
        }
        end = end - 1;
    }
    let trimmed = slice_chars(rest.as_slice(), 0, end);
    proof {
        assert(trimmed@ =~= rest@.take(end as int));
        assert(end == 0 || rest@[end - 1] != '/');
        assert(trim_end(rest@.take(end as int), '/') == rest@.take(end as int));
    }
    if trimmed.len() == 0 {
        return false;
    }
    let wanted = module_stem_exec(trimmed.as_slice());
    let ghost tv = targets@.map_values(|t: String| t@);
    let mut i: usize = 0;
    while i < targets.len()
        invariant
            i <= targets@.len(),
            tv == targets@.map_values(|t: String| t@),
            alias_rest(specifier@) == Some(trimmed@),
            wanted@ == module_stem(trimmed@),
            forall|k: int| 0 <= k < i ==> {
                let t = module_stem(#[trigger] tv[k]);
                !(t == wanted@ || ends_with(t, seq!['/'] + wanted@))
            },
        decreases targets@.len() - i,
    {
        let tc = chars_of(targets[i].as_str());
        let t = module_stem_exec(tc.as_slice());
        let mut slash_wanted = vec!['/'];
        let mut k: usize = 0;
        while k < wanted.len()
            invariant
                k <= wanted@.len(),
                slash_wanted@ == seq!['/'] + wanted@.take(k as int),
            decreases wanted@.len() - k,
        {
            slash_wanted.push(wanted[k]);
            proof {
                assert(slash_wanted@ =~= seq!['/'] + wanted@.take(k + 1));
            }
            k = k + 1;
        }
        proof {
            assert(wanted@.take(wanted@.len() as int) =~= wanted@);
            assert(tv[i as int] == tc@);
        }
        if chars_eq(t.as_slice(), wanted.as_slice()) || has_suffix(t.as_slice(), slash_wanted.as_slice()) {
            return true;
        }
        i = i + 1;
    }
    false
}

proof fn lemma_split_first_len(s: Seq<char>, sep: char)
    requires
        split(s, sep).len() >= 2,
    ensures
        split(s, sep)[0].len() < s.len(),
        s[split(s, sep)[0].len() as int] == sep,
        s.take(split(s, sep)[0].len() as int) == split(s, sep)[0],
    decreases s.len(),
{
    let rest = split(s.drop_last(), sep);
    crate::text::lemma_split_parts_free(s.drop_last(), sep);
    if s.last() == sep {
        if rest.len() >= 2 {
            lemma_split_first_len(s.drop_last(), sep);
            assert(s.take(rest[0].len() as int) =~= s.drop_last().take(rest[0].len() as int));
        } else {
            lemma_split_single(s.drop_last(), sep);
            assert(s.take(rest[0].len() as int) =~= s.drop_last());
        }
    } else {
        lemma_split_first_len(s.drop_last(), sep);
        assert(split(s, sep)[0] == rest[0]);
        assert(s.take(rest[0].len() as int) =~= s.drop_last().take(rest[0].len() as int));
    }
}

/// A text with no separator splits into itself.
proof fn lemma_split_single(s: Seq<char>, sep: char)
    requires
        split(s, sep).len() < 2,
    ensures
        split(s, sep) == seq![s],
    decreases s.len(),
{
    crate::text::lemma_split_parts_free(s, sep);
    if s.len() == 0 {
        assert(s =~= Seq::<char>::empty());
    } else {
        let rest = split(s.drop_last(), sep);
        crate::text::lemma_split_parts_free(s.drop_last(), sep);
        if s.last() == sep {
            assert(split(s, sep).len() == rest.len() + 1);
        } else {
            assert(split(s, sep).len() == rest.len());
            lemma_split_single(s.drop_last(), sep);
            assert(s.drop_last().push(s.last()) =~= s);
            assert(split(s, sep) =~= seq![s]);
        }
    }
}


/// The package ecosystem an import names a package of.
#[derive(Debug, Clone, Copy, PartialEq, Eq, Structural)]
pub enum Ecosystem {
    Python,
    Npm,
}

/// What an import is: a package, a local module, or possibly either.
#[derive(Debug, PartialEq)]
pub enum Class {
    Package(Ecosystem, String),
    Local,
    Ambiguous(String),
}

/// The top-level module of a Python import.
pub open spec fn python_top(specifier: Seq<char>) -> Seq<char> {
    split(specifier, '.')[0]
}

/// The module `name` sits beside `file`, above it or in a `src/` above it.
pub open spec fn python_reachable_spec(repository: Repository, file: Seq<char>, name: Seq<char>) -> bool {
    exists|x: Seq<char>| #[trigger] under_spec(parent_path(file), x)
        && (repository.has_python(x, name) || repository.has_python(joined(x, "src"@), name))
}

pub open spec fn elsewhere_message(top: Seq<char>, directory: Seq<char>) -> Seq<char> {
    let place = if directory.len() == 0 { "the repository root"@ } else { "`"@ + directory + "/`"@ };
    "the repository has a Python module `"@ + top + "` in "@ + place
        + ", not beside the importing file or above it, so this may be that module or a package of the same name"@
}

/// What `classify_python` makes of an import.
pub open spec fn python_class(repository: Repository, file: Seq<char>, specifier: Seq<char>, stdlib: Seq<Seq<char>>, c: Class) -> bool {
    if specifier.len() > 0 && specifier[0] == '.' {
        c is Local
    } else if python_top(specifier).len() == 0 {
        c matches Class::Ambiguous(m) && m@ == "the module name is empty"@
    } else if python_reachable_spec(repository, file, python_top(specifier)) {
        c is Local
    } else if seq_has(stdlib, python_top(specifier)) {
        c is Local
    } else if exists|d: Seq<char>| repository.first_python(python_top(specifier), d) {
        c matches Class::Ambiguous(m) && exists|d: Seq<char>| repository.first_python(python_top(specifier), d)
            && m@ == elsewhere_message(python_top(specifier), d)
    } else {
        c matches Class::Package(e, n) && e == Ecosystem::Python && n@ == python_top(specifier)
    }
}

/// A Python import is local when its top-level module sits beside the
/// importing file or above it (or in a `src/` there); a module of the
/// standard library (`stdlib`) is no package; a top-level name the
/// repository defines only elsewhere may be either, so it is ambiguous.
pub fn classify_python(repository: &Repository, file: &str, specifier: &str, stdlib: &Vec<String>) -> (r: Class)
    requires
        repository.wf(),
    ensures
        python_class(*repository, file@, specifier@, views(stdlib@), r),

{
    let chars = chars_of(specifier);
    if chars.len() > 0 && chars[0] == '.' {
        return Class::Local;
    }
    let parts = crate::text::split_chars(chars.as_slice(), '.');
    proof {
        crate::text::lemma_split_parts_free(chars@, '.');
    }
    let top = string_of(parts[0].as_slice());
    if parts[0].len() == 0 {
        return Class::Ambiguous(String::from_str("the module name is empty"));
    }
    if repository.python_reachable(file, top.as_str()) {
        return Class::Local;
    }
    if crate::repository::contains_text(stdlib, top.as_str()) {
        return Class::Local;
    }
    match repository.python_elsewhere(top.as_str()) {
        Some(directory) => {
            let place = if chars_of(directory).len() == 0 {
                String::from_str("the repository root")
            } else {
                cat3("`", directory, "/`")
            };
            let head = cat5("the repository has a Python module `", top.as_str(), "` in ", place.as_str(), ", not beside the importing file or above it, so this may be that module or a package of the same name");
            proof {
                assert(head@ =~= elsewhere_message(top@, directory@));
            }
            Class::Ambiguous(head)
        },
        None => {
            proof {
                if exists|d: Seq<char>| repository.first_python(top@, d) {
                    let d = choose|d: Seq<char>| repository.first_python(top@, d);
                    assert(repository.has_python(d, top@));
                }
            }
            Class::Package(Ecosystem::Python, top)
        },
    }
}

/// What comes before the first `?` or `#`.
pub open spec fn before_query(s: Seq<char>) -> Seq<char> {
    s.take(crate::http::query_end(s))
}

/// The scheme of a specifier: what comes before its first `:`.
pub open spec fn scheme_of(bare: Seq<char>) -> Option<Seq<char>> {
    match crate::repository::first_index(bare, ':') {
        Some(i) => Some(bare.take(i)),
        None => None,
    }
}

/// The scheme of a specifier such as `node:fs` or `virtual:x`: before its
/// first `:`, where that holds no `/`.
pub open spec fn url_scheme(specifier: Seq<char>) -> Option<Seq<char>> {
    match scheme_of(before_query(specifier)) {
        Some(scheme) => if contains_char(scheme, '/') {
            None
        } else {
            Some(scheme)
        },
        None => None,
    }
}

pub open spec fn scheme_message(scheme: Seq<char>) -> Seq<char> {
    "`"@ + scheme + ":` specifiers name no npm package (a bundler plugin or a URL)"@
}

pub open spec fn undeclared_message(name: Seq<char>) -> Seq<char> {
    "no package.json beside the importing file or above it declares `"@ + name
        + "`, and the code-graph provider did not resolve it to a repository file: a path alias or an undeclared package"@
}

/// A `package.json` beside `file` or above it declares `name` or its types.
pub open spec fn declared_spec(repository: Repository, file: Seq<char>, name: Seq<char>) -> bool {
    exists|x: Seq<char>| #[trigger] under_spec(parent_path(file), x)
        && (repository.declares(x, name) || repository.declares(x, types_package(name)))
}

/// What `classify_script` makes of an import.
pub open spec fn script_class(repository: Repository, targets: Seq<Seq<char>>, file: Seq<char>, specifier: Seq<char>, builtins: Seq<Seq<char>>, c: Class) -> bool {
    if specifier.len() == 0 {
        c matches Class::Ambiguous(m) && m@ == "the module specifier is empty"@
    } else if specifier[0] == '.' || specifier[0] == '/' || specifier[0] == '#' {
        c is Local
    } else {
        match url_scheme(specifier) {
            Some(scheme) => if scheme == "node"@ {
                c is Local
            } else {
                c matches Class::Ambiguous(m) && m@ == scheme_message(scheme)
            },
            None => match npm_name_spec(before_query(specifier)) {
                None => c is Local,
                Some(name) => if repository.is_workspace(name) {
                    c is Local
                } else if declared_spec(repository, file, name) {
                    c matches Class::Package(e, n) && e == Ecosystem::Npm && n@ == name
                } else if resolved_by(targets, before_query(specifier)) {
                    c is Local
                } else if seq_has(builtins, name) {
                    c is Local
                } else {
                    c matches Class::Ambiguous(m) && m@ == undeclared_message(name)
                },
            },
        }
    }
}

/// A bare specifier is a package when a `package.json` beside the importing
/// file or above it declares it; a workspace package of the repository is
/// local, and so is an alias the provider resolved to one of `targets`. An
/// undeclared name may be an alias the provider could not resolve or an
/// undeclared package, so it is ambiguous; an undeclared Node.js built-in
/// (one of `node_builtins`) is no package.
pub fn classify_script(repository: &Repository, targets: &[String], file: &str, specifier: &str, node_builtins: &Vec<String>) -> (r: Class)
    ensures
        script_class(*repository, targets@.map_values(|t: String| t@), file@, specifier@, views(node_builtins@), r),

{
    let chars = chars_of(specifier);
    if chars.len() == 0 {
        return Class::Ambiguous(String::from_str("the module specifier is empty"));
    }
    if chars[0] == '.' || chars[0] == '/' || chars[0] == '#' {
        return Class::Local;
    }
    let end = crate::http::query_end_exec(chars.as_slice());
    let bare_chars = slice_chars(chars.as_slice(), 0, end);
    let bare = string_of(bare_chars.as_slice());
    proof {
        assert(bare@ =~= before_query(specifier@));
    }
    match crate::repository::first_index_of(bare_chars.as_slice(), ':') {
        Some(i) => {
            let scheme = slice_chars(bare_chars.as_slice(), 0, i);
            proof {
                assert(scheme@ =~= bare@.take(i as int));
            }
            if !crate::text::has_char(scheme.as_slice(), '/') {
                let scheme_text = string_of(scheme.as_slice());
                if str_eq(scheme_text.as_str(), "node") {
                    return Class::Local;
                }
                return Class::Ambiguous(cat3("`", scheme_text.as_str(), ":` specifiers name no npm package (a bundler plugin or a URL)"));
            }
        },
        None => {},
    }
    let name = match npm_name(bare.as_str()) {
        Some(n) => n,
        None => {
            return Class::Local;
        },
    };
    if repository.workspace_package(name.as_str()) {
        return Class::Local;
    }
    if repository.declared(file, name.as_str()) {
        return Class::Package(Ecosystem::Npm, name);
    }
    if provider_resolved(targets, bare.as_str()) {
        return Class::Local;
    }
    if crate::repository::contains_text(node_builtins, name.as_str()) {
        return Class::Local;
    }
    Class::Ambiguous(cat3("no package.json beside the importing file or above it declares `", name.as_str(), "`, and the code-graph provider did not resolve it to a repository file: a path alias or an undeclared package"))
}


/// A bare specifier without `/` that is made of ASCII letters, digits, `-`,
/// `.` and `_`, and starts with none of `.`, `_` or `@`, names the npm
/// package of that very name (`d3`, `i18next`, `base64-js`).
pub proof fn lemma_plain_npm_name(s: Seq<char>)
    requires
        s.len() > 0,
        s[0] != '.' && s[0] != '_' && s[0] != '@',
        forall|i: int| 0 <= i < s.len() ==> {
            let c = #[trigger] s[i];
            ('a' <= c && c <= 'z') || ('A' <= c && c <= 'Z') || ('0' <= c && c <= '9') || c == '-' || c == '.' || c == '_'
        },
    ensures
        npm_name_spec(s) == Some(s),
{
    assert(!contains_char(s, '/')) by {
        if contains_char(s, '/') {
            let k = choose|k: int| 0 <= k < s.len() && s[k] == '/';
            assert(s[k] == '/');
        }
    }
    crate::text::lemma_split_join(seq![s], '/');
    assert(crate::text::join(seq![s], seq!['/']) == s);
    assert(split(s, '/') == seq![s]);
    assert(segment_ok(s)) by {
        assert forall|i: int| 0 <= i < s.len() implies name_char(#[trigger] s[i]) by {
            let c = s[i];
            assert(('a' <= c && c <= 'z') || ('A' <= c && c <= 'Z') || ('0' <= c && c <= '9') || c == '-' || c == '.' || c == '_');
        }
    }
}


/// A specifier without `/` that does not start with `@` names an npm
/// package exactly when it is not empty, does not start with `.` or `_`,
/// and is made of ASCII letters, digits, `-`, `.` and `_`; the package is
/// then the specifier itself.
pub proof fn lemma_single_segment_npm_name(s: Seq<char>)
    requires
        forall|i: int| 0 <= i < s.len() ==> #[trigger] s[i] != '/',
        !(s.len() > 0 && s[0] == '@'),
    ensures
        npm_name_spec(s) == if s.len() > 0 && s[0] != '.' && s[0] != '_' && forall|i: int| 0 <= i < s.len() ==> {
            let c = #[trigger] s[i];
            ('a' <= c && c <= 'z') || ('A' <= c && c <= 'Z') || ('0' <= c && c <= '9') || c == '-' || c == '.' || c == '_'
        } {
            Some(s)
        } else {
            None::<Seq<char>>
        },
{
    assert(!contains_char(s, '/')) by {
        if contains_char(s, '/') {
            let k = choose|k: int| 0 <= k < s.len() && s[k] == '/';
            assert(s[k] == '/');
        }
    }
    crate::text::lemma_split_join(seq![s], '/');
    assert(crate::text::join(seq![s], seq!['/']) == s);
    assert(split(s, '/') == seq![s]);
}

} // verus!
