//! What the repository itself provides, to tell a local import from a
//! package: its Python modules and packages, the names of its npm packages
//! (workspaces) and the dependencies each `package.json` declares.
use vstd::prelude::*;
use crate::discovery::under_spec;
use crate::order::{lex_le, lex_lt, lemma_lex_antisymmetric, lemma_lex_total, lemma_lex_transitive, seq_has, str_le};
use crate::strmap::StrMap;
use crate::text::{cat2, cat3, chars_of, concat_chars, has_char, slice_chars, str_eq, string_of, views, ends_with, opt_view};

verus! {

/// The index of the last `/` in `s`.
pub open spec fn last_slash(s: Seq<char>) -> Option<int>
    decreases s.len(),
{
    if s.len() == 0 {
        None
    } else if s.last() == '/' {
        Some(s.len() - 1)
    } else {
        last_slash(s.drop_last())
    }
}

/// Everything before the last `/`; the root `""` when there is none.
pub open spec fn parent_path(s: Seq<char>) -> Seq<char> {
    match last_slash(s) {
        Some(i) => s.take(i),
        None => Seq::empty(),
    }
}

/// Everything after the last `/`.
pub open spec fn last_segment(s: Seq<char>) -> Seq<char> {
    match last_slash(s) {
        Some(i) => s.skip(i + 1),
        None => s,
    }
}

/// The index of the first `c` in `s`.
pub open spec fn first_index(s: Seq<char>, c: char) -> Option<int>
    decreases s.len(),
{
    if s.len() == 0 {
        None
    } else {
        match first_index(s.drop_last(), c) {
            Some(i) => Some(i),
            None => if s.last() == c {
                Some(s.len() - 1)
            } else {
                None
            },
        }
    }
}

/// `name` in `directory`; the root is `""`.
pub open spec fn joined(directory: Seq<char>, name: Seq<char>) -> Seq<char> {
    if directory.len() == 0 {
        name
    } else {
        directory + seq!['/'] + name
    }
}

pub proof fn lemma_last_slash(s: Seq<char>)
    ensures
        match last_slash(s) {
            Some(i) => 0 <= i < s.len() && s[i] == '/' && forall|k: int| i < k < s.len() ==> s[k] != '/',
            None => forall|k: int| 0 <= k < s.len() ==> s[k] != '/',
        },
    decreases s.len(),
{
    if s.len() > 0 && s.last() != '/' {
        lemma_last_slash(s.drop_last());
        assert forall|k: int| 0 <= k < s.len() - 1 implies s.drop_last()[k] == s[k] by {}
    }
}

/// Below `dir`, the directories a walk up from it visits are `dir` and
/// those a walk up from its parent visits.
pub proof fn lemma_under_parent(dir: Seq<char>, d: Seq<char>)
    requires
        dir.len() > 0,
    ensures
        under_spec(dir, d) <==> (d == dir || under_spec(parent_path(dir), d)),
        parent_path(dir).len() < dir.len(),
{
    lemma_last_slash(dir);
    match last_slash(dir) {
        Some(i) => {
            let p = dir.take(i);
            if under_spec(dir, d) && d != dir && d.len() > 0 {
                assert(d.len() <= i) by {
                    if d.len() > i {
                        assert(dir[d.len() as int] == '/');
                    }
                }
                if d.len() < i {
                    assert(p.take(d.len() as int) =~= dir.take(d.len() as int));
                    assert(p[d.len() as int] == dir[d.len() as int]);
                } else {
                    assert(d =~= p);
                }
            }
            if under_spec(p, d) && d.len() > 0 {
                if d == p {
                    assert(dir.take(i) == d);
                } else {
                    assert(dir.take(d.len() as int) =~= p.take(d.len() as int));
                    assert(dir[d.len() as int] == p[d.len() as int]);
                }
            }
        },
        None => {
            if under_spec(dir, d) && d != dir && d.len() > 0 {
                assert(dir[d.len() as int] == '/');
            }
        },
    }
}

fn last_slash_exec(s: &[char]) -> (r: Option<usize>)
    ensures
        match r {
            Some(i) => last_slash(s@) == Some(i as int) && i < s@.len(),
            None => last_slash(s@) is None,
        },
{
    proof {
        lemma_take_all(s@);
        lemma_last_slash(s@);
    }
    let mut i = s.len();
    while i > 0
        invariant
            i <= s@.len(),
            last_slash(s@) == last_slash(s@.take(i as int)),
        decreases i,
    {
        proof {
            assert(s@.take(i as int).drop_last() =~= s@.take(i - 1));
        }
        if s[i - 1] == '/' {
            return Some(i - 1);
        }
        i = i - 1;
    }
    proof {
        assert(s@.take(0) =~= Seq::<char>::empty());
    }
    None
}

proof fn lemma_take_all(s: Seq<char>)
    ensures
        s.take(s.len() as int) == s,
{
    assert(s.take(s.len() as int) =~= s);
}

/// The directory of a path: everything before its last `/`.
pub fn parent(path: &str) -> (r: String)
    ensures
        r@ == parent_path(path@),
{
    let chars = chars_of(path);
    proof {
        lemma_take_all(path@);
    }
    match last_slash_exec(chars.as_slice()) {
        Some(i) => {
            let head = slice_chars(chars.as_slice(), 0, i);
            proof {
                assert(head@ =~= path@.take(i as int));
            }
            string_of(head.as_slice())
        },
        None => String::new(),
    }
}

pub fn last_segment_exec(path: &str) -> (r: String)
    ensures
        r@ == last_segment(path@),
{
    let chars = chars_of(path);
    let n = chars.len();
    match last_slash_exec(chars.as_slice()) {
        Some(i) => {
            let tail = slice_chars(chars.as_slice(), i + 1, n);
            proof {
                assert(tail@ =~= path@.skip(i + 1));
            }
            string_of(tail.as_slice())
        },
        None => String::from_str(path),
    }
}

/// `name` in `directory`.
pub fn join(directory: &str, name: &str) -> (r: String)
    ensures
        r@ == joined(directory@, name@),
{
    let dchars = chars_of(directory);
    if dchars.len() == 0 {
        String::from_str(name)
    } else {
        let r = cat3(directory, "/", name);
        proof {
            reveal_strlit("/");
            assert(r@ =~= directory@ + seq!['/'] + name@);
        }
        r
    }
}

/// The Python module or package names a file `path` puts in `directory`:
/// the module itself (unless it is a package's `__init__`), and every
/// directory above it as a (namespace) package of its parent.
pub open spec fn python_entry(path: Seq<char>, directory: Seq<char>, name: Seq<char>) -> bool {
    ||| (directory == parent_path(py_stem(path)) && name == last_segment(py_stem(path)) && name != "__init__"@)
    ||| exists|d: Seq<char>| d.len() > 0 && #[trigger] under_spec(parent_path(py_stem(path)), d) && directory == parent_path(d)
        && name == last_segment(d)
}

/// A path without its `.py`.
pub open spec fn py_stem(path: Seq<char>) -> Seq<char> {
    if ends_with(path, ".py"@) {
        path.take(path.len() - 3)
    } else {
        path
    }
}

/// The `@types` package that declares the types of `name`.
pub open spec fn types_package(name: Seq<char>) -> Seq<char> {
    if name.len() > 0 && name[0] == '@' {
        let scoped = name.drop_first();
        "@types/"@ + match first_index(scoped, '/') {
            Some(i) => scoped.take(i) + "__"@ + scoped.skip(i + 1),
            None => scoped,
        }
    } else {
        "@types/"@ + name
    }
}

/// What a `package.json` says: its package name and the dependencies it
/// declares.
pub struct Manifest {
    pub name: Option<String>,
    pub dependencies: Vec<String>,
}

pub struct Repository {
    /// Directory (`""` is the root) -> Python modules and packages directly
    /// in it.
    python: StrMap<Vec<String>>,
    /// Python module or package name -> the first directory holding it.
    python_anywhere: StrMap<String>,
    /// The `name` of every `package.json` in the repository.
    workspace: Vec<String>,
    /// Directory -> dependency names its `package.json` declares.
    manifests: StrMap<Vec<String>>,
    warnings: Vec<String>,
}

impl Repository {
    /// `directory` holds the Python module or package `name`.
    pub closed spec fn has_python(&self, directory: Seq<char>, name: Seq<char>) -> bool {
        self.python.lookup(directory) matches Some(v) && seq_has(views(v@), name)
    }

    /// The first directory, in path order, that holds `name`.
    pub open spec fn first_python(&self, name: Seq<char>, directory: Seq<char>) -> bool {
        self.has_python(directory, name) && forall|d: Seq<char>| #[trigger] self.has_python(d, name) ==> lex_le(directory, d)
    }

    pub closed spec fn anywhere(&self, name: Seq<char>) -> Option<Seq<char>> {
        match self.python_anywhere.lookup(name) {
            Some(d) => Some(d@),
            None => None,
        }
    }

    pub closed spec fn is_workspace(&self, name: Seq<char>) -> bool {
        seq_has(views(self.workspace@), name)
    }

    /// The `package.json` in `directory` declares `name`.
    pub closed spec fn declares(&self, directory: Seq<char>, name: Seq<char>) -> bool {
        self.manifests.lookup(directory) matches Some(v) && seq_has(views(v@), name)
    }

    /// The warnings of reading the manifests.
    pub closed spec fn warning_texts(&self) -> Seq<Seq<char>> {
        views(self.warnings@)
    }

    pub fn warnings(&self) -> (r: &Vec<String>)
        ensures
            views(r@) == self.warning_texts(),
    {
        &self.warnings
    }

    /// The index of first directories agrees with the modules.
    pub closed spec fn wf(&self) -> bool {
        forall|n: Seq<char>| match #[trigger] self.anywhere(n) {
            Some(d) => self.first_python(n, d),
            None => forall|d: Seq<char>| !self.has_python(d, n),
        }
    }

    pub fn new() -> (r: Repository)
        ensures
            r.wf(),
            forall|d: Seq<char>, n: Seq<char>| !#[trigger] r.has_python(d, n),
            forall|d: Seq<char>, n: Seq<char>| !#[trigger] r.declares(d, n),
            forall|n: Seq<char>| !#[trigger] r.is_workspace(n),
            r.warning_texts().len() == 0,
    {
        let r = Repository {
            python: StrMap::new(),
            python_anywhere: StrMap::new(),
            workspace: Vec::new(),
            manifests: StrMap::new(),
            warnings: Vec::new(),
        };
        proof {
            assert forall|n: Seq<char>| match #[trigger] r.anywhere(n) {
                Some(d) => r.first_python(n, d),
                None => forall|d: Seq<char>| !r.has_python(d, n),
            } by {
                assert(!seq_has(r.python_anywhere.keys(), n));
                assert forall|d: Seq<char>| !r.has_python(d, n) by {
                    assert(!seq_has(r.python.keys(), d));
                }
            }
        }
        r
    }

    /// Records that `directory` holds the Python module or package `name`.
    pub fn add_python_name(&mut self, directory: &str, name: &str)
        requires
            old(self).wf(),
        ensures
            final(self).wf(),
            forall|d: Seq<char>, n: Seq<char>| #[trigger] final(self).has_python(d, n) <==> (old(self).has_python(d, n)
                || (d == directory@ && n == name@)),
            forall|d: Seq<char>, n: Seq<char>| #[trigger] final(self).declares(d, n) == old(self).declares(d, n),
            forall|n: Seq<char>| #[trigger] final(self).is_workspace(n) == old(self).is_workspace(n),
            final(self).warning_texts() == old(self).warning_texts(),
    {
        let ghost before = *self;
        let mut names = match self.python.get(directory) {
            Some(v) => crate::text::copy_strings(v),
            None => Vec::new(),
        };
        let ghost old_names = views(names@);
        if !contains_text(&names, name) {
            names.push(String::from_str(name));
        }
        proof {
            assert forall|n: Seq<char>| seq_has(views(names@), n) <==> (seq_has(old_names, n) || n == name@) by {
                if seq_has(views(names@), n) && !seq_has(old_names, n) {
                    let k = choose|k: int| 0 <= k < views(names@).len() && views(names@)[k] == n;
                    if k < old_names.len() {
                        assert(old_names[k] == n);
                    }
                }
                if seq_has(old_names, n) {
                    let k = choose|k: int| 0 <= k < old_names.len() && old_names[k] == n;
                    assert(views(names@)[k] == n);
                }
                if n == name@ && !seq_has(old_names, n) {
                    assert(views(names@)[old_names.len() as int] == n);
                }
            }
        }
        self.python.insert(String::from_str(directory), names);
        let replace = match self.python_anywhere.get(name) {
            Some(first) => !str_le(first.as_str(), directory),
            None => true,
        };
        if replace {
            self.python_anywhere.insert(String::from_str(name), String::from_str(directory));
        }
        proof {
            assert forall|d: Seq<char>, n: Seq<char>| #[trigger] self.has_python(d, n) <==> (before.has_python(d, n)
                || (d == directory@ && n == name@)) by {
                if d != directory@ {
                    assert(self.python.lookup(d) == before.python.lookup(d));
                }
            }
            assert forall|n: Seq<char>| match #[trigger] self.anywhere(n) {
                Some(d) => self.first_python(n, d),
                None => forall|d: Seq<char>| !self.has_python(d, n),
            } by {
                if n != name@ {
                    assert(self.python_anywhere.lookup(n) == before.python_anywhere.lookup(n));
                    assert(self.anywhere(n) == before.anywhere(n));
                    match before.anywhere(n) {
                        Some(d) => {
                            assert(before.first_python(n, d));
                            assert forall|e: Seq<char>| #[trigger] self.has_python(e, n) implies lex_le(d, e) by {
                                assert(before.has_python(e, n));
                            }
                        },
                        None => {
                            assert forall|e: Seq<char>| !self.has_python(e, n) by {
                                assert(!before.has_python(e, n));
                            }
                        },
                    }
                } else {
                    match before.anywhere(n) {
                        Some(f) => {
                            assert(before.first_python(n, f));
                            lemma_lex_total(f, directory@);
                            if replace {
                                assert(self.anywhere(n) == Some(directory@));
                                assert(!lex_le(f, directory@));
                                assert forall|e: Seq<char>| #[trigger] self.has_python(e, n) implies lex_le(directory@, e) by {
                                    if e != directory@ {
                                        assert(before.has_python(e, n));
                                        assert(lex_le(f, e));
                                        lemma_lex_transitive(directory@, f, e);
                                    } else {
                                        crate::order::lemma_lex_reflexive(e);
                                    }
                                }
                                assert(self.has_python(directory@, n));
                            } else {
                                assert(self.anywhere(n) == Some(f));
                                assert(self.has_python(f, n));
                                assert forall|e: Seq<char>| #[trigger] self.has_python(e, n) implies lex_le(f, e) by {
                                    if e != directory@ {
                                        assert(before.has_python(e, n));
                                    }
                                }
                            }
                        },
                        None => {
                            assert(self.anywhere(n) == Some(directory@));
                            assert forall|e: Seq<char>| #[trigger] self.has_python(e, n) implies lex_le(directory@, e) by {
                                if e != directory@ {
                                    assert(before.has_python(e, n));
                                } else {
                                    crate::order::lemma_lex_reflexive(e);
                                }
                            }
                            assert(self.has_python(directory@, n));
                        },
                    }
                }
            }
        }
    }
}

/// Whether `names` holds `name`.
pub fn contains_text(names: &Vec<String>, name: &str) -> (r: bool)
    ensures
        r == seq_has(views(names@), name@),
{
    let mut i: usize = 0;
    while i < names.len()
        invariant
            i <= names@.len(),
            forall|k: int| 0 <= k < i ==> names@[k]@ != name@,
        decreases names@.len() - i,
    {
        if str_eq(names[i].as_str(), name) {
            proof {
                assert(views(names@)[i as int] == name@);
            }
            return true;
        }
        i = i + 1;
    }
    proof {
        if seq_has(views(names@), name@) {
            let k = choose|k: int| 0 <= k < views(names@).len() && views(names@)[k] == name@;
            assert(names@[k]@ == name@);
        }
    }
    false
}


/// `x` is a directory at or above `p0` that a walk up from `p0` has left
/// behind on reaching `cur`.
pub open spec fn climbed(p0: Seq<char>, cur: Seq<char>, x: Seq<char>) -> bool {
    x.len() > 0 && under_spec(p0, x) && !under_spec(cur, x)
}

pub proof fn lemma_climb_step(p0: Seq<char>, cur: Seq<char>, x: Seq<char>)
    requires
        cur.len() > 0,
        under_spec(p0, cur),
        forall|y: Seq<char>| under_spec(cur, y) ==> under_spec(p0, y),
    ensures
        climbed(p0, parent_path(cur), x) <==> (climbed(p0, cur, x) || x == cur),
        under_spec(parent_path(cur), x) ==> under_spec(p0, x),
{
    lemma_under_parent(cur, x);
    lemma_under_parent(cur, cur);
    if under_spec(parent_path(cur), cur) {
        assert(cur.len() <= parent_path(cur).len());
    }
}

pub proof fn lemma_under_root(x: Seq<char>)
    ensures
        under_spec(Seq::<char>::empty(), x) <==> x.len() == 0,
{
    if under_spec(Seq::<char>::empty(), x) && x.len() > 0 {
        assert(x != Seq::<char>::empty());
    }
}

pub proof fn lemma_under_self(x: Seq<char>)
    ensures
        under_spec(x, x),
{
}

impl Repository {
    fn holds_python(&self, directory: &str, name: &str) -> (r: bool)
        ensures
            r == self.has_python(directory@, name@),
    {
        match self.python.get(directory) {
            Some(v) => contains_text(v, name),
            None => false,
        }
    }

    fn holds_declared(&self, directory: &str, name: &str) -> (r: bool)
        ensures
            r == self.declares(directory@, name@),
    {
        match self.manifests.get(directory) {
            Some(v) => contains_text(v, name),
            None => false,
        }
    }

    /// Records the Python file `path`: its module, and each directory above it
    /// as a (namespace) package of its parent.
    pub fn add_python(&mut self, path: &str)
        requires
            old(self).wf(),
        ensures
            final(self).wf(),
            forall|d: Seq<char>, n: Seq<char>| #[trigger] final(self).has_python(d, n) <==> (old(self).has_python(d, n)
                || python_entry(path@, d, n)),
            forall|d: Seq<char>, n: Seq<char>| #[trigger] final(self).declares(d, n) == old(self).declares(d, n),
            forall|n: Seq<char>| #[trigger] final(self).is_workspace(n) == old(self).is_workspace(n),
            final(self).warning_texts() == old(self).warning_texts(),
    {
        let ghost before = *self;
        let chars = chars_of(path);
        let py = crate::text::has_suffix(chars.as_slice(), &['.', 'p', 'y']);
        let stem_chars = if py {
            slice_chars(chars.as_slice(), 0, chars.len() - 3)
        } else {
            chars
        };
        let stem = string_of(stem_chars.as_slice());
        let ghost st = py_stem(path@);
        proof {
            reveal_strlit(".py");
            assert(seq!['.', 'p', 'y'] =~= ".py"@);
            if py {
                assert(stem@ =~= st);
            }
            assert(stem@ == st);
        }
        let mut directory = parent(stem.as_str());
        let name = last_segment_exec(stem.as_str());
        let init = str_eq(name.as_str(), "__init__");
        if !init {
            self.add_python_name(directory.as_str(), name.as_str());
        }
        let ghost first_has = *self;
        let ghost p0 = parent_path(st);
        proof {
            assert(directory@ == p0);
        }
        while chars_of(directory.as_str()).len() > 0
            invariant
                self.wf(),
                p0 == parent_path(st),
                under_spec(p0, directory@),
                forall|y: Seq<char>| under_spec(directory@, y) ==> under_spec(p0, y),
                forall|d: Seq<char>, n: Seq<char>| #[trigger] self.has_python(d, n) <==> (first_has.has_python(d, n)
                    || exists|x: Seq<char>| #[trigger] climbed(p0, directory@, x) && d == parent_path(x) && n == last_segment(x)),
                forall|d: Seq<char>, n: Seq<char>| #[trigger] self.declares(d, n) == before.declares(d, n),
                forall|n: Seq<char>| #[trigger] self.is_workspace(n) == before.is_workspace(n),
                self.warning_texts() == before.warning_texts(),
            decreases directory@.len(),
        {
            let above = parent(directory.as_str());
            let n = last_segment_exec(directory.as_str());
            let ghost cur = directory@;
            let ghost mid = *self;
            self.add_python_name(above.as_str(), n.as_str());
            proof {
                lemma_under_parent(cur, cur);
                assert forall|y: Seq<char>| under_spec(above@, y) implies under_spec(p0, y) by {
                    lemma_climb_step(p0, cur, y);
                }
                assert forall|d: Seq<char>, m: Seq<char>| #[trigger] self.has_python(d, m) <==> (first_has.has_python(d, m)
                    || exists|x: Seq<char>| #[trigger] climbed(p0, above@, x) && d == parent_path(x) && m == last_segment(x)) by {
                    if exists|x: Seq<char>| #[trigger] climbed(p0, cur, x) && d == parent_path(x) && m == last_segment(x) {
                        let x = choose|x: Seq<char>| #[trigger] climbed(p0, cur, x) && d == parent_path(x) && m == last_segment(x);
                        lemma_climb_step(p0, cur, x);
                    }
                    if exists|x: Seq<char>| #[trigger] climbed(p0, above@, x) && d == parent_path(x) && m == last_segment(x) {
                        let x = choose|x: Seq<char>| #[trigger] climbed(p0, above@, x) && d == parent_path(x) && m == last_segment(x);
                        lemma_climb_step(p0, cur, x);
                    }
                    if d == above@ && m == n@ {
                        lemma_climb_step(p0, cur, cur);
                        assert(climbed(p0, above@, cur));
                    }
                }
            }
            directory = above;
        }
        proof {
            reveal_strlit("__init__");
            assert(init <==> name@ == "__init__"@);
            assert(name@ == last_segment(st));
            assert forall|d: Seq<char>, n: Seq<char>| #[trigger] self.has_python(d, n) <==> (before.has_python(d, n)
                || python_entry(path@, d, n)) by {
                if exists|x: Seq<char>| #[trigger] climbed(p0, directory@, x) && d == parent_path(x) && n == last_segment(x) {
                    let x = choose|x: Seq<char>| #[trigger] climbed(p0, directory@, x) && d == parent_path(x) && n == last_segment(x);
                    assert(under_spec(parent_path(st), x));
                    assert(python_entry(path@, d, n));
                }
                if exists|x: Seq<char>| x.len() > 0 && #[trigger] under_spec(parent_path(st), x) && d == parent_path(x) && n == last_segment(x) {
                    let x = choose|x: Seq<char>| x.len() > 0 && #[trigger] under_spec(parent_path(st), x) && d == parent_path(x) && n == last_segment(x);
                    lemma_under_root(x);
                    assert(directory@ =~= Seq::<char>::empty());
                    assert(climbed(p0, directory@, x));
                    assert(self.has_python(d, n));
                }
                if d == parent_path(st) && n == last_segment(st) && n != "__init__"@ {
                    assert(first_has.has_python(d, n));
                }
                if python_entry(path@, d, n) {
                    if d == parent_path(st) && n == last_segment(st) && n != "__init__"@ {
                    } else {
                        assert(exists|x: Seq<char>| x.len() > 0 && #[trigger] under_spec(parent_path(st), x) && d == parent_path(x) && n == last_segment(x));
                    }
                }
            }
        }
    }

    /// Whether the Python module `name` sits beside `file`, in a directory
    /// above it or in a `src/` directory above it: the import roots a test
    /// runner or a script started from those directories uses.
    pub fn python_reachable(&self, file: &str, name: &str) -> (r: bool)
        ensures
            r == exists|x: Seq<char>| #[trigger] under_spec(parent_path(file@), x)
                && (self.has_python(x, name@) || self.has_python(joined(x, "src"@), name@)),
    {
        let ghost p0 = parent_path(file@);
        let mut directory = parent(file);
        proof {
            lemma_under_self(p0);
        }
        loop
            invariant
                under_spec(p0, directory@),
                p0 == parent_path(file@),
                forall|y: Seq<char>| under_spec(directory@, y) ==> under_spec(p0, y),
                forall|x: Seq<char>| #[trigger] climbed(p0, directory@, x) ==> !(self.has_python(x, name@) || self.has_python(joined(x, "src"@), name@)),
            decreases directory@.len(),
        {
            let src = join(directory.as_str(), "src");
            if self.holds_python(directory.as_str(), name) || self.holds_python(src.as_str(), name) {
                return true;
            }
            if chars_of(directory.as_str()).len() == 0 {
                proof {
                    assert forall|x: Seq<char>| #[trigger] under_spec(p0, x) implies !(self.has_python(x, name@) || self.has_python(joined(x, "src"@), name@)) by {
                        if x.len() > 0 {
                            lemma_under_root(x);
                            assert(directory@ =~= Seq::<char>::empty());
                            assert(climbed(p0, directory@, x));
                        } else {
                            assert(directory@ =~= x);
                        }
                    }
                }
                return false;
            }
            let ghost cur = directory@;
            let above = parent(directory.as_str());
            proof {
                lemma_under_parent(cur, cur);
                assert forall|y: Seq<char>| under_spec(above@, y) implies under_spec(p0, y) by {
                    lemma_climb_step(p0, cur, y);
                }
                assert forall|x: Seq<char>| #[trigger] climbed(p0, above@, x) implies !(self.has_python(x, name@) || self.has_python(joined(x, "src"@), name@)) by {
                    lemma_climb_step(p0, cur, x);
                }
            }
            directory = above;
        }
    }

    /// A directory elsewhere in the repository holding a Python module or
    /// package `name`: the first in path order.
    pub fn python_elsewhere(&self, name: &str) -> (r: Option<&str>)
        requires
            self.wf(),
        ensures
            match r {
                Some(d) => self.first_python(name@, d@),
                None => forall|d: Seq<char>| !self.has_python(d, name@),
            },
    {
        proof {
            assert(match self.anywhere(name@) {
                Some(d) => self.first_python(name@, d),
                None => forall|d: Seq<char>| !self.has_python(d, name@),
            });
        }
        match self.python_anywhere.get(name) {
            Some(d) => Some(d.as_str()),
            None => None,
        }
    }

    /// Whether a `package.json` of the repository is named `name`.
    pub fn workspace_package(&self, name: &str) -> (r: bool)
        ensures
            r == self.is_workspace(name@),
    {
        contains_text(&self.workspace, name)
    }

    /// Whether a `package.json` beside `file` or above it declares `name`, or
    /// its type declarations `@types/name`.
    pub fn declared(&self, file: &str, name: &str) -> (r: bool)
        ensures
            r == exists|x: Seq<char>| #[trigger] under_spec(parent_path(file@), x)
                && (self.declares(x, name@) || self.declares(x, types_package(name@))),
    {
        let types = types_of(name);
        let ghost p0 = parent_path(file@);
        let mut directory = parent(file);
        proof {
            lemma_under_self(p0);
        }
        loop
            invariant
                under_spec(p0, directory@),
                p0 == parent_path(file@),
                types@ == types_package(name@),
                forall|y: Seq<char>| under_spec(directory@, y) ==> under_spec(p0, y),
                forall|x: Seq<char>| #[trigger] climbed(p0, directory@, x) ==> !(self.declares(x, name@) || self.declares(x, types@)),
            decreases directory@.len(),
        {
            if self.holds_declared(directory.as_str(), name) || self.holds_declared(directory.as_str(), types.as_str()) {
                return true;
            }
            if chars_of(directory.as_str()).len() == 0 {
                proof {
                    assert forall|x: Seq<char>| #[trigger] under_spec(p0, x) implies !(self.declares(x, name@) || self.declares(x, types@)) by {
                        if x.len() > 0 {
                            lemma_under_root(x);
                            assert(directory@ =~= Seq::<char>::empty());
                            assert(climbed(p0, directory@, x));
                        } else {
                            assert(directory@ =~= x);
                        }
                    }
                }
                return false;
            }
            let ghost cur = directory@;
            let above = parent(directory.as_str());
            proof {
                lemma_under_parent(cur, cur);
                assert forall|y: Seq<char>| under_spec(above@, y) implies under_spec(p0, y) by {
                    lemma_climb_step(p0, cur, y);
                }
                assert forall|x: Seq<char>| #[trigger] climbed(p0, above@, x) implies !(self.declares(x, name@) || self.declares(x, types@)) by {
                    lemma_climb_step(p0, cur, x);
                }
            }
            directory = above;
        }
    }
}

pub fn first_index_of(s: &[char], c: char) -> (r: Option<usize>)
    ensures
        match r {
            Some(i) => first_index(s@, c) == Some(i as int) && i < s@.len(),
            None => first_index(s@, c) is None,
        },
{
    let mut i: usize = 0;
    proof {
        assert(s@.take(0) =~= Seq::<char>::empty());
    }
    while i < s.len()
        invariant
            i <= s@.len(),
            first_index(s@.take(i as int), c) is None,
        decreases s@.len() - i,
    {
        proof {
            assert(s@.take(i + 1).drop_last() =~= s@.take(i as int));
        }
        if s[i] == c {
            proof {
                assert(first_index(s@.take(i + 1), c) == Some(i as int));
                lemma_first_index_prefix(s@, c, i + 1);
            }
            return Some(i);
        }
        i = i + 1;
    }
    proof {
        lemma_take_all(s@);
    }
    None
}

proof fn lemma_first_index_prefix(s: Seq<char>, c: char, n: int)
    requires
        0 <= n <= s.len(),
        first_index(s.take(n), c) is Some,
    ensures
        first_index(s, c) == first_index(s.take(n), c),
    decreases s.len() - n,
{
    if n < s.len() {
        assert(s.take(n + 1).drop_last() =~= s.take(n));
        lemma_first_index_prefix(s, c, n + 1);
    } else {
        lemma_take_all(s);
    }
}

/// The `@types` package of `name`.
fn types_of(name: &str) -> (r: String)
    ensures
        r@ == types_package(name@),
{
    let chars = chars_of(name);
    let n = chars.len();
    if n > 0 && chars[0] == '@' {
        let scoped = slice_chars(chars.as_slice(), 1, n);
        proof {
            assert(scoped@ =~= name@.drop_first());
        }
        let m = scoped.len();
        let rest = match first_index_of(scoped.as_slice(), '/') {
            Some(i) => {
                let head = slice_chars(scoped.as_slice(), 0, i);
                let tail = slice_chars(scoped.as_slice(), i + 1, m);
                let joined = concat_chars(head.as_slice(), &['_', '_']);
                let all = concat_chars(joined.as_slice(), tail.as_slice());
                proof {
                    reveal_strlit("__");
                    assert(all@ =~= scoped@.take(i as int) + "__"@ + scoped@.skip(i + 1));
                }
                all
            },
            None => scoped,
        };
        let text = string_of(rest.as_slice());
        cat2("@types/", text.as_str())
    } else {
        cat2("@types/", name)
    }
}


/// Why serde_json refuses `bytes` as JSON, or `None` when it reads them.
pub uninterp spec fn json_error(bytes: Seq<u8>) -> Option<Seq<char>>;

/// The string under `key` of the JSON object `bytes` hold.
pub uninterp spec fn json_text_field(bytes: Seq<u8>, key: Seq<char>) -> Option<Seq<char>>;

/// The keys of the object under `key` of the JSON object `bytes` hold, in
/// the order serde_json's map keeps them.
pub uninterp spec fn json_object_keys(bytes: Seq<u8>, key: Seq<char>) -> Option<Seq<Seq<char>>>;

/// `serde_json::from_slice::<Value>`: its error's text, or `None` when the
/// bytes are JSON.
#[verifier::external_body]
fn json_failure(bytes: &[u8]) -> (r: Option<String>)
    ensures
        opt_view(r) == json_error(bytes@),
{
    serde_json::from_slice::<serde_json::Value>(bytes).err().map(|error| error.to_string())
}

/// `Value::get(key)` and `Value::as_str` on the parsed bytes.
#[verifier::external_body]
fn json_text(bytes: &[u8], key: &str) -> (r: Option<String>)
    ensures
        opt_view(r) == json_text_field(bytes@, key@),
{
    let value = serde_json::from_slice::<serde_json::Value>(bytes).ok()?;
    value.get(key).and_then(|field| field.as_str()).map(|text| text.to_owned())
}

/// `Value::get(key)`, `Value::as_object` and the object's keys on the
/// parsed bytes.
#[verifier::external_body]
fn json_keys(bytes: &[u8], key: &str) -> (r: Option<Vec<String>>)
    ensures
        match r {
            Some(v) => json_object_keys(bytes@, key@) == Some(views(v@)),
            None => json_object_keys(bytes@, key@) is None,
        },
{
    let value = serde_json::from_slice::<serde_json::Value>(bytes).ok()?;
    value.get(key).and_then(|field| field.as_object()).map(|object| object.keys().cloned().collect())
}

pub open spec fn keys_or_none(k: Option<Seq<Seq<char>>>) -> Seq<Seq<char>> {
    match k {
        Some(v) => v,
        None => Seq::empty(),
    }
}

/// The dependencies a `package.json` declares, in all four fields.
pub open spec fn manifest_dependencies(bytes: Seq<u8>) -> Seq<Seq<char>> {
    keys_or_none(json_object_keys(bytes, "dependencies"@)) + keys_or_none(json_object_keys(bytes, "devDependencies"@))
        + keys_or_none(json_object_keys(bytes, "peerDependencies"@)) + keys_or_none(json_object_keys(bytes, "optionalDependencies"@))
}

fn keys_of(bytes: &[u8], key: &str) -> (r: Vec<String>)
    ensures
        views(r@) == keys_or_none(json_object_keys(bytes@, key@)),
{
    match json_keys(bytes, key) {
        Some(v) => v,
        None => Vec::new(),
    }
}

/// What a `package.json` says, or why it is not JSON.
pub fn read_manifest(bytes: &[u8]) -> (r: Result<Manifest, String>)
    ensures
        match r {
            Ok(m) => json_error(bytes@) is None && opt_view(m.name) == json_text_field(bytes@, "name"@)
                && views(m.dependencies@) == manifest_dependencies(bytes@),
            Err(e) => json_error(bytes@) == Some(e@),
        },
{
    if let Some(e) = json_failure(bytes) {
        return Err(e);
    }
    let name = json_text(bytes, "name");
    let mut dependencies = keys_of(bytes, "dependencies");
    let mut dev = keys_of(bytes, "devDependencies");
    let mut peer = keys_of(bytes, "peerDependencies");
    let mut optional = keys_of(bytes, "optionalDependencies");
    let ghost (a, b, c, d) = (views(dependencies@), views(dev@), views(peer@), views(optional@));
    dependencies.append(&mut dev);
    dependencies.append(&mut peer);
    dependencies.append(&mut optional);
    proof {
        assert(views(dependencies@) =~= a + b + c + d);
    }
    Ok(Manifest { name, dependencies })
}

pub open spec fn manifest_warning(path: Seq<char>, error: Seq<char>) -> Seq<char> {
    "cannot read "@ + path + " ("@ + error + "); imports below it are not known to be packages and are reported as ambiguous"@
}

impl Repository {
    /// Records the `package.json` at `path`: its name as a workspace package
    /// and its dependencies as declared in its directory; one that could not
    /// be read becomes a warning.
    pub fn add_manifest(&mut self, path: &str, read: Result<Manifest, String>)
        requires
            old(self).wf(),
        ensures
            final(self).wf(),
            forall|d: Seq<char>, n: Seq<char>| #[trigger] final(self).has_python(d, n) == old(self).has_python(d, n),
            match read {
                Ok(m) => {
                    &&& forall|n: Seq<char>| #[trigger] final(self).is_workspace(n) <==> (old(self).is_workspace(n)
                        || opt_view(m.name) == Some(n))
                    &&& forall|d: Seq<char>, n: Seq<char>| #[trigger] final(self).declares(d, n) <==> (old(self).declares(d, n)
                        || (d == parent_path(path@) && seq_has(views(m.dependencies@), n)))
                    &&& final(self).warning_texts() == old(self).warning_texts()
                },
                Err(e) => {
                    &&& forall|n: Seq<char>| #[trigger] final(self).is_workspace(n) == old(self).is_workspace(n)
                    &&& forall|d: Seq<char>, n: Seq<char>| #[trigger] final(self).declares(d, n) == old(self).declares(d, n)
                    &&& final(self).warning_texts() == old(self).warning_texts().push(manifest_warning(path@, e@))
                },
            },
    {
        let ghost before = *self;
        match read {
            Err(e) => {
                let head = cat3("cannot read ", path, " (");
                let w = cat3(head.as_str(), e.as_str(), "); imports below it are not known to be packages and are reported as ambiguous");
                self.warnings.push(w);
                proof {
                    assert(views(self.warnings@) =~= views(before.warnings@).push(manifest_warning(path@, e@)));
                }
            },
            Ok(m) => {
                let ghost mv = views(m.dependencies@);
                match &m.name {
                    Some(n) => {
                        self.workspace.push(n.clone());
                        proof {
                            assert forall|x: Seq<char>| #[trigger] self.is_workspace(x) <==> (before.is_workspace(x) || n@ == x) by {
                                let w = views(self.workspace@);
                                let w0 = views(before.workspace@);
                                assert(w =~= w0.push(n@));
                                if seq_has(w, x) && !seq_has(w0, x) {
                                    let k = choose|k: int| 0 <= k < w.len() && w[k] == x;
                                    if k < w0.len() {
                                        assert(w0[k] == x);
                                    }
                                }
                                if seq_has(w0, x) {
                                    let k = choose|k: int| 0 <= k < w0.len() && w0[k] == x;
                                    assert(w[k] == x);
                                }
                                if n@ == x {
                                    assert(w[w0.len() as int] == x);
                                }
                            }
                        }
                    },
                    None => {},
                }
                let ghost after_ws = *self;
                let directory = parent(path);
                let mut declared = match self.manifests.get(directory.as_str()) {
                    Some(v) => crate::text::copy_strings(v),
                    None => Vec::new(),
                };
                let ghost d0 = views(declared@);
                let mut added = crate::text::copy_strings(&m.dependencies);
                declared.append(&mut added);
                let ghost mid = *self;
                self.manifests.insert(directory, declared);
                proof {
                    assert(views(declared@) =~= d0 + mv);
                    assert forall|d: Seq<char>, n: Seq<char>| #[trigger] self.declares(d, n) <==> (before.declares(d, n)
                        || (d == parent_path(path@) && seq_has(mv, n))) by {
                        if d != parent_path(path@) {
                            assert(self.manifests.lookup(d) == before.manifests.lookup(d));
                        } else {
                            let all = d0 + mv;
                            if seq_has(all, n) {
                                let k = choose|k: int| 0 <= k < all.len() && all[k] == n;
                                if k < d0.len() {
                                    assert(d0[k] == n);
                                } else {
                                    assert(mv[k - d0.len()] == n);
                                }
                            }
                            if seq_has(d0, n) {
                                let k = choose|k: int| 0 <= k < d0.len() && d0[k] == n;
                                assert(all[k] == n);
                            }
                            if seq_has(mv, n) {
                                let k = choose|k: int| 0 <= k < mv.len() && mv[k] == n;
                                assert(all[k + d0.len()] == n);
                            }
                        }
                    }
                    assert forall|n: Seq<char>| #[trigger] self.is_workspace(n) == after_ws.is_workspace(n) by {}
                    assert(forall|n: Seq<char>| #[trigger] self.is_workspace(n) <==> (before.is_workspace(n)
                        || opt_view(m.name) == Some(n)));
                    assert(self.warning_texts() == before.warning_texts());
                }
            },
        }
        proof {
            assert forall|d: Seq<char>, n: Seq<char>| #[trigger] self.has_python(d, n) == before.has_python(d, n) by {}
            assert forall|n: Seq<char>| #[trigger] self.anywhere(n) == before.anywhere(n) by {}
        }
    }
}

} // verus!
