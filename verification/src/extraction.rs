//! Imported packages: from the imports parsers found in each file, the
//! `IMPORTS` edges from files to packages and the report of packages,
//! ambiguous imports and dynamic imports of computed modules.

use vstd::prelude::*;
use crate::evidence::{lemma_text_order, lemma_text_order_trans, order_of_text, text_order};
use crate::compiler::CodeEdge;
use crate::packages::{classify_python, classify_script, python_class, script_class, Class, Ecosystem, Facts, Import};
use crate::paths::{below_root, nonempty_path, normalized, provider_path, string_result, PathError};
use crate::provider::{is_python, is_script, script_path};
use crate::repository::Repository;
use crate::text::{cat3, cat4, chars_of, copy_opt, copy_strings, ends_with, opt_view, split, str_eq, string_of, views};

verus! {

/// How a record is ordered: two texts, a number, two texts, a number, each
/// compared in turn.
pub open spec fn rec_order(
    a: (Seq<char>, Seq<char>, int, Seq<char>, Seq<char>, int),
    b: (Seq<char>, Seq<char>, int, Seq<char>, Seq<char>, int),
) -> int {
    if text_order(a.0, b.0) != 0 {
        text_order(a.0, b.0)
    } else if text_order(a.1, b.1) != 0 {
        text_order(a.1, b.1)
    } else if a.2 != b.2 {
        if a.2 < b.2 { -1 } else { 1 }
    } else if text_order(a.3, b.3) != 0 {
        text_order(a.3, b.3)
    } else if text_order(a.4, b.4) != 0 {
        text_order(a.4, b.4)
    } else if a.5 != b.5 {
        if a.5 < b.5 { -1 } else { 1 }
    } else {
        0
    }
}

pub proof fn lemma_rec_order(
    a: (Seq<char>, Seq<char>, int, Seq<char>, Seq<char>, int),
    b: (Seq<char>, Seq<char>, int, Seq<char>, Seq<char>, int),
)
    ensures
        rec_order(a, b) == -rec_order(b, a),
        rec_order(a, b) == 0 <==> a == b,
{
    lemma_text_order(a.0, b.0);
    lemma_text_order(a.1, b.1);
    lemma_text_order(a.3, b.3);
    lemma_text_order(a.4, b.4);
}

pub proof fn lemma_rec_order_trans(
    a: (Seq<char>, Seq<char>, int, Seq<char>, Seq<char>, int),
    b: (Seq<char>, Seq<char>, int, Seq<char>, Seq<char>, int),
    c: (Seq<char>, Seq<char>, int, Seq<char>, Seq<char>, int),
)
    requires
        rec_order(a, b) <= 0,
        rec_order(b, c) <= 0,
    ensures
        rec_order(a, c) <= 0,
        (rec_order(a, b) < 0 || rec_order(b, c) < 0) ==> rec_order(a, c) < 0,
{
    lemma_rec_order(a, b);
    lemma_rec_order(b, c);
    lemma_rec_order(a, c);
    lemma_text_order(a.0, b.0);
    lemma_text_order(b.0, c.0);
    lemma_text_order(a.1, b.1);
    lemma_text_order(b.1, c.1);
    lemma_text_order(a.3, b.3);
    lemma_text_order(b.3, c.3);
    lemma_text_order(a.4, b.4);
    lemma_text_order(b.4, c.4);
    if text_order(a.0, b.0) <= 0 && text_order(b.0, c.0) <= 0 {
        lemma_text_order_trans(a.0, b.0, c.0);
    }
    if text_order(a.1, b.1) <= 0 && text_order(b.1, c.1) <= 0 {
        lemma_text_order_trans(a.1, b.1, c.1);
    }
    if text_order(a.3, b.3) <= 0 && text_order(b.3, c.3) <= 0 {
        lemma_text_order_trans(a.3, b.3, c.3);
    }
    if text_order(a.4, b.4) <= 0 && text_order(b.4, c.4) <= 0 {
        lemma_text_order_trans(a.4, b.4, c.4);
    }
}

/// A value ordered by a record key.
pub trait Keyed {
    spec fn rkey(&self) -> (Seq<char>, Seq<char>, int, Seq<char>, Seq<char>, int);

    fn order_with(&self, other: &Self) -> (r: i8)
        ensures
            r as int == rec_order(self.rkey(), other.rkey()),
    ;
}

/// The order of two records, from their parts.
pub fn rec_order_exec(
    a0: &str, a1: &str, a2: usize, a3: &str, a4: &str, a5: bool,
    b0: &str, b1: &str, b2: usize, b3: &str, b4: &str, b5: bool,
) -> (r: i8)
    ensures
        r as int == rec_order(
            (a0@, a1@, a2 as int, a3@, a4@, if a5 { 1int } else { 0int }),
            (b0@, b1@, b2 as int, b3@, b4@, if b5 { 1int } else { 0int }),
        ),
{
    let c = order_of_text(a0, b0);
    if c != 0 {
        return c;
    }
    let c = order_of_text(a1, b1);
    if c != 0 {
        return c;
    }
    if a2 != b2 {
        return if a2 < b2 { -1 } else { 1 };
    }
    let c = order_of_text(a3, b3);
    if c != 0 {
        return c;
    }
    let c = order_of_text(a4, b4);
    if c != 0 {
        return c;
    }
    if a5 != b5 {
        return if !a5 { -1 } else { 1 };
    }
    0
}

pub open spec fn has_rkey<T: Keyed>(s: Seq<T>, k: (Seq<char>, Seq<char>, int, Seq<char>, Seq<char>, int)) -> bool {
    exists|i: int| 0 <= i < s.len() && (#[trigger] s[i]).rkey() == k
}

/// Ascending keys without repeats.
pub open spec fn strictly_keyed<T: Keyed>(s: Seq<T>) -> bool {
    forall|i: int, j: int| 0 <= i < j < s.len() ==> rec_order((#[trigger] s[i]).rkey(), (#[trigger] s[j]).rkey()) < 0
}

/// Ascending keys.
pub open spec fn keyed_sorted<T: Keyed>(s: Seq<T>) -> bool {
    forall|i: int, j: int| 0 <= i < j < s.len() ==> rec_order((#[trigger] s[i]).rkey(), (#[trigger] s[j]).rkey()) <= 0
}

pub open spec fn rkeys<T: Keyed>(s: Seq<T>) -> Seq<(Seq<char>, Seq<char>, int, Seq<char>, Seq<char>, int)> {
    s.map_values(|x: T| x.rkey())
}

/// Where `x` goes in an ascending list: after every item not above it.
fn insertion_point<T: Keyed>(v: &Vec<T>, x: &T) -> (r: usize)
    requires
        keyed_sorted(v@),
    ensures
        r <= v@.len(),
        forall|i: int| 0 <= i < r ==> rec_order((#[trigger] v@[i]).rkey(), x.rkey()) <= 0,
        forall|i: int| r <= i < v@.len() ==> rec_order((#[trigger] v@[i]).rkey(), x.rkey()) > 0,
{
    let mut i: usize = v.len();
    while i > 0
        invariant
            i <= v@.len(),
            keyed_sorted(v@),
            forall|k: int| i <= k < v@.len() ==> rec_order((#[trigger] v@[k]).rkey(), x.rkey()) > 0,
        decreases i,
    {
        if v[i - 1].order_with(x) <= 0 {
            proof {
                assert forall|k: int| 0 <= k < i implies rec_order((#[trigger] v@[k]).rkey(), x.rkey()) <= 0 by {
                    if k < i - 1 {
                        lemma_rec_order_trans(v@[k].rkey(), v@[i - 1].rkey(), x.rkey());
                    }
                }
            }
            return i;
        }
        i = i - 1;
    }
    i
}

/// Puts `x` among the items in order, after those with the same key.
pub fn insert_keyed<T: Keyed>(v: &mut Vec<T>, x: T)
    requires
        keyed_sorted(old(v)@),
    ensures
        keyed_sorted(final(v)@),
        final(v)@.to_multiset() == old(v)@.to_multiset().insert(x),
        rkeys(final(v)@).to_multiset() == rkeys(old(v)@).to_multiset().insert(x.rkey()),
{
    broadcast use vstd::seq_lib::group_to_multiset_ensures;

    let pos = insertion_point(v, &x);
    let ghost o = v@;
    let ghost xk = x.rkey();
    v.insert(pos, x);
    proof {
        let n = v@;
        assert(n == o.insert(pos as int, x));
        assert forall|i: int, j: int| 0 <= i < j < n.len() implies rec_order((#[trigger] n[i]).rkey(), (#[trigger] n[j]).rkey()) <= 0 by {
            if j < pos {
                assert(n[i] == o[i] && n[j] == o[j]);
            } else if j == pos {
                assert(n[i] == o[i]);
            } else if i < pos {
                assert(n[i] == o[i] && n[j] == o[j - 1]);
                lemma_rec_order(o[j - 1].rkey(), xk);
                lemma_rec_order_trans(o[i].rkey(), xk, o[j - 1].rkey());
            } else if i == pos {
                assert(n[j] == o[j - 1]);
                lemma_rec_order(o[j - 1].rkey(), xk);
            } else {
                assert(n[i] == o[i - 1] && n[j] == o[j - 1]);
            }
        }
        vstd::seq_lib::to_multiset_insert(o, pos as int, x);
        assert(rkeys(n) =~= rkeys(o).insert(pos as int, xk));
        vstd::seq_lib::to_multiset_insert(rkeys(o), pos as int, xk);
    }
}

/// Adds `x` to an ascending list without repeated keys, unless an item has
/// its key already.
pub fn insert_new<T: Keyed>(v: &mut Vec<T>, x: T)
    requires
        strictly_keyed(old(v)@),
    ensures
        strictly_keyed(final(v)@),
        forall|k: (Seq<char>, Seq<char>, int, Seq<char>, Seq<char>, int)| #[trigger] has_rkey(final(v)@, k) <==> (has_rkey(old(v)@, k) || k == x.rkey()),
        forall|i: int| 0 <= i < final(v)@.len() ==> (#[trigger] final(v)@[i]) == x || exists|j: int| 0 <= j < old(v)@.len() && old(v)@[j] == final(v)@[i],
{
    let pos = insertion_point(v, &x);
    let ghost o = v@;
    let ghost xk = x.rkey();
    if pos > 0 && v[pos - 1].order_with(&x) == 0 {
        proof {
            lemma_rec_order(o[pos - 1].rkey(), xk);
            assert(has_rkey(o, xk));
        }
        return;
    }
    proof {
        if pos > 0 {
            lemma_rec_order(o[pos - 1].rkey(), xk);
        }
    }
    v.insert(pos, x);
    proof {
        let n = v@;
        assert(n == o.insert(pos as int, x));
        assert forall|i: int, j: int| 0 <= i < j < n.len() implies rec_order((#[trigger] n[i]).rkey(), (#[trigger] n[j]).rkey()) < 0 by {
            if j < pos {
                assert(n[i] == o[i] && n[j] == o[j]);
            } else if j == pos {
                assert(n[i] == o[i]);
                if i < pos - 1 {
                    lemma_rec_order_trans(o[i].rkey(), o[pos - 1].rkey(), xk);
                }
            } else if i < pos {
                assert(n[i] == o[i] && n[j] == o[j - 1]);
                lemma_rec_order(o[j - 1].rkey(), xk);
                lemma_rec_order_trans(o[i].rkey(), xk, o[j - 1].rkey());
            } else if i == pos {
                assert(n[j] == o[j - 1]);
                lemma_rec_order(o[j - 1].rkey(), xk);
            } else {
                assert(n[i] == o[i - 1] && n[j] == o[j - 1]);
            }
        }
        assert forall|k: (Seq<char>, Seq<char>, int, Seq<char>, Seq<char>, int)| #[trigger] has_rkey(n, k) <==> (has_rkey(o, k) || k == xk) by {
            if has_rkey(n, k) {
                let i = choose|i: int| 0 <= i < n.len() && (#[trigger] n[i]).rkey() == k;
                if i < pos {
                    assert(n[i] == o[i]);
                } else if i > pos {
                    assert(n[i] == o[i - 1]);
                }
            }
            if has_rkey(o, k) {
                let i = choose|i: int| 0 <= i < o.len() && (#[trigger] o[i]).rkey() == k;
                if i < pos {
                    assert(n[i] == o[i]);
                } else {
                    assert(n[i + 1] == o[i]);
                }
            }
            if k == xk {
                assert(n[pos as int] == x);
            }
        }
        assert forall|i: int| 0 <= i < n.len() implies (#[trigger] n[i]) == x || exists|j: int| 0 <= j < o.len() && o[j] == n[i] by {
            if i < pos {
                assert(n[i] == o[i]);
            } else if i > pos {
                assert(n[i] == o[i - 1]);
            }
        }
    }
}


pub open spec fn flag(b: bool) -> int {
    if b { 1 } else { 0 }
}

/// The reason of an edge to a package a file imports for its types only.
pub open spec fn type_reason() -> Seq<char> {
    "package-type-import"@
}

/// The reason of an edge to a package a file imports.
pub open spec fn plain_reason() -> Seq<char> {
    "package-import"@
}

/// The bits of the `f64` 1.0, the confidence of a package edge.
pub const ONE_BITS: u64 = 0x3ff0_0000_0000_0000;

/// How an ecosystem is written in a package ID.
pub open spec fn ecosystem_text(e: Ecosystem) -> Seq<char> {
    match e {
        Ecosystem::Python => "python"@,
        Ecosystem::Npm => "npm"@,
    }
}

/// The pseudo-path of a package: `package:<ecosystem>/<name>`.
pub open spec fn package_id(e: Ecosystem, name: Seq<char>) -> Seq<char> {
    "package:"@ + ecosystem_text(e) + "/"@ + name
}

pub fn package_id_text(e: Ecosystem, name: &str) -> (r: String)
    ensures
        r@ == package_id(e, name@),
{
    match e {
        Ecosystem::Python => cat4("package:", "python", "/", name),
        Ecosystem::Npm => cat4("package:", "npm", "/", name),
    }
}

impl Keyed for CodeEdge {
    open spec fn rkey(&self) -> (Seq<char>, Seq<char>, int, Seq<char>, Seq<char>, int) {
        (self.from_file@, self.to_file@, 0, Seq::empty(), Seq::empty(), flag(self.reason matches Some(r) && r@ == type_reason()))
    }

    fn order_with(&self, other: &Self) -> (r: i8) {
        let a = match &self.reason {
            Some(r) => str_eq(r.as_str(), "package-type-import"),
            None => false,
        };
        let b = match &other.reason {
            Some(r) => str_eq(r.as_str(), "package-type-import"),
            None => false,
        };
        rec_order_exec(self.from_file.as_str(), self.to_file.as_str(), 0, "", "", a, other.from_file.as_str(), other.to_file.as_str(), 0, "", "", b)
    }
}

/// Where one file imports a package.
pub struct PackageImport {
    pub file: String,
    pub line: usize,
    pub specifier: String,
    pub type_only: bool,
    /// The node owning the file; the compiler assigns it.
    pub node: Option<String>,
}

impl Keyed for PackageImport {
    open spec fn rkey(&self) -> (Seq<char>, Seq<char>, int, Seq<char>, Seq<char>, int) {
        (self.file@, Seq::empty(), self.line as int, self.specifier@, Seq::empty(), flag(self.type_only))
    }

    fn order_with(&self, other: &Self) -> (r: i8) {
        rec_order_exec(self.file.as_str(), "", self.line, self.specifier.as_str(), "", self.type_only,
            other.file.as_str(), "", other.line, other.specifier.as_str(), "", other.type_only)
    }
}

/// A package and where it is imported.
pub struct PackageUse {
    pub id: String,
    pub name: String,
    pub ecosystem: Ecosystem,
    /// The node owning the package; the compiler assigns it.
    pub node: Option<String>,
    pub imports: Vec<PackageImport>,
}

impl Keyed for PackageUse {
    open spec fn rkey(&self) -> (Seq<char>, Seq<char>, int, Seq<char>, Seq<char>, int) {
        (self.id@, Seq::empty(), 0, Seq::empty(), Seq::empty(), 0)
    }

    fn order_with(&self, other: &Self) -> (r: i8) {
        rec_order_exec(self.id.as_str(), "", 0, "", "", false, other.id.as_str(), "", 0, "", "", false)
    }
}

/// An import that may name a package or a local module.
pub struct AmbiguousImport {
    pub file: String,
    pub line: usize,
    pub specifier: String,
    pub reason: String,
}

impl Keyed for AmbiguousImport {
    open spec fn rkey(&self) -> (Seq<char>, Seq<char>, int, Seq<char>, Seq<char>, int) {
        (self.file@, Seq::empty(), self.line as int, self.specifier@, self.reason@, 0)
    }

    fn order_with(&self, other: &Self) -> (r: i8) {
        rec_order_exec(self.file.as_str(), "", self.line, self.specifier.as_str(), self.reason.as_str(), false,
            other.file.as_str(), "", other.line, other.specifier.as_str(), other.reason.as_str(), false)
    }
}

/// A dynamic import of a computed module.
pub struct UnresolvedImport {
    pub file: String,
    pub line: usize,
    pub expression: String,
}

impl Keyed for UnresolvedImport {
    open spec fn rkey(&self) -> (Seq<char>, Seq<char>, int, Seq<char>, Seq<char>, int) {
        (self.file@, Seq::empty(), self.line as int, self.expression@, Seq::empty(), 0)
    }

    fn order_with(&self, other: &Self) -> (r: i8) {
        rec_order_exec(self.file.as_str(), "", self.line, self.expression.as_str(), "", false,
            other.file.as_str(), "", other.line, other.expression.as_str(), "", false)
    }
}

pub struct PackageReport {
    pub packages: Vec<PackageUse>,
    pub ambiguous: Vec<AmbiguousImport>,
    pub unresolved: Vec<UnresolvedImport>,
}

/// The package edges and the package report of a set of files.
pub struct Extraction {
    pub edges: Vec<CodeEdge>,
    pub report: PackageReport,
    pub warnings: Vec<String>,
}

/// A Python file or a script the parsers read.
pub open spec fn parsed_kind(path: Seq<char>) -> bool {
    ends_with(path, ".py"@) || script_path(path)
}

/// The files the provider saw `file` import, as repository paths, in order.
pub open spec fn targets_of(root: Seq<char>, edges: Seq<CodeEdge>, file: Seq<char>) -> Seq<Seq<char>>
    decreases edges.len(),
{
    if edges.len() == 0 {
        Seq::empty()
    } else {
        let rest = targets_of(root, edges.drop_last(), file);
        let e = edges.last();
        if e.kind@ == "IMPORTS"@ && nonempty_path(normalized(below_root(root, e.from_file@))) == Ok::<Seq<char>, PathError>(file)
            && nonempty_path(normalized(below_root(root, e.to_file@))) is Ok {
            rest.push(nonempty_path(normalized(below_root(root, e.to_file@)))->Ok_0)
        } else {
            rest
        }
    }
}

/// Every import of the Python files and scripts, each with its file.
pub open spec fn flat_imports(parsed: Seq<(String, Facts)>) -> Seq<(Seq<char>, Import)>
    decreases parsed.len(),
{
    if parsed.len() == 0 {
        Seq::empty()
    } else {
        let rest = flat_imports(parsed.drop_last());
        let f = parsed.last();
        if parsed_kind(f.0@) {
            rest + f.1.imports@.map_values(|i: Import| (f.0@, i))
        } else {
            rest
        }
    }
}

/// Every dynamic import of a computed module in the Python files and
/// scripts, as a record key.
pub open spec fn flat_unresolved(parsed: Seq<(String, Facts)>) -> Seq<(Seq<char>, Seq<char>, int, Seq<char>, Seq<char>, int)>
    decreases parsed.len(),
{
    if parsed.len() == 0 {
        Seq::empty()
    } else {
        let rest = flat_unresolved(parsed.drop_last());
        let f = parsed.last();
        if parsed_kind(f.0@) {
            rest + f.1.unresolved@.map_values(|u: (usize, String)| (f.0@, Seq::<char>::empty(), u.0 as int, u.1@, Seq::<char>::empty(), 0int))
        } else {
            rest
        }
    }
}

/// What the classifier of its file's language makes of an import.
pub open spec fn class_fits(repository: Repository, root: Seq<char>, provider_edges: Seq<CodeEdge>, stdlib: Seq<Seq<char>>,
    builtins: Seq<Seq<char>>, file: Seq<char>, specifier: Seq<char>, c: Class) -> bool {
    if ends_with(file, ".py"@) {
        python_class(repository, file, specifier, stdlib, c)
    } else {
        script_class(repository, targets_of(root, provider_edges, file), file, specifier, builtins, c)
    }
}

/// An import with its file and class.
pub struct Classified {
    pub file: String,
    pub import: Import,
    pub class: Class,
}

/// The classified imports are those of the files, in order, each with its
/// class.
pub open spec fn classified_fits(repository: Repository, root: Seq<char>, provider_edges: Seq<CodeEdge>, stdlib: Seq<Seq<char>>,
    builtins: Seq<Seq<char>>, parsed: Seq<(String, Facts)>, cs: Seq<Classified>) -> bool {
    let flat = flat_imports(parsed);
    &&& cs.len() == flat.len()
    &&& forall|q: int| 0 <= q < cs.len() ==> (#[trigger] cs[q]).file@ == flat[q].0 && cs[q].import == flat[q].1
        && class_fits(repository, root, provider_edges, stdlib, builtins, cs[q].file@, cs[q].import.specifier@, cs[q].class)
}

/// The package an import names, if it names one.
pub open spec fn named_package(c: Classified) -> Option<(Ecosystem, Seq<char>)> {
    match c.class {
        Class::Package(e, n) => Some((e, n@)),
        _ => None,
    }
}

/// The ID of the package an import names.
pub open spec fn named_id(c: Classified) -> Seq<char> {
    match named_package(c) {
        Some((e, n)) => package_id(e, n),
        None => Seq::empty(),
    }
}

/// The edge key of an import of a package.
pub open spec fn edge_key(c: Classified) -> (Seq<char>, Seq<char>, int, Seq<char>, Seq<char>, int) {
    (c.file@, named_id(c), 0, Seq::empty(), Seq::empty(), flag(c.import.type_only))
}

/// The report key of an import of a package.
pub open spec fn import_key(c: Classified) -> (Seq<char>, Seq<char>, int, Seq<char>, Seq<char>, int) {
    (c.file@, Seq::empty(), c.import.line as int, c.import.specifier@, Seq::empty(), flag(c.import.type_only))
}

/// The ambiguous imports among the first `n`, as record keys.
pub open spec fn ambiguous_keys(cs: Seq<Classified>, n: int) -> Seq<(Seq<char>, Seq<char>, int, Seq<char>, Seq<char>, int)>
    decreases n,
{
    if n <= 0 || n > cs.len() {
        Seq::empty()
    } else {
        let rest = ambiguous_keys(cs, n - 1);
        let c = cs[n - 1];
        match c.class {
            Class::Ambiguous(m) => rest.push((c.file@, Seq::empty(), c.import.line as int, c.import.specifier@, m@, 0)),
            _ => rest,
        }
    }
}

/// The package edges, one per file, package and whether the import is for
/// types only, in that order.
pub open spec fn edges_fit(cs: Seq<Classified>, edges: Seq<CodeEdge>) -> bool {
    &&& strictly_keyed(edges)
    &&& forall|k: (Seq<char>, Seq<char>, int, Seq<char>, Seq<char>, int)| #[trigger] has_rkey(edges, k)
        <==> exists|q: int| 0 <= q < cs.len() && named_package(#[trigger] cs[q]) is Some && edge_key(cs[q]) == k
    &&& forall|i: int| 0 <= i < edges.len() ==> (#[trigger] edges[i]).kind@ == "IMPORTS"@ && edges[i].confidence == Some(ONE_BITS)
        && (edges[i].reason matches Some(r) && (r@ == type_reason() || r@ == plain_reason()))
}

/// One package of the report: named by an import, with every import of it.
pub open spec fn package_fits(cs: Seq<Classified>, p: PackageUse) -> bool {
    &&& p.node is None
    &&& exists|q: int| 0 <= q < cs.len() && named_package(#[trigger] cs[q]) == Some((p.ecosystem, p.name@))
    &&& p.id@ == package_id(p.ecosystem, p.name@)
    &&& strictly_keyed(p.imports@)
    &&& forall|i: int| 0 <= i < p.imports@.len() ==> (#[trigger] p.imports@[i]).node is None
    &&& forall|k: (Seq<char>, Seq<char>, int, Seq<char>, Seq<char>, int)| #[trigger] has_rkey(p.imports@, k)
        <==> exists|q: int| 0 <= q < cs.len() && named_package(#[trigger] cs[q]) is Some
            && named_id(cs[q]) == p.id@ && import_key(cs[q]) == k
}

pub open spec fn has_package(ps: Seq<PackageUse>, id: Seq<char>) -> bool {
    exists|i: int| 0 <= i < ps.len() && (#[trigger] ps[i]).id@ == id
}

/// Some import names the package.
pub open spec fn names_package(cs: Seq<Classified>, id: Seq<char>) -> bool {
    exists|q: int| 0 <= q < cs.len() && named_package(#[trigger] cs[q]) is Some && named_id(cs[q]) == id
}

/// The packages of the report: one per package ID an import names, by ID.
pub open spec fn packages_fit(cs: Seq<Classified>, ps: Seq<PackageUse>) -> bool {
    &&& strictly_keyed(ps)
    &&& forall|id: Seq<char>| #[trigger] has_package(ps, id) <==> names_package(cs, id)
    &&& forall|i: int| 0 <= i < ps.len() ==> package_fits(cs, #[trigger] ps[i])
}

/// An import of a package, ordered by package ID first.
pub struct Found {
    pub id: String,
    pub ecosystem: Ecosystem,
    pub name: String,
    pub file: String,
    pub line: usize,
    pub specifier: String,
    pub type_only: bool,
}

impl Keyed for Found {
    open spec fn rkey(&self) -> (Seq<char>, Seq<char>, int, Seq<char>, Seq<char>, int) {
        (self.id@, self.file@, self.line as int, self.specifier@, Seq::empty(), flag(self.type_only))
    }

    fn order_with(&self, other: &Self) -> (r: i8) {
        rec_order_exec(self.id.as_str(), self.file.as_str(), self.line, self.specifier.as_str(), "", self.type_only,
            other.id.as_str(), other.file.as_str(), other.line, other.specifier.as_str(), "", other.type_only)
    }
}

spec fn found_key(c: Classified) -> (Seq<char>, Seq<char>, int, Seq<char>, Seq<char>, int) {
    (named_id(c), c.file@, c.import.line as int, c.import.specifier@, Seq::empty(), flag(c.import.type_only))
}

spec fn found_import_key(f: Found) -> (Seq<char>, Seq<char>, int, Seq<char>, Seq<char>, int) {
    (f.file@, Seq::empty(), f.line as int, f.specifier@, Seq::empty(), flag(f.type_only))
}

spec fn found_ok(cs: Seq<Classified>, n: int, f: Found) -> bool {
    exists|q: int| 0 <= q < n && q < cs.len() && named_package(#[trigger] cs[q]) == Some((f.ecosystem, f.name@))
        && f.id@ == package_id(f.ecosystem, f.name@) && f.file@ == cs[q].file@ && f.line == cs[q].import.line
        && f.specifier@ == cs[q].import.specifier@ && f.type_only == cs[q].import.type_only
}

fn targets_for(root: &str, edges: &Vec<CodeEdge>, file: &str) -> (r: Vec<String>)
    ensures
        views(r@) == targets_of(root@, edges@, file@),
{
    let mut out: Vec<String> = Vec::new();
    let mut i: usize = 0;
    while i < edges.len()
        invariant
            i <= edges@.len(),
            views(out@) == targets_of(root@, edges@.take(i as int), file@),
        decreases edges@.len() - i,
    {
        proof {
            assert(edges@.take(i + 1).drop_last() =~= edges@.take(i as int));
        }
        let e = &edges[i];
        if str_eq(e.kind.as_str(), "IMPORTS") {
            match (provider_path(root, e.from_file.as_str()), provider_path(root, e.to_file.as_str())) {
                (Ok(from), Ok(to)) => {
                    if str_eq(from.as_str(), file) {
                        let ghost before = views(out@);
                        out.push(to);
                        proof {
                            assert(views(out@) =~= before.push(out@[out@.len() - 1]@));
                        }
                    }
                },
                _ => {},
            }
        }
        i = i + 1;
    }
    proof {
        assert(edges@.take(edges@.len() as int) =~= edges@);
    }
    out
}

fn copy_import(i: &Import) -> (r: Import)
    ensures
        r == *i,
{
    Import { line: i.line, specifier: i.specifier.clone(), type_only: i.type_only }
}

proof fn lemma_flat_step(parsed: Seq<(String, Facts)>, i: int)
    requires
        0 <= i < parsed.len(),
    ensures
        flat_imports(parsed.take(i + 1)) == if parsed_kind(parsed[i].0@) {
            flat_imports(parsed.take(i)) + parsed[i].1.imports@.map_values(|m: Import| (parsed[i].0@, m))
        } else {
            flat_imports(parsed.take(i))
        },
        flat_unresolved(parsed.take(i + 1)) == if parsed_kind(parsed[i].0@) {
            flat_unresolved(parsed.take(i)) + parsed[i].1.unresolved@.map_values(|u: (usize, String)| (parsed[i].0@, Seq::<char>::empty(), u.0 as int, u.1@, Seq::<char>::empty(), 0int))
        } else {
            flat_unresolved(parsed.take(i))
        },
{
    assert(parsed.take(i + 1).drop_last() =~= parsed.take(i));
    assert(parsed.take(i + 1).last() == parsed[i]);
}

/// Every import of the Python files and scripts, classified.
fn classify_all(repository: &Repository, root: &str, provider_edges: &Vec<CodeEdge>, parsed: &Vec<(String, Facts)>,
    stdlib: &Vec<String>, builtins: &Vec<String>) -> (r: Vec<Classified>)
    requires
        repository.wf(),
    ensures
        classified_fits(*repository, root@, provider_edges@, views(stdlib@), views(builtins@), parsed@, r@),
{
    let ghost rp = *repository;
    let ghost sl = views(stdlib@);
    let ghost bl = views(builtins@);
    let mut out: Vec<Classified> = Vec::new();
    let mut i: usize = 0;
    while i < parsed.len()
        invariant
            i <= parsed@.len(),
            rp == *repository,
            repository.wf(),
            sl == views(stdlib@),
            bl == views(builtins@),
            classified_fits(rp, root@, provider_edges@, sl, bl, parsed@.take(i as int), out@),
        decreases parsed@.len() - i,
    {
        proof {
            lemma_flat_step(parsed@, i as int);
        }
        let file = &parsed[i].0;
        let python = is_python(file.as_str());
        let script = is_script(file.as_str());
        let ghost base = out@;
        let ghost flat0 = flat_imports(parsed@.take(i as int));
        if python || script {
            let targets = targets_for(root, provider_edges, file.as_str());
            proof {
                assert(targets@.map_values(|t: String| t@) =~= views(targets@));
            }
            let imports = &parsed[i].1.imports;
            let ghost added = imports@.map_values(|m: Import| (file@, m));
            let mut j: usize = 0;
            while j < imports.len()
                invariant
                    j <= imports@.len(),
                    rp == *repository,
                    repository.wf(),
                    sl == views(stdlib@),
                    bl == views(builtins@),
                    python == ends_with(file@, ".py"@),
                    views(targets@) == targets_of(root@, provider_edges@, file@),
                    added == imports@.map_values(|m: Import| (file@, m)),
                    out@.len() == base.len() + j,
                    base.len() == flat0.len(),
                    forall|q: int| 0 <= q < base.len() ==> out@[q] == base[q],
                    forall|q: int| 0 <= q < base.len() ==> (#[trigger] base[q]).file@ == flat0[q].0 && base[q].import == flat0[q].1
                        && class_fits(rp, root@, provider_edges@, sl, bl, base[q].file@, base[q].import.specifier@, base[q].class),
                    forall|q: int| 0 <= q < j ==> (#[trigger] out@[base.len() + q]).file@ == file@ && out@[base.len() + q].import == imports@[q]
                        && class_fits(rp, root@, provider_edges@, sl, bl, file@, imports@[q].specifier@, out@[base.len() + q].class),
                decreases imports@.len() - j,
            {
                let imp = &imports[j];
                let class = if python {
                    classify_python(repository, file.as_str(), imp.specifier.as_str(), stdlib)
                } else {
                    classify_script(repository, targets.as_slice(), file.as_str(), imp.specifier.as_str(), builtins)
                };
                out.push(Classified { file: file.clone(), import: copy_import(imp), class });
                j = j + 1;
            }
            proof {
                let flat1 = flat_imports(parsed@.take(i + 1));
                assert(flat1 == flat0 + added);
                assert forall|q: int| 0 <= q < out@.len() implies (#[trigger] out@[q]).file@ == flat1[q].0 && out@[q].import == flat1[q].1
                    && class_fits(rp, root@, provider_edges@, sl, bl, out@[q].file@, out@[q].import.specifier@, out@[q].class) by {
                    if q < base.len() {
                        assert(out@[q] == base[q]);
                    } else {
                        let k = q - base.len();
                        assert(out@[base.len() + k] == out@[q]);
                        assert(flat1[q] == added[k]);
                    }
                }
            }
        }
        i = i + 1;
    }
    proof {
        assert(parsed@.take(parsed@.len() as int) =~= parsed@);
    }
    out
}


/// The package edges, the imports of packages and the ambiguous imports.
fn collect(cs: &Vec<Classified>) -> (r: (Vec<CodeEdge>, Vec<Found>, Vec<AmbiguousImport>))
    ensures
        edges_fit(cs@, r.0@),
        strictly_keyed(r.1@),
        forall|k: (Seq<char>, Seq<char>, int, Seq<char>, Seq<char>, int)| #[trigger] has_rkey(r.1@, k)
            <==> exists|q: int| 0 <= q < cs@.len() && named_package(#[trigger] cs@[q]) is Some && found_key(cs@[q]) == k,
        forall|i: int| 0 <= i < r.1@.len() ==> found_ok(cs@, cs@.len() as int, #[trigger] r.1@[i]),
        keyed_sorted(r.2@),
        rkeys(r.2@).to_multiset() == ambiguous_keys(cs@, cs@.len() as int).to_multiset(),
{
    broadcast use vstd::seq_lib::group_to_multiset_ensures;

    proof {
        reveal_strlit("package-import");
        reveal_strlit("package-type-import");
    }
    let mut edges: Vec<CodeEdge> = Vec::new();
    let mut found: Vec<Found> = Vec::new();
    let mut ambiguous: Vec<AmbiguousImport> = Vec::new();
    let mut n: usize = 0;
    proof {
        assert(rkeys(ambiguous@) =~= Seq::empty());
    }
    while n < cs.len()
        invariant
            n <= cs@.len(),
            strictly_keyed(edges@),
            forall|k: (Seq<char>, Seq<char>, int, Seq<char>, Seq<char>, int)| #[trigger] has_rkey(edges@, k)
                <==> exists|q: int| 0 <= q < n && named_package(#[trigger] cs@[q]) is Some && edge_key(cs@[q]) == k,
            forall|i: int| 0 <= i < edges@.len() ==> (#[trigger] edges@[i]).kind@ == "IMPORTS"@ && edges@[i].confidence == Some(ONE_BITS)
                && (edges@[i].reason matches Some(r) && (r@ == type_reason() || r@ == plain_reason())),
            strictly_keyed(found@),
            forall|k: (Seq<char>, Seq<char>, int, Seq<char>, Seq<char>, int)| #[trigger] has_rkey(found@, k)
                <==> exists|q: int| 0 <= q < n && named_package(#[trigger] cs@[q]) is Some && found_key(cs@[q]) == k,
            forall|i: int| 0 <= i < found@.len() ==> found_ok(cs@, n as int, #[trigger] found@[i]),
            keyed_sorted(ambiguous@),
            rkeys(ambiguous@).to_multiset() == ambiguous_keys(cs@, n as int).to_multiset(),
        decreases cs@.len() - n,
    {
        let c = &cs[n];
        let ghost cn = cs@[n as int];
        let ghost old_edges = edges@;
        let ghost old_found = found@;
        match &c.class {
            Class::Package(e, name) => {
                let id = package_id_text(*e, name.as_str());
                let reason = if c.import.type_only {
                    String::from_str("package-type-import")
                } else {
                    String::from_str("package-import")
                };
                let ghost rv = reason@;
                proof {
                    reveal_strlit("package-import");
                    reveal_strlit("package-type-import");
                    if c.import.type_only {
                        assert(rv == type_reason());
                    } else {
                        assert(rv.len() == 14);
                        assert(type_reason().len() == 19);
                        assert(rv != type_reason());
                    }
                }
                let edge = CodeEdge {
                    from_file: c.file.clone(),
                    to_file: id.clone(),
                    kind: String::from_str("IMPORTS"),
                    confidence: Some(ONE_BITS),
                    reason: Some(reason),
                };
                let ghost ek = edge.rkey();
                let ghost xe = edge;
                proof {
                    reveal_strlit("package-import");
                    reveal_strlit("package-type-import");
                    assert(named_package(cn) == Some((*e, name@)));
                    assert(ek.0 == edge_key(cn).0);
                    assert(ek.1 == edge_key(cn).1);
                    assert(ek.5 == edge_key(cn).5);
                    assert(ek == edge_key(cn));
                }
                insert_new(&mut edges, edge);
                let f = Found {
                    id,
                    ecosystem: *e,
                    name: name.clone(),
                    file: c.file.clone(),
                    line: c.import.line,
                    specifier: c.import.specifier.clone(),
                    type_only: c.import.type_only,
                };
                let ghost fk = f.rkey();
                let ghost xf = f;
                proof {
                    assert(fk == found_key(cn));
                    assert(found_ok(cs@, n + 1, xf)) by {
                        assert(named_package(cs@[n as int]) == Some((xf.ecosystem, xf.name@)));
                    }
                }
                insert_new(&mut found, f);
                proof {
                    assert forall|k: (Seq<char>, Seq<char>, int, Seq<char>, Seq<char>, int)| #[trigger] has_rkey(edges@, k)
                        <==> exists|q: int| 0 <= q < n + 1 && named_package(#[trigger] cs@[q]) is Some && edge_key(cs@[q]) == k by {
                        if exists|q: int| 0 <= q < n + 1 && named_package(#[trigger] cs@[q]) is Some && edge_key(cs@[q]) == k {
                            let q = choose|q: int| 0 <= q < n + 1 && named_package(#[trigger] cs@[q]) is Some && edge_key(cs@[q]) == k;
                            if q < n {
                                assert(has_rkey(old_edges, k));
                            }
                        }
                    }
                    assert forall|k: (Seq<char>, Seq<char>, int, Seq<char>, Seq<char>, int)| #[trigger] has_rkey(found@, k)
                        <==> exists|q: int| 0 <= q < n + 1 && named_package(#[trigger] cs@[q]) is Some && found_key(cs@[q]) == k by {
                        if exists|q: int| 0 <= q < n + 1 && named_package(#[trigger] cs@[q]) is Some && found_key(cs@[q]) == k {
                            let q = choose|q: int| 0 <= q < n + 1 && named_package(#[trigger] cs@[q]) is Some && found_key(cs@[q]) == k;
                            if q < n {
                                assert(has_rkey(old_found, k));
                            }
                        }
                    }
                    assert forall|i: int| 0 <= i < edges@.len() implies (#[trigger] edges@[i]).kind@ == "IMPORTS"@ && edges@[i].confidence == Some(ONE_BITS)
                        && (edges@[i].reason matches Some(r) && (r@ == type_reason() || r@ == plain_reason())) by {
                        if edges@[i] != xe {
                            let j = choose|j: int| 0 <= j < old_edges.len() && old_edges[j] == edges@[i];
                        }
                    }
                    assert forall|i: int| 0 <= i < found@.len() implies found_ok(cs@, n + 1, #[trigger] found@[i]) by {
                        if found@[i] != xf {
                            let j = choose|j: int| 0 <= j < old_found.len() && old_found[j] == found@[i];
                            assert(found_ok(cs@, n as int, old_found[j]));
                        }
                    }
                    assert(ambiguous_keys(cs@, n + 1) == ambiguous_keys(cs@, n as int));
                }
            },
            Class::Ambiguous(m) => {
                let a = AmbiguousImport {
                    file: c.file.clone(),
                    line: c.import.line,
                    specifier: c.import.specifier.clone(),
                    reason: m.clone(),
                };
                let ghost ak = a.rkey();
                let ghost before = rkeys(ambiguous@);
                insert_keyed(&mut ambiguous, a);
                proof {
                    assert(ambiguous_keys(cs@, n + 1) == ambiguous_keys(cs@, n as int).push(ak));
                    ambiguous_keys(cs@, n as int).to_multiset_ensures();
                    assert(ambiguous_keys(cs@, n + 1).to_multiset() == ambiguous_keys(cs@, n as int).to_multiset().insert(ak));
                    assert forall|k: (Seq<char>, Seq<char>, int, Seq<char>, Seq<char>, int)| #[trigger] has_rkey(edges@, k)
                        <==> exists|q: int| 0 <= q < n + 1 && named_package(#[trigger] cs@[q]) is Some && edge_key(cs@[q]) == k by {
                        if exists|q: int| 0 <= q < n + 1 && named_package(#[trigger] cs@[q]) is Some && edge_key(cs@[q]) == k {
                            let q = choose|q: int| 0 <= q < n + 1 && named_package(#[trigger] cs@[q]) is Some && edge_key(cs@[q]) == k;
                            assert(q < n);
                        }
                    }
                    assert forall|k: (Seq<char>, Seq<char>, int, Seq<char>, Seq<char>, int)| #[trigger] has_rkey(found@, k)
                        <==> exists|q: int| 0 <= q < n + 1 && named_package(#[trigger] cs@[q]) is Some && found_key(cs@[q]) == k by {
                        if exists|q: int| 0 <= q < n + 1 && named_package(#[trigger] cs@[q]) is Some && found_key(cs@[q]) == k {
                            let q = choose|q: int| 0 <= q < n + 1 && named_package(#[trigger] cs@[q]) is Some && found_key(cs@[q]) == k;
                            assert(q < n);
                        }
                    }
                    assert forall|i: int| 0 <= i < found@.len() implies found_ok(cs@, n + 1, #[trigger] found@[i]) by {
                        assert(found_ok(cs@, n as int, found@[i]));
                    }
                }
            },
            Class::Local => {
                proof {
                    assert(ambiguous_keys(cs@, n + 1) == ambiguous_keys(cs@, n as int));
                    assert forall|k: (Seq<char>, Seq<char>, int, Seq<char>, Seq<char>, int)| #[trigger] has_rkey(edges@, k)
                        <==> exists|q: int| 0 <= q < n + 1 && named_package(#[trigger] cs@[q]) is Some && edge_key(cs@[q]) == k by {
                        if exists|q: int| 0 <= q < n + 1 && named_package(#[trigger] cs@[q]) is Some && edge_key(cs@[q]) == k {
                            let q = choose|q: int| 0 <= q < n + 1 && named_package(#[trigger] cs@[q]) is Some && edge_key(cs@[q]) == k;
                            assert(q < n);
                        }
                    }
                    assert forall|k: (Seq<char>, Seq<char>, int, Seq<char>, Seq<char>, int)| #[trigger] has_rkey(found@, k)
                        <==> exists|q: int| 0 <= q < n + 1 && named_package(#[trigger] cs@[q]) is Some && found_key(cs@[q]) == k by {
                        if exists|q: int| 0 <= q < n + 1 && named_package(#[trigger] cs@[q]) is Some && found_key(cs@[q]) == k {
                            let q = choose|q: int| 0 <= q < n + 1 && named_package(#[trigger] cs@[q]) is Some && found_key(cs@[q]) == k;
                            assert(q < n);
                        }
                    }
                    assert forall|i: int| 0 <= i < found@.len() implies found_ok(cs@, n + 1, #[trigger] found@[i]) by {
                        assert(found_ok(cs@, n as int, found@[i]));
                    }
                }
            },
        }
        n = n + 1;
    }
    (edges, found, ambiguous)
}


proof fn lemma_shift(a: (Seq<char>, Seq<char>, int, Seq<char>, Seq<char>, int), b: (Seq<char>, Seq<char>, int, Seq<char>, Seq<char>, int))
    requires
        a.0 == b.0,
    ensures
        rec_order((a.1, Seq::empty(), a.2, a.3, a.4, a.5), (b.1, Seq::empty(), b.2, b.3, b.4, b.5)) == rec_order(a, b),
{
    lemma_text_order(a.1, b.1);
    lemma_text_order(a.0, b.0);
    lemma_text_order(Seq::<char>::empty(), Seq::<char>::empty());
}

spec fn group_inv(fs: Seq<Found>, i: int, pk: Seq<PackageUse>) -> bool {
    &&& strictly_keyed(pk)
    &&& forall|id: Seq<char>| #[trigger] has_package(pk, id) <==> exists|t: int| 0 <= t < i && (#[trigger] fs[t]).id@ == id
    &&& forall|p: int| 0 <= p < pk.len() ==> group_member(fs, i, #[trigger] pk[p])
    &&& (i == 0 ==> pk.len() == 0)
    &&& (i > 0 ==> pk.len() > 0 && pk.last().id@ == fs[i - 1].id@)
}

spec fn group_member(fs: Seq<Found>, i: int, p: PackageUse) -> bool {
    &&& p.node is None
    &&& strictly_keyed(p.imports@)
    &&& forall|j: int| 0 <= j < p.imports@.len() ==> (#[trigger] p.imports@[j]).node is None
    &&& forall|k: (Seq<char>, Seq<char>, int, Seq<char>, Seq<char>, int)| #[trigger] has_rkey(p.imports@, k)
        <==> exists|t: int| 0 <= t < i && (#[trigger] fs[t]).id@ == p.id@ && found_import_key(fs[t]) == k
    &&& exists|t: int| 0 <= t < i && (#[trigger] fs[t]).id@ == p.id@ && fs[t].ecosystem == p.ecosystem && fs[t].name@ == p.name@
}

proof fn lemma_member_grows(fs: Seq<Found>, i: int, p: PackageUse)
    requires
        0 <= i < fs.len(),
        group_member(fs, i, p),
        fs[i].id@ != p.id@,
    ensures
        group_member(fs, i + 1, p),
{
    assert forall|k: (Seq<char>, Seq<char>, int, Seq<char>, Seq<char>, int)| #[trigger] has_rkey(p.imports@, k)
        <==> exists|t: int| 0 <= t < i + 1 && (#[trigger] fs[t]).id@ == p.id@ && found_import_key(fs[t]) == k by {
        if exists|t: int| 0 <= t < i + 1 && (#[trigger] fs[t]).id@ == p.id@ && found_import_key(fs[t]) == k {
            let t = choose|t: int| 0 <= t < i + 1 && (#[trigger] fs[t]).id@ == p.id@ && found_import_key(fs[t]) == k;
            assert(t < i);
        }
    }
    let t = choose|t: int| 0 <= t < i && (#[trigger] fs[t]).id@ == p.id@ && fs[t].ecosystem == p.ecosystem && fs[t].name@ == p.name@;
    assert(0 <= t < i + 1 && fs[t].id@ == p.id@);
}

fn import_of(f: &Found) -> (r: PackageImport)
    ensures
        r.rkey() == found_import_key(*f),
        r.node is None,
{
    PackageImport { file: f.file.clone(), line: f.line, specifier: f.specifier.clone(), type_only: f.type_only, node: None }
}

#[verifier::rlimit(60)]
fn add_to_last(pk: &mut Vec<PackageUse>, found: &Vec<Found>, i: usize)
    requires
        i < found@.len(),
        strictly_keyed(found@),
        group_inv(found@, i as int, old(pk)@),
        old(pk)@.len() > 0,
        old(pk)@.last().id@ == found@[i as int].id@,
    ensures
        group_inv(found@, i + 1, final(pk)@),
{
    let ghost fs = found@;
    let f = &found[i];
    let ghost old_pk = pk@;
    let mut last = pk.pop().unwrap();
    let ghost lp = last;
    let imp = import_of(f);
    let ghost ik = imp.rkey();
    proof {
        assert(old_pk.last() == lp);
        assert(group_member(fs, i as int, lp));
        // Every import listed so far comes before the new one.
        assert forall|j: int| 0 <= j < lp.imports@.len() implies rec_order((#[trigger] lp.imports@[j]).rkey(), ik) < 0 by {
            assert(has_rkey(lp.imports@, lp.imports@[j].rkey()));
            let t = choose|t: int| 0 <= t < i && (#[trigger] fs[t]).id@ == lp.id@ && found_import_key(fs[t]) == lp.imports@[j].rkey();
            assert(rec_order(fs[t].rkey(), fs[i as int].rkey()) < 0);
            lemma_shift(fs[t].rkey(), fs[i as int].rkey());
        }
    }
    let ghost old_imports = last.imports@;
    last.imports.push(imp);
    proof {
        let ni = last.imports@;
        assert(ni == old_imports.push(imp));
        assert forall|a: int, b: int| 0 <= a < b < ni.len() implies rec_order((#[trigger] ni[a]).rkey(), (#[trigger] ni[b]).rkey()) < 0 by {
            if b == ni.len() - 1 {
                assert(ni[a] == old_imports[a]);
            } else {
                assert(ni[a] == old_imports[a] && ni[b] == old_imports[b]);
            }
        }
        assert forall|k: (Seq<char>, Seq<char>, int, Seq<char>, Seq<char>, int)| #[trigger] has_rkey(ni, k)
            <==> exists|t: int| 0 <= t < i + 1 && (#[trigger] fs[t]).id@ == last.id@ && found_import_key(fs[t]) == k by {
            if has_rkey(ni, k) {
                let j = choose|j: int| 0 <= j < ni.len() && (#[trigger] ni[j]).rkey() == k;
                if j < old_imports.len() {
                    assert(ni[j] == old_imports[j]);
                    assert(has_rkey(old_imports, k));
                } else {
                    assert(fs[i as int].id@ == last.id@);
                }
            }
            if exists|t: int| 0 <= t < i + 1 && (#[trigger] fs[t]).id@ == last.id@ && found_import_key(fs[t]) == k {
                let t = choose|t: int| 0 <= t < i + 1 && (#[trigger] fs[t]).id@ == last.id@ && found_import_key(fs[t]) == k;
                if t < i {
                    assert(has_rkey(old_imports, k));
                    let j = choose|j: int| 0 <= j < old_imports.len() && (#[trigger] old_imports[j]).rkey() == k;
                    assert(ni[j] == old_imports[j]);
                } else {
                    assert(ni[ni.len() - 1] == imp);
                }
            }
        }
        assert forall|j: int| 0 <= j < ni.len() implies (#[trigger] ni[j]).node is None by {
            if j < old_imports.len() {
                assert(ni[j] == old_imports[j]);
            }
        }
        let t0 = choose|t: int| 0 <= t < i && (#[trigger] fs[t]).id@ == lp.id@ && fs[t].ecosystem == lp.ecosystem && fs[t].name@ == lp.name@;
        assert(0 <= t0 < i + 1 && fs[t0].id@ == last.id@);
        assert(group_member(fs, i + 1, last));
    }
    pk.push(last);
    proof {
        let np = pk@;
        assert(np == old_pk.drop_last().push(last));
        assert(last.rkey() == lp.rkey());
        assert forall|a: int, b: int| 0 <= a < b < np.len() implies rec_order((#[trigger] np[a]).rkey(), (#[trigger] np[b]).rkey()) < 0 by {
            if b == np.len() - 1 {
                assert(np[a] == old_pk[a]);
            } else {
                assert(np[a] == old_pk[a] && np[b] == old_pk[b]);
            }
        }
        assert forall|id: Seq<char>| #[trigger] has_package(np, id) <==> exists|t: int| 0 <= t < i + 1 && (#[trigger] fs[t]).id@ == id by {
            if has_package(np, id) {
                let p = choose|p: int| 0 <= p < np.len() && (#[trigger] np[p]).id@ == id;
                if p < np.len() - 1 {
                    assert(np[p] == old_pk[p]);
                    assert(has_package(old_pk, id));
                } else {
                    assert(old_pk[old_pk.len() - 1] == lp);
                    assert(has_package(old_pk, id));
                }
            }
            if exists|t: int| 0 <= t < i + 1 && (#[trigger] fs[t]).id@ == id {
                let t = choose|t: int| 0 <= t < i + 1 && (#[trigger] fs[t]).id@ == id;
                if t < i {
                    assert(has_package(old_pk, id));
                    let p = choose|p: int| 0 <= p < old_pk.len() && (#[trigger] old_pk[p]).id@ == id;
                    if p < old_pk.len() - 1 {
                        assert(np[p] == old_pk[p]);
                    } else {
                        assert(np[np.len() - 1] == last);
                    }
                } else {
                    assert(np[np.len() - 1] == last);
                }
            }
        }
        assert forall|p: int| 0 <= p < np.len() implies group_member(fs, i + 1, #[trigger] np[p]) by {
            if p < np.len() - 1 {
                assert(np[p] == old_pk[p]);
                assert(group_member(fs, i as int, old_pk[p]));
                lemma_rec_order(old_pk[p].rkey(), lp.rkey());
                lemma_member_grows(fs, i as int, old_pk[p]);
            }
        }
    }
}

#[verifier::rlimit(60)]
fn add_new(pk: &mut Vec<PackageUse>, found: &Vec<Found>, i: usize)
    requires
        i < found@.len(),
        strictly_keyed(found@),
        group_inv(found@, i as int, old(pk)@),
        old(pk)@.len() > 0 ==> old(pk)@.last().id@ != found@[i as int].id@,
    ensures
        group_inv(found@, i + 1, final(pk)@),
{
    let ghost fs = found@;
    let f = &found[i];
    let ghost old_pk = pk@;
    let imp = import_of(f);
    let package = PackageUse {
        id: f.id.clone(),
        name: f.name.clone(),
        ecosystem: f.ecosystem,
        node: None,
        imports: vec![imp],
    };
    proof {
        let np = package;
        assert(np.imports@.len() == 1);
        assert forall|k: (Seq<char>, Seq<char>, int, Seq<char>, Seq<char>, int)| #[trigger] has_rkey(np.imports@, k)
            <==> exists|t: int| 0 <= t < i + 1 && (#[trigger] fs[t]).id@ == np.id@ && found_import_key(fs[t]) == k by {
            if exists|t: int| 0 <= t < i + 1 && (#[trigger] fs[t]).id@ == np.id@ && found_import_key(fs[t]) == k {
                let t = choose|t: int| 0 <= t < i + 1 && (#[trigger] fs[t]).id@ == np.id@ && found_import_key(fs[t]) == k;
                if t < i {
                    // An earlier import of this package would make it the last one listed.
                    assert(has_package(old_pk, np.id@));
                    let p = choose|p: int| 0 <= p < old_pk.len() && (#[trigger] old_pk[p]).id@ == np.id@;
                    assert(rec_order(fs[t].rkey(), fs[i as int].rkey()) < 0);
                    lemma_text_order(fs[t].id@, fs[i as int].id@);
                    assert(fs[i - 1].id@ == old_pk.last().id@);
                    if t < i - 1 {
                        assert(rec_order(fs[t].rkey(), fs[i - 1].rkey()) < 0);
                        lemma_rec_order_trans(fs[t].rkey(), fs[i - 1].rkey(), fs[i as int].rkey());
                        lemma_text_order(fs[t].id@, fs[i - 1].id@);
                        lemma_text_order(fs[i - 1].id@, fs[i as int].id@);
                        lemma_text_order_trans(fs[t].id@, fs[i - 1].id@, fs[i as int].id@);
                    }
                    assert(false);
                } else {
                    assert(np.imports@[0].rkey() == k);
                }
            }
            if has_rkey(np.imports@, k) {
                assert(np.imports@[0].rkey() == k);
            }
        }
        assert(group_member(fs, i + 1, np));
        if i > 0 {
            assert(rec_order(fs[i - 1].rkey(), fs[i as int].rkey()) < 0);
            lemma_text_order(fs[i - 1].id@, fs[i as int].id@);
            assert(text_order(fs[i - 1].id@, fs[i as int].id@) < 0);
        }
    }
    pk.push(package);
    proof {
        let np = pk@;
        assert(np == old_pk.push(package));
        assert forall|a: int, b: int| 0 <= a < b < np.len() implies rec_order((#[trigger] np[a]).rkey(), (#[trigger] np[b]).rkey()) < 0 by {
            if b == np.len() - 1 {
                assert(np[a] == old_pk[a]);
                if a < old_pk.len() - 1 {
                    lemma_rec_order_trans(old_pk[a].rkey(), old_pk.last().rkey(), package.rkey());
                }
            } else {
                assert(np[a] == old_pk[a] && np[b] == old_pk[b]);
            }
        }
        assert forall|id: Seq<char>| #[trigger] has_package(np, id) <==> exists|t: int| 0 <= t < i + 1 && (#[trigger] fs[t]).id@ == id by {
            if has_package(np, id) {
                let p = choose|p: int| 0 <= p < np.len() && (#[trigger] np[p]).id@ == id;
                if p < old_pk.len() {
                    assert(np[p] == old_pk[p]);
                    assert(has_package(old_pk, id));
                }
            }
            if exists|t: int| 0 <= t < i + 1 && (#[trigger] fs[t]).id@ == id {
                let t = choose|t: int| 0 <= t < i + 1 && (#[trigger] fs[t]).id@ == id;
                if t < i {
                    assert(has_package(old_pk, id));
                    let p = choose|p: int| 0 <= p < old_pk.len() && (#[trigger] old_pk[p]).id@ == id;
                    assert(np[p] == old_pk[p]);
                } else {
                    assert(np[np.len() - 1] == package);
                }
            }
        }
        assert forall|p: int| 0 <= p < np.len() implies group_member(fs, i + 1, #[trigger] np[p]) by {
            if p < old_pk.len() {
                assert(np[p] == old_pk[p]);
                assert(group_member(fs, i as int, old_pk[p]));
                if old_pk[p].id@ == fs[i as int].id@ {
                    assert(has_package(old_pk, fs[i as int].id@));
                    assert(false);
                }
                lemma_member_grows(fs, i as int, old_pk[p]);
            }
        }
    }
}

/// The packages of the imports of packages, ordered by package ID first.
fn group(found: &Vec<Found>) -> (r: Vec<PackageUse>)
    requires
        strictly_keyed(found@),
    ensures
        group_inv(found@, found@.len() as int, r@),
{
    let mut pk: Vec<PackageUse> = Vec::new();
    let mut i: usize = 0;
    while i < found.len()
        invariant
            i <= found@.len(),
            strictly_keyed(found@),
            group_inv(found@, i as int, pk@),
        decreases found@.len() - i,
    {
        let same = pk.len() > 0 && str_eq(pk[pk.len() - 1].id.as_str(), found[i].id.as_str());
        if same {
            add_to_last(&mut pk, found, i);
        } else {
            add_new(&mut pk, found, i);
        }
        i = i + 1;
    }
    pk
}


/// The dynamic imports of computed modules, in order.
fn collect_unresolved(parsed: &Vec<(String, Facts)>) -> (r: Vec<UnresolvedImport>)
    ensures
        keyed_sorted(r@),
        rkeys(r@).to_multiset() == flat_unresolved(parsed@).to_multiset(),
{
    broadcast use vstd::seq_lib::group_to_multiset_ensures;

    let mut out: Vec<UnresolvedImport> = Vec::new();
    let mut i: usize = 0;
    proof {
        assert(rkeys(out@) =~= Seq::empty());
        assert(flat_unresolved(parsed@.take(0)) =~= Seq::empty());
    }
    while i < parsed.len()
        invariant
            i <= parsed@.len(),
            keyed_sorted(out@),
            rkeys(out@).to_multiset() == flat_unresolved(parsed@.take(i as int)).to_multiset(),
        decreases parsed@.len() - i,
    {
        proof {
            lemma_flat_step(parsed@, i as int);
        }
        let file = &parsed[i].0;
        if is_python(file.as_str()) || is_script(file.as_str()) {
            let us = &parsed[i].1.unresolved;
            let ghost base = flat_unresolved(parsed@.take(i as int));
            let ghost added = us@.map_values(|u: (usize, String)| (file@, Seq::<char>::empty(), u.0 as int, u.1@, Seq::<char>::empty(), 0int));
            let mut j: usize = 0;
            proof {
                assert(base + added.take(0) =~= base);
            }
            while j < us.len()
                invariant
                    j <= us@.len(),
                    keyed_sorted(out@),
                    added == us@.map_values(|u: (usize, String)| (file@, Seq::<char>::empty(), u.0 as int, u.1@, Seq::<char>::empty(), 0int)),
                    rkeys(out@).to_multiset() == (base + added.take(j as int)).to_multiset(),
                decreases us@.len() - j,
            {
                let u = UnresolvedImport { file: file.clone(), line: us[j].0, expression: us[j].1.clone() };
                let ghost uk = u.rkey();
                proof {
                    assert(uk == added[j as int]);
                    assert(base + added.take(j + 1) =~= (base + added.take(j as int)).push(uk));
                    (base + added.take(j as int)).to_multiset_ensures();
                }
                insert_keyed(&mut out, u);
                j = j + 1;
            }
            proof {
                assert(added.take(us@.len() as int) =~= added);
            }
        }
        i = i + 1;
    }
    proof {
        assert(parsed@.take(parsed@.len() as int) =~= parsed@);
    }
    out
}

/// The facts of the collected imports make the packages of the report.
proof fn lemma_packages(cs: Seq<Classified>, fs: Seq<Found>, pk: Seq<PackageUse>)
    requires
        forall|k: (Seq<char>, Seq<char>, int, Seq<char>, Seq<char>, int)| #[trigger] has_rkey(fs, k)
            <==> exists|q: int| 0 <= q < cs.len() && named_package(#[trigger] cs[q]) is Some && found_key(cs[q]) == k,
        forall|i: int| 0 <= i < fs.len() ==> found_ok(cs, cs.len() as int, #[trigger] fs[i]),
        group_inv(fs, fs.len() as int, pk),
    ensures
        packages_fit(cs, pk),
{
    let n = fs.len() as int;
    assert forall|id: Seq<char>| #[trigger] has_package(pk, id) <==> names_package(cs, id) by {
        if has_package(pk, id) {
            let t = choose|t: int| 0 <= t < n && (#[trigger] fs[t]).id@ == id;
            assert(found_ok(cs, cs.len() as int, fs[t]));
            let q = choose|q: int| 0 <= q < cs.len() && named_package(#[trigger] cs[q]) == Some((fs[t].ecosystem, fs[t].name@))
                && fs[t].id@ == package_id(fs[t].ecosystem, fs[t].name@) && fs[t].file@ == cs[q].file@ && fs[t].line == cs[q].import.line
                && fs[t].specifier@ == cs[q].import.specifier@ && fs[t].type_only == cs[q].import.type_only;
            assert(named_id(cs[q]) == id);
        }
        if names_package(cs, id) {
            let q = choose|q: int| 0 <= q < cs.len() && named_package(#[trigger] cs[q]) is Some && named_id(cs[q]) == id;
            assert(has_rkey(fs, found_key(cs[q])));
            let t = choose|t: int| 0 <= t < fs.len() && (#[trigger] fs[t]).rkey() == found_key(cs[q]);
            assert(fs[t].id@ == id);
        }
    }
    assert forall|p: int| 0 <= p < pk.len() implies package_fits(cs, #[trigger] pk[p]) by {
        let pp = pk[p];
        assert(group_member(fs, n, pp));
        let t0 = choose|t: int| 0 <= t < n && (#[trigger] fs[t]).id@ == pp.id@ && fs[t].ecosystem == pp.ecosystem && fs[t].name@ == pp.name@;
        assert(found_ok(cs, cs.len() as int, fs[t0]));
        let q0 = choose|q: int| 0 <= q < cs.len() && named_package(#[trigger] cs[q]) == Some((fs[t0].ecosystem, fs[t0].name@))
            && fs[t0].id@ == package_id(fs[t0].ecosystem, fs[t0].name@) && fs[t0].file@ == cs[q].file@ && fs[t0].line == cs[q].import.line
            && fs[t0].specifier@ == cs[q].import.specifier@ && fs[t0].type_only == cs[q].import.type_only;
        assert(named_package(cs[q0]) == Some((pp.ecosystem, pp.name@)));
        assert forall|k: (Seq<char>, Seq<char>, int, Seq<char>, Seq<char>, int)| #[trigger] has_rkey(pp.imports@, k)
            <==> exists|q: int| 0 <= q < cs.len() && named_package(#[trigger] cs[q]) is Some && named_id(cs[q]) == pp.id@ && import_key(cs[q]) == k by {
            if has_rkey(pp.imports@, k) {
                let t = choose|t: int| 0 <= t < n && (#[trigger] fs[t]).id@ == pp.id@ && found_import_key(fs[t]) == k;
                assert(found_ok(cs, cs.len() as int, fs[t]));
                let q = choose|q: int| 0 <= q < cs.len() && named_package(#[trigger] cs[q]) == Some((fs[t].ecosystem, fs[t].name@))
                    && fs[t].id@ == package_id(fs[t].ecosystem, fs[t].name@) && fs[t].file@ == cs[q].file@ && fs[t].line == cs[q].import.line
                    && fs[t].specifier@ == cs[q].import.specifier@ && fs[t].type_only == cs[q].import.type_only;
                assert(named_id(cs[q]) == pp.id@ && import_key(cs[q]) == k);
            }
            if exists|q: int| 0 <= q < cs.len() && named_package(#[trigger] cs[q]) is Some && named_id(cs[q]) == pp.id@ && import_key(cs[q]) == k {
                let q = choose|q: int| 0 <= q < cs.len() && named_package(#[trigger] cs[q]) is Some && named_id(cs[q]) == pp.id@ && import_key(cs[q]) == k;
                assert(has_rkey(fs, found_key(cs[q])));
                let t = choose|t: int| 0 <= t < fs.len() && (#[trigger] fs[t]).rkey() == found_key(cs[q]);
                assert(fs[t].id@ == pp.id@ && found_import_key(fs[t]) == k);
            }
        }
    }
}

/// The package edges and report of the Python files and scripts among
/// `parsed`, as `package_extraction` states them.
pub open spec fn extraction_fits(repository: Repository, root: Seq<char>, provider_edges: Seq<CodeEdge>, parsed: Seq<(String, Facts)>,
    stdlib: Seq<Seq<char>>, builtins: Seq<Seq<char>>, r: Extraction) -> bool {
    &&& exists|cs: Seq<Classified>| {
        &&& classified_fits(repository, root, provider_edges, stdlib, builtins, parsed, cs)
        &&& edges_fit(cs, r.edges@)
        &&& packages_fit(cs, r.report.packages@)
        &&& keyed_sorted(r.report.ambiguous@)
        &&& rkeys(r.report.ambiguous@).to_multiset() == ambiguous_keys(cs, cs.len() as int).to_multiset()
    }
    &&& keyed_sorted(r.report.unresolved@)
    &&& rkeys(r.report.unresolved@).to_multiset() == flat_unresolved(parsed).to_multiset()
    &&& views(r.warnings@) == repository.warning_texts()
}

/// The package edges and report of the Python files and scripts among
/// `parsed`, each with the imports its parser found: each import classified
/// by its language's rules (`stdlib` and `builtins` name the modules of
/// Python's standard library and of Node.js), an edge per file, package and
/// whether the import is for types only, the packages by ID with their
/// imports, the ambiguous and the unresolved imports sorted, and the
/// warnings of reading the repository's manifests.
pub fn package_extraction(
    repository: &Repository,
    root: &str,
    provider_edges: &Vec<CodeEdge>,
    parsed: &Vec<(String, Facts)>,
    stdlib: &Vec<String>,
    builtins: &Vec<String>,
) -> (r: Extraction)
    requires
        repository.wf(),
    ensures
        extraction_fits(*repository, root@, provider_edges@, parsed@, views(stdlib@), views(builtins@), r),
{
    let cs = classify_all(repository, root, provider_edges, parsed, stdlib, builtins);
    let (edges, found, ambiguous) = collect(&cs);
    let packages = group(&found);
    proof {
        lemma_packages(cs@, found@, packages@);
    }
    let unresolved = collect_unresolved(parsed);
    let warnings = copy_strings(repository.warnings());
    let r = Extraction { edges, report: PackageReport { packages, ambiguous, unresolved }, warnings };
    proof {
        let w = cs@;
        assert(classified_fits(*repository, root@, provider_edges@, views(stdlib@), views(builtins@), parsed@, w));
        assert(edges_fit(w, r.edges@));
        assert(packages_fit(w, r.report.packages@));
        assert(rkeys(r.report.ambiguous@).to_multiset() == ambiguous_keys(w, w.len() as int).to_multiset());
    }
    r
}


/// What an import of a package holds, as values.
pub open spec fn import_view(i: PackageImport) -> (Seq<char>, usize, Seq<char>, bool, Option<Seq<char>>) {
    (i.file@, i.line, i.specifier@, i.type_only, opt_view(i.node))
}

/// What a package of the report holds, as values.
pub open spec fn package_view(p: PackageUse) -> (Seq<char>, Seq<char>, Ecosystem, Option<Seq<char>>, Seq<(Seq<char>, usize, Seq<char>, bool, Option<Seq<char>>)>) {
    (p.id@, p.name@, p.ecosystem, opt_view(p.node), p.imports@.map_values(|i: PackageImport| import_view(i)))
}

pub open spec fn package_views(s: Seq<PackageUse>) -> Seq<(Seq<char>, Seq<char>, Ecosystem, Option<Seq<char>>, Seq<(Seq<char>, usize, Seq<char>, bool, Option<Seq<char>>)>)> {
    s.map_values(|p: PackageUse| package_view(p))
}

fn copy_imports(v: &Vec<PackageImport>) -> (r: Vec<PackageImport>)
    ensures
        r@.map_values(|i: PackageImport| import_view(i)) == v@.map_values(|i: PackageImport| import_view(i)),
{
    let mut out: Vec<PackageImport> = Vec::new();
    let mut k: usize = 0;
    while k < v.len()
        invariant
            k <= v@.len(),
            out@.map_values(|i: PackageImport| import_view(i)) == v@.take(k as int).map_values(|i: PackageImport| import_view(i)),
        decreases v@.len() - k,
    {
        let i = &v[k];
        let c = PackageImport { file: i.file.clone(), line: i.line, specifier: i.specifier.clone(), type_only: i.type_only, node: copy_opt(&i.node) };
        proof {
            assert(import_view(c) == import_view(*i));
        }
        let ghost before = out@.map_values(|i: PackageImport| import_view(i));
        out.push(c);
        proof {
            assert(out@.map_values(|i: PackageImport| import_view(i)) =~= before.push(import_view(c)));
            assert(v@.take(k + 1).map_values(|i: PackageImport| import_view(i)) =~= v@.take(k as int).map_values(|i: PackageImport| import_view(i)).push(import_view(v@[k as int])));
        }
        k = k + 1;
    }
    proof {
        assert(v@.take(v@.len() as int) =~= v@);
    }
    out
}

fn copy_package(p: &PackageUse) -> (r: PackageUse)
    ensures
        package_view(r) == package_view(*p),
{
    PackageUse { id: p.id.clone(), name: p.name.clone(), ecosystem: p.ecosystem, node: copy_opt(&p.node), imports: copy_imports(&p.imports) }
}

fn copy_ambiguous(a: &AmbiguousImport) -> (r: AmbiguousImport)
    ensures
        r.rkey() == a.rkey(),
{
    AmbiguousImport { file: a.file.clone(), line: a.line, specifier: a.specifier.clone(), reason: a.reason.clone() }
}

/// `s` without every leading `prefix`, as `trim_start_matches` gives it.
pub open spec fn trim_prefixes(s: Seq<char>, prefix: Seq<char>) -> Seq<char>
    decreases s.len(),
{
    if prefix.len() > 0 && prefix.len() <= s.len() && s.take(prefix.len() as int) == prefix {
        trim_prefixes(s.skip(prefix.len() as int), prefix)
    } else {
        s
    }
}

fn trim_package_prefixes(s: &str) -> (r: String)
    ensures
        r@ == trim_prefixes(s@, "package:"@),
{
    let prefix = chars_of("package:");
    let mut rest = chars_of(s);
    proof {
        reveal_strlit("package:");
    }
    loop
        invariant
            prefix@ == "package:"@,
            prefix@.len() == 8,
            trim_prefixes(s@, "package:"@) == trim_prefixes(rest@, "package:"@),
        decreases rest@.len(),
    {
        let starts = crate::text::has_prefix(rest.as_slice(), prefix.as_slice());
        if !starts {
            proof {
                assert(!(rest@.len() >= prefix@.len() && rest@.take(prefix@.len() as int) == prefix@));
            }
            return string_of(rest.as_slice());
        }
        let next = crate::text::slice_chars(rest.as_slice(), prefix.len(), rest.len());
        proof {
            assert(next@ =~= rest@.skip(8));
        }
        rest = next;
    }
}

/// The package the selection asks for: named plainly or as
/// `<ecosystem>/<name>`.
pub open spec fn package_wanted(p: PackageUse, w: Seq<char>) -> bool {
    p.name@ == w || ecosystem_text(p.ecosystem) + "/"@ + p.name@ == w
}

/// An ambiguous import that may name the wanted package: the specifier
/// itself, its first dotted part, or a path below it.
pub open spec fn ambiguous_wanted(a: AmbiguousImport, w: Seq<char>) -> bool {
    specifier_names(a.specifier@, w)
}

pub open spec fn specifier_names(s: Seq<char>, w: Seq<char>) -> bool {
    s == w || split(s, '.')[0] == w || (w.len() < s.len() && s.take(w.len() as int) == w && s[w.len() as int] == '/')
}

pub open spec fn packages_kept(s: Seq<PackageUse>, w: Seq<char>) -> Seq<PackageUse>
    decreases s.len(),
{
    if s.len() == 0 {
        Seq::empty()
    } else if package_wanted(s.last(), w) {
        packages_kept(s.drop_last(), w).push(s.last())
    } else {
        packages_kept(s.drop_last(), w)
    }
}

pub open spec fn ambiguous_kept(s: Seq<AmbiguousImport>, w: Seq<char>) -> Seq<AmbiguousImport>
    decreases s.len(),
{
    if s.len() == 0 {
        Seq::empty()
    } else if ambiguous_wanted(s.last(), w) {
        ambiguous_kept(s.drop_last(), w).push(s.last())
    } else {
        ambiguous_kept(s.drop_last(), w)
    }
}

pub open spec fn no_package_text(w: Seq<char>) -> Seq<char> {
    "no imported package is named `"@ + w + "`; `archgraph packages` lists them all"@
}

fn ecosystem_name(e: Ecosystem) -> (r: &'static str)
    ensures
        r@ == ecosystem_text(e),
{
    match e {
        Ecosystem::Python => "python",
        Ecosystem::Npm => "npm",
    }
}

fn may_name(specifier: &str, w: &str) -> (r: bool)
    ensures
        r == specifier_names(specifier@, w@),
{
    if str_eq(specifier, w) {
        return true;
    }
    let s = chars_of(specifier);
    let parts = crate::text::split_chars(s.as_slice(), '.');
    proof {
        crate::text::lemma_split_parts_free(s@, '.');
        assert(parts@.len() >= 1);
    }
    let first = string_of(parts[0].as_slice());
    if str_eq(first.as_str(), w) {
        return true;
    }
    let wc = chars_of(w);
    if wc.len() < s.len() && crate::text::has_prefix(s.as_slice(), wc.as_slice()) && s[wc.len()] == '/' {
        return true;
    }
    false
}

/// The packages of the report that a selection names, with the ambiguous
/// imports that may be them; all of it when nothing is named; an error when
/// nothing matches.
pub fn select_packages(report: &PackageReport, wanted: Option<&str>) -> (r: Result<PackageReport, String>)
    ensures
        match wanted {
            None => r matches Ok(c) && package_views(c.packages@) == package_views(report.packages@)
                && rkeys(c.ambiguous@) == rkeys(report.ambiguous@) && rkeys(c.unresolved@) == rkeys(report.unresolved@),
            Some(name) => {
                let w = trim_prefixes(name@, "package:"@);
                let ps = packages_kept(report.packages@, w);
                let am = ambiguous_kept(report.ambiguous@, w);
                match r {
                    Ok(c) => (ps.len() > 0 || am.len() > 0) && package_views(c.packages@) == package_views(ps)
                        && rkeys(c.ambiguous@) == rkeys(am) && c.unresolved@.len() == 0,
                    Err(m) => ps.len() == 0 && am.len() == 0 && m@ == no_package_text(w),
                }
            },
        },
{
    let name = match wanted {
        None => {
            let mut packages: Vec<PackageUse> = Vec::new();
            let mut k: usize = 0;
            while k < report.packages.len()
                invariant
                    k <= report.packages@.len(),
                    package_views(packages@) == package_views(report.packages@.take(k as int)),
                decreases report.packages@.len() - k,
            {
                let c = copy_package(&report.packages[k]);
                let ghost before = package_views(packages@);
                packages.push(c);
                proof {
                    assert(package_views(packages@) =~= before.push(package_view(c)));
                    assert(package_views(report.packages@.take(k + 1)) =~= package_views(report.packages@.take(k as int)).push(package_view(report.packages@[k as int])));
                }
                k = k + 1;
            }
            let mut ambiguous: Vec<AmbiguousImport> = Vec::new();
            let mut k: usize = 0;
            while k < report.ambiguous.len()
                invariant
                    k <= report.ambiguous@.len(),
                    rkeys(ambiguous@) == rkeys(report.ambiguous@.take(k as int)),
                decreases report.ambiguous@.len() - k,
            {
                let c = copy_ambiguous(&report.ambiguous[k]);
                let ghost before = rkeys(ambiguous@);
                ambiguous.push(c);
                proof {
                    assert(rkeys(ambiguous@) =~= before.push(c.rkey()));
                    assert(rkeys(report.ambiguous@.take(k + 1)) =~= rkeys(report.ambiguous@.take(k as int)).push(report.ambiguous@[k as int].rkey()));
                }
                k = k + 1;
            }
            let mut unresolved: Vec<UnresolvedImport> = Vec::new();
            let mut k: usize = 0;
            while k < report.unresolved.len()
                invariant
                    k <= report.unresolved@.len(),
                    rkeys(unresolved@) == rkeys(report.unresolved@.take(k as int)),
                decreases report.unresolved@.len() - k,
            {
                let u = &report.unresolved[k];
                let c = UnresolvedImport { file: u.file.clone(), line: u.line, expression: u.expression.clone() };
                let ghost before = rkeys(unresolved@);
                unresolved.push(c);
                proof {
                    assert(c.rkey() == u.rkey());
                    assert(rkeys(unresolved@) =~= before.push(c.rkey()));
                    assert(rkeys(report.unresolved@.take(k + 1)) =~= rkeys(report.unresolved@.take(k as int)).push(report.unresolved@[k as int].rkey()));
                }
                k = k + 1;
            }
            proof {
                assert(report.packages@.take(report.packages@.len() as int) =~= report.packages@);
                assert(report.ambiguous@.take(report.ambiguous@.len() as int) =~= report.ambiguous@);
                assert(report.unresolved@.take(report.unresolved@.len() as int) =~= report.unresolved@);
            }
            return Ok(PackageReport { packages, ambiguous, unresolved });
        },
        Some(n) => n,
    };
    let w = trim_package_prefixes(name);
    let mut packages: Vec<PackageUse> = Vec::new();
    let mut k: usize = 0;
    while k < report.packages.len()
        invariant
            k <= report.packages@.len(),
            package_views(packages@) == package_views(packages_kept(report.packages@.take(k as int), w@)),
            packages@.len() == packages_kept(report.packages@.take(k as int), w@).len(),
        decreases report.packages@.len() - k,
    {
        proof {
            assert(report.packages@.take(k + 1).drop_last() =~= report.packages@.take(k as int));
        }
        let p = &report.packages[k];
        let qualified = cat3(ecosystem_name(p.ecosystem), "/", p.name.as_str());
        if str_eq(p.name.as_str(), w.as_str()) || str_eq(qualified.as_str(), w.as_str()) {
            let ghost before = package_views(packages@);
            packages.push(copy_package(p));
            proof {
                assert(package_views(packages@) =~= before.push(package_view(*p)));
                assert(package_views(packages_kept(report.packages@.take(k + 1), w@))
                    =~= package_views(packages_kept(report.packages@.take(k as int), w@)).push(package_view(*p)));
            }
        }
        k = k + 1;
    }
    let mut ambiguous: Vec<AmbiguousImport> = Vec::new();
    let mut k: usize = 0;
    while k < report.ambiguous.len()
        invariant
            k <= report.ambiguous@.len(),
            rkeys(ambiguous@) == rkeys(ambiguous_kept(report.ambiguous@.take(k as int), w@)),
            ambiguous@.len() == ambiguous_kept(report.ambiguous@.take(k as int), w@).len(),
        decreases report.ambiguous@.len() - k,
    {
        proof {
            assert(report.ambiguous@.take(k + 1).drop_last() =~= report.ambiguous@.take(k as int));
        }
        let a = &report.ambiguous[k];
        let hit = may_name(a.specifier.as_str(), w.as_str());
        proof {
            assert(hit == ambiguous_wanted(report.ambiguous@[k as int], w@));
        }
        if hit {
            let ghost before = rkeys(ambiguous@);
            ambiguous.push(copy_ambiguous(a));
            proof {
                assert(rkeys(ambiguous@) =~= before.push(a.rkey()));
                assert(rkeys(ambiguous_kept(report.ambiguous@.take(k + 1), w@))
                    =~= rkeys(ambiguous_kept(report.ambiguous@.take(k as int), w@)).push(a.rkey()));
            }
        }
        k = k + 1;
    }
    proof {
        assert(report.packages@.take(report.packages@.len() as int) =~= report.packages@);
        assert(report.ambiguous@.take(report.ambiguous@.len() as int) =~= report.ambiguous@);
    }
    if packages.len() == 0 && ambiguous.len() == 0 {
        return Err(cat3("no imported package is named `", w.as_str(), "`; `archgraph packages` lists them all"));
    }
    Ok(PackageReport { packages, ambiguous, unresolved: Vec::new() })
}

} // verus!
