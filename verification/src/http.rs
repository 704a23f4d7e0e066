//! HTTP observations: client calls found in scripts, and the rules that
//! match a call's URL to a declared server route.
use vstd::prelude::*;
use crate::text::{chars_of, contains_char, parts_view, split, split_chars, string_of};

verus! {

/// The dependency kind of a client call on the route that handles it.
pub const KIND: &'static str = "FETCHES";

/// Stands for a runtime part while a URL is split into segments.
pub const RUNTIME: char = '\0';

/// A part of a call's URL.
#[derive(Debug, Clone, PartialEq)]
pub enum Piece {
    Text(String),
    /// A value unknown statically: an id, a variable, a call.
    Param,
}

/// How a call was found.
#[derive(Debug, Clone, Copy, PartialEq, Eq, Structural)]
pub enum Via {
    /// `fetch(url)` and the other client APIs.
    Call,
    /// A call of a same-file function that passes its parameter to one.
    Wrapper,
    /// A string built on the base constant of a call, e.g. a download link.
    Link,
}

/// A client call of an HTTP API.
#[derive(Debug, PartialEq)]
pub struct Call {
    pub line: usize,
    /// Upper case; `None` when it cannot be told statically.
    pub method: Option<String>,
    pub url: Vec<Piece>,
    pub via: Via,
}

/// A call whose URL does not start with a known string.
#[derive(Debug, PartialEq)]
pub struct Unresolved {
    pub line: usize,
    pub expression: String,
}

/// What one script says about HTTP.
#[derive(Debug, PartialEq)]
pub struct ClientFacts {
    pub calls: Vec<Call>,
    /// Calls whose URL does not start with a known string.
    pub unresolved: Vec<Unresolved>,
    pub warnings: Vec<String>,
}

impl ClientFacts {
    pub fn new() -> (r: ClientFacts)
        ensures
            r.calls@.len() == 0,
            r.unresolved@.len() == 0,
            r.warnings@.len() == 0,
    {
        ClientFacts { calls: Vec::new(), unresolved: Vec::new(), warnings: Vec::new() }
    }
}

/// A segment of a call's URL path.
pub enum Wanted {
    Literal(String),
    Runtime,
}

/// A segment of a declared route path.
pub enum Declared {
    Literal(String),
    Parameter,
    /// `{path:path}`, `*`: the rest of the URL.
    Rest,
}

/// The non-empty parts of `s` between `/`.
pub open spec fn nonempty_parts(parts: Seq<Seq<char>>) -> Seq<Seq<char>>
    decreases parts.len(),
{
    if parts.len() == 0 {
        Seq::empty()
    } else if parts.last().len() == 0 {
        nonempty_parts(parts.drop_last())
    } else {
        nonempty_parts(parts.drop_last()).push(parts.last())
    }
}

/// The segments of a route path.
pub open spec fn route_segments(path: Seq<char>) -> Seq<Seq<char>> {
    nonempty_parts(split(path, '/'))
}

pub open spec fn is_rest(seg: Seq<char>) -> bool {
    (seg.len() > 0 && seg[0] == '*') || (seg.len() > 0 && seg[0] == '{' && crate::text::ends_with(seg, ":path}"@))
}

pub open spec fn is_parameter(seg: Seq<char>) -> bool {
    seg.len() > 0 && (seg[0] == '{' || seg[0] == ':')
}

/// `d` is what the route segment `seg` declares.
pub open spec fn declares(seg: Seq<char>, d: Declared) -> bool {
    if is_rest(seg) {
        d is Rest
    } else if is_parameter(seg) {
        d is Parameter
    } else {
        d matches Declared::Literal(s) && s@ == seg
    }
}

fn nonempty(parts: Vec<Vec<char>>) -> (r: Vec<Vec<char>>)
    ensures
        parts_view(r@) == nonempty_parts(parts_view(parts@)),
{
    let mut out: Vec<Vec<char>> = Vec::new();
    let mut i: usize = 0;
    proof {
        assert(parts_view(parts@).take(0) =~= Seq::<Seq<char>>::empty());
    }
    while i < parts.len()
        invariant
            i <= parts@.len(),
            parts_view(out@) == nonempty_parts(parts_view(parts@).take(i as int)),
        decreases parts@.len() - i,
    {
        proof {
            assert(parts_view(parts@).take(i + 1).drop_last() =~= parts_view(parts@).take(i as int));
            assert(parts_view(parts@).take(i + 1).last() == parts@[i as int]@);
        }
        if parts[i].len() > 0 {
            let ghost before = parts_view(out@);
            out.push(parts[i].clone());
            proof {
                assert(parts_view(out@) =~= before.push(parts@[i as int]@));
            }
        }
        i = i + 1;
    }
    proof {
        assert(parts_view(parts@).take(parts@.len() as int) =~= parts_view(parts@));
    }
    out
}

/// The segments of a declared route path, each classified.
pub fn declared(path: &str) -> (r: Vec<Declared>)
    ensures
        r@.len() == route_segments(path@).len(),
        forall|i: int| 0 <= i < r@.len() ==> declares(route_segments(path@)[i], #[trigger] r@[i]),
{
    let chars = chars_of(path);
    let parts = nonempty(split_chars(chars.as_slice(), '/'));
    let mut out: Vec<Declared> = Vec::new();
    let mut i: usize = 0;
    while i < parts.len()
        invariant
            i <= parts@.len(),
            parts_view(parts@) == route_segments(path@),
            out@.len() == i,
            forall|k: int| 0 <= k < i ==> declares(route_segments(path@)[k], #[trigger] out@[k]),
        decreases parts@.len() - i,
    {
        let seg = &parts[i];
        let n = seg.len();
        let ghost s = seg@;
        proof {
            assert(s == route_segments(path@)[i as int]);
        }
        let ends_path = n >= 6 && seg[n - 6] == ':' && seg[n - 5] == 'p' && seg[n - 4] == 'a' && seg[n - 3] == 't'
            && seg[n - 2] == 'h' && seg[n - 1] == '}';
        proof {
            if n >= 6 {
                assert(crate::text::ends_with(s, ":path}"@) <==> ends_path) by {
                    reveal_strlit(":path}");
                    if ends_path {
                        assert(s.skip(n - 6) =~= ":path}"@);
                    }
                    if crate::text::ends_with(s, ":path}"@) {
                        assert(s.skip(n - 6)[0] == s[n - 6]);
                        assert(s.skip(n - 6)[1] == s[n - 5]);
                        assert(s.skip(n - 6)[2] == s[n - 4]);
                        assert(s.skip(n - 6)[3] == s[n - 3]);
                        assert(s.skip(n - 6)[4] == s[n - 2]);
                        assert(s.skip(n - 6)[5] == s[n - 1]);
                    }
                }
            } else {
                reveal_strlit(":path}");
            }
        }
        let d = if n > 0 && (seg[0] == '*' || (seg[0] == '{' && ends_path)) {
            Declared::Rest
        } else if n > 0 && (seg[0] == '{' || seg[0] == ':') {
            Declared::Parameter
        } else {
            Declared::Literal(string_of(seg.as_slice()))
        };
        out.push(d);
        i = i + 1;
    }
    out
}


pub open spec fn query_mark(c: char) -> bool {
    c == '?' || c == '#'
}

/// `i` is where the path of `url` ends: its first `?` or `#`, or its end.
pub open spec fn path_end(url: Seq<char>, i: int) -> bool {
    &&& 0 <= i <= url.len()
    &&& i < url.len() ==> query_mark(url[i])
    &&& forall|k: int| 0 <= k < i ==> !query_mark(#[trigger] url[k])
}

pub open spec fn double_slash_at(s: Seq<char>, i: int) -> bool {
    0 <= i && i + 1 < s.len() && s[i] == '/' && s[i + 1] == '/'
}

/// `i` is the first `//` in `s`, or its length where there is none.
pub open spec fn first_double_slash(s: Seq<char>, i: int) -> bool {
    &&& 0 <= i <= s.len()
    &&& (i == s.len() || double_slash_at(s, i))
    &&& forall|k: int| 0 <= k < i ==> !#[trigger] double_slash_at(s, k)
}

/// `i` is the first `/` in `s`, or its length where there is none.
pub open spec fn first_slash(s: Seq<char>, i: int) -> bool {
    &&& 0 <= i <= s.len()
    &&& i < s.len() ==> s[i] == '/'
    &&& forall|k: int| 0 <= k < i ==> #[trigger] s[k] != '/'
}

/// The path of `url` and whether it names a host: before `?` or `#`; after
/// the host when a `//` begins the text or follows a scheme's `:`.
pub open spec fn url_path(url: Seq<char>, path: Seq<char>, absolute: bool) -> bool {
    exists|e: int, d: int| #![trigger path_end(url, e), first_double_slash(url.take(e), d)]
        path_end(url, e) && first_double_slash(url.take(e), d) && {
        let p = url.take(e);
        if d < p.len() && (d == 0 || p[d - 1] == ':') {
            absolute && exists|j: int| #[trigger] first_slash(p.skip(d + 2), j) && path == p.skip(d + 2).skip(j)
        } else {
            !absolute && path == p
        }
    }
}

/// The parts of a URL path that name something: not empty, not `.`.
pub open spec fn named_parts(parts: Seq<Seq<char>>) -> Seq<Seq<char>>
    decreases parts.len(),
{
    if parts.len() == 0 {
        Seq::empty()
    } else if parts.last().len() == 0 || parts.last() == seq!['.'] {
        named_parts(parts.drop_last())
    } else {
        named_parts(parts.drop_last()).push(parts.last())
    }
}

/// `w` is the segment `seg` of a call's URL: a runtime part where it holds
/// one.
pub open spec fn wants(seg: Seq<char>, w: Wanted) -> bool {
    if contains_char(seg, RUNTIME) {
        w is Runtime
    } else {
        w matches Wanted::Literal(s) && s@ == seg
    }
}

fn position_of_query(s: &[char]) -> (r: usize)
    ensures
        path_end(s@, r as int),
{
    let mut i: usize = 0;
    while i < s.len() && s[i] != '?' && s[i] != '#'
        invariant
            i <= s@.len(),
            forall|k: int| 0 <= k < i ==> !query_mark(#[trigger] s@[k]),
        decreases s@.len() - i,
    {
        i = i + 1;
    }
    i
}

fn position_of_double_slash(s: &[char]) -> (r: usize)
    ensures
        first_double_slash(s@, r as int),
{
    let mut i: usize = 0;
    while i < s.len()
        invariant
            i <= s@.len(),
            forall|k: int| 0 <= k < i ==> !#[trigger] double_slash_at(s@, k),
        decreases s@.len() - i,
    {
        if i + 1 < s.len() && s[i] == '/' && s[i + 1] == '/' {
            return i;
        }
        i = i + 1;
    }
    i
}

fn position_of_slash(s: &[char]) -> (r: usize)
    ensures
        first_slash(s@, r as int),
{
    let mut i: usize = 0;
    while i < s.len() && s[i] != '/'
        invariant
            i <= s@.len(),
            forall|k: int| 0 <= k < i ==> #[trigger] s@[k] != '/',
        decreases s@.len() - i,
    {
        i = i + 1;
    }
    i
}

fn named(parts: Vec<Vec<char>>) -> (r: Vec<Vec<char>>)
    ensures
        parts_view(r@) == named_parts(parts_view(parts@)),
{
    let mut out: Vec<Vec<char>> = Vec::new();
    let mut i: usize = 0;
    proof {
        assert(parts_view(parts@).take(0) =~= Seq::<Seq<char>>::empty());
    }
    while i < parts.len()
        invariant
            i <= parts@.len(),
            parts_view(out@) == named_parts(parts_view(parts@).take(i as int)),
        decreases parts@.len() - i,
    {
        proof {
            assert(parts_view(parts@).take(i + 1).drop_last() =~= parts_view(parts@).take(i as int));
            assert(parts_view(parts@).take(i + 1).last() == parts@[i as int]@);
        }
        let dot = parts[i].len() == 1 && parts[i][0] == '.';
        proof {
            assert(dot <==> parts@[i as int]@ == seq!['.']) by {
                if parts@[i as int]@ == seq!['.'] {
                    assert(parts@[i as int]@[0] == '.');
                }
                if dot {
                    assert(parts@[i as int]@ =~= seq!['.']);
                }
            }
        }
        if parts[i].len() > 0 && !dot {
            let ghost before = parts_view(out@);
            out.push(parts[i].clone());
            proof {
                assert(parts_view(out@) =~= before.push(parts@[i as int]@));
            }
        }
        i = i + 1;
    }
    proof {
        assert(parts_view(parts@).take(parts@.len() as int) =~= parts_view(parts@));
    }
    out
}

/// The path of a call's URL, segment by segment with runtime parts marked,
/// and whether the URL names a host.
pub fn wanted(url: &str) -> (r: (Vec<Wanted>, bool))
    ensures
        exists|path: Seq<char>| #[trigger] url_path(url@, path, r.1) && r.0@.len() == named_parts(split(path, '/')).len()
            && forall|i: int| 0 <= i < r.0@.len() ==> wants(named_parts(split(path, '/'))[i], #[trigger] r.0@[i]),
{
    let chars = chars_of(url);
    let e = position_of_query(chars.as_slice());
    let p = crate::text::slice_chars(chars.as_slice(), 0, e);
    proof {
        assert(p@ =~= url@.take(e as int));
    }
    let d = position_of_double_slash(p.as_slice());
    let host = d < p.len() && (d == 0 || p[d - 1] == ':');
    let path: Vec<char> = if host {
        let rest = crate::text::slice_chars(p.as_slice(), d + 2, p.len());
        proof {
            assert(rest@ =~= p@.skip(d + 2));
        }
        let j = position_of_slash(rest.as_slice());
        let tail = crate::text::slice_chars(rest.as_slice(), j, rest.len());
        proof {
            assert(tail@ =~= rest@.skip(j as int));
            assert(url_path(url@, tail@, true));
        }
        tail
    } else {
        proof {
            assert(url_path(url@, p@, false));
        }
        p
    };
    let parts = named(split_chars(path.as_slice(), '/'));
    let mut out: Vec<Wanted> = Vec::new();
    let mut i: usize = 0;
    while i < parts.len()
        invariant
            i <= parts@.len(),
            parts_view(parts@) == named_parts(split(path@, '/')),
            url_path(url@, path@, host),
            out@.len() == i,
            forall|k: int| 0 <= k < i ==> wants(named_parts(split(path@, '/'))[k], #[trigger] out@[k]),
        decreases parts@.len() - i,
    {
        let seg = &parts[i];
        let runtime = crate::text::has_char(seg.as_slice(), RUNTIME);
        let w = if runtime {
            Wanted::Runtime
        } else {
            Wanted::Literal(string_of(seg.as_slice()))
        };
        out.push(w);
        proof {
            assert(seg@ == named_parts(split(path@, '/'))[i as int]);
        }
        i = i + 1;
    }
    proof {
        assert(parts_view(parts@).len() == parts@.len());
        assert(url_path(url@, path@, host) && out@.len() == named_parts(split(path@, '/')).len());
        assert(forall|i: int| 0 <= i < out@.len() ==> wants(named_parts(split(path@, '/'))[i], #[trigger] out@[i]));
    }
    let r = (out, host);
    proof {
        assert(r.0@ == out@);
        assert(r.1 == host);
        assert(url_path(url@, path@, r.1));
    }
    r
}

/// How specific a match of the call's segments `w` with the route's `d` is,
/// counting literal segments from `i` on with `lit` counted so far.
pub open spec fn score_from(w: Seq<Wanted>, d: Seq<Declared>, i: int, lit: nat) -> Option<nat>
    decreases d.len() - i,
{
    if i < 0 || i >= d.len() {
        if w.len() == d.len() && lit > 0 {
            Some(lit)
        } else {
            None
        }
    } else {
        match d[i] {
            Declared::Rest => if lit > 0 {
                Some(lit)
            } else {
                None
            },
            Declared::Literal(expected) => if i < w.len() && (w[i] matches Wanted::Literal(actual) && actual@ == expected@) {
                score_from(w, d, i + 1, lit + 1)
            } else {
                None
            },
            Declared::Parameter => if i < w.len() {
                score_from(w, d, i + 1, lit)
            } else {
                None
            },
        }
    }
}

/// The number of literal route segments a call matches, if it matches: a
/// route of parameters only (a single-page app's catch-all) matches nothing.
pub fn score(wanted: &[Wanted], declared: &[Declared]) -> (r: Option<usize>)
    ensures
        match r {
            Some(n) => score_from(wanted@, declared@, 0, 0) == Some(n as nat),
            None => score_from(wanted@, declared@, 0, 0) is None,
        },
{
    let mut literals: usize = 0;
    let mut index: usize = 0;
    while index < declared.len()
        invariant
            index <= declared@.len(),
            literals <= index,
            score_from(wanted@, declared@, 0, 0) == score_from(wanted@, declared@, index as int, literals as nat),
        decreases declared@.len() - index,
    {
        match &declared[index] {
            Declared::Rest => {
                return if literals > 0 { Some(literals) } else { None };
            },
            Declared::Literal(expected) => {
                if index < wanted.len() {
                    match &wanted[index] {
                        Wanted::Literal(actual) => {
                            if crate::text::str_eq(expected.as_str(), actual.as_str()) {
                                literals = literals + 1;
                            } else {
                                return None;
                            }
                        },
                        Wanted::Runtime => {
                            return None;
                        },
                    }
                } else {
                    return None;
                }
            },
            Declared::Parameter => {
                if index >= wanted.len() {
                    return None;
                }
            },
        }
        index = index + 1;
    }
    if wanted.len() == declared.len() && literals > 0 {
        Some(literals)
    } else {
        None
    }
}

pub open spec fn piece_text(p: Piece) -> Seq<char> {
    match p {
        Piece::Text(t) => t@,
        Piece::Param => seq![RUNTIME],
    }
}

pub open spec fn pieces_text(ps: Seq<Piece>) -> Seq<char>
    decreases ps.len(),
{
    if ps.len() == 0 {
        Seq::empty()
    } else {
        pieces_text(ps.drop_last()) + piece_text(ps.last())
    }
}

/// A URL's text, with `RUNTIME` for each part unknown statically.
pub fn display(url: &[Piece]) -> (r: String)
    ensures
        r@ == pieces_text(url@),
{
    let mut out = String::new();
    let mut i: usize = 0;
    proof {
        assert(url@.take(0) =~= Seq::<Piece>::empty());
    }
    while i < url.len()
        invariant
            i <= url@.len(),
            out@ == pieces_text(url@.take(i as int)),
        decreases url@.len() - i,
    {
        match &url[i] {
            Piece::Text(t) => {
                out.append(t.as_str());
            },
            Piece::Param => {
                let runtime = string_of(&[RUNTIME]);
                proof {
                    assert(runtime@ =~= seq![RUNTIME]);
                }
                out.append(runtime.as_str());
            },
        }
        proof {
            assert(url@.take(i + 1).drop_last() =~= url@.take(i as int));
        }
        i = i + 1;
    }
    proof {
        assert(url@.take(url@.len() as int) =~= url@);
    }
    out
}


/// Where the path of `url` ends: its first `?` or `#`, or its end.
pub open spec fn query_end(url: Seq<char>) -> int {
    choose|i: int| path_end(url, i)
}

proof fn lemma_path_end_unique(url: Seq<char>, i: int, j: int)
    requires
        path_end(url, i),
        path_end(url, j),
    ensures
        i == j,
{
    if i < j {
        assert(!query_mark(url[i]));
    } else if j < i {
        assert(!query_mark(url[j]));
    }
}

/// Where the path of `url` ends.
pub fn query_end_exec(url: &[char]) -> (r: usize)
    ensures
        r == query_end(url@),
        r <= url@.len(),
{
    let r = position_of_query(url);
    proof {
        let q = query_end(url@);
        assert(path_end(url@, q));
        lemma_path_end_unique(url@, r as int, q);
    }
    r
}


/// Why a client call reaches no route.
#[derive(Debug, Clone, Copy, PartialEq, Eq)]
pub enum CallProblem {
    /// Its URL names another host and no route matches.
    External,
    /// No route matches its URL.
    NoRoute,
    /// Routes match its URL, none with its method.
    WrongMethod,
}

/// The score of route `d` for the call's segments `w`, if it matches.
pub open spec fn route_score(w: Seq<Wanted>, d: Seq<Declared>) -> Option<nat> {
    score_from(w, d, 0, 0)
}

/// A route accepts a call's method when either leaves it open or both agree.
pub open spec fn accepts(called: Option<String>, accepted: Option<String>) -> bool {
    match (called, accepted) {
        (Some(a), Some(b)) => a@ == b@,
        _ => true,
    }
}

pub open spec fn matching(w: Seq<Wanted>, ds: Seq<Vec<Declared>>, i: int) -> bool {
    0 <= i < ds.len() && route_score(w, ds[i]@) is Some
}

pub open spec fn accepting(w: Seq<Wanted>, m: Option<String>, ms: Seq<Option<String>>, ds: Seq<Vec<Declared>>, i: int) -> bool {
    matching(w, ds, i) && accepts(m, ms[i])
}

/// A route the call reaches: accepting it with the highest score.
pub open spec fn best_route(w: Seq<Wanted>, m: Option<String>, ms: Seq<Option<String>>, ds: Seq<Vec<Declared>>, i: int) -> bool {
    &&& accepting(w, m, ms, ds, i)
    &&& forall|j: int| #[trigger] accepting(w, m, ms, ds, j) ==> route_score(w, ds[j]@)->0 <= route_score(w, ds[i]@)->0
}

/// The routes a call with the path segments `wanted` (`absolute` when its
/// URL names a host) and the method `method` reaches, among routes with
/// the methods `methods` and the declared paths `declared`: those that
/// accept it with the highest score, in order; or why it reaches none.
pub fn call_routes(wanted: &Vec<Wanted>, absolute: bool, method: &Option<String>, methods: &Vec<Option<String>>,
    declared: &Vec<Vec<Declared>>) -> (r: Result<Vec<usize>, CallProblem>)
    requires
        methods@.len() == declared@.len(),
    ensures
        r is Ok <==> exists|i: int| #[trigger] accepting(wanted@, *method, methods@, declared@, i),
        r == Err::<Vec<usize>, CallProblem>(CallProblem::External) <==> (absolute && forall|i: int| !#[trigger] matching(wanted@, declared@, i)),
        r == Err::<Vec<usize>, CallProblem>(CallProblem::NoRoute) <==> (!absolute && forall|i: int| !#[trigger] matching(wanted@, declared@, i)),
        match r {
            Ok(v) => {
                &&& forall|a: int, b: int| 0 <= a < b < v@.len() ==> v@[a] < v@[b]
                &&& forall|i: int| (exists|q: int| 0 <= q < v@.len() && v@[q] == i) <==> #[trigger] best_route(wanted@, *method, methods@, declared@, i)
            },
            Err(_) => true,
        },
{
    let mut scores: Vec<Option<usize>> = Vec::new();
    let mut any = false;
    let mut best: Option<usize> = None;
    let mut i: usize = 0;
    while i < declared.len()
        invariant
            i <= declared@.len(),
            methods@.len() == declared@.len(),
            scores@.len() == i,
            forall|j: int| 0 <= j < i ==> match #[trigger] scores@[j] {
                Some(n) => route_score(wanted@, declared@[j]@) == Some(n as nat),
                None => route_score(wanted@, declared@[j]@) is None,
            },
            any == exists|j: int| 0 <= j < i && #[trigger] matching(wanted@, declared@, j),
            match best {
                None => forall|j: int| 0 <= j < i ==> !#[trigger] accepting(wanted@, *method, methods@, declared@, j),
                Some(b) => (exists|j: int| 0 <= j < i && #[trigger] accepting(wanted@, *method, methods@, declared@, j)
                    && route_score(wanted@, declared@[j]@) == Some(b as nat))
                    && forall|j: int| 0 <= j < i && #[trigger] accepting(wanted@, *method, methods@, declared@, j)
                        ==> route_score(wanted@, declared@[j]@)->0 <= b,
            },
        decreases declared@.len() - i,
    {
        let s = score(wanted.as_slice(), declared[i].as_slice());
        let ok_method = match (method, &methods[i]) {
            (Some(a), Some(b)) => crate::text::str_eq(a.as_str(), b.as_str()),
            _ => true,
        };
        proof {
            assert(ok_method == accepts(*method, methods@[i as int]));
        }
        match s {
            Some(n) => {
                any = true;
                if ok_method {
                    best = match best {
                        None => Some(n),
                        Some(b) => if n > b { Some(n) } else { Some(b) },
                    };
                }
            },
            None => {},
        }
        scores.push(s);
        proof {
            assert(scores@[i as int] == s);
            assert(matching(wanted@, declared@, i as int) == (s is Some));
            assert(accepting(wanted@, *method, methods@, declared@, i as int) == (s is Some && ok_method));
            if s is Some {
                assert(0 <= i < i + 1 && matching(wanted@, declared@, i as int));
            }
            assert(any == exists|j: int| 0 <= j < i + 1 && #[trigger] matching(wanted@, declared@, j)) by {
                if exists|j: int| 0 <= j < i + 1 && #[trigger] matching(wanted@, declared@, j) {
                    let j = choose|j: int| 0 <= j < i + 1 && #[trigger] matching(wanted@, declared@, j);
                    if j < i {
                        assert(exists|j2: int| 0 <= j2 < i && #[trigger] matching(wanted@, declared@, j2));
                    }
                }
            }
        }
        i = i + 1;
    }
    let top = match best {
        None => {
            if !any {
                if absolute {
                    return Err(CallProblem::External);
                }
                return Err(CallProblem::NoRoute);
            }
            proof {
                let j = choose|j: int| 0 <= j < i && #[trigger] matching(wanted@, declared@, j);
                assert(!accepting(wanted@, *method, methods@, declared@, j));
            }
            return Err(CallProblem::WrongMethod);
        },
        Some(b) => b,
    };
    let mut out: Vec<usize> = Vec::new();
    let mut k: usize = 0;
    while k < declared.len()
        invariant
            k <= declared@.len(),
            methods@.len() == declared@.len(),
            scores@.len() == declared@.len(),
            forall|j: int| 0 <= j < declared@.len() ==> match #[trigger] scores@[j] {
                Some(n) => route_score(wanted@, declared@[j]@) == Some(n as nat),
                None => route_score(wanted@, declared@[j]@) is None,
            },
            exists|j: int| 0 <= j < declared@.len() && #[trigger] accepting(wanted@, *method, methods@, declared@, j)
                && route_score(wanted@, declared@[j]@) == Some(top as nat),
            forall|j: int| 0 <= j < declared@.len() && #[trigger] accepting(wanted@, *method, methods@, declared@, j)
                ==> route_score(wanted@, declared@[j]@)->0 <= top,
            forall|a: int| 0 <= a < out@.len() ==> out@[a] < k,
            forall|a: int, b: int| 0 <= a < b < out@.len() ==> out@[a] < out@[b],
            forall|i: int| 0 <= i < k ==> ((exists|q: int| 0 <= q < out@.len() && out@[q] == i) <==> #[trigger] best_route(wanted@, *method, methods@, declared@, i)),
            forall|q: int| 0 <= q < out@.len() ==> out@[q] < k,
        decreases declared@.len() - k,
    {
        let ok_method = match (method, &methods[k]) {
            (Some(a), Some(b)) => crate::text::str_eq(a.as_str(), b.as_str()),
            _ => true,
        };
        let hit = match scores[k] {
            Some(n) => ok_method && n == top,
            None => false,
        };
        proof {
            assert(scores@[k as int] == scores[k as int]);
            if hit {
                assert(accepting(wanted@, *method, methods@, declared@, k as int));
                assert(best_route(wanted@, *method, methods@, declared@, k as int));
            } else if best_route(wanted@, *method, methods@, declared@, k as int) {
                let j = choose|j: int| 0 <= j < declared@.len() && #[trigger] accepting(wanted@, *method, methods@, declared@, j)
                    && route_score(wanted@, declared@[j]@) == Some(top as nat);
                assert(route_score(wanted@, declared@[j]@)->0 <= route_score(wanted@, declared@[k as int]@)->0);
            }
        }
        let ghost old_out = out@;
        if hit {
            out.push(k);
        }
        proof {
            assert forall|i: int| 0 <= i < k + 1 implies ((exists|q: int| 0 <= q < out@.len() && out@[q] == i) <==> #[trigger] best_route(wanted@, *method, methods@, declared@, i)) by {
                if i < k {
                    if exists|q: int| 0 <= q < out@.len() && out@[q] == i {
                        let q = choose|q: int| 0 <= q < out@.len() && out@[q] == i;
                        if q < old_out.len() {
                            assert(old_out[q] == i);
                        }
                    }
                    if exists|q: int| 0 <= q < old_out.len() && old_out[q] == i {
                        let q = choose|q: int| 0 <= q < old_out.len() && old_out[q] == i;
                        assert(out@[q] == i);
                    }
                } else {
                    if hit {
                        assert(out@[out@.len() - 1] == i);
                    } else {
                        if exists|q: int| 0 <= q < out@.len() && out@[q] == i {
                            let q = choose|q: int| 0 <= q < out@.len() && out@[q] == i;
                            assert(out@[q] == old_out[q]);
                        }
                    }
                }
            }
        }
        k = k + 1;
    }
    proof {
        assert forall|i: int| (exists|q: int| 0 <= q < out@.len() && out@[q] == i) <==> #[trigger] best_route(wanted@, *method, methods@, declared@, i) by {
            if 0 <= i < declared@.len() {
                assert(0 <= i < k);
            } else {
                assert(!matching(wanted@, declared@, i));
                if exists|q: int| 0 <= q < out@.len() && out@[q] == i {
                    let q = choose|q: int| 0 <= q < out@.len() && out@[q] == i;
                    assert(out@[q] < k);
                }
            }
        }
    }
    proof {
        assert(forall|a: int, b: int| 0 <= a < b < out@.len() ==> out@[a] < out@[b]);
        assert(forall|i: int| (exists|q: int| 0 <= q < out@.len() && out@[q] == i) <==> #[trigger] best_route(wanted@, *method, methods@, declared@, i));
    }
    let r: Result<Vec<usize>, CallProblem> = Ok(out);
    proof {
        let v = r->Ok_0;
        assert(v@ == out@);
        assert(forall|a: int, b: int| 0 <= a < b < v@.len() ==> v@[a] < v@[b]);
        assert(forall|i: int| (exists|q: int| 0 <= q < v@.len() && v@[q] == i) <==> #[trigger] best_route(wanted@, *method, methods@, declared@, i));
    }
    r
}

} // verus!
