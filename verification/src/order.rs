//! The order of strings that `str::cmp` uses (by code point, which is the
//! order of their UTF-8 bytes), and sorting by it.
use vstd::prelude::*;
use crate::text::{chars_of, chars_eq, views};

verus! {

/// `a <= b` in the order of `str::cmp`.
pub open spec fn lex_le(a: Seq<char>, b: Seq<char>) -> bool
    decreases a.len(),
{
    if a.len() == 0 {
        true
    } else if b.len() == 0 {
        false
    } else if a[0] != b[0] {
        (a[0] as u32) < (b[0] as u32)
    } else {
        lex_le(a.drop_first(), b.drop_first())
    }
}

pub open spec fn lex_lt(a: Seq<char>, b: Seq<char>) -> bool {
    lex_le(a, b) && a != b
}

pub proof fn lemma_char_code_injective(x: char, y: char)
    requires
        x as u32 == y as u32,
    ensures
        x == y,
{
}

pub proof fn lemma_lex_total(a: Seq<char>, b: Seq<char>)
    ensures
        lex_le(a, b) || lex_le(b, a),
    decreases a.len(),
{
    if a.len() > 0 && b.len() > 0 && a[0] != b[0] && a[0] as u32 == b[0] as u32 {
        lemma_char_code_injective(a[0], b[0]);
    }
    if a.len() > 0 && b.len() > 0 && a[0] == b[0] {
        lemma_lex_total(a.drop_first(), b.drop_first());
    }
}

pub proof fn lemma_lex_antisymmetric(a: Seq<char>, b: Seq<char>)
    requires
        lex_le(a, b),
        lex_le(b, a),
    ensures
        a == b,
    decreases a.len(),
{
    if a.len() > 0 && b.len() > 0 {
        lemma_lex_antisymmetric(a.drop_first(), b.drop_first());
        assert(a =~= seq![a[0]] + a.drop_first());
        assert(b =~= seq![b[0]] + b.drop_first());
    }
}

pub proof fn lemma_lex_transitive(a: Seq<char>, b: Seq<char>, c: Seq<char>)
    requires
        lex_le(a, b),
        lex_le(b, c),
    ensures
        lex_le(a, c),
    decreases a.len(),
{
    if a.len() > 0 && b.len() > 0 && c.len() > 0 && a[0] == b[0] && b[0] == c[0] {
        lemma_lex_transitive(a.drop_first(), b.drop_first(), c.drop_first());
    }
}

pub proof fn lemma_lex_reflexive(a: Seq<char>)
    ensures
        lex_le(a, a),
    decreases a.len(),
{
    if a.len() > 0 {
        lemma_lex_reflexive(a.drop_first());
    }
}

/// Whether `a <= b` in the order of `str::cmp`.
pub fn chars_le(a: &[char], b: &[char]) -> (r: bool)
    ensures
        r == lex_le(a@, b@),
{
    let mut i: usize = 0;
    proof {
        assert(a@.skip(0) =~= a@);
        assert(b@.skip(0) =~= b@);
    }
    while i < a.len() && i < b.len()
        invariant
            i <= a@.len(),
            i <= b@.len(),
            lex_le(a@, b@) == lex_le(a@.skip(i as int), b@.skip(i as int)),
        decreases a@.len() - i,
    {
        if a[i] != b[i] {
            return (a[i] as u32) < (b[i] as u32);
        }
        proof {
            assert(a@.skip(i as int).drop_first() =~= a@.skip(i + 1));
            assert(b@.skip(i as int).drop_first() =~= b@.skip(i + 1));
        }
        i = i + 1;
    }
    i == a.len()
}

/// Whether `a <= b` in the order of `str::cmp`.
pub fn str_le(a: &str, b: &str) -> (r: bool)
    ensures
        r == lex_le(a@, b@),
{
    let x = chars_of(a);
    let y = chars_of(b);
    chars_le(x.as_slice(), y.as_slice())
}

/// Strictly ascending: sorted and free of repetitions.
pub open spec fn strictly_sorted(s: Seq<Seq<char>>) -> bool {
    forall|i: int, j: int| 0 <= i < j < s.len() ==> lex_lt(#[trigger] s[i], #[trigger] s[j])
}

pub open spec fn seq_has(s: Seq<Seq<char>>, x: Seq<char>) -> bool {
    exists|i: int| 0 <= i < s.len() && s[i] == x
}

/// The strings of `v` in ascending order with repetitions removed, as
/// collecting into a `BTreeSet` or `sort` followed by `dedup` gives them.
pub fn sorted_unique(v: &Vec<String>) -> (r: Vec<String>)
    ensures
        strictly_sorted(views(r@)),
        forall|x: Seq<char>| seq_has(views(r@), x) <==> seq_has(views(v@), x),
{
    let mut out: Vec<String> = Vec::new();
    let mut k: usize = 0;
    while k < v.len()
        invariant
            k <= v@.len(),
            strictly_sorted(views(out@)),
            forall|x: Seq<char>| seq_has(views(out@), x) <==> seq_has(views(v@).take(k as int), x),
        decreases v@.len() - k,
    {
        let x = &v[k];
        let xc = chars_of(x.as_str());
        let mut pos: usize = 0;
        let mut found = false;
        let mut stop = false;
        let ghost o = views(out@);
        while pos < out.len() && !stop
            invariant
                pos <= out@.len(),
                o == views(out@),
                xc@ == x@,
                strictly_sorted(o),
                forall|i: int| 0 <= i < pos ==> lex_lt(#[trigger] o[i], x@),
                found ==> stop && pos < o.len() && o[pos as int] == x@,
                stop && !found ==> pos < o.len() && !lex_le(o[pos as int], x@),
            decreases out@.len() - pos + (if stop { 0int } else { 1int }),
        {
            let yc = chars_of(out[pos].as_str());
            proof {
                assert(o[pos as int] == yc@);
            }
            if chars_eq(yc.as_slice(), xc.as_slice()) {
                found = true;
                stop = true;
            } else if !chars_le(yc.as_slice(), xc.as_slice()) {
                stop = true;
            } else {
                pos = pos + 1;
            }
        }
        let ghost before = views(out@);
        proof {
            assert(views(v@).take(k + 1) =~= views(v@).take(k as int).push(x@));
        }
        if !found {
            proof {
                if pos < out@.len() {
                    lemma_lex_total(o[pos as int], x@);
                    assert(lex_lt(x@, o[pos as int]));
                    assert forall|j: int| pos <= j < o.len() implies lex_lt(x@, #[trigger] o[j]) by {
                        if j > pos {
                            assert(lex_lt(o[pos as int], o[j]));
                            lemma_lex_transitive(x@, o[pos as int], o[j]);
                            if x@ == o[j] {
                                lemma_lex_antisymmetric(o[pos as int], o[j]);
                            }
                        }
                    }
                }
            }
            out.insert(pos, x.clone());
            proof {
                let n = views(out@);
                assert(n =~= before.insert(pos as int, x@));
                assert forall|i: int, j: int| 0 <= i < j < n.len() implies lex_lt(#[trigger] n[i], #[trigger] n[j]) by {
                    if j < pos {
                    } else if j == pos {
                    } else if i < pos {
                        assert(n[j] == o[j - 1]);
                        if j - 1 == pos as int {
                        } else {
                            assert(lex_lt(x@, o[j - 1]));
                        }
                        assert(lex_lt(o[i], x@));
                        lemma_lex_transitive(o[i], x@, o[j - 1]);
                        if o[i] == o[j - 1] {
                            lemma_lex_antisymmetric(o[i], x@);
                        }
                    } else if i == pos {
                        assert(n[j] == o[j - 1]);
                    } else {
                        assert(n[i] == o[i - 1] && n[j] == o[j - 1]);
                    }
                }
                assert forall|y: Seq<char>| seq_has(n, y) <==> seq_has(views(v@).take(k + 1), y) by {
                    let t = views(v@).take(k + 1);
                    if seq_has(n, y) {
                        let i = choose|i: int| 0 <= i < n.len() && n[i] == y;
                        if i < pos {
                            assert(n[i] == o[i]);
                            assert(seq_has(o, y));
                            let m = choose|m: int| 0 <= m < k && views(v@).take(k as int)[m] == y;
                            assert(t[m] == y);
                        } else if i == pos {
                            assert(t[k as int] == y);
                        } else {
                            assert(n[i] == o[i - 1]);
                            assert(seq_has(o, y));
                            let m = choose|m: int| 0 <= m < k && views(v@).take(k as int)[m] == y;
                            assert(t[m] == y);
                        }
                    }
                    if seq_has(t, y) {
                        let m = choose|m: int| 0 <= m < t.len() && t[m] == y;
                        if m == k {
                            assert(n[pos as int] == y);
                        } else {
                            assert(views(v@).take(k as int)[m] == y);
                            assert(seq_has(views(v@).take(k as int), y));
                            assert(seq_has(o, y));
                            let i = choose|i: int| 0 <= i < o.len() && o[i] == y;
                            if i < pos {
                                assert(n[i] == y);
                            } else {
                                assert(n[i + 1] == y);
                            }
                        }
                    }
                }
            }
        } else {
            proof {
                assert forall|y: Seq<char>| seq_has(o, y) <==> seq_has(views(v@).take(k + 1), y) by {
                    let t = views(v@).take(k + 1);
                    if seq_has(t, y) {
                        let m = choose|m: int| 0 <= m < t.len() && t[m] == y;
                        if m == k {
                            assert(o[pos as int] == y);
                        } else {
                            assert(views(v@).take(k as int)[m] == y);
                        }
                    }
                    if seq_has(o, y) {
                        let i = choose|i: int| 0 <= i < o.len() && o[i] == y;
                        assert(seq_has(views(v@).take(k as int), y));
                        let m = choose|m: int| 0 <= m < k && views(v@).take(k as int)[m] == y;
                        assert(t[m] == y);
                    }
                }
            }
        }
        k = k + 1;
    }
    proof {
        assert(views(v@).take(v@.len() as int) =~= views(v@));
    }
    out
}

/// A value with a string identity that it is sorted by.
pub trait Identified {
    spec fn ident(&self) -> Seq<char>;

    fn ident_str(&self) -> (r: &str)
        ensures
            r@ == self.ident(),
    ;
}

/// No two items share an identity.
pub open spec fn idents_unique<T: Identified>(s: Seq<T>) -> bool {
    forall|i: int, j: int| 0 <= i < j < s.len() ==> (#[trigger] s[i]).ident() != (#[trigger] s[j]).ident()
}

/// Identities that are unique stay unique in any reordering.
pub proof fn lemma_idents_unique_permuted<T: Identified>(s: Seq<T>, t: Seq<T>)
    requires
        idents_unique(s),
        t.to_multiset() == s.to_multiset(),
    ensures
        idents_unique(t),
    decreases s.len(),
{
    broadcast use vstd::seq_lib::group_to_multiset_ensures;

    if s.len() > 0 {
        let x = s.last();
        let rest = s.drop_last();
        assert(s == rest.push(x));
        assert(s.to_multiset().count(x) > 0) by {
            assert(s.contains(x)) by {
                assert(s[s.len() - 1] == x);
            }
        }
        assert(t.contains(x));
        let k = choose|k: int| 0 <= k < t.len() && t[k] == x;
        let u = t.remove(k);
        assert(u.to_multiset() == rest.to_multiset()) by {
            assert(u.to_multiset() =~= t.to_multiset().remove(x));
            assert(s.to_multiset() =~= rest.to_multiset().insert(x));
        }
        assert(idents_unique(rest)) by {
            assert forall|i: int, j: int| 0 <= i < j < rest.len() implies (#[trigger] rest[i]).ident() != (#[trigger] rest[j]).ident() by {
                assert(rest[i] == s[i] && rest[j] == s[j]);
            }
        }
        lemma_idents_unique_permuted(rest, u);
        // Every item but the one at `k` lies in `rest`, whose identities differ from that of `x`.
        assert forall|m: int| 0 <= m < t.len() && m != k implies (#[trigger] t[m]).ident() != x.ident() by {
            let y = t[m];
            let um = if m < k { m } else { m - 1 };
            assert(u[um] == y);
            assert(u.contains(y));
            assert(rest.to_multiset().count(y) > 0);
            assert(rest.contains(y));
            let q = choose|q: int| 0 <= q < rest.len() && rest[q] == y;
            assert(s[q] == y);
            assert(s[s.len() - 1] == x);
        }
        assert forall|i: int, j: int| 0 <= i < j < t.len() implies (#[trigger] t[i]).ident() != (#[trigger] t[j]).ident() by {
            if i == k {
                assert(t[j].ident() != x.ident());
            } else if j == k {
                assert(t[i].ident() != x.ident());
            } else {
                let ui = if i < k { i } else { i - 1 };
                let uj = if j < k { j } else { j - 1 };
                assert(u[ui] == t[i] && u[uj] == t[j]);
                assert(ui < uj);
            }
        }
    } else {
        assert(t.len() == 0) by {
            assert(t.to_multiset().len() == 0);
        }
    }
}

pub open spec fn sorted_by_ident<T: Identified>(s: Seq<T>) -> bool {
    forall|i: int, j: int| 0 <= i < j < s.len() ==> lex_le(#[trigger] s[i].ident(), #[trigger] s[j].ident())
}

/// The same values ordered by their identities, as `sort_by` on them does.
pub fn sort_by_ident<T: Identified>(v: Vec<T>) -> (r: Vec<T>)
    ensures
        sorted_by_ident(r@),
        r@.to_multiset() == v@.to_multiset(),
{
    broadcast use vstd::seq_lib::group_to_multiset_ensures;
    broadcast use vstd::multiset::group_multiset_axioms;
    broadcast use vstd::multiset::lemma_multiset_empty_len;

    let mut rest = v;
    let mut out: Vec<T> = Vec::new();
    let ghost start = rest@;
    proof {
        assert(out@.to_multiset() =~= vstd::multiset::Multiset::<T>::empty());
    }
    while rest.len() > 0
        invariant
            sorted_by_ident(out@),
            out@.to_multiset().add(rest@.to_multiset()) == start.to_multiset(),
        decreases rest@.len(),
    {
        let ghost before_rest = rest@;
        let x = rest.pop().unwrap();
        proof {
            assert(before_rest =~= rest@.push(x));
        }
        let xs = chars_of(x.ident_str());
        let mut pos: usize = 0;
        let mut stop = false;
        while pos < out.len() && !stop
            invariant
                pos <= out@.len(),
                xs@ == x.ident(),
                sorted_by_ident(out@),
                forall|i: int| 0 <= i < pos ==> lex_le(#[trigger] out@[i].ident(), x.ident()),
                stop ==> pos < out@.len() && !lex_le(out@[pos as int].ident(), x.ident()),
            decreases out@.len() - pos + (if stop { 0int } else { 1int }),
        {
            let ys = chars_of(out[pos].ident_str());
            if chars_le(ys.as_slice(), xs.as_slice()) {
                pos = pos + 1;
            } else {
                stop = true;
            }
        }
        let ghost o = out@;
        proof {
            if pos < o.len() {
                lemma_lex_total(o[pos as int].ident(), x.ident());
            }
        }
        out.insert(pos, x);
        proof {
            let n = out@;
            assert(n =~= o.insert(pos as int, x));
            assert forall|i: int, j: int| 0 <= i < j < n.len() implies lex_le(#[trigger] n[i].ident(), #[trigger] n[j].ident()) by {
                if j < pos {
                } else if j == pos {
                } else if i < pos {
                    assert(n[j] == o[j - 1]);
                    if j - 1 > pos {
                        assert(lex_le(o[pos as int].ident(), o[j - 1].ident()));
                        lemma_lex_transitive(x.ident(), o[pos as int].ident(), o[j - 1].ident());
                    }
                    lemma_lex_transitive(o[i].ident(), x.ident(), o[j - 1].ident());
                } else if i == pos {
                    assert(n[j] == o[j - 1]);
                    if j - 1 > pos {
                        assert(lex_le(o[pos as int].ident(), o[j - 1].ident()));
                        lemma_lex_transitive(x.ident(), o[pos as int].ident(), o[j - 1].ident());
                    }
                } else {
                    assert(n[i] == o[i - 1] && n[j] == o[j - 1]);
                }
            }
            vstd::seq_lib::to_multiset_insert(o, pos as int, x);
            vstd::seq_lib::to_multiset_build(rest@, x);
            assert(out@.to_multiset() == o.to_multiset().insert(x));
            assert(out@.to_multiset().add(rest@.to_multiset()) =~= o.to_multiset().add(
                rest@.push(x).to_multiset(),
            ));
        }
    }
    proof {
        assert(rest@.to_multiset() =~= vstd::multiset::Multiset::<T>::empty());
        assert(out@.to_multiset().add(rest@.to_multiset()) =~= out@.to_multiset());
    }
    out
}


/// Adds `x` to an ascending list without repetitions, keeping it so.
pub fn insert_unique(list: &mut Vec<String>, x: String)
    requires
        strictly_sorted(views(old(list)@)),
    ensures
        strictly_sorted(views(final(list)@)),
        forall|y: Seq<char>| #[trigger] seq_has(views(final(list)@), y) <==> (seq_has(views(old(list)@), y) || y == x@),
{
    let ghost before = views(list@);
    let mut p: usize = 0;
    while p < list.len() && !str_le(x.as_str(), list[p].as_str())
        invariant
            p <= list@.len(),
            before == views(list@),
            forall|k: int| 0 <= k < p ==> !lex_le(x@, #[trigger] before[k]),
        decreases list@.len() - p,
    {
        p = p + 1;
    }
    if p < list.len() && crate::text::str_eq(list[p].as_str(), x.as_str()) {
        proof {
            assert forall|y: Seq<char>| #[trigger] seq_has(views(list@), y) <==> (seq_has(before, y) || y == x@) by {
                if y == x@ {
                    assert(before[p as int] == y);
                }
            }
        }
        return;
    }
    proof {
        assert forall|k: int| 0 <= k < p implies lex_lt(#[trigger] before[k], x@) by {
            lemma_lex_total(x@, before[k]);
        }
        if p < before.len() {
            assert(lex_le(x@, before[p as int]));
            assert(lex_lt(x@, before[p as int]));
        }
    }
    list.insert(p, x);
    proof {
        let after = views(list@);
        assert(after =~= before.insert(p as int, x@));
        assert forall|i: int, j: int| 0 <= i < j < after.len() implies lex_lt(#[trigger] after[i], #[trigger] after[j]) by {
            if j < p {
                assert(after[i] == before[i] && after[j] == before[j]);
            } else if j == p {
                assert(after[i] == before[i]);
            } else if i == p {
                assert(after[j] == before[j - 1]);
                if j - 1 > p {
                    assert(lex_lt(before[p as int], before[j - 1]));
                    lemma_lex_transitive(x@, before[p as int], before[j - 1]);
                    if x@ == before[j - 1] {
                        lemma_lex_antisymmetric(x@, before[p as int]);
                    }
                }
            } else if i < p {
                assert(after[i] == before[i] && after[j] == before[j - 1]);
            } else {
                assert(after[i] == before[i - 1] && after[j] == before[j - 1]);
            }
        }
        assert forall|y: Seq<char>| #[trigger] seq_has(after, y) <==> (seq_has(before, y) || y == x@) by {
            if seq_has(after, y) {
                let k = choose|k: int| 0 <= k < after.len() && after[k] == y;
                if k < p {
                    assert(before[k] == y);
                } else if k > p {
                    assert(before[k - 1] == y);
                }
            }
            if seq_has(before, y) {
                let k = choose|k: int| 0 <= k < before.len() && before[k] == y;
                if k < p {
                    assert(after[k] == y);
                } else {
                    assert(after[k + 1] == y);
                }
            }
            if y == x@ {
                assert(after[p as int] == y);
            }
        }
    }
}

} // verus!
