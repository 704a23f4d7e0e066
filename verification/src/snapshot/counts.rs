//! The dependencies of a level tallied by key, and what two tallies disagree
//! on.
use vstd::prelude::*;
use crate::evidence::order_of_text;
use crate::model::EdgeOrigin;
use crate::projection::zoom::{group_order, lemma_group_order, lemma_group_order_trans};
use super::{EdgeCount, EdgeKey};

verus! {

pub open spec fn ek(k: EdgeKey) -> (Seq<char>, Seq<char>, Seq<char>, EdgeOrigin) {
    (k.from@, k.to@, k.kind@, k.origin)
}

/// What the items with key `k` count together.
pub open spec fn total(s: Seq<((Seq<char>, Seq<char>, Seq<char>, EdgeOrigin), nat)>, k: (Seq<char>, Seq<char>, Seq<char>, EdgeOrigin)) -> nat
    decreases s.len(),
{
    if s.len() == 0 {
        0
    } else {
        total(s.drop_last(), k) + if s.last().0 == k {
            s.last().1
        } else {
            0
        }
    }
}

/// What all items count together.
pub open spec fn sum_all(s: Seq<((Seq<char>, Seq<char>, Seq<char>, EdgeOrigin), nat)>) -> nat
    decreases s.len(),
{
    if s.len() == 0 {
        0
    } else {
        sum_all(s.drop_last()) + s.last().1
    }
}

pub open spec fn present(s: Seq<((Seq<char>, Seq<char>, Seq<char>, EdgeOrigin), nat)>, k: (Seq<char>, Seq<char>, Seq<char>, EdgeOrigin)) -> bool {
    exists|i: int| 0 <= i < s.len() && (#[trigger] s[i]).0 == k
}

pub open spec fn item_view(p: (EdgeKey, usize)) -> ((Seq<char>, Seq<char>, Seq<char>, EdgeOrigin), nat) {
    (ek(p.0), p.1 as nat)
}

pub open spec fn item_views(s: Seq<(EdgeKey, usize)>) -> Seq<((Seq<char>, Seq<char>, Seq<char>, EdgeOrigin), nat)> {
    s.map_values(|p: (EdgeKey, usize)| item_view(p))
}

pub open spec fn eks_sorted(s: Seq<EdgeKey>) -> bool {
    forall|i: int, j: int| 0 <= i < j < s.len() ==> group_order(ek(#[trigger] s[i]), ek(#[trigger] s[j])) < 0
}

pub open spec fn has_ek(s: Seq<EdgeKey>, k: (Seq<char>, Seq<char>, Seq<char>, EdgeOrigin)) -> bool {
    exists|i: int| 0 <= i < s.len() && ek(#[trigger] s[i]) == k
}

/// Keys ascending without repetitions, each with what its items count.
pub open spec fn tally_of(keys: Seq<EdgeKey>, counts: Seq<usize>, s: Seq<((Seq<char>, Seq<char>, Seq<char>, EdgeOrigin), nat)>) -> bool {
    &&& keys.len() == counts.len()
    &&& eks_sorted(keys)
    &&& forall|k: (Seq<char>, Seq<char>, Seq<char>, EdgeOrigin)| #[trigger] has_ek(keys, k) <==> present(s, k)
    &&& forall|i: int| 0 <= i < keys.len() ==> counts[i] == total(s, ek(#[trigger] keys[i]))
}

pub open spec fn ec_view(e: EdgeCount) -> ((Seq<char>, Seq<char>, Seq<char>, EdgeOrigin), nat, nat) {
    (ek(e.key), e.count_before as nat, e.count_after as nat)
}

pub open spec fn ecs_sorted(s: Seq<EdgeCount>) -> bool {
    forall|i: int, j: int| 0 <= i < j < s.len() ==> group_order(ek((#[trigger] s[i]).key), ek((#[trigger] s[j]).key)) < 0
}

pub open spec fn has_count(s: Seq<EdgeCount>, x: ((Seq<char>, Seq<char>, Seq<char>, EdgeOrigin), nat, nat)) -> bool {
    exists|i: int| 0 <= i < s.len() && ec_view(#[trigger] s[i]) == x
}

/// Both tallies have the key, with different counts: `x` holds it with the
/// count then and the count now.
pub open spec fn changed_at(
    then: Seq<((Seq<char>, Seq<char>, Seq<char>, EdgeOrigin), nat)>,
    now: Seq<((Seq<char>, Seq<char>, Seq<char>, EdgeOrigin), nat)>,
    x: ((Seq<char>, Seq<char>, Seq<char>, EdgeOrigin), nat, nat),
) -> bool {
    &&& present(then, x.0)
    &&& present(now, x.0)
    &&& x.1 == total(then, x.0)
    &&& x.2 == total(now, x.0)
    &&& x.1 != x.2
}

/// Only the tally of then has the key: `x` holds it with its count then and
/// nothing now.
pub open spec fn removed_at(
    then: Seq<((Seq<char>, Seq<char>, Seq<char>, EdgeOrigin), nat)>,
    now: Seq<((Seq<char>, Seq<char>, Seq<char>, EdgeOrigin), nat)>,
    x: ((Seq<char>, Seq<char>, Seq<char>, EdgeOrigin), nat, nat),
) -> bool {
    &&& present(then, x.0)
    &&& !present(now, x.0)
    &&& x.1 == total(then, x.0)
    &&& x.2 == 0
}

proof fn lemma_total_le(s: Seq<((Seq<char>, Seq<char>, Seq<char>, EdgeOrigin), nat)>, k: (Seq<char>, Seq<char>, Seq<char>, EdgeOrigin))
    ensures
        total(s, k) <= sum_all(s),
    decreases s.len(),
{
    if s.len() > 0 {
        lemma_total_le(s.drop_last(), k);
    }
}

proof fn lemma_total_absent(s: Seq<((Seq<char>, Seq<char>, Seq<char>, EdgeOrigin), nat)>, k: (Seq<char>, Seq<char>, Seq<char>, EdgeOrigin))
    requires
        !present(s, k),
    ensures
        total(s, k) == 0,
    decreases s.len(),
{
    if s.len() > 0 {
        let t = s.drop_last();
        assert forall|i: int| 0 <= i < t.len() implies (#[trigger] t[i]).0 != k by {
            assert(t[i] == s[i]);
        }
        assert(s[s.len() - 1] == s.last());
        lemma_total_absent(t, k);
    }
}

proof fn lemma_sum_prefix(s: Seq<((Seq<char>, Seq<char>, Seq<char>, EdgeOrigin), nat)>, n: int)
    requires
        0 <= n <= s.len(),
    ensures
        sum_all(s.take(n)) <= sum_all(s),
    decreases s.len() - n,
{
    if n < s.len() {
        lemma_sum_prefix(s, n + 1);
        assert(s.take(n + 1).drop_last() =~= s.take(n));
    } else {
        assert(s.take(n) =~= s);
    }
}

fn ek_order(a: &EdgeKey, b: &EdgeKey) -> (r: i8)
    ensures
        r == group_order(ek(*a), ek(*b)),
{
    let c = order_of_text(a.from.as_str(), b.from.as_str());
    if c != 0 {
        return c;
    }
    let c = order_of_text(a.to.as_str(), b.to.as_str());
    if c != 0 {
        return c;
    }
    let c = order_of_text(a.kind.as_str(), b.kind.as_str());
    if c != 0 {
        return c;
    }
    match (a.origin, b.origin) {
        (EdgeOrigin::Observed, EdgeOrigin::Manual) => -1,
        (EdgeOrigin::Manual, EdgeOrigin::Observed) => 1,
        _ => 0,
    }
}

pub(crate) fn copy_ek(k: &EdgeKey) -> (r: EdgeKey)
    ensures
        ek(r) == ek(*k),
{
    EdgeKey { from: k.from.clone(), to: k.to.clone(), kind: k.kind.clone(), origin: k.origin }
}

/// Counts one more item, of key `k` and count `c`, in a tally.
fn add_item(keys: &mut Vec<EdgeKey>, counts: &mut Vec<usize>, k: EdgeKey, c: usize, Ghost(s): Ghost<Seq<((Seq<char>, Seq<char>, Seq<char>, EdgeOrigin), nat)>>)
    requires
        tally_of(old(keys)@, old(counts)@, s),
        sum_all(s) + c <= usize::MAX,
    ensures
        tally_of(final(keys)@, final(counts)@, s.push((ek(k), c as nat))),
{
    let ghost x = ek(k);
    let ghost o = keys@;
    let ghost oc = counts@;
    let ghost s2 = s.push((x, c as nat));
    proof {
        assert(s2.drop_last() =~= s);
        assert(s2.last() == (x, c as nat));
        assert forall|y: (Seq<char>, Seq<char>, Seq<char>, EdgeOrigin)| #[trigger] present(s2, y) <==> (present(s, y) || y == x) by {
            if present(s2, y) {
                let i = choose|i: int| 0 <= i < s2.len() && (#[trigger] s2[i]).0 == y;
                if i < s.len() {
                    assert(s2[i] == s[i]);
                }
            }
            if present(s, y) {
                let i = choose|i: int| 0 <= i < s.len() && (#[trigger] s[i]).0 == y;
                assert(s2[i] == s[i]);
            }
            if y == x {
                assert(s2[s.len() as int].0 == y);
            }
        }
    }
    let mut pos: usize = 0;
    let mut stop = false;
    while pos < keys.len() && !stop
        invariant
            pos <= keys@.len(),
            o == keys@,
            x == ek(k),
            forall|i: int| 0 <= i < pos ==> group_order(ek(#[trigger] o[i]), x) < 0,
            stop ==> pos < o.len() && group_order(ek(o[pos as int]), x) >= 0,
        decreases keys@.len() - pos + (if stop { 0int } else { 1int }),
    {
        if ek_order(&keys[pos], &k) < 0 {
            pos = pos + 1;
        } else {
            stop = true;
        }
    }
    if stop && ek_order(&keys[pos], &k) == 0 {
        proof {
            lemma_group_order(ek(o[pos as int]), x);
            lemma_total_le(s, x);
        }
        let v = counts[pos] + c;
        counts.set(pos, v);
        proof {
            let nc = counts@;
            assert forall|y: (Seq<char>, Seq<char>, Seq<char>, EdgeOrigin)| #[trigger] has_ek(keys@, y) <==> present(s2, y) by {
                if y == x {
                    assert(ek(o[pos as int]) == y);
                }
            }
            assert forall|i: int| 0 <= i < keys@.len() implies nc[i] == total(s2, ek(#[trigger] keys@[i])) by {
                if i != pos {
                    assert(nc[i] == oc[i]);
                    if ek(o[i]) == x {
                        lemma_group_order(ek(o[i]), ek(o[pos as int]));
                        if i < pos {
                            assert(group_order(ek(o[i]), ek(o[pos as int])) < 0);
                        } else {
                            assert(group_order(ek(o[pos as int]), ek(o[i])) < 0);
                        }
                    }
                }
            }
        }
        return;
    }
    proof {
        if present(s, x) {
            assert(has_ek(o, x));
            let i = choose|i: int| 0 <= i < o.len() && ek(#[trigger] o[i]) == x;
            if i >= pos {
                assert(stop);
                lemma_group_order(ek(o[pos as int]), x);
                if i > pos {
                    assert(group_order(ek(o[pos as int]), ek(o[i])) < 0);
                }
            }
        }
        lemma_total_absent(s, x);
    }
    keys.insert(pos, k);
    counts.insert(pos, c);
    proof {
        let n = keys@;
        let nc = counts@;
        assert(n =~= o.insert(pos as int, k));
        assert(nc =~= oc.insert(pos as int, c));
        if stop {
            lemma_group_order(ek(o[pos as int]), x);
        }
        assert forall|i: int, j: int| 0 <= i < j < n.len() implies group_order(ek(#[trigger] n[i]), ek(#[trigger] n[j])) < 0 by {
            if j < pos {
                assert(n[i] == o[i] && n[j] == o[j]);
            } else if j == pos {
                assert(n[i] == o[i]);
            } else if i < pos {
                assert(n[i] == o[i] && n[j] == o[j - 1]);
                if j - 1 > pos {
                    lemma_group_order_trans(x, ek(o[pos as int]), ek(o[j - 1]));
                }
                lemma_group_order_trans(ek(o[i]), x, ek(o[j - 1]));
            } else if i == pos {
                assert(n[j] == o[j - 1]);
                if j - 1 > pos {
                    lemma_group_order_trans(x, ek(o[pos as int]), ek(o[j - 1]));
                }
            } else {
                assert(n[i] == o[i - 1] && n[j] == o[j - 1]);
            }
        }
        assert forall|y: (Seq<char>, Seq<char>, Seq<char>, EdgeOrigin)| #[trigger] has_ek(n, y) <==> present(s2, y) by {
            if has_ek(n, y) {
                let i = choose|i: int| 0 <= i < n.len() && ek(#[trigger] n[i]) == y;
                if i < pos {
                    assert(n[i] == o[i]);
                    assert(has_ek(o, y));
                } else if i > pos {
                    assert(n[i] == o[i - 1]);
                    assert(has_ek(o, y));
                }
            }
            if has_ek(o, y) {
                let i = choose|i: int| 0 <= i < o.len() && ek(#[trigger] o[i]) == y;
                if i < pos {
                    assert(n[i] == o[i]);
                } else {
                    assert(n[i + 1] == o[i]);
                }
            }
            if y == x {
                assert(ek(n[pos as int]) == y);
            }
        }
        assert forall|i: int| 0 <= i < n.len() implies nc[i] == total(s2, ek(#[trigger] n[i])) by {
            if i < pos {
                assert(n[i] == o[i] && nc[i] == oc[i]);
                if ek(o[i]) == x {
                    assert(has_ek(o, x));
                }
            } else if i > pos {
                assert(n[i] == o[i - 1] && nc[i] == oc[i - 1]);
                if ek(o[i - 1]) == x {
                    assert(has_ek(o, x));
                }
            }
        }
    }
}

/// The keys of the items ascending without repetitions, each with what its
/// items count together.
pub(crate) fn tally(items: &Vec<(EdgeKey, usize)>) -> (r: (Vec<EdgeKey>, Vec<usize>))
    requires
        sum_all(item_views(items@)) <= usize::MAX,
    ensures
        tally_of(r.0@, r.1@, item_views(items@)),
{
    let ghost s = item_views(items@);
    let mut keys: Vec<EdgeKey> = Vec::new();
    let mut counts: Vec<usize> = Vec::new();
    let mut i: usize = 0;
    proof {
        assert(s.take(0) =~= Seq::empty());
    }
    while i < items.len()
        invariant
            i <= items@.len(),
            s == item_views(items@),
            sum_all(s) <= usize::MAX,
            tally_of(keys@, counts@, s.take(i as int)),
        decreases items@.len() - i,
    {
        let k = copy_ek(&items[i].0);
        let c = items[i].1;
        proof {
            assert(s.take(i + 1).drop_last() =~= s.take(i as int));
            assert(s.take(i + 1) =~= s.take(i as int).push((ek(k), c as nat)));
            lemma_sum_prefix(s, i + 1);
        }
        add_item(&mut keys, &mut counts, k, c, Ghost(s.take(i as int)));
        i = i + 1;
    }
    proof {
        assert(s.take(items@.len() as int) =~= s);
    }
    (keys, counts)
}

/// Where `k` stands in a tally, if it has it.
fn find_ek(keys: &Vec<EdgeKey>, k: &EdgeKey) -> (r: Option<usize>)
    ensures
        match r {
            Some(i) => i < keys@.len() && ek(keys@[i as int]) == ek(*k),
            None => !has_ek(keys@, ek(*k)),
        },
{
    let mut i: usize = 0;
    while i < keys.len()
        invariant
            i <= keys@.len(),
            forall|j: int| 0 <= j < i ==> ek(#[trigger] keys@[j]) != ek(*k),
        decreases keys@.len() - i,
    {
        let c = ek_order(&keys[i], k);
        proof {
            lemma_group_order(ek(keys@[i as int]), ek(*k));
        }
        if c == 0 {
            return Some(i);
        }
        i = i + 1;
    }
    None
}

/// The keys that only `now` has, and those both have with different counts,
/// each list ascending.
pub(crate) fn added_and_changed(
    now_keys: &Vec<EdgeKey>,
    now_counts: &Vec<usize>,
    then_keys: &Vec<EdgeKey>,
    then_counts: &Vec<usize>,
    Ghost(sn): Ghost<Seq<((Seq<char>, Seq<char>, Seq<char>, EdgeOrigin), nat)>>,
    Ghost(st): Ghost<Seq<((Seq<char>, Seq<char>, Seq<char>, EdgeOrigin), nat)>>,
) -> (r: (Vec<EdgeKey>, Vec<EdgeCount>))
    requires
        tally_of(now_keys@, now_counts@, sn),
        tally_of(then_keys@, then_counts@, st),
    ensures
        eks_sorted(r.0@),
        forall|k: (Seq<char>, Seq<char>, Seq<char>, EdgeOrigin)| #[trigger] has_ek(r.0@, k) <==> (present(sn, k) && !present(st, k)),
        ecs_sorted(r.1@),
        forall|x: ((Seq<char>, Seq<char>, Seq<char>, EdgeOrigin), nat, nat)| #[trigger] has_count(r.1@, x) <==> changed_at(st, sn, x),
{
    let mut added: Vec<EdgeKey> = Vec::new();
    let mut changed: Vec<EdgeCount> = Vec::new();
    let mut i: usize = 0;
    while i < now_keys.len()
        invariant
            i <= now_keys@.len(),
            tally_of(now_keys@, now_counts@, sn),
            tally_of(then_keys@, then_counts@, st),
            eks_sorted(added@),
            ecs_sorted(changed@),
            forall|m: int| 0 <= m < added@.len() ==> exists|u: int| 0 <= u < i && ek(now_keys@[u]) == ek(#[trigger] added@[m]),
            forall|m: int| 0 <= m < changed@.len() ==> exists|u: int| 0 <= u < i && ek(now_keys@[u]) == ek((#[trigger] changed@[m]).key),
            forall|k: (Seq<char>, Seq<char>, Seq<char>, EdgeOrigin)| #[trigger] has_ek(added@, k)
                <==> ((exists|u: int| 0 <= u < i && ek(#[trigger] now_keys@[u]) == k) && !present(st, k)),
            forall|x: ((Seq<char>, Seq<char>, Seq<char>, EdgeOrigin), nat, nat)| #[trigger] has_count(changed@, x)
                <==> ((exists|u: int| 0 <= u < i && ek(#[trigger] now_keys@[u]) == x.0) && changed_at(st, sn, x)),
        decreases now_keys@.len() - i,
    {
        let ghost x = ek(now_keys@[i as int]);
        let ghost a0 = added@;
        let ghost c0 = changed@;
        proof {
            assert(has_ek(now_keys@, x));
        }
        match find_ek(then_keys, &now_keys[i]) {
            None => {
                let k = copy_ek(&now_keys[i]);
                added.push(k);
            },
            Some(j) => {
                proof {
                    assert(has_ek(then_keys@, x));
                }
                if then_counts[j] != now_counts[i] {
                    let k = copy_ek(&now_keys[i]);
                    changed.push(EdgeCount { key: k, count_before: then_counts[j], count_after: now_counts[i] });
                }
            },
        }
        proof {
            assert forall|m: int| 0 <= m < a0.len() implies group_order(ek(#[trigger] a0[m]), x) < 0 by {
                let u = choose|u: int| 0 <= u < i && ek(now_keys@[u]) == ek(a0[m]);
                assert(group_order(ek(now_keys@[u]), ek(now_keys@[i as int])) < 0);
            }
            assert forall|m: int| 0 <= m < c0.len() implies group_order(ek((#[trigger] c0[m]).key), x) < 0 by {
                let u = choose|u: int| 0 <= u < i && ek(now_keys@[u]) == ek(c0[m].key);
                assert(group_order(ek(now_keys@[u]), ek(now_keys@[i as int])) < 0);
            }
            assert forall|m: int, n: int| 0 <= m < n < added@.len() implies group_order(ek(#[trigger] added@[m]), ek(#[trigger] added@[n])) < 0 by {
                assert(added@[m] == a0[m]);
                if n < a0.len() {
                    assert(added@[n] == a0[n]);
                }
            }
            assert forall|m: int, n: int| 0 <= m < n < changed@.len() implies group_order(ek((#[trigger] changed@[m]).key), ek((#[trigger] changed@[n]).key)) < 0 by {
                assert(changed@[m] == c0[m]);
                if n < c0.len() {
                    assert(changed@[n] == c0[n]);
                }
            }
            assert forall|m: int| 0 <= m < added@.len() implies exists|u: int| 0 <= u < i + 1 && ek(now_keys@[u]) == ek(#[trigger] added@[m]) by {
                if m < a0.len() {
                    assert(added@[m] == a0[m]);
                    let u = choose|u: int| 0 <= u < i && ek(now_keys@[u]) == ek(a0[m]);
                } else {
                    assert(ek(now_keys@[i as int]) == ek(added@[m]));
                }
            }
            assert forall|m: int| 0 <= m < changed@.len() implies exists|u: int| 0 <= u < i + 1 && ek(now_keys@[u]) == ek((#[trigger] changed@[m]).key) by {
                if m < c0.len() {
                    assert(changed@[m] == c0[m]);
                    let u = choose|u: int| 0 <= u < i && ek(now_keys@[u]) == ek(c0[m].key);
                } else {
                    assert(ek(now_keys@[i as int]) == ek(changed@[m].key));
                }
            }
            assert forall|k: (Seq<char>, Seq<char>, Seq<char>, EdgeOrigin)| #[trigger] has_ek(added@, k)
                <==> ((exists|u: int| 0 <= u < i + 1 && ek(#[trigger] now_keys@[u]) == k) && !present(st, k)) by {
                if has_ek(added@, k) {
                    let m = choose|m: int| 0 <= m < added@.len() && ek(#[trigger] added@[m]) == k;
                    if m < a0.len() {
                        assert(added@[m] == a0[m]);
                        assert(has_ek(a0, k));
                    } else {
                        assert(ek(now_keys@[i as int]) == k);
                    }
                }
                if (exists|u: int| 0 <= u < i + 1 && ek(#[trigger] now_keys@[u]) == k) && !present(st, k) {
                    let u = choose|u: int| 0 <= u < i + 1 && ek(#[trigger] now_keys@[u]) == k;
                    if u < i {
                        assert(has_ek(a0, k));
                        let m = choose|m: int| 0 <= m < a0.len() && ek(#[trigger] a0[m]) == k;
                        assert(added@[m] == a0[m]);
                    } else {
                        assert(!has_ek(then_keys@, k));
                        assert(ek(added@[a0.len() as int]) == k);
                    }
                }
            }
            assert forall|y: ((Seq<char>, Seq<char>, Seq<char>, EdgeOrigin), nat, nat)| #[trigger] has_count(changed@, y)
                <==> ((exists|u: int| 0 <= u < i + 1 && ek(#[trigger] now_keys@[u]) == y.0) && changed_at(st, sn, y)) by {
                if has_count(changed@, y) {
                    let m = choose|m: int| 0 <= m < changed@.len() && ec_view(#[trigger] changed@[m]) == y;
                    if m < c0.len() {
                        assert(changed@[m] == c0[m]);
                        assert(has_count(c0, y));
                    } else {
                        assert(ek(now_keys@[i as int]) == y.0);
                    }
                }
                if (exists|u: int| 0 <= u < i + 1 && ek(#[trigger] now_keys@[u]) == y.0) && changed_at(st, sn, y) {
                    let u = choose|u: int| 0 <= u < i + 1 && ek(#[trigger] now_keys@[u]) == y.0;
                    if u < i {
                        assert(has_count(c0, y));
                        let m = choose|m: int| 0 <= m < c0.len() && ec_view(#[trigger] c0[m]) == y;
                        assert(changed@[m] == c0[m]);
                    } else {
                        assert(has_ek(then_keys@, y.0));
                        let j = choose|j: int| 0 <= j < then_keys@.len() && ek(#[trigger] then_keys@[j]) == y.0;
                        assert(then_counts@[j] == total(st, y.0));
                        assert(ec_view(changed@[c0.len() as int]) == y);
                    }
                }
            }
        }
        i = i + 1;
    }
    proof {
        assert forall|k: (Seq<char>, Seq<char>, Seq<char>, EdgeOrigin)| #[trigger] has_ek(added@, k) <==> (present(sn, k) && !present(st, k)) by {
            if has_ek(added@, k) {
                let u = choose|u: int| 0 <= u < now_keys@.len() && ek(#[trigger] now_keys@[u]) == k;
                assert(has_ek(now_keys@, k));
            }
            if present(sn, k) {
                assert(has_ek(now_keys@, k));
                let u = choose|u: int| 0 <= u < now_keys@.len() && ek(#[trigger] now_keys@[u]) == k;
                assert(ek(now_keys@[u]) == k);
            }
        }
        assert forall|x: ((Seq<char>, Seq<char>, Seq<char>, EdgeOrigin), nat, nat)| #[trigger] has_count(changed@, x) <==> changed_at(st, sn, x) by {
            if changed_at(st, sn, x) {
                assert(has_ek(now_keys@, x.0));
                let u = choose|u: int| 0 <= u < now_keys@.len() && ek(#[trigger] now_keys@[u]) == x.0;
                assert(ek(now_keys@[u]) == x.0);
            }
        }
    }
    (added, changed)
}

/// The keys that only `then` has, ascending, with their counts then.
pub(crate) fn removed_keys(
    now_keys: &Vec<EdgeKey>,
    now_counts: &Vec<usize>,
    then_keys: &Vec<EdgeKey>,
    then_counts: &Vec<usize>,
    Ghost(sn): Ghost<Seq<((Seq<char>, Seq<char>, Seq<char>, EdgeOrigin), nat)>>,
    Ghost(st): Ghost<Seq<((Seq<char>, Seq<char>, Seq<char>, EdgeOrigin), nat)>>,
) -> (r: Vec<EdgeCount>)
    requires
        tally_of(now_keys@, now_counts@, sn),
        tally_of(then_keys@, then_counts@, st),
    ensures
        ecs_sorted(r@),
        forall|x: ((Seq<char>, Seq<char>, Seq<char>, EdgeOrigin), nat, nat)| #[trigger] has_count(r@, x) <==> removed_at(st, sn, x),
{
    let mut out: Vec<EdgeCount> = Vec::new();
    let mut i: usize = 0;
    while i < then_keys.len()
        invariant
            i <= then_keys@.len(),
            tally_of(now_keys@, now_counts@, sn),
            tally_of(then_keys@, then_counts@, st),
            ecs_sorted(out@),
            forall|m: int| 0 <= m < out@.len() ==> exists|u: int| 0 <= u < i && ek(then_keys@[u]) == ek((#[trigger] out@[m]).key),
            forall|x: ((Seq<char>, Seq<char>, Seq<char>, EdgeOrigin), nat, nat)| #[trigger] has_count(out@, x)
                <==> ((exists|u: int| 0 <= u < i && ek(#[trigger] then_keys@[u]) == x.0) && removed_at(st, sn, x)),
        decreases then_keys@.len() - i,
    {
        let ghost x = ek(then_keys@[i as int]);
        let ghost o0 = out@;
        proof {
            assert(has_ek(then_keys@, x));
        }
        if find_ek(now_keys, &then_keys[i]).is_none() {
            let k = copy_ek(&then_keys[i]);
            out.push(EdgeCount { key: k, count_before: then_counts[i], count_after: 0 });
        }
        proof {
            assert forall|m: int| 0 <= m < o0.len() implies group_order(ek((#[trigger] o0[m]).key), x) < 0 by {
                let u = choose|u: int| 0 <= u < i && ek(then_keys@[u]) == ek(o0[m].key);
                assert(group_order(ek(then_keys@[u]), ek(then_keys@[i as int])) < 0);
            }
            assert forall|m: int, n: int| 0 <= m < n < out@.len() implies group_order(ek((#[trigger] out@[m]).key), ek((#[trigger] out@[n]).key)) < 0 by {
                assert(out@[m] == o0[m]);
                if n < o0.len() {
                    assert(out@[n] == o0[n]);
                }
            }
            assert forall|m: int| 0 <= m < out@.len() implies exists|u: int| 0 <= u < i + 1 && ek(then_keys@[u]) == ek((#[trigger] out@[m]).key) by {
                if m < o0.len() {
                    assert(out@[m] == o0[m]);
                    let u = choose|u: int| 0 <= u < i && ek(then_keys@[u]) == ek(o0[m].key);
                } else {
                    assert(ek(then_keys@[i as int]) == ek(out@[m].key));
                }
            }
            assert forall|y: ((Seq<char>, Seq<char>, Seq<char>, EdgeOrigin), nat, nat)| #[trigger] has_count(out@, y)
                <==> ((exists|u: int| 0 <= u < i + 1 && ek(#[trigger] then_keys@[u]) == y.0) && removed_at(st, sn, y)) by {
                if has_count(out@, y) {
                    let m = choose|m: int| 0 <= m < out@.len() && ec_view(#[trigger] out@[m]) == y;
                    if m < o0.len() {
                        assert(out@[m] == o0[m]);
                        assert(has_count(o0, y));
                    } else {
                        assert(ek(then_keys@[i as int]) == y.0);
                    }
                }
                if (exists|u: int| 0 <= u < i + 1 && ek(#[trigger] then_keys@[u]) == y.0) && removed_at(st, sn, y) {
                    let u = choose|u: int| 0 <= u < i + 1 && ek(#[trigger] then_keys@[u]) == y.0;
                    if u < i {
                        assert(has_count(o0, y));
                        let m = choose|m: int| 0 <= m < o0.len() && ec_view(#[trigger] o0[m]) == y;
                        assert(out@[m] == o0[m]);
                    } else {
                        assert(!has_ek(now_keys@, y.0));
                        assert(ec_view(out@[o0.len() as int]) == y);
                    }
                }
            }
        }
        i = i + 1;
    }
    proof {
        assert forall|x: ((Seq<char>, Seq<char>, Seq<char>, EdgeOrigin), nat, nat)| #[trigger] has_count(out@, x) <==> removed_at(st, sn, x) by {
            if removed_at(st, sn, x) {
                assert(has_ek(then_keys@, x.0));
                let u = choose|u: int| 0 <= u < then_keys@.len() && ek(#[trigger] then_keys@[u]) == x.0;
                assert(ek(then_keys@[u]) == x.0);
            }
        }
    }
    out
}

} // verus!
