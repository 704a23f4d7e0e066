//! What changed on one level of the architecture: the entries and projected
//! dependencies of a focus then and now, in the live projection's IDs.
use vstd::prelude::*;
use crate::evidence::{lemma_text_order, lemma_text_order_trans, order_of_text, text_order};
use crate::model::{ArchitectureIr, CompiledFile, EdgeOrigin, EVIDENCE_LIMIT};
use crate::projection::zoom::{group_order, lemma_group_order, lemma_group_order_trans};
use crate::order::seq_has;
use crate::projection::{EntryKind, Projection, ProjectionEdge, ProjectionNode};
use crate::projection::zoom::{project, projects, resolvable};
use crate::baseline::BaselineEntry;
use crate::rules::{violation_view, violation_views, Violation, ViolationView};
use crate::strmap::StrMap;
use crate::text::{cat2, chars_of, copy_opt, copy_strings, has_prefix, opt_view, slice_chars, starts_with, str_eq, string_of, views};
use super::changes::{diff, diff_fits, followed, followed_exec};
use super::counts::{added_and_changed, changed_at, ecs_sorted, eks_sorted, has_count, has_ek, item_view, item_views, present, removed_at, removed_keys, sum_all, tally};
use super::{Diff, LevelDiff, Snapshot, EdgeKey, MovedEntry, RemovedEntry, ResizedEntry, ViolationKey};

verus! {

/// The order of optional text: absent first.
pub open spec fn opt_order(a: Option<Seq<char>>, b: Option<Seq<char>>) -> int {
    match (a, b) {
        (None, None) => 0,
        (None, Some(_)) => -1,
        (Some(_), None) => 1,
        (Some(x), Some(y)) => text_order(x, y),
    }
}

/// The order of lists of text: element by element, a prefix first.
pub open spec fn list_order(a: Seq<Seq<char>>, b: Seq<Seq<char>>) -> int
    decreases a.len(),
{
    if a.len() == 0 && b.len() == 0 {
        0
    } else if a.len() == 0 {
        -1
    } else if b.len() == 0 {
        1
    } else if text_order(a[0], b[0]) != 0 {
        text_order(a[0], b[0])
    } else {
        list_order(a.drop_first(), b.drop_first())
    }
}

proof fn lemma_opt_order(a: Option<Seq<char>>, b: Option<Seq<char>>)
    ensures
        opt_order(a, b) == -opt_order(b, a),
        opt_order(a, b) == 0 <==> a == b,
        -1 <= opt_order(a, b) <= 1,
{
    match (a, b) {
        (Some(x), Some(y)) => lemma_text_order(x, y),
        _ => {},
    }
}

proof fn lemma_opt_order_trans(a: Option<Seq<char>>, b: Option<Seq<char>>, c: Option<Seq<char>>)
    requires
        opt_order(a, b) <= 0,
        opt_order(b, c) <= 0,
    ensures
        opt_order(a, c) <= 0,
        (opt_order(a, b) < 0 || opt_order(b, c) < 0) ==> opt_order(a, c) < 0,
{
    match (a, b, c) {
        (Some(x), Some(y), Some(z)) => lemma_text_order_trans(x, y, z),
        _ => {},
    }
}

proof fn lemma_list_order(a: Seq<Seq<char>>, b: Seq<Seq<char>>)
    ensures
        list_order(a, b) == -list_order(b, a),
        list_order(a, b) == 0 <==> a == b,
        -1 <= list_order(a, b) <= 1,
    decreases a.len(),
{
    if a.len() == 0 && b.len() == 0 {
        assert(a =~= b);
    }
    if a.len() > 0 && b.len() > 0 {
        lemma_text_order(a[0], b[0]);
        lemma_list_order(a.drop_first(), b.drop_first());
        if text_order(a[0], b[0]) == 0 && list_order(a.drop_first(), b.drop_first()) == 0 {
            assert(a =~= seq![a[0]] + a.drop_first());
            assert(b =~= seq![b[0]] + b.drop_first());
        }
        if a == b {
            assert(a.drop_first() =~= b.drop_first());
        }
    }
}

proof fn lemma_list_order_trans(a: Seq<Seq<char>>, b: Seq<Seq<char>>, c: Seq<Seq<char>>)
    requires
        list_order(a, b) < 0,
        list_order(b, c) < 0,
    ensures
        list_order(a, c) < 0,
    decreases a.len(),
{
    if a.len() > 0 && b.len() > 0 && c.len() > 0 {
        lemma_text_order(a[0], b[0]);
        lemma_text_order(b[0], c[0]);
        lemma_text_order(a[0], c[0]);
        if text_order(a[0], b[0]) <= 0 && text_order(b[0], c[0]) <= 0 {
            lemma_text_order_trans(a[0], b[0], c[0]);
        }
        if text_order(a[0], b[0]) == 0 && text_order(b[0], c[0]) == 0 {
            lemma_list_order_trans(a.drop_first(), b.drop_first(), c.drop_first());
        }
    }
}

/// A violation's key: rule, ends and kind, and a cycle's members.
pub open spec fn vkey(v: ViolationView) -> (Seq<char>, Option<Seq<char>>, Option<Seq<char>>, Option<Seq<char>>, Seq<Seq<char>>) {
    (v.rule_id, v.from, v.to, v.edge_kind, if v.from is None { v.nodes } else { Seq::empty() })
}

pub open spec fn vk_view(k: ViolationKey) -> (Seq<char>, Option<Seq<char>>, Option<Seq<char>>, Option<Seq<char>>, Seq<Seq<char>>) {
    (k.rule_id@, opt_view(k.from), opt_view(k.to), opt_view(k.edge_kind), views(k.nodes@))
}

/// The order of violation keys, field by field.
pub open spec fn vkey_order(
    a: (Seq<char>, Option<Seq<char>>, Option<Seq<char>>, Option<Seq<char>>, Seq<Seq<char>>),
    b: (Seq<char>, Option<Seq<char>>, Option<Seq<char>>, Option<Seq<char>>, Seq<Seq<char>>),
) -> int {
    if text_order(a.0, b.0) != 0 {
        text_order(a.0, b.0)
    } else if opt_order(a.1, b.1) != 0 {
        opt_order(a.1, b.1)
    } else if opt_order(a.2, b.2) != 0 {
        opt_order(a.2, b.2)
    } else if opt_order(a.3, b.3) != 0 {
        opt_order(a.3, b.3)
    } else {
        list_order(a.4, b.4)
    }
}

proof fn lemma_vkey_order(
    a: (Seq<char>, Option<Seq<char>>, Option<Seq<char>>, Option<Seq<char>>, Seq<Seq<char>>),
    b: (Seq<char>, Option<Seq<char>>, Option<Seq<char>>, Option<Seq<char>>, Seq<Seq<char>>),
)
    ensures
        vkey_order(a, b) == -vkey_order(b, a),
        vkey_order(a, b) == 0 <==> a == b,
{
    lemma_text_order(a.0, b.0);
    lemma_opt_order(a.1, b.1);
    lemma_opt_order(a.2, b.2);
    lemma_opt_order(a.3, b.3);
    lemma_list_order(a.4, b.4);
}

proof fn lemma_vkey_order_trans(
    a: (Seq<char>, Option<Seq<char>>, Option<Seq<char>>, Option<Seq<char>>, Seq<Seq<char>>),
    b: (Seq<char>, Option<Seq<char>>, Option<Seq<char>>, Option<Seq<char>>, Seq<Seq<char>>),
    c: (Seq<char>, Option<Seq<char>>, Option<Seq<char>>, Option<Seq<char>>, Seq<Seq<char>>),
)
    requires
        vkey_order(a, b) < 0,
        vkey_order(b, c) < 0,
    ensures
        vkey_order(a, c) < 0,
{
    lemma_vkey_order(a, b);
    lemma_vkey_order(b, c);
    lemma_vkey_order(a, c);
    lemma_text_order(a.0, b.0);
    lemma_text_order(b.0, c.0);
    lemma_text_order(a.0, c.0);
    lemma_opt_order(a.1, b.1);
    lemma_opt_order(b.1, c.1);
    lemma_opt_order(a.2, b.2);
    lemma_opt_order(b.2, c.2);
    lemma_opt_order(a.3, b.3);
    lemma_opt_order(b.3, c.3);
    if text_order(a.0, b.0) <= 0 && text_order(b.0, c.0) <= 0 {
        lemma_text_order_trans(a.0, b.0, c.0);
    }
    if text_order(a.0, b.0) == 0 && text_order(b.0, c.0) == 0 {
        if opt_order(a.1, b.1) <= 0 && opt_order(b.1, c.1) <= 0 {
            lemma_opt_order_trans(a.1, b.1, c.1);
        }
        if opt_order(a.1, b.1) == 0 && opt_order(b.1, c.1) == 0 {
            if opt_order(a.2, b.2) <= 0 && opt_order(b.2, c.2) <= 0 {
                lemma_opt_order_trans(a.2, b.2, c.2);
            }
            if opt_order(a.2, b.2) == 0 && opt_order(b.2, c.2) == 0 {
                if opt_order(a.3, b.3) <= 0 && opt_order(b.3, c.3) <= 0 {
                    lemma_opt_order_trans(a.3, b.3, c.3);
                }
                if opt_order(a.3, b.3) == 0 && opt_order(b.3, c.3) == 0 {
                    lemma_list_order_trans(a.4, b.4, c.4);
                }
            }
        }
    }
}

fn opt_order_exec(a: &Option<String>, b: &Option<String>) -> (r: i8)
    ensures
        r == opt_order(opt_view(*a), opt_view(*b)),
{
    match (a, b) {
        (None, None) => 0,
        (None, Some(_)) => -1,
        (Some(_), None) => 1,
        (Some(x), Some(y)) => order_of_text(x.as_str(), y.as_str()),
    }
}

fn list_order_exec(a: &Vec<String>, b: &Vec<String>) -> (r: i8)
    ensures
        r == list_order(views(a@), views(b@)),
{
    let mut i: usize = 0;
    proof {
        assert(views(a@).skip(0) =~= views(a@));
        assert(views(b@).skip(0) =~= views(b@));
    }
    while i < a.len() && i < b.len()
        invariant
            i <= a@.len(),
            i <= b@.len(),
            list_order(views(a@), views(b@)) == list_order(views(a@).skip(i as int), views(b@).skip(i as int)),
        decreases a@.len() - i,
    {
        let c = order_of_text(a[i].as_str(), b[i].as_str());
        proof {
            assert(views(a@).skip(i as int)[0] == a@[i as int]@);
            assert(views(b@).skip(i as int)[0] == b@[i as int]@);
            assert(views(a@).skip(i as int).drop_first() =~= views(a@).skip(i + 1));
            assert(views(b@).skip(i as int).drop_first() =~= views(b@).skip(i + 1));
        }
        if c != 0 {
            return c;
        }
        i = i + 1;
    }
    if i < a.len() {
        1
    } else if i < b.len() {
        -1
    } else {
        0
    }
}

fn vkey_order_exec(a: &ViolationKey, b: &ViolationKey) -> (r: i8)
    ensures
        r == vkey_order(vk_view(*a), vk_view(*b)),
{
    let c = order_of_text(a.rule_id.as_str(), b.rule_id.as_str());
    if c != 0 {
        return c;
    }
    let c = opt_order_exec(&a.from, &b.from);
    if c != 0 {
        return c;
    }
    let c = opt_order_exec(&a.to, &b.to);
    if c != 0 {
        return c;
    }
    let c = opt_order_exec(&a.edge_kind, &b.edge_kind);
    if c != 0 {
        return c;
    }
    list_order_exec(&a.nodes, &b.nodes)
}

fn vkey_of(v: &Violation) -> (r: ViolationKey)
    ensures
        vk_view(r) == vkey(violation_view(*v)),
{
    let nodes = if v.from.is_none() {
        copy_strings(&v.nodes)
    } else {
        Vec::new()
    };
    let r = ViolationKey {
        rule_id: v.rule_id.clone(),
        from: copy_opt(&v.from),
        to: copy_opt(&v.to),
        edge_kind: copy_opt(&v.edge_kind),
        nodes,
    };
    proof {
        if v.from.is_some() {
            assert(views(r.nodes@) =~= Seq::<Seq<char>>::empty());
        }
    }
    r
}

fn copy_vkey(k: &ViolationKey) -> (r: ViolationKey)
    ensures
        vk_view(r) == vk_view(*k),
{
    ViolationKey {
        rule_id: k.rule_id.clone(),
        from: copy_opt(&k.from),
        to: copy_opt(&k.to),
        edge_kind: copy_opt(&k.edge_kind),
        nodes: copy_strings(&k.nodes),
    }
}

pub open spec fn vkeys_sorted(s: Seq<ViolationKey>) -> bool {
    forall|i: int, j: int| 0 <= i < j < s.len() ==> vkey_order(vk_view(#[trigger] s[i]), vk_view(#[trigger] s[j])) < 0
}

pub open spec fn has_vkey(s: Seq<ViolationKey>, x: (Seq<char>, Option<Seq<char>>, Option<Seq<char>>, Option<Seq<char>>, Seq<Seq<char>>)) -> bool {
    exists|i: int| 0 <= i < s.len() && vk_view(#[trigger] s[i]) == x
}

/// Some violation has the key.
pub open spec fn keyed(vs: Seq<ViolationView>, x: (Seq<char>, Option<Seq<char>>, Option<Seq<char>>, Option<Seq<char>>, Seq<Seq<char>>)) -> bool {
    exists|i: int| 0 <= i < vs.len() && vkey(#[trigger] vs[i]) == x
}

fn insert_vkey(keys: &mut Vec<ViolationKey>, k: ViolationKey)
    requires
        vkeys_sorted(old(keys)@),
    ensures
        vkeys_sorted(final(keys)@),
        forall|x: (Seq<char>, Option<Seq<char>>, Option<Seq<char>>, Option<Seq<char>>, Seq<Seq<char>>)| #[trigger] has_vkey(final(keys)@, x) <==> (has_vkey(old(keys)@, x) || x == vk_view(k)),
{
    let ghost x = vk_view(k);
    let ghost o = keys@;
    let mut pos: usize = 0;
    let mut stop = false;
    while pos < keys.len() && !stop
        invariant
            pos <= keys@.len(),
            o == keys@,
            x == vk_view(k),
            forall|i: int| 0 <= i < pos ==> vkey_order(vk_view(#[trigger] o[i]), x) < 0,
            stop ==> pos < o.len() && vkey_order(vk_view(o[pos as int]), x) >= 0,
        decreases keys@.len() - pos + (if stop { 0int } else { 1int }),
    {
        if vkey_order_exec(&keys[pos], &k) < 0 {
            pos = pos + 1;
        } else {
            stop = true;
        }
    }
    if stop && vkey_order_exec(&keys[pos], &k) == 0 {
        proof {
            lemma_vkey_order(vk_view(o[pos as int]), x);
            assert forall|y: (Seq<char>, Option<Seq<char>>, Option<Seq<char>>, Option<Seq<char>>, Seq<Seq<char>>)| #[trigger] has_vkey(keys@, y) <==> (has_vkey(o, y) || y == x) by {
                if y == x {
                    assert(vk_view(o[pos as int]) == y);
                }
            }
        }
        return;
    }
    keys.insert(pos, k);
    proof {
        let n = keys@;
        assert(n =~= o.insert(pos as int, k));
        if stop {
            lemma_vkey_order(vk_view(o[pos as int]), x);
        }
        assert forall|i: int, j: int| 0 <= i < j < n.len() implies vkey_order(vk_view(#[trigger] n[i]), vk_view(#[trigger] n[j])) < 0 by {
            if j < pos {
                assert(n[i] == o[i] && n[j] == o[j]);
            } else if j == pos {
                assert(n[i] == o[i]);
            } else if i < pos {
                assert(n[i] == o[i] && n[j] == o[j - 1]);
                lemma_vkey_order(vk_view(o[pos as int]), x);
                if j - 1 > pos {
                    lemma_vkey_order_trans(x, vk_view(o[pos as int]), vk_view(o[j - 1]));
                }
                lemma_vkey_order_trans(vk_view(o[i]), x, vk_view(o[j - 1]));
            } else if i == pos {
                assert(n[j] == o[j - 1]);
                lemma_vkey_order(vk_view(o[pos as int]), x);
                if j - 1 > pos {
                    lemma_vkey_order_trans(x, vk_view(o[pos as int]), vk_view(o[j - 1]));
                }
            } else {
                assert(n[i] == o[i - 1] && n[j] == o[j - 1]);
            }
        }
        assert forall|y: (Seq<char>, Option<Seq<char>>, Option<Seq<char>>, Option<Seq<char>>, Seq<Seq<char>>)| #[trigger] has_vkey(n, y) <==> (has_vkey(o, y) || y == x) by {
            if has_vkey(n, y) {
                let i = choose|i: int| 0 <= i < n.len() && vk_view(#[trigger] n[i]) == y;
                if i < pos {
                    assert(n[i] == o[i]);
                } else if i > pos {
                    assert(n[i] == o[i - 1]);
                }
            }
            if has_vkey(o, y) {
                let i = choose|i: int| 0 <= i < o.len() && vk_view(#[trigger] o[i]) == y;
                if i < pos {
                    assert(n[i] == o[i]);
                } else {
                    assert(n[i + 1] == o[i]);
                }
            }
            if y == x {
                assert(vk_view(n[pos as int]) == y);
            }
        }
    }
}

/// The keys of the violations, ascending without repetitions.
fn violation_key_set(vs: &Vec<Violation>) -> (r: Vec<ViolationKey>)
    ensures
        vkeys_sorted(r@),
        forall|x: (Seq<char>, Option<Seq<char>>, Option<Seq<char>>, Option<Seq<char>>, Seq<Seq<char>>)| #[trigger] has_vkey(r@, x) <==> keyed(violation_views(vs@), x),
{
    let ghost va = violation_views(vs@);
    let mut out: Vec<ViolationKey> = Vec::new();
    let mut i: usize = 0;
    while i < vs.len()
        invariant
            i <= vs@.len(),
            va == violation_views(vs@),
            vkeys_sorted(out@),
            forall|x: (Seq<char>, Option<Seq<char>>, Option<Seq<char>>, Option<Seq<char>>, Seq<Seq<char>>)| #[trigger] has_vkey(out@, x) <==> keyed(va.take(i as int), x),
        decreases vs@.len() - i,
    {
        let k = vkey_of(&vs[i]);
        let ghost o = out@;
        insert_vkey(&mut out, k);
        proof {
            assert(va[i as int] == violation_view(vs@[i as int]));
            assert forall|x: (Seq<char>, Option<Seq<char>>, Option<Seq<char>>, Option<Seq<char>>, Seq<Seq<char>>)| #[trigger] has_vkey(out@, x) <==> keyed(va.take(i + 1), x) by {
                let t1 = va.take(i + 1);
                let t0 = va.take(i as int);
                if keyed(t1, x) {
                    let j = choose|j: int| 0 <= j < t1.len() && vkey(#[trigger] t1[j]) == x;
                    if j < i {
                        assert(t0[j] == t1[j]);
                        assert(keyed(t0, x));
                    }
                }
                if keyed(t0, x) {
                    let j = choose|j: int| 0 <= j < t0.len() && vkey(#[trigger] t0[j]) == x;
                    assert(t1[j] == t0[j]);
                }
                if x == vk_view(k) {
                    assert(t1[i as int] == va[i as int]);
                    assert(vkey(t1[i as int]) == x);
                }
            }
        }
        i = i + 1;
    }
    proof {
        assert(va.take(vs@.len() as int) =~= va);
    }
    out
}

/// The keys of `a` that `b` lacks, in order.
fn vkey_difference(a: &Vec<ViolationKey>, b: &Vec<ViolationKey>) -> (r: Vec<ViolationKey>)
    requires
        vkeys_sorted(a@),
    ensures
        vkeys_sorted(r@),
        forall|x: (Seq<char>, Option<Seq<char>>, Option<Seq<char>>, Option<Seq<char>>, Seq<Seq<char>>)| #[trigger] has_vkey(r@, x) <==> (has_vkey(a@, x) && !has_vkey(b@, x)),
{
    let mut out: Vec<ViolationKey> = Vec::new();
    let mut t: usize = 0;
    while t < a.len()
        invariant
            t <= a@.len(),
            vkeys_sorted(a@),
            vkeys_sorted(out@),
            forall|i: int| 0 <= i < out@.len() ==> exists|u: int| 0 <= u < t && vk_view(a@[u]) == vk_view(#[trigger] out@[i]),
            forall|x: (Seq<char>, Option<Seq<char>>, Option<Seq<char>>, Option<Seq<char>>, Seq<Seq<char>>)| #[trigger] has_vkey(out@, x)
                <==> ((exists|u: int| 0 <= u < t && vk_view(#[trigger] a@[u]) == x) && !has_vkey(b@, x)),
        decreases a@.len() - t,
    {
        let mut listed = false;
        let mut j: usize = 0;
        while j < b.len() && !listed
            invariant
                j <= b@.len(),
                t < a@.len(),
                listed ==> has_vkey(b@, vk_view(a@[t as int])),
                !listed ==> forall|m: int| 0 <= m < j ==> vk_view(#[trigger] b@[m]) != vk_view(a@[t as int]),
            decreases b@.len() - j + (if listed { 0int } else { 1int }),
        {
            if vkey_order_exec(&b[j], &a[t]) == 0 {
                proof {
                    lemma_vkey_order(vk_view(b@[j as int]), vk_view(a@[t as int]));
                }
                listed = true;
            } else {
                proof {
                    lemma_vkey_order(vk_view(b@[j as int]), vk_view(a@[t as int]));
                }
                j = j + 1;
            }
        }
        let ghost o0 = out@;
        let ghost x = vk_view(a@[t as int]);
        if !listed {
            let c = copy_vkey(&a[t]);
            out.push(c);
        }
        proof {
            assert forall|i: int| 0 <= i < o0.len() implies vkey_order(vk_view(#[trigger] o0[i]), x) < 0 by {
                let u = choose|u: int| 0 <= u < t && vk_view(a@[u]) == vk_view(o0[i]);
                assert(vkey_order(vk_view(a@[u]), vk_view(a@[t as int])) < 0);
            }
            assert forall|i: int, j: int| 0 <= i < j < out@.len() implies vkey_order(vk_view(#[trigger] out@[i]), vk_view(#[trigger] out@[j])) < 0 by {
                if j < o0.len() {
                    assert(out@[i] == o0[i] && out@[j] == o0[j]);
                } else {
                    assert(out@[i] == o0[i]);
                }
            }
            assert forall|i: int| 0 <= i < out@.len() implies exists|u: int| 0 <= u < t + 1 && vk_view(a@[u]) == vk_view(#[trigger] out@[i]) by {
                if i < o0.len() {
                    assert(out@[i] == o0[i]);
                    let u = choose|u: int| 0 <= u < t && vk_view(a@[u]) == vk_view(o0[i]);
                }
            }
            assert forall|y: (Seq<char>, Option<Seq<char>>, Option<Seq<char>>, Option<Seq<char>>, Seq<Seq<char>>)| #[trigger] has_vkey(out@, y)
                <==> ((exists|u: int| 0 <= u < t + 1 && vk_view(#[trigger] a@[u]) == y) && !has_vkey(b@, y)) by {
                if has_vkey(out@, y) {
                    let i = choose|i: int| 0 <= i < out@.len() && vk_view(#[trigger] out@[i]) == y;
                    if i < o0.len() {
                        assert(out@[i] == o0[i]);
                        assert(has_vkey(o0, y));
                    } else {
                        assert(y == x);
                        assert(vk_view(a@[t as int]) == y);
                    }
                }
                if (exists|u: int| 0 <= u < t + 1 && vk_view(#[trigger] a@[u]) == y) && !has_vkey(b@, y) {
                    let u = choose|u: int| 0 <= u < t + 1 && vk_view(#[trigger] a@[u]) == y;
                    if u < t {
                        assert(has_vkey(o0, y));
                        let i = choose|i: int| 0 <= i < o0.len() && vk_view(#[trigger] o0[i]) == y;
                        assert(out@[i] == o0[i]);
                    } else {
                        assert(!listed);
                        assert(vk_view(out@[o0.len() as int]) == y);
                    }
                }
            }
        }
        t = t + 1;
    }
    out
}

/// An entry's ID as it is now: the ID of a `file:` entry follows its file
/// where the file was renamed, any other stays.
pub open spec fn entry_renamed(before: Seq<CompiledFile>, after: Seq<CompiledFile>, renames: StrMap<String>, id: Seq<char>) -> Seq<char> {
    if starts_with(id, "file:"@) {
        match followed(before, after, renames, id.skip("file:"@.len() as int)) {
            Some(n) => "file:"@ + n,
            None => id,
        }
    } else {
        id
    }
}

pub open spec fn renaming(before: Seq<CompiledFile>, after: Seq<CompiledFile>, renames: StrMap<String>) -> spec_fn(Seq<char>) -> Seq<char> {
    |id: Seq<char>| entry_renamed(before, after, renames, id)
}

pub open spec fn unchanged() -> spec_fn(Seq<char>) -> Seq<char> {
    |id: Seq<char>| id
}

fn rename_entry(before: &Vec<CompiledFile>, after: &Vec<CompiledFile>, renames: &StrMap<String>, id: &str) -> (r: String)
    ensures
        r@ == entry_renamed(before@, after@, *renames, id@),
{
    let c = chars_of(id);
    let p = chars_of("file:");
    proof {
        reveal_strlit("file:");
    }
    if has_prefix(c.as_slice(), p.as_slice()) {
        let rest = string_of(slice_chars(c.as_slice(), p.len(), c.len()).as_slice());
        proof {
            assert(rest@ =~= id@.skip("file:"@.len() as int));
        }
        match followed_exec(before, after, renames, rest.as_str()) {
            Some(n) => {
                return cat2("file:", n.as_str());
            },
            None => {},
        }
    }
    String::from_str(id)
}

pub open spec fn has_entry_id(nodes: Seq<ProjectionNode>, id: Seq<char>) -> bool {
    exists|k: int| 0 <= k < nodes.len() && (#[trigger] nodes[k]).id@ == id
}

/// `k` is where the first entry with the ID stands.
pub open spec fn first_with_id(nodes: Seq<ProjectionNode>, id: Seq<char>, k: int) -> bool {
    &&& 0 <= k < nodes.len()
    &&& nodes[k].id@ == id
    &&& forall|j: int| 0 <= j < k ==> (#[trigger] nodes[j]).id@ != id
}

/// The file count of the first entry with the ID.
pub open spec fn count_of_id(nodes: Seq<ProjectionNode>, id: Seq<char>) -> nat {
    nodes[choose|k: int| first_with_id(nodes, id, k)].file_count as nat
}

proof fn lemma_first_with_id(nodes: Seq<ProjectionNode>, id: Seq<char>, k: int)
    requires
        first_with_id(nodes, id, k),
    ensures
        has_entry_id(nodes, id),
        count_of_id(nodes, id) == nodes[k].file_count,
{
    let c = choose|c: int| first_with_id(nodes, id, c);
    assert(first_with_id(nodes, id, c));
    if c < k {
        assert(nodes[c].id@ != id);
    } else if c > k {
        assert(nodes[k].id@ != id);
    }
}

fn find_entry(nodes: &Vec<ProjectionNode>, id: &str) -> (r: Option<usize>)
    ensures
        match r {
            Some(k) => first_with_id(nodes@, id@, k as int),
            None => !has_entry_id(nodes@, id@),
        },
{
    let mut k: usize = 0;
    while k < nodes.len()
        invariant
            k <= nodes@.len(),
            forall|j: int| 0 <= j < k ==> (#[trigger] nodes@[j]).id@ != id@,
        decreases nodes@.len() - k,
    {
        if str_eq(nodes[k].id.as_str(), id) {
            return Some(k);
        }
        k = k + 1;
    }
    None
}

pub open spec fn moved_view(e: MovedEntry) -> (Seq<char>, Seq<char>) {
    (e.from@, e.to@)
}

pub open spec fn resized_view(e: ResizedEntry) -> (Seq<char>, nat, nat) {
    (e.id@, e.file_count_before as nat, e.file_count_after as nat)
}

pub open spec fn removed_view(e: RemovedEntry) -> (Seq<char>, Seq<char>, EntryKind, Option<Seq<char>>, Option<Seq<char>>, bool) {
    (e.id@, e.title@, e.entry_kind, opt_view(e.file_path), opt_view(e.architecture_id), e.outside_focus)
}

/// How a removed entry is reported: as the snapshot had it.
pub open spec fn gone_view(n: ProjectionNode) -> (Seq<char>, Seq<char>, EntryKind, Option<Seq<char>>, Option<Seq<char>>, bool) {
    (n.id@, n.title@, n.entry_kind, opt_view(n.file_path), opt_view(n.architecture_id), n.outside_focus)
}

/// The snapshot's first `n` entries that are still there under another ID:
/// the ID then and the ID now.
pub open spec fn moved_upto(then: Seq<ProjectionNode>, ren: Seq<Seq<char>>, now: Seq<ProjectionNode>, n: nat) -> Seq<(Seq<char>, Seq<char>)>
    decreases n,
{
    if n == 0 {
        Seq::empty()
    } else {
        let i = n - 1;
        let prev = moved_upto(then, ren, now, (n - 1) as nat);
        if has_entry_id(now, ren[i]) && ren[i] != then[i].id@ {
            prev.push((then[i].id@, ren[i]))
        } else {
            prev
        }
    }
}

/// The snapshot's first `n` entries that are still there under their ID with
/// another file count: the ID, the count then and the count now.
pub open spec fn resized_upto(then: Seq<ProjectionNode>, ren: Seq<Seq<char>>, now: Seq<ProjectionNode>, n: nat) -> Seq<(Seq<char>, nat, nat)>
    decreases n,
{
    if n == 0 {
        Seq::empty()
    } else {
        let i = n - 1;
        let prev = resized_upto(then, ren, now, (n - 1) as nat);
        if has_entry_id(now, ren[i]) && ren[i] == then[i].id@ && count_of_id(now, ren[i]) != then[i].file_count {
            prev.push((ren[i], then[i].file_count as nat, count_of_id(now, ren[i])))
        } else {
            prev
        }
    }
}

/// The snapshot's first `n` entries that are gone now.
pub open spec fn removed_upto(then: Seq<ProjectionNode>, ren: Seq<Seq<char>>, now: Seq<ProjectionNode>, n: nat) -> Seq<(Seq<char>, Seq<char>, EntryKind, Option<Seq<char>>, Option<Seq<char>>, bool)>
    decreases n,
{
    if n == 0 {
        Seq::empty()
    } else {
        let i = n - 1;
        let prev = removed_upto(then, ren, now, (n - 1) as nat);
        if !has_entry_id(now, ren[i]) {
            prev.push(gone_view(then[i]))
        } else {
            prev
        }
    }
}

/// The IDs of the first `n` entries now that no entry of the snapshot
/// became.
pub open spec fn added_upto(now: Seq<ProjectionNode>, ren: Seq<Seq<char>>, n: nat) -> Seq<Seq<char>>
    decreases n,
{
    if n == 0 {
        Seq::empty()
    } else {
        let i = n - 1;
        let prev = added_upto(now, ren, (n - 1) as nat);
        if !seq_has(ren, now[i].id@) {
            prev.push(now[i].id@)
        } else {
            prev
        }
    }
}

/// Compares the entries of the snapshot, under their IDs now, with the
/// entries now.
fn compare_entries(then: &Vec<ProjectionNode>, ren: &Vec<String>, now: &Vec<ProjectionNode>) -> (r: (Vec<MovedEntry>, Vec<ResizedEntry>, Vec<RemovedEntry>))
    requires
        ren@.len() == then@.len(),
    ensures
        r.0@.map_values(|e: MovedEntry| moved_view(e)) == moved_upto(then@, views(ren@), now@, then@.len()),
        r.1@.map_values(|e: ResizedEntry| resized_view(e)) == resized_upto(then@, views(ren@), now@, then@.len()),
        r.2@.map_values(|e: RemovedEntry| removed_view(e)) == removed_upto(then@, views(ren@), now@, then@.len()),
{
    let ghost rv = views(ren@);
    let mut moved: Vec<MovedEntry> = Vec::new();
    let mut resized: Vec<ResizedEntry> = Vec::new();
    let mut removed: Vec<RemovedEntry> = Vec::new();
    let mut i: usize = 0;
    while i < then.len()
        invariant
            i <= then@.len(),
            ren@.len() == then@.len(),
            rv == views(ren@),
            moved@.map_values(|e: MovedEntry| moved_view(e)) == moved_upto(then@, rv, now@, i as nat),
            resized@.map_values(|e: ResizedEntry| resized_view(e)) == resized_upto(then@, rv, now@, i as nat),
            removed@.map_values(|e: RemovedEntry| removed_view(e)) == removed_upto(then@, rv, now@, i as nat),
        decreases then@.len() - i,
    {
        let ghost m0 = moved@;
        let ghost z0 = resized@;
        let ghost d0 = removed@;
        proof {
            assert(rv[i as int] == ren@[i as int]@);
        }
        match find_entry(now, ren[i].as_str()) {
            Some(k) => {
                proof {
                    lemma_first_with_id(now@, rv[i as int], k as int);
                }
                if !str_eq(ren[i].as_str(), then[i].id.as_str()) {
                    moved.push(MovedEntry { from: then[i].id.clone(), to: ren[i].clone() });
                    proof {
                        assert(moved@.map_values(|e: MovedEntry| moved_view(e)) =~= m0.map_values(|e: MovedEntry| moved_view(e)).push(moved_view(moved@[m0.len() as int])));
                    }
                } else if now[k].file_count != then[i].file_count {
                    resized.push(ResizedEntry { id: ren[i].clone(), file_count_before: then[i].file_count, file_count_after: now[k].file_count });
                    proof {
                        assert(resized@.map_values(|e: ResizedEntry| resized_view(e)) =~= z0.map_values(|e: ResizedEntry| resized_view(e)).push(resized_view(resized@[z0.len() as int])));
                    }
                }
            },
            None => {
                removed.push(RemovedEntry {
                    id: then[i].id.clone(),
                    title: then[i].title.clone(),
                    entry_kind: then[i].entry_kind,
                    file_path: copy_opt(&then[i].file_path),
                    architecture_id: copy_opt(&then[i].architecture_id),
                    outside_focus: then[i].outside_focus,
                });
                proof {
                    assert(removed@.map_values(|e: RemovedEntry| removed_view(e)) =~= d0.map_values(|e: RemovedEntry| removed_view(e)).push(removed_view(removed@[d0.len() as int])));
                }
            },
        }
        proof {
            assert(moved_upto(then@, rv, now@, (i + 1) as nat) == {
                let prev = moved_upto(then@, rv, now@, i as nat);
                if has_entry_id(now@, rv[i as int]) && rv[i as int] != then@[i as int].id@ {
                    prev.push((then@[i as int].id@, rv[i as int]))
                } else {
                    prev
                }
            });
            if moved@.len() == m0.len() {
                assert(moved@ =~= m0);
            }
            if resized@.len() == z0.len() {
                assert(resized@ =~= z0);
            }
            if removed@.len() == d0.len() {
                assert(removed@ =~= d0);
            }
        }
        i = i + 1;
    }
    (moved, resized, removed)
}

/// The IDs of the entries now that no entry of the snapshot became, in
/// order.
fn added_entries(now: &Vec<ProjectionNode>, ren: &Vec<String>) -> (r: Vec<String>)
    ensures
        views(r@) == added_upto(now@, views(ren@), now@.len()),
{
    let ghost rv = views(ren@);
    let mut out: Vec<String> = Vec::new();
    let mut i: usize = 0;
    while i < now.len()
        invariant
            i <= now@.len(),
            rv == views(ren@),
            views(out@) == added_upto(now@, rv, i as nat),
        decreases now@.len() - i,
    {
        let mut seen = false;
        let mut j: usize = 0;
        while j < ren.len() && !seen
            invariant
                j <= ren@.len(),
                i < now@.len(),
                rv == views(ren@),
                seen ==> seq_has(rv, now@[i as int].id@),
                !seen ==> forall|m: int| 0 <= m < j ==> (#[trigger] rv[m]) != now@[i as int].id@,
            decreases ren@.len() - j + (if seen { 0int } else { 1int }),
        {
            if str_eq(ren[j].as_str(), now[i].id.as_str()) {
                proof {
                    assert(rv[j as int] == ren@[j as int]@);
                }
                seen = true;
            } else {
                proof {
                    assert(rv[j as int] == ren@[j as int]@);
                }
                j = j + 1;
            }
        }
        let ghost o = out@;
        if !seen {
            out.push(now[i].id.clone());
            proof {
                assert(views(out@) =~= views(o).push(now@[i as int].id@));
            }
        }
        i = i + 1;
    }
    out
}

/// The dependencies of a level as keyed counts, their entry IDs taken by
/// `f`.
pub open spec fn edge_items(es: Seq<ProjectionEdge>, f: spec_fn(Seq<char>) -> Seq<char>) -> Seq<((Seq<char>, Seq<char>, Seq<char>, EdgeOrigin), nat)> {
    Seq::new(es.len(), |i: int| ((f(es[i].edge.from@), f(es[i].edge.to@), es[i].edge.kind@, es[i].edge.origin), es[i].edge.count as nat))
}

/// What the dependencies of a level count together.
pub open spec fn edge_count_sum(es: Seq<ProjectionEdge>) -> nat
    decreases es.len(),
{
    if es.len() == 0 {
        0
    } else {
        edge_count_sum(es.drop_last()) + es.last().edge.count as nat
    }
}

proof fn lemma_items_sum(es: Seq<ProjectionEdge>, f: spec_fn(Seq<char>) -> Seq<char>)
    ensures
        sum_all(edge_items(es, f)) == edge_count_sum(es),
    decreases es.len(),
{
    if es.len() > 0 {
        lemma_items_sum(es.drop_last(), f);
        assert(edge_items(es, f).drop_last() =~= edge_items(es.drop_last(), f));
    }
}

/// The dependencies as keyed counts; with `follow`, their entries under
/// their IDs now.
fn keyed_items(es: &Vec<ProjectionEdge>, before: &Vec<CompiledFile>, after: &Vec<CompiledFile>, renames: &StrMap<String>, follow: bool) -> (r: Vec<(EdgeKey, usize)>)
    ensures
        item_views(r@) == edge_items(es@, if follow { renaming(before@, after@, *renames) } else { unchanged() }),
{
    let ghost f = if follow { renaming(before@, after@, *renames) } else { unchanged() };
    let mut out: Vec<(EdgeKey, usize)> = Vec::new();
    let mut i: usize = 0;
    while i < es.len()
        invariant
            i <= es@.len(),
            f == (if follow { renaming(before@, after@, *renames) } else { unchanged() }),
            item_views(out@) == edge_items(es@, f).take(i as int),
        decreases es@.len() - i,
    {
        let e = &es[i].edge;
        let from = if follow {
            rename_entry(before, after, renames, e.from.as_str())
        } else {
            e.from.clone()
        };
        let to = if follow {
            rename_entry(before, after, renames, e.to.as_str())
        } else {
            e.to.clone()
        };
        let ghost o = out@;
        let ghost fv = from@;
        let ghost tv = to@;
        proof {
            assert(fv == f(e.from@));
            assert(tv == f(e.to@));
        }
        out.push((EdgeKey { from, to, kind: e.kind.clone(), origin: e.origin }, e.count));
        proof {
            assert(item_views(out@) =~= item_views(o).push(item_view(out@[i as int])));
            assert(edge_items(es@, f).take(i + 1) =~= edge_items(es@, f).take(i as int).push(edge_items(es@, f)[i as int]));
        }
        i = i + 1;
    }
    proof {
        assert(edge_items(es@, f).take(es@.len() as int) =~= edge_items(es@, f));
    }
    out
}

pub open spec fn then_nodes(then: Option<Projection>) -> Seq<ProjectionNode> {
    match then {
        Some(p) => p.nodes@,
        None => Seq::empty(),
    }
}

pub open spec fn then_edges(then: Option<Projection>) -> Seq<ProjectionEdge> {
    match then {
        Some(p) => p.edges@,
        None => Seq::empty(),
    }
}

pub open spec fn then_violations(then: Option<Projection>) -> Seq<Violation> {
    match then {
        Some(p) => p.violations@,
        None => Seq::empty(),
    }
}

/// `d` compares the level `now` with the level `then` that the snapshot had,
/// if it had the focus; without it, everything now is new. Entries and
/// dependencies of then are taken under their IDs now.
pub open spec fn level_fits(snapshot: Snapshot, after: ArchitectureIr, f: Seq<char>, renames: StrMap<String>, now: Projection, then: Option<Projection>, d: LevelDiff) -> bool {
    let b = snapshot.ir.files@;
    let a = after.files@;
    let tn = then_nodes(then);
    let ren = Seq::new(tn.len(), |i: int| entry_renamed(b, a, renames, tn[i].id@));
    let st = edge_items(then_edges(then), renaming(b, a, renames));
    let sn = edge_items(now.edges@, unchanged());
    let vt = violation_views(then_violations(then));
    let vn = violation_views(now.violations@);
    &&& d.snapshot@ == snapshot.name@
    &&& opt_view(d.commit) == opt_view(snapshot.commit)
    &&& d.focus@ == f
    &&& d.focus_existed == (then is Some)
    &&& views(d.entries_added@) == added_upto(now.nodes@, ren, now.nodes@.len())
    &&& d.entries_moved@.map_values(|e: MovedEntry| moved_view(e)) == moved_upto(tn, ren, now.nodes@, tn.len())
    &&& d.entries_resized@.map_values(|e: ResizedEntry| resized_view(e)) == resized_upto(tn, ren, now.nodes@, tn.len())
    &&& d.entries_removed@.map_values(|e: RemovedEntry| removed_view(e)) == removed_upto(tn, ren, now.nodes@, tn.len())
    &&& eks_sorted(d.edges_added@)
    &&& forall|k: (Seq<char>, Seq<char>, Seq<char>, EdgeOrigin)| #[trigger] has_ek(d.edges_added@, k) <==> (present(sn, k) && !present(st, k))
    &&& ecs_sorted(d.edges_changed@)
    &&& forall|x: ((Seq<char>, Seq<char>, Seq<char>, EdgeOrigin), nat, nat)| #[trigger] has_count(d.edges_changed@, x) <==> changed_at(st, sn, x)
    &&& ecs_sorted(d.edges_removed@)
    &&& forall|x: ((Seq<char>, Seq<char>, Seq<char>, EdgeOrigin), nat, nat)| #[trigger] has_count(d.edges_removed@, x) <==> removed_at(st, sn, x)
    &&& vkeys_sorted(d.violations_appeared@)
    &&& forall|x: (Seq<char>, Option<Seq<char>>, Option<Seq<char>>, Option<Seq<char>>, Seq<Seq<char>>)| #[trigger] has_vkey(d.violations_appeared@, x) <==> (keyed(vn, x) && !keyed(vt, x))
    &&& vkeys_sorted(d.violations_resolved@)
    &&& forall|x: (Seq<char>, Option<Seq<char>>, Option<Seq<char>>, Option<Seq<char>>, Seq<Seq<char>>)| #[trigger] has_vkey(d.violations_resolved@, x) <==> (keyed(vt, x) && !keyed(vn, x))
}

/// `now` is the level of the focus now and `then` the one the snapshot had,
/// if it had the focus.
pub open spec fn level_sources(snapshot: Snapshot, after: ArchitectureIr, f: Seq<char>, now: Projection, then: Option<Projection>) -> bool {
    &&& projects(after, f, violation_views(after.violations@), EVIDENCE_LIMIT as nat, Ok(now))
    &&& (then is Some <==> snapshot.ir.nodes.lookup(f) is Some)
    &&& (then matches Some(p) ==> projects(snapshot.ir, f, violation_views(snapshot.ir.violations@), EVIDENCE_LIMIT as nat, Ok(p)))
}

fn compare_levels(snapshot: &Snapshot, after: &ArchitectureIr, focus: &str, renames: &StrMap<String>, now: &Projection, then: &Option<Projection>, summary: Diff) -> (d: LevelDiff)
    requires
        edge_count_sum(now.edges@) <= usize::MAX,
        edge_count_sum(then_edges(*then)) <= usize::MAX,
    ensures
        level_fits(*snapshot, *after, focus@, *renames, *now, *then, d),
        d.summary == summary,
{
    let ghost b = snapshot.ir.files@;
    let ghost a = after.files@;
    let no_nodes: Vec<ProjectionNode> = Vec::new();
    let no_edges: Vec<ProjectionEdge> = Vec::new();
    let no_violations: Vec<Violation> = Vec::new();
    let (tn, te, tv) = match then {
        Some(p) => (&p.nodes, &p.edges, &p.violations),
        None => (&no_nodes, &no_edges, &no_violations),
    };
    proof {
        assert(tn@ == then_nodes(*then));
        assert(te@ == then_edges(*then));
        assert(tv@ == then_violations(*then));
    }
    let mut ren: Vec<String> = Vec::new();
    let mut i: usize = 0;
    while i < tn.len()
        invariant
            i <= tn@.len(),
            b == snapshot.ir.files@,
            a == after.files@,
            ren@.len() == i,
            forall|j: int| 0 <= j < i ==> (#[trigger] ren@[j])@ == entry_renamed(b, a, *renames, tn@[j].id@),
        decreases tn@.len() - i,
    {
        let r = rename_entry(&snapshot.ir.files, &after.files, renames, tn[i].id.as_str());
        ren.push(r);
        i = i + 1;
    }
    let ghost rs = Seq::new(tn@.len(), |j: int| entry_renamed(b, a, *renames, tn@[j].id@));
    proof {
        assert(views(ren@) =~= rs);
    }
    let (entries_moved, entries_resized, entries_removed) = compare_entries(tn, &ren, &now.nodes);
    let entries_added = added_entries(&now.nodes, &ren);
    let then_items = keyed_items(te, &snapshot.ir.files, &after.files, renames, true);
    let now_items = keyed_items(&now.edges, &snapshot.ir.files, &after.files, renames, false);
    let ghost st = edge_items(te@, renaming(b, a, *renames));
    let ghost sn = edge_items(now.edges@, unchanged());
    proof {
        lemma_items_sum(te@, renaming(b, a, *renames));
        lemma_items_sum(now.edges@, unchanged());
    }
    let (tk, tc) = tally(&then_items);
    let (nk, nc) = tally(&now_items);
    let (edges_added, edges_changed) = added_and_changed(&nk, &nc, &tk, &tc, Ghost(sn), Ghost(st));
    let edges_removed = removed_keys(&nk, &nc, &tk, &tc, Ghost(sn), Ghost(st));
    let now_keys = violation_key_set(&now.violations);
    let then_keys = violation_key_set(tv);
    let violations_appeared = vkey_difference(&now_keys, &then_keys);
    let violations_resolved = vkey_difference(&then_keys, &now_keys);
    LevelDiff {
        snapshot: snapshot.name.clone(),
        commit: copy_opt(&snapshot.commit),
        focus: String::from_str(focus),
        focus_existed: then.is_some(),
        entries_added,
        entries_removed,
        entries_moved,
        entries_resized,
        edges_added,
        edges_removed,
        edges_changed,
        violations_appeared,
        violations_resolved,
        summary,
    }
}

/// What a level comparison says when its dependency counts do not fit.
pub open spec fn counts_overflow_text() -> Seq<char> {
    "the dependency counts of this level exceed this platform's capacity"@
}

/// The dependency counts add up within `usize`.
fn edge_total(es: &Vec<ProjectionEdge>) -> (r: bool)
    ensures
        r == (edge_count_sum(es@) <= usize::MAX),
{
    let mut total: usize = 0;
    let mut i: usize = 0;
    while i < es.len()
        invariant
            i <= es@.len(),
            total as nat == edge_count_sum(es@.take(i as int)),
        decreases es@.len() - i,
    {
        proof {
            assert(es@.take(i + 1).drop_last() =~= es@.take(i as int));
        }
        match total.checked_add(es[i].edge.count) {
            Some(t) => {
                total = t;
            },
            None => {
                proof {
                    lemma_count_sum_prefix(es@, i + 1);
                }
                return false;
            },
        }
        i = i + 1;
    }
    proof {
        assert(es@.take(es@.len() as int) =~= es@);
    }
    true
}

/// A prefix counts no more than the whole.
proof fn lemma_count_sum_prefix(es: Seq<ProjectionEdge>, n: int)
    requires
        0 <= n <= es.len(),
    ensures
        edge_count_sum(es.take(n)) <= edge_count_sum(es),
    decreases es.len() - n,
{
    if n < es.len() {
        lemma_count_sum_prefix(es, n + 1);
        assert(es.take(n + 1).drop_last() =~= es.take(n));
    } else {
        assert(es.take(n) =~= es);
    }
}

/// What comparing one level says, given the observations behind the
/// violations of each side.
pub open spec fn level_result(snapshot: Snapshot, after: ArchitectureIr, focus: Seq<char>, renames: StrMap<String>,
    olds: Seq<BaselineEntry>, news: Seq<BaselineEntry>, r: Result<LevelDiff, String>) -> bool {
    &&& r is Ok ==> (resolvable(after, focus) && (snapshot.ir.nodes.lookup(focus) is Some ==> resolvable(snapshot.ir, focus)))
    &&& match r {
        Ok(d) => {
            &&& exists|now: Projection, then: Option<Projection>| #![trigger level_fits(snapshot, after, focus, renames, now, then, d)]
                level_sources(snapshot, after, focus, now, then) && level_fits(snapshot, after, focus, renames, now, then, d)
            &&& diff_fits(snapshot, after, Some(focus), renames, olds, news, d.summary)
        },
        Err(m) => if !resolvable(after, focus) {
            projects(after, focus, violation_views(after.violations@), EVIDENCE_LIMIT as nat, Err(m))
        } else if snapshot.ir.nodes.lookup(focus) is Some && !resolvable(snapshot.ir, focus) {
            projects(snapshot.ir, focus, violation_views(snapshot.ir.violations@), EVIDENCE_LIMIT as nat, Err(m))
        } else {
            &&& m@ == counts_overflow_text()
            &&& exists|now: Projection, then: Option<Projection>| #![trigger level_sources(snapshot, after, focus, now, then)]
                level_sources(snapshot, after, focus, now, then)
                    && (edge_count_sum(now.edges@) > usize::MAX || edge_count_sum(then_edges(then)) > usize::MAX)
        },
    }
}

/// Compares one level of the snapshot with the same level now: the
/// projection of `focus` then (if the snapshot had the node) and now, in
/// the entry IDs of now, with the subtree's file-level diff. The violation
/// observations before and after feed that diff.
pub fn level_diff(
    snapshot: &Snapshot,
    after: &ArchitectureIr,
    focus: &str,
    renames: &StrMap<String>,
    before_entries: &Vec<BaselineEntry>,
    after_entries: &Vec<BaselineEntry>,
) -> (r: Result<LevelDiff, String>)
    requires
        after.resolved_edges@.len() < usize::MAX,
        snapshot.ir.resolved_edges@.len() < usize::MAX,
    ensures
        level_result(*snapshot, *after, focus@, *renames, before_entries@, after_entries@, r),
{
    let now = match project(after, focus, EVIDENCE_LIMIT) {
        Ok(p) => p,
        Err(e) => {
            return Err(e);
        },
    };
    let then = if snapshot.ir.nodes.contains_key(focus) {
        match project(&snapshot.ir, focus, EVIDENCE_LIMIT) {
            Ok(p) => Some(p),
            Err(e) => {
                return Err(e);
            },
        }
    } else {
        None
    };
    let fits_now = edge_total(&now.edges);
    let fits_then = match &then {
        Some(p) => edge_total(&p.edges),
        None => true,
    };
    if !fits_now || !fits_then {
        proof {
            assert(level_sources(*snapshot, *after, focus@, now, then));
        }
        return Err(String::from_str("the dependency counts of this level exceed this platform's capacity"));
    }
    let summary = diff(snapshot, after, Some(focus), renames, before_entries, after_entries);
    let d = compare_levels(snapshot, after, focus, renames, &now, &then, summary);
    proof {
        assert(level_sources(*snapshot, *after, focus@, now, then));
        assert(level_fits(*snapshot, *after, focus@, *renames, now, then, d));
    }
    Ok(d)
}

} // verus!
