//! Observed dependencies and the bounded, deterministic samples of them that
//! the architecture keeps. A confidence is carried as the bits of its `f64`
//! (`f64::to_bits`): it is compared in the order of `f64::total_cmp` and
//! never computed with.
use vstd::prelude::*;
use std::cmp::Ordering;
use crate::order::{chars_le, lex_le, lemma_lex_antisymmetric, lemma_lex_reflexive, lemma_lex_total, lemma_lex_transitive};
use crate::text::{chars_eq, chars_of};

verus! {

/// One observed file-level dependency.
#[derive(Debug, Clone, PartialEq, Eq)]
pub struct EdgeEvidence {
    pub from_file: String,
    pub to_file: String,
    pub kind: String,
    /// The bits of the `f64` confidence, if the provider gave one.
    pub confidence: Option<u64>,
    pub reason: Option<String>,
}

/// What an evidence item holds, as values.
pub struct EvidenceView {
    pub from_file: Seq<char>,
    pub to_file: Seq<char>,
    pub kind: Seq<char>,
    pub confidence: Option<u64>,
    pub reason: Option<Seq<char>>,
}

pub open spec fn ev_view(e: EdgeEvidence) -> EvidenceView {
    EvidenceView {
        from_file: e.from_file@,
        to_file: e.to_file@,
        kind: e.kind@,
        confidence: e.confidence,
        reason: match e.reason {
            Some(r) => Some(r@),
            None => None,
        },
    }
}

pub open spec fn ev_views(s: Seq<EdgeEvidence>) -> Seq<EvidenceView> {
    s.map_values(|e: EdgeEvidence| ev_view(e))
}

/// The key that orders `f64` bits as `f64::total_cmp` does (IEEE 754
/// totalOrder): negative values flipped, non-negative ones above them.
pub open spec fn total_key(bits: u64) -> u64 {
    if bits >> 63u64 == 1u64 {
        !bits
    } else {
        bits | 0x8000_0000_0000_0000u64
    }
}

pub fn total_key_exec(bits: u64) -> (r: u64)
    ensures
        r == total_key(bits),
{
    if bits >> 63u64 == 1u64 {
        !bits
    } else {
        bits | 0x8000_0000_0000_0000u64
    }
}

pub proof fn lemma_total_key_injective(a: u64, b: u64)
    requires
        total_key(a) == total_key(b),
    ensures
        a == b,
{
    assert(total_key(a) == total_key(b) ==> a == b) by (bit_vector);
}

/// -1, 0 or 1 as `a` sorts before, with or after `b` (`str::cmp`).
pub open spec fn text_order(a: Seq<char>, b: Seq<char>) -> int {
    if a == b {
        0
    } else if lex_le(a, b) {
        -1
    } else {
        1
    }
}

pub open spec fn confidence_order(a: Option<u64>, b: Option<u64>) -> int {
    match (a, b) {
        (None, None) => 0,
        (None, Some(_)) => -1,
        (Some(_), None) => 1,
        (Some(x), Some(y)) => if total_key(x) == total_key(y) {
            0
        } else if total_key(x) < total_key(y) {
            -1
        } else {
            1
        },
    }
}

pub open spec fn reason_order(a: Option<Seq<char>>, b: Option<Seq<char>>) -> int {
    match (a, b) {
        (None, None) => 0,
        (None, Some(_)) => -1,
        (Some(_), None) => 1,
        (Some(x), Some(y)) => text_order(x, y),
    }
}

/// The order of evidence: by files and kind, then confidence (absent first,
/// then in `total_cmp` order), then reason (absent first).
pub open spec fn ev_order(a: EvidenceView, b: EvidenceView) -> int {
    if text_order(a.from_file, b.from_file) != 0 {
        text_order(a.from_file, b.from_file)
    } else if text_order(a.to_file, b.to_file) != 0 {
        text_order(a.to_file, b.to_file)
    } else if text_order(a.kind, b.kind) != 0 {
        text_order(a.kind, b.kind)
    } else if confidence_order(a.confidence, b.confidence) != 0 {
        confidence_order(a.confidence, b.confidence)
    } else {
        reason_order(a.reason, b.reason)
    }
}

pub open spec fn ev_le(a: EvidenceView, b: EvidenceView) -> bool {
    ev_order(a, b) <= 0
}

pub proof fn lemma_text_order(a: Seq<char>, b: Seq<char>)
    ensures
        text_order(a, b) == -text_order(b, a),
        -1 <= text_order(a, b) <= 1,
{
    lemma_lex_total(a, b);
    if a != b && lex_le(a, b) && lex_le(b, a) {
        lemma_lex_antisymmetric(a, b);
    }
}

pub proof fn lemma_text_order_trans(a: Seq<char>, b: Seq<char>, c: Seq<char>)
    requires
        text_order(a, b) <= 0,
        text_order(b, c) <= 0,
    ensures
        text_order(a, c) <= 0,
        (text_order(a, b) < 0 || text_order(b, c) < 0) ==> text_order(a, c) < 0,
{
    lemma_lex_reflexive(a);
    lemma_lex_reflexive(b);
    if text_order(a, b) == 0 || text_order(b, c) == 0 {
    } else {
        lemma_lex_transitive(a, b, c);
        if a == c {
            lemma_lex_antisymmetric(a, b);
        }
    }
}

/// `ev_order` is antisymmetric in sign, and zero only for equal evidence.
pub proof fn lemma_ev_order_basic(a: EvidenceView, b: EvidenceView)
    ensures
        ev_order(a, b) == -ev_order(b, a),
        -1 <= ev_order(a, b) <= 1,
        ev_order(a, b) == 0 ==> a == b,
{
    lemma_text_order(a.from_file, b.from_file);
    lemma_text_order(a.to_file, b.to_file);
    lemma_text_order(a.kind, b.kind);
    match (a.reason, b.reason) {
        (Some(x), Some(y)) => lemma_text_order(x, y),
        _ => {},
    }
    match (a.confidence, b.confidence) {
        (Some(x), Some(y)) => if total_key(x) == total_key(y) {
            lemma_total_key_injective(x, y);
        },
        _ => {},
    }
}

/// `ev_le` is a total order.
pub proof fn lemma_ev_le_transitive(a: EvidenceView, b: EvidenceView, c: EvidenceView)
    requires
        ev_le(a, b),
        ev_le(b, c),
    ensures
        ev_le(a, c),
{
    lemma_ev_order_basic(a, b);
    lemma_ev_order_basic(b, c);
    lemma_ev_order_basic(a, c);
    if ev_order(a, b) == 0 || ev_order(b, c) == 0 {
        return;
    }
    lemma_text_order(a.from_file, b.from_file);
    lemma_text_order(b.from_file, c.from_file);
    lemma_text_order(a.from_file, c.from_file);
    lemma_text_order(a.to_file, b.to_file);
    lemma_text_order(b.to_file, c.to_file);
    lemma_text_order(a.to_file, c.to_file);
    lemma_text_order(a.kind, b.kind);
    lemma_text_order(b.kind, c.kind);
    lemma_text_order(a.kind, c.kind);
    if text_order(a.from_file, b.from_file) <= 0 && text_order(b.from_file, c.from_file) <= 0 {
        lemma_text_order_trans(a.from_file, b.from_file, c.from_file);
    }
    if text_order(a.to_file, b.to_file) <= 0 && text_order(b.to_file, c.to_file) <= 0 {
        lemma_text_order_trans(a.to_file, b.to_file, c.to_file);
    }
    if text_order(a.kind, b.kind) <= 0 && text_order(b.kind, c.kind) <= 0 {
        lemma_text_order_trans(a.kind, b.kind, c.kind);
    }
    match (a.reason, b.reason, c.reason) {
        (Some(x), Some(y), Some(z)) => {
            lemma_text_order(x, y);
            lemma_text_order(y, z);
            lemma_text_order(x, z);
            if text_order(x, y) <= 0 && text_order(y, z) <= 0 {
                lemma_text_order_trans(x, y, z);
            }
        },
        _ => {},
    }
}

pub proof fn lemma_ev_le_total(a: EvidenceView, b: EvidenceView)
    ensures
        ev_le(a, b) || ev_le(b, a),
{
    lemma_ev_order_basic(a, b);
}

pub(crate) fn order_of_text(a: &str, b: &str) -> (r: i8)
    ensures
        r == text_order(a@, b@),
{
    let x = chars_of(a);
    let y = chars_of(b);
    if chars_eq(x.as_slice(), y.as_slice()) {
        0
    } else if chars_le(x.as_slice(), y.as_slice()) {
        -1
    } else {
        1
    }
}

pub(crate) fn order_of_evidence(a: &EdgeEvidence, b: &EdgeEvidence) -> (r: i8)
    ensures
        r == ev_order(ev_view(*a), ev_view(*b)),
{
    let c = order_of_text(a.from_file.as_str(), b.from_file.as_str());
    if c != 0 {
        return c;
    }
    let c = order_of_text(a.to_file.as_str(), b.to_file.as_str());
    if c != 0 {
        return c;
    }
    let c = order_of_text(a.kind.as_str(), b.kind.as_str());
    if c != 0 {
        return c;
    }
    let c: i8 = match (a.confidence, b.confidence) {
        (None, None) => 0,
        (None, Some(_)) => -1,
        (Some(_), None) => 1,
        (Some(x), Some(y)) => {
            let kx = total_key_exec(x);
            let ky = total_key_exec(y);
            if kx == ky {
                0
            } else if kx < ky {
                -1
            } else {
                1
            }
        },
    };
    if c != 0 {
        return c;
    }
    match (&a.reason, &b.reason) {
        (None, None) => 0,
        (None, Some(_)) => -1,
        (Some(_), None) => 1,
        (Some(x), Some(y)) => order_of_text(x.as_str(), y.as_str()),
    }
}

/// The order of evidence: by source file, target file and kind, then by
/// confidence (absent first, then `f64::total_cmp`), then by reason.
pub fn evidence_cmp(a: &EdgeEvidence, b: &EdgeEvidence) -> (r: Ordering)
    ensures
        (r == Ordering::Less) == (ev_order(ev_view(*a), ev_view(*b)) < 0),
        (r == Ordering::Equal) == (ev_order(ev_view(*a), ev_view(*b)) == 0),
        (r == Ordering::Greater) == (ev_order(ev_view(*a), ev_view(*b)) > 0),
{
    let c = order_of_evidence(a, b);
    if c < 0 {
        Ordering::Less
    } else if c == 0 {
        Ordering::Equal
    } else {
        Ordering::Greater
    }
}

/// How many leading items of the sorted `s` sort at or before `x`: where
/// `x` goes.
pub open spec fn ins_pos(s: Seq<EvidenceView>, x: EvidenceView) -> nat
    decreases s.len(),
{
    if s.len() == 0 {
        0
    } else if ev_le(s[0], x) {
        1 + ins_pos(s.drop_first(), x)
    } else {
        0
    }
}

pub open spec fn sorted_ev(s: Seq<EvidenceView>) -> bool {
    forall|i: int, j: int| 0 <= i < j < s.len() ==> ev_le(#[trigger] s[i], #[trigger] s[j])
}

/// `x` put into the sorted `s` where it belongs, after equal items.
pub open spec fn insert_sorted(s: Seq<EvidenceView>, x: EvidenceView) -> Seq<EvidenceView> {
    s.insert(ins_pos(s, x) as int, x)
}

/// All observations, sorted: each inserted where it belongs.
pub open spec fn sort_all(xs: Seq<EvidenceView>) -> Seq<EvidenceView>
    decreases xs.len(),
{
    if xs.len() == 0 {
        Seq::<EvidenceView>::empty()
    } else {
        insert_sorted(sort_all(xs.drop_last()), xs.last())
    }
}

/// The first `n` items of `s`, or all of them when there are fewer.
pub open spec fn first_n(s: Seq<EvidenceView>, n: nat) -> Seq<EvidenceView> {
    if s.len() <= n {
        s
    } else {
        s.take(n as int)
    }
}

/// The sample kept of `s` after one more observation `x`, with room for
/// `limit` items.
pub open spec fn sample_step(s: Seq<EvidenceView>, x: EvidenceView, limit: nat) -> Seq<EvidenceView> {
    if limit == 0 || ins_pos(s, x) >= limit {
        s
    } else {
        first_n(insert_sorted(s, x), limit)
    }
}

/// The sample kept of all observations, in the order they came.
pub open spec fn sample(xs: Seq<EvidenceView>, limit: nat) -> Seq<EvidenceView>
    decreases xs.len(),
{
    if xs.len() == 0 {
        Seq::<EvidenceView>::empty()
    } else {
        sample_step(sample(xs.drop_last(), limit), xs.last(), limit)
    }
}

proof fn lemma_ins_pos(s: Seq<EvidenceView>, x: EvidenceView)
    requires
        sorted_ev(s),
    ensures
        ins_pos(s, x) <= s.len(),
        forall|i: int| 0 <= i < ins_pos(s, x) ==> ev_le(#[trigger] s[i], x),
        forall|i: int| ins_pos(s, x) <= i < s.len() ==> !ev_le(#[trigger] s[i], x),
    decreases s.len(),
{
    if s.len() > 0 {
        let t = s.drop_first();
        assert(sorted_ev(t)) by {
            assert forall|i: int, j: int| 0 <= i < j < t.len() implies ev_le(#[trigger] t[i], #[trigger] t[j]) by {
                assert(t[i] == s[i + 1] && t[j] == s[j + 1]);
            }
        }
        lemma_ins_pos(t, x);
        if ev_le(s[0], x) {
            assert forall|i: int| 0 <= i < ins_pos(s, x) implies ev_le(#[trigger] s[i], x) by {
                if i > 0 {
                    assert(s[i] == t[i - 1]);
                }
            }
            assert forall|i: int| ins_pos(s, x) <= i < s.len() implies !ev_le(#[trigger] s[i], x) by {
                assert(s[i] == t[i - 1]);
            }
        } else {
            assert forall|i: int| 0 <= i < s.len() implies !ev_le(#[trigger] s[i], x) by {
                if i > 0 && ev_le(s[i], x) {
                    assert(ev_le(s[0], s[i]));
                    lemma_ev_le_transitive(s[0], s[i], x);
                }
            }
        }
    }
}

/// Inserting where an item belongs keeps a sequence sorted.
pub proof fn lemma_insert_sorted(s: Seq<EvidenceView>, x: EvidenceView)
    requires
        sorted_ev(s),
    ensures
        sorted_ev(insert_sorted(s, x)),
        insert_sorted(s, x).to_multiset() == s.to_multiset().insert(x),
        insert_sorted(s, x).len() == s.len() + 1,
{
    lemma_ins_pos(s, x);
    let p = ins_pos(s, x) as int;
    let r = insert_sorted(s, x);
    assert forall|i: int, j: int| 0 <= i < j < r.len() implies ev_le(#[trigger] r[i], #[trigger] r[j]) by {
        if j < p {
            assert(r[i] == s[i] && r[j] == s[j]);
        } else if j == p {
            assert(r[i] == s[i]);
        } else if i < p {
            assert(r[i] == s[i] && r[j] == s[j - 1]);
            lemma_ev_le_total(s[j - 1], x);
            lemma_ev_le_transitive(s[i], x, s[j - 1]);
        } else if i == p {
            assert(r[j] == s[j - 1]);
            lemma_ev_le_total(s[j - 1], x);
        } else {
            assert(r[i] == s[i - 1] && r[j] == s[j - 1]);
        }
    }
    vstd::seq_lib::to_multiset_insert(s, p, x);
}

pub proof fn lemma_sort_all(xs: Seq<EvidenceView>)
    ensures
        sorted_ev(sort_all(xs)),
        sort_all(xs).to_multiset() == xs.to_multiset(),
        sort_all(xs).len() == xs.len(),
    decreases xs.len(),
{
    if xs.len() == 0 {
        assert(sort_all(xs).to_multiset() =~= xs.to_multiset()) by {
            broadcast use vstd::seq_lib::group_to_multiset_ensures;
            broadcast use vstd::multiset::lemma_multiset_empty_len;
            assert(xs =~= Seq::<EvidenceView>::empty());
        }
    } else {
        lemma_sort_all(xs.drop_last());
        lemma_insert_sorted(sort_all(xs.drop_last()), xs.last());
        vstd::seq_lib::to_multiset_build(xs.drop_last(), xs.last());
        assert(xs.drop_last().push(xs.last()) =~= xs);
    }
}

/// The least item of a sorted sequence is its first.
proof fn lemma_sorted_first_least(s: Seq<EvidenceView>, x: EvidenceView)
    requires
        sorted_ev(s),
        s.to_multiset().count(x) > 0,
    ensures
        ev_le(s[0], x),
{
    broadcast use vstd::seq_lib::group_to_multiset_ensures;
    assert(s.contains(x));
    let i = choose|i: int| 0 <= i < s.len() && s[i] == x;
    if i > 0 {
        assert(ev_le(s[0], s[i]));
    } else {
        lemma_ev_order_basic(x, x);
    }
}

/// Sorted sequences with the same items are the same sequence.
pub proof fn lemma_sorted_unique(a: Seq<EvidenceView>, b: Seq<EvidenceView>)
    requires
        sorted_ev(a),
        sorted_ev(b),
        a.to_multiset() == b.to_multiset(),
    ensures
        a == b,
    decreases a.len(),
{
    broadcast use vstd::seq_lib::group_to_multiset_ensures;
    broadcast use vstd::multiset::group_multiset_axioms;
    assert(a.to_multiset().len() == a.len());
    assert(b.to_multiset().len() == b.len());
    if a.len() == 0 {
        assert(b.to_multiset().len() == 0);
        assert(a =~= b);
    } else {
        assert(b.len() == a.len());
        assert(a.contains(a[0]));
        assert(b.to_multiset().count(a[0]) > 0);
        assert(b.contains(b[0]));
        assert(a.to_multiset().count(b[0]) > 0);
        lemma_sorted_first_least(b, a[0]);
        lemma_sorted_first_least(a, b[0]);
        lemma_ev_order_basic(a[0], b[0]);
        assert(a[0] == b[0]);
        let ta = a.drop_first();
        let tb = b.drop_first();
        vstd::seq_lib::to_multiset_remove(a, 0);
        vstd::seq_lib::to_multiset_remove(b, 0);
        assert(a.remove(0) =~= ta);
        assert(b.remove(0) =~= tb);
        assert(sorted_ev(ta)) by {
            assert forall|i: int, j: int| 0 <= i < j < ta.len() implies ev_le(#[trigger] ta[i], #[trigger] ta[j]) by {
                assert(ta[i] == a[i + 1] && ta[j] == a[j + 1]);
            }
        }
        assert(sorted_ev(tb)) by {
            assert forall|i: int, j: int| 0 <= i < j < tb.len() implies ev_le(#[trigger] tb[i], #[trigger] tb[j]) by {
                assert(tb[i] == b[i + 1] && tb[j] == b[j + 1]);
            }
        }
        lemma_sorted_unique(ta, tb);
        assert(a =~= seq![a[0]] + ta);
        assert(b =~= seq![b[0]] + tb);
    }
}

/// Truncating before an insertion changes nothing within the limit.
proof fn lemma_take_insert(s: Seq<EvidenceView>, x: EvidenceView, limit: nat)
    requires
        sorted_ev(s),
        limit > 0,
    ensures
        sample_step(first_n(s, limit), x, limit) == first_n(insert_sorted(s, x), limit),
{
    let t = first_n(s, limit);
    assert(sorted_ev(t)) by {
        assert forall|i: int, j: int| 0 <= i < j < t.len() implies ev_le(#[trigger] t[i], #[trigger] t[j]) by {
            assert(t[i] == s[i] && t[j] == s[j]);
        }
    }
    lemma_ins_pos(s, x);
    lemma_ins_pos(t, x);
    let p = ins_pos(s, x);
    let q = ins_pos(t, x);
    assert(forall|i: int| 0 <= i < t.len() ==> t[i] == s[i]);
    if q < t.len() {
        assert(q == p) by {
            if q < p {
                assert(ev_le(s[q as int], x));
                assert(t[q as int] == s[q as int]);
            } else if p < q {
                assert(t[p as int] == s[p as int]);
            }
        }
    } else {
        assert(p >= q) by {
            if p < q {
                assert(t[p as int] == s[p as int]);
            }
        }
    }
    let r = insert_sorted(s, x);
    if q >= limit {
        assert(t.len() == limit);
        assert(p >= limit);
        assert(r.len() > limit);
        assert(first_n(r, limit) =~= t);
    } else if q < t.len() {
        assert(q == p);
        let u = insert_sorted(t, x);
        assert(first_n(u, limit) =~= first_n(r, limit));
    } else {
        assert(t.len() < limit);
        assert(t =~= s);
    }
}

/// The sample is the least `limit` observations, in order.
pub proof fn lemma_sample_is_prefix(xs: Seq<EvidenceView>, limit: nat)
    ensures
        sample(xs, limit) == first_n(sort_all(xs), limit),
    decreases xs.len(),
{
    if xs.len() > 0 {
        lemma_sample_is_prefix(xs.drop_last(), limit);
        lemma_sort_all(xs.drop_last());
        let sorted = sort_all(xs.drop_last());
        if limit == 0 {
            lemma_sort_all(xs);
            assert(first_n(sort_all(xs), 0) =~= Seq::<EvidenceView>::empty());
            assert(first_n(sorted, 0) =~= Seq::<EvidenceView>::empty());
        } else {
            lemma_take_insert(sorted, xs.last(), limit);
        }
    }
}

/// The sample does not depend on the order the observations came in.
pub proof fn lemma_sample_order_independent(xs: Seq<EvidenceView>, ys: Seq<EvidenceView>, limit: nat)
    requires
        xs.to_multiset() == ys.to_multiset(),
    ensures
        sample(xs, limit) == sample(ys, limit),
{
    lemma_sample_is_prefix(xs, limit);
    lemma_sample_is_prefix(ys, limit);
    lemma_sort_all(xs);
    lemma_sort_all(ys);
    lemma_sorted_unique(sort_all(xs), sort_all(ys));
}

proof fn lemma_acc_sample(xs: Seq<EvidenceView>, limit: nat)
    ensures
        acc_of(xs, limit).evidence == sample(xs, limit),
    decreases xs.len(),
{
    if xs.len() > 0 {
        lemma_acc_sample(xs.drop_last(), limit);
    }
}

/// An accumulator fed the same observations in another order counts as many
/// and keeps the same sample.
pub proof fn lemma_acc_order_independent(xs: Seq<EvidenceView>, ys: Seq<EvidenceView>, limit: nat)
    requires
        xs.to_multiset() == ys.to_multiset(),
    ensures
        acc_of(xs, limit).count == acc_of(ys, limit).count,
        acc_of(xs, limit).evidence == acc_of(ys, limit).evidence,
{
    lemma_acc_sample(xs, limit);
    lemma_acc_sample(ys, limit);
    lemma_sample_order_independent(xs, ys, limit);
    lemma_acc_count(xs, limit);
    lemma_acc_count(ys, limit);
    xs.to_multiset_ensures();
    ys.to_multiset_ensures();
}

impl EdgeEvidence {
    /// A copy of the evidence.
    pub fn duplicate(&self) -> (r: EdgeEvidence)
        ensures
            ev_view(r) == ev_view(*self),
    {
        EdgeEvidence {
            from_file: self.from_file.clone(),
            to_file: self.to_file.clone(),
            kind: self.kind.clone(),
            confidence: self.confidence,
            reason: match &self.reason {
                Some(r) => Some(r.clone()),
                None => None,
            },
        }
    }
}

/// An observation whose files both map to architecture nodes.
#[derive(Debug, Clone, PartialEq, Eq)]
pub struct ResolvedEdge {
    pub from: String,
    pub to: String,
    pub kind: String,
    pub evidence: EdgeEvidence,
}

/// The smaller confidence in `f64::total_cmp` order.
pub open spec fn key_min(a: u64, b: u64) -> u64 {
    if total_key(b) < total_key(a) { b } else { a }
}

pub open spec fn key_max(a: u64, b: u64) -> u64 {
    if total_key(b) > total_key(a) { b } else { a }
}

/// What an accumulator holds, as values.
pub struct AccView {
    pub count: nat,
    pub evidence: Seq<EvidenceView>,
    pub confidence_min: Option<u64>,
    pub confidence_max: Option<u64>,
}

pub open spec fn acc_empty() -> AccView {
    AccView { count: 0, evidence: Seq::<EvidenceView>::empty(), confidence_min: None, confidence_max: None }
}

/// One more observation: counted, its confidence taken into the range, and
/// kept in the sample if it is among the least `limit`.
pub open spec fn acc_step(a: AccView, x: EvidenceView, limit: nat) -> AccView {
    AccView {
        count: a.count + 1,
        evidence: sample_step(a.evidence, x, limit),
        confidence_min: match x.confidence {
            None => a.confidence_min,
            Some(c) => Some(match a.confidence_min { None => c, Some(m) => key_min(m, c) }),
        },
        confidence_max: match x.confidence {
            None => a.confidence_max,
            Some(c) => Some(match a.confidence_max { None => c, Some(m) => key_max(m, c) }),
        },
    }
}

/// The accumulator after the observations `xs`, in order.
pub open spec fn acc_of(xs: Seq<EvidenceView>, limit: nat) -> AccView
    decreases xs.len(),
{
    if xs.len() == 0 {
        acc_empty()
    } else {
        acc_step(acc_of(xs.drop_last(), limit), xs.last(), limit)
    }
}

/// Bounded, deterministic sampling. The count includes duplicate
/// observations; the confidence range covers all of them, not just the
/// sampled ones.
pub struct EvidenceAccumulator {
    pub count: usize,
    pub evidence: Vec<EdgeEvidence>,
    pub confidence_min: Option<u64>,
    pub confidence_max: Option<u64>,
}

impl EvidenceAccumulator {
    pub open spec fn view_acc(&self) -> AccView {
        AccView {
            count: self.count as nat,
            evidence: ev_views(self.evidence@),
            confidence_min: self.confidence_min,
            confidence_max: self.confidence_max,
        }
    }

    pub fn new() -> (r: Self)
        ensures
            r.view_acc() == acc_empty(),
    {
        let r = EvidenceAccumulator { count: 0, evidence: Vec::new(), confidence_min: None, confidence_max: None };
        proof {
            assert(ev_views(r.evidence@) =~= Seq::<EvidenceView>::empty());
        }
        r
    }

    /// Counts one more observation and keeps it if it is among the least
    /// `limit` seen.
    pub fn add(&mut self, evidence: &EdgeEvidence, limit: usize)
        requires
            old(self).count < usize::MAX,
        ensures
            final(self).view_acc() == acc_step(old(self).view_acc(), ev_view(*evidence), limit as nat),
    {
        self.count = self.count + 1;
        match evidence.confidence {
            Some(c) => {
                self.confidence_min = Some(match self.confidence_min {
                    None => c,
                    Some(m) => if total_key_exec(c) < total_key_exec(m) { c } else { m },
                });
                self.confidence_max = Some(match self.confidence_max {
                    None => c,
                    Some(m) => if total_key_exec(c) > total_key_exec(m) { c } else { m },
                });
            },
            None => {},
        }
        if limit == 0 {
            return;
        }
        let ghost s = ev_views(self.evidence@);
        let ghost x = ev_view(*evidence);
        let mut p: usize = 0;
        let mut stop = false;
        proof {
            assert(s.skip(0) =~= s);
        }
        while p < self.evidence.len() && !stop
            invariant
                s == ev_views(self.evidence@),
                x == ev_view(*evidence),
                p <= s.len(),
                ins_pos(s, x) == p + ins_pos(s.skip(p as int), x),
                stop ==> ins_pos(s.skip(p as int), x) == 0,
            decreases s.len() - p + (if stop { 0int } else { 1int }),
        {
            proof {
                assert(s.skip(p as int)[0] == s[p as int]);
                assert(s[p as int] == ev_view(self.evidence@[p as int]));
                assert(s.skip(p as int).drop_first() =~= s.skip(p + 1));
            }
            if order_of_evidence(&self.evidence[p], evidence) <= 0 {
                p = p + 1;
            } else {
                stop = true;
            }
        }
        proof {
            if !stop {
                assert(s.skip(p as int) =~= Seq::<EvidenceView>::empty());
            }
            assert(ins_pos(s, x) == p);
        }
        if p < limit {
            let copy = evidence.duplicate();
            self.evidence.insert(p, copy);
            proof {
                assert(ev_views(self.evidence@) =~= s.insert(p as int, x));
            }
            if self.evidence.len() > limit {
                let ghost before = ev_views(self.evidence@);
                self.evidence.truncate(limit);
                proof {
                    assert(ev_views(self.evidence@) =~= before.take(limit as int));
                }
            }
        }
    }
}

/// One architecture-level dependency: all observations from one node to
/// another of one kind, or a manual edge.
pub struct CompiledEdge {
    pub from: String,
    pub to: String,
    pub kind: String,
    pub origin: crate::model::EdgeOrigin,
    pub count: usize,
    pub evidence: Vec<EdgeEvidence>,
    pub confidence_min: Option<u64>,
    pub confidence_max: Option<u64>,
    pub manual_edges: Vec<crate::config::ManualEdgeConfig>,
}

impl EvidenceAccumulator {
    /// The observed edge the accumulated observations make.
    pub fn into_edge(self, from: String, to: String, kind: String) -> (r: CompiledEdge)
        ensures
            r.from == from,
            r.to == to,
            r.kind == kind,
            r.origin == crate::model::EdgeOrigin::Observed,
            r.count == self.count,
            r.evidence == self.evidence,
            r.confidence_min == self.confidence_min,
            r.confidence_max == self.confidence_max,
            r.manual_edges@.len() == 0,
    {
        CompiledEdge {
            from,
            to,
            kind,
            origin: crate::model::EdgeOrigin::Observed,
            count: self.count,
            evidence: self.evidence,
            confidence_min: self.confidence_min,
            confidence_max: self.confidence_max,
            manual_edges: Vec::new(),
        }
    }
}

/// What an architecture-level edge holds, as values.
pub struct CompiledView {
    pub from: Seq<char>,
    pub to: Seq<char>,
    pub kind: Seq<char>,
    pub origin: crate::model::EdgeOrigin,
    pub count: usize,
    pub evidence: Seq<EvidenceView>,
    pub confidence_min: Option<u64>,
    pub confidence_max: Option<u64>,
    pub manual_edges: Seq<(Seq<char>, Seq<char>, Seq<char>, Seq<char>, Option<Seq<char>>, Option<Seq<char>>)>,
}

pub open spec fn compiled_view(e: CompiledEdge) -> CompiledView {
    CompiledView {
        from: e.from@,
        to: e.to@,
        kind: e.kind@,
        origin: e.origin,
        count: e.count,
        evidence: ev_views(e.evidence@),
        confidence_min: e.confidence_min,
        confidence_max: e.confidence_max,
        manual_edges: crate::config::manual_views(e.manual_edges@),
    }
}

pub open spec fn compiled_views(v: Seq<CompiledEdge>) -> Seq<CompiledView> {
    v.map_values(|e: CompiledEdge| compiled_view(e))
}

/// A copy of a list of evidence.
pub fn copy_evidence(v: &Vec<EdgeEvidence>) -> (r: Vec<EdgeEvidence>)
    ensures
        ev_views(r@) == ev_views(v@),
{
    let mut out: Vec<EdgeEvidence> = Vec::new();
    let mut i: usize = 0;
    while i < v.len()
        invariant
            i <= v@.len(),
            ev_views(out@) == ev_views(v@).take(i as int),
        decreases v@.len() - i,
    {
        let ghost before = out@;
        let d = v[i].duplicate();
        out.push(d);
        proof {
            assert(ev_views(out@) =~= ev_views(before).push(ev_view(v@[i as int])));
            assert(ev_views(v@).take(i + 1) =~= ev_views(v@).take(i as int).push(ev_view(v@[i as int])));
        }
        i = i + 1;
    }
    proof {
        assert(ev_views(v@).take(v@.len() as int) =~= ev_views(v@));
    }
    out
}

impl CompiledEdge {
    /// A copy of the edge.
    pub fn duplicate(&self) -> (r: CompiledEdge)
        ensures
            compiled_view(r) == compiled_view(*self),
    {
        CompiledEdge {
            from: self.from.clone(),
            to: self.to.clone(),
            kind: self.kind.clone(),
            origin: self.origin,
            count: self.count,
            evidence: copy_evidence(&self.evidence),
            confidence_min: self.confidence_min,
            confidence_max: self.confidence_max,
            manual_edges: crate::config::copy_manuals(&self.manual_edges),
        }
    }
}

/// A copy of a list of architecture-level edges.
pub fn copy_compiled(v: &Vec<CompiledEdge>) -> (r: Vec<CompiledEdge>)
    ensures
        compiled_views(r@) == compiled_views(v@),
{
    let mut out: Vec<CompiledEdge> = Vec::new();
    let mut i: usize = 0;
    while i < v.len()
        invariant
            i <= v@.len(),
            compiled_views(out@) == compiled_views(v@).take(i as int),
        decreases v@.len() - i,
    {
        let ghost before = out@;
        let d = v[i].duplicate();
        out.push(d);
        proof {
            assert(compiled_views(out@) =~= compiled_views(before).push(compiled_view(v@[i as int])));
            assert(compiled_views(v@).take(i + 1) =~= compiled_views(v@).take(i as int).push(compiled_view(v@[i as int])));
        }
        i = i + 1;
    }
    proof {
        assert(compiled_views(v@).take(v@.len() as int) =~= compiled_views(v@));
    }
    out
}

/// The architecture-level key of an observation.
pub open spec fn edge_key(e: ResolvedEdge) -> (Seq<char>, Seq<char>, Seq<char>) {
    (e.from@, e.to@, e.kind@)
}

/// The order of keys: by source node, target node, kind.
pub open spec fn key_order(a: (Seq<char>, Seq<char>, Seq<char>), b: (Seq<char>, Seq<char>, Seq<char>)) -> int {
    if text_order(a.0, b.0) != 0 {
        text_order(a.0, b.0)
    } else if text_order(a.1, b.1) != 0 {
        text_order(a.1, b.1)
    } else {
        text_order(a.2, b.2)
    }
}

pub proof fn lemma_key_order(a: (Seq<char>, Seq<char>, Seq<char>), b: (Seq<char>, Seq<char>, Seq<char>))
    ensures
        key_order(a, b) == -key_order(b, a),
        key_order(a, b) == 0 <==> a == b,
{
    lemma_text_order(a.0, b.0);
    lemma_text_order(a.1, b.1);
    lemma_text_order(a.2, b.2);
}

pub proof fn lemma_key_order_trans(
    a: (Seq<char>, Seq<char>, Seq<char>),
    b: (Seq<char>, Seq<char>, Seq<char>),
    c: (Seq<char>, Seq<char>, Seq<char>),
)
    requires
        key_order(a, b) < 0,
        key_order(b, c) < 0,
    ensures
        key_order(a, c) < 0,
{
    lemma_text_order(a.0, b.0);
    lemma_text_order(b.0, c.0);
    lemma_text_order(a.0, c.0);
    lemma_text_order(a.1, b.1);
    lemma_text_order(b.1, c.1);
    lemma_text_order(a.1, c.1);
    lemma_text_order(a.2, b.2);
    lemma_text_order(b.2, c.2);
    lemma_text_order(a.2, c.2);
    if text_order(a.0, b.0) <= 0 && text_order(b.0, c.0) <= 0 {
        lemma_text_order_trans(a.0, b.0, c.0);
    }
    if text_order(a.1, b.1) <= 0 && text_order(b.1, c.1) <= 0 {
        lemma_text_order_trans(a.1, b.1, c.1);
    }
    if text_order(a.2, b.2) <= 0 && text_order(b.2, c.2) <= 0 {
        lemma_text_order_trans(a.2, b.2, c.2);
    }
}

/// The evidence of the observations with key `k`, in order.
pub open spec fn with_key(edges: Seq<ResolvedEdge>, k: (Seq<char>, Seq<char>, Seq<char>)) -> Seq<EvidenceView>
    decreases edges.len(),
{
    if edges.len() == 0 {
        Seq::<EvidenceView>::empty()
    } else if edge_key(edges.last()) == k {
        with_key(edges.drop_last(), k).push(ev_view(edges.last().evidence))
    } else {
        with_key(edges.drop_last(), k)
    }
}

pub open spec fn has_key(edges: Seq<ResolvedEdge>, k: (Seq<char>, Seq<char>, Seq<char>)) -> bool {
    exists|i: int| 0 <= i < edges.len() && edge_key(#[trigger] edges[i]) == k
}

pub open spec fn compiled_key(e: CompiledEdge) -> (Seq<char>, Seq<char>, Seq<char>) {
    (e.from@, e.to@, e.kind@)
}

pub open spec fn compiled_acc(e: CompiledEdge) -> AccView {
    AccView {
        count: e.count as nat,
        evidence: ev_views(e.evidence@),
        confidence_min: e.confidence_min,
        confidence_max: e.confidence_max,
    }
}

pub proof fn lemma_acc_count(xs: Seq<EvidenceView>, limit: nat)
    ensures
        acc_of(xs, limit).count == xs.len(),
    decreases xs.len(),
{
    if xs.len() > 0 {
        lemma_acc_count(xs.drop_last(), limit);
    }
}

proof fn lemma_with_key_len(edges: Seq<ResolvedEdge>, k: (Seq<char>, Seq<char>, Seq<char>))
    ensures
        with_key(edges, k).len() <= edges.len(),
        with_key(edges, k).len() > 0 ==> has_key(edges, k),
    decreases edges.len(),
{
    if edges.len() > 0 {
        lemma_with_key_len(edges.drop_last(), k);
        if with_key(edges.drop_last(), k).len() > 0 {
            let i = choose|i: int| 0 <= i < edges.drop_last().len() && edge_key(#[trigger] edges.drop_last()[i]) == k;
            assert(edges[i] == edges.drop_last()[i]);
        }
        if edge_key(edges.last()) == k {
            assert(edge_key(edges[edges.len() - 1]) == k);
        }
    }
}

struct Group {
    from: String,
    to: String,
    kind: String,
    acc: EvidenceAccumulator,
}

spec fn group_key(g: Group) -> (Seq<char>, Seq<char>, Seq<char>) {
    (g.from@, g.to@, g.kind@)
}

fn order_of_keys(a: &Group, e: &ResolvedEdge) -> (r: i8)
    ensures
        r == key_order(group_key(*a), edge_key(*e)),
{
    let c = order_of_text(a.from.as_str(), e.from.as_str());
    if c != 0 {
        return c;
    }
    let c = order_of_text(a.to.as_str(), e.to.as_str());
    if c != 0 {
        return c;
    }
    order_of_text(a.kind.as_str(), e.kind.as_str())
}

spec fn groups_sorted(groups: Seq<Group>) -> bool {
    forall|i: int, j: int| 0 <= i < j < groups.len() ==> key_order(group_key(#[trigger] groups[i]), group_key(#[trigger] groups[j])) < 0
}

spec fn groups_cover(groups: Seq<Group>, seen: Seq<ResolvedEdge>) -> bool {
    forall|k: (Seq<char>, Seq<char>, Seq<char>)| has_key(seen, k) <==> exists|i: int| 0 <= i < groups.len() && group_key(#[trigger] groups[i]) == k
}

spec fn groups_accumulate(groups: Seq<Group>, seen: Seq<ResolvedEdge>, limit: nat) -> bool {
    forall|i: int| 0 <= i < groups.len() ==> (#[trigger] groups[i]).acc.view_acc() == acc_of(with_key(seen, group_key(groups[i])), limit)
}

proof fn lemma_with_key_step(pre: Seq<ResolvedEdge>, e: ResolvedEdge, q: (Seq<char>, Seq<char>, Seq<char>))
    ensures
        with_key(pre.push(e), q) == (if edge_key(e) == q { with_key(pre, q).push(ev_view(e.evidence)) } else { with_key(pre, q) }),
{
    assert(pre.push(e).drop_last() =~= pre);
}

/// Counts one observation into the group of its key, made where it belongs
/// when there is none yet.
#[verifier::rlimit(40)]
fn add_observation(groups: &mut Vec<Group>, e: &ResolvedEdge, limit: usize, Ghost(pre): Ghost<Seq<ResolvedEdge>>)
    requires
        pre.len() < usize::MAX,
        groups_sorted(old(groups)@),
        groups_cover(old(groups)@, pre),
        groups_accumulate(old(groups)@, pre, limit as nat),
    ensures
        groups_sorted(final(groups)@),
        groups_cover(final(groups)@, pre.push(*e)),
        groups_accumulate(final(groups)@, pre.push(*e), limit as nat),
{
    let ghost k = edge_key(*e);
    let ghost post = pre.push(*e);
    proof {
        assert(post.drop_last() =~= pre);
        assert(post.last() == *e);
        assert forall|q: (Seq<char>, Seq<char>, Seq<char>)| with_key(post, q) == (if k == q { with_key(pre, q).push(ev_view(e.evidence)) } else { with_key(pre, q) }) by {
            lemma_with_key_step(pre, *e, q);
        }
    }
        let mut pos: usize = 0;
        let mut stop = false;
        while pos < groups.len() && !stop
            invariant
                pos <= groups@.len(),
                k == edge_key(*e),
                forall|i: int| 0 <= i < pos ==> key_order(group_key(#[trigger] groups@[i]), k) < 0,
                stop ==> pos < groups@.len() && key_order(group_key(groups@[pos as int]), k) >= 0,
            decreases groups@.len() - pos + (if stop { 0int } else { 1int }),
        {
            if order_of_keys(&groups[pos], e) < 0 {
                pos = pos + 1;
            } else {
                stop = true;
            }
        }
        let ghost old_groups = groups@;
        proof {
            lemma_with_key_len(pre, k);
            lemma_acc_count(with_key(pre, k), limit as nat);
        }
        if stop && order_of_keys(&groups[pos], e) == 0 {
            proof {
                lemma_key_order(group_key(groups@[pos as int]), k);
            }
            let mut g = groups.remove(pos);
            proof {
                lemma_with_key_len(pre, group_key(g));
                lemma_acc_count(with_key(pre, group_key(g)), limit as nat);
            }
            g.acc.add(&e.evidence, limit);
            groups.insert(pos, g);
            proof {
                assert(groups@ =~= old_groups.update(pos as int, g));
                assert forall|i: int| 0 <= i < groups@.len() implies (#[trigger] groups@[i]).acc.view_acc() == acc_of(with_key(post, group_key(groups@[i])), limit as nat) by {
                    if i != pos as int {
                        assert(groups@[i] == old_groups[i]);
                        lemma_key_order(group_key(old_groups[i]), k);
                        if i < pos {
                            assert(key_order(group_key(old_groups[i]), group_key(old_groups[pos as int])) < 0);
                        } else {
                            assert(key_order(group_key(old_groups[pos as int]), group_key(old_groups[i])) < 0);
                        }
                    } else {
                        let w = with_key(pre, k);
                        assert(w.push(ev_view(e.evidence)).drop_last() =~= w);
                        assert(group_key(g) == k);
                        assert(old_groups[pos as int].acc.view_acc() == acc_of(w, limit as nat));
                    }
                }
                assert forall|q: (Seq<char>, Seq<char>, Seq<char>)| has_key(post, q) <==> exists|i: int| 0 <= i < groups@.len() && group_key(#[trigger] groups@[i]) == q by {
                    if has_key(post, q) {
                        let i = choose|i: int| 0 <= i < post.len() && edge_key(#[trigger] post[i]) == q;
                        if i < pre.len() {
                            assert(post[i] == pre[i]);
                            assert(has_key(pre, q));
                            let j = choose|j: int| 0 <= j < old_groups.len() && group_key(#[trigger] old_groups[j]) == q;
                            assert(group_key(groups@[j]) == q);
                        } else {
                            assert(group_key(groups@[pos as int]) == q);
                        }
                    }
                    if exists|i: int| 0 <= i < groups@.len() && group_key(#[trigger] groups@[i]) == q {
                        let i = choose|i: int| 0 <= i < groups@.len() && group_key(#[trigger] groups@[i]) == q;
                        assert(group_key(old_groups[i]) == q);
                        assert(has_key(pre, q));
                        let m = choose|m: int| 0 <= m < pre.len() && edge_key(#[trigger] pre[m]) == q;
                        assert(post[m] == pre[m]);
                    }
                }
            }
        } else {
            proof {
                if stop {
                    lemma_key_order(group_key(groups@[pos as int]), k);
                }
                assert(!has_key(pre, k)) by {
                    if has_key(pre, k) {
                        let j = choose|j: int| 0 <= j < old_groups.len() && group_key(#[trigger] old_groups[j]) == k;
                        lemma_key_order(group_key(old_groups[j]), k);
                        if j >= pos {
                            if j > pos {
                                assert(key_order(group_key(old_groups[pos as int]), group_key(old_groups[j])) < 0);
                                lemma_key_order(group_key(old_groups[pos as int]), k);
                            }
                        }
                    }
                }
                assert(with_key(pre, k) =~= Seq::<EvidenceView>::empty()) by {
                    lemma_with_key_len(pre, k);
                }
            }
            let mut acc = EvidenceAccumulator::new();
            acc.add(&e.evidence, limit);
            let g = Group { from: e.from.clone(), to: e.to.clone(), kind: e.kind.clone(), acc };
            groups.insert(pos, g);
            proof {
                assert(group_key(g) == k);
                assert(groups@ =~= old_groups.insert(pos as int, g));
                assert forall|i: int, j: int| 0 <= i < j < groups@.len() implies key_order(group_key(#[trigger] groups@[i]), group_key(#[trigger] groups@[j])) < 0 by {
                    if j < pos {
                    } else if j == pos {
                        assert(groups@[i] == old_groups[i]);
                    } else if i < pos {
                        assert(groups@[j] == old_groups[j - 1]);
                        assert(key_order(k, group_key(old_groups[pos as int])) < 0) by {
                            lemma_key_order(group_key(old_groups[pos as int]), k);
                        }
                        if j - 1 > pos {
                            lemma_key_order_trans(k, group_key(old_groups[pos as int]), group_key(old_groups[j - 1]));
                        }
                        lemma_key_order_trans(group_key(old_groups[i]), k, group_key(old_groups[j - 1]));
                    } else if i == pos {
                        assert(groups@[j] == old_groups[j - 1]);
                        lemma_key_order(group_key(old_groups[pos as int]), k);
                        if j - 1 > pos {
                            lemma_key_order_trans(k, group_key(old_groups[pos as int]), group_key(old_groups[j - 1]));
                        }
                    } else {
                        assert(groups@[i] == old_groups[i - 1] && groups@[j] == old_groups[j - 1]);
                    }
                }
                assert forall|i: int| 0 <= i < groups@.len() implies (#[trigger] groups@[i]).acc.view_acc() == acc_of(with_key(post, group_key(groups@[i])), limit as nat) by {
                    if i == pos as int {
                        assert(with_key(post, k) =~= seq![ev_view(e.evidence)]);
                        assert(seq![ev_view(e.evidence)].drop_last() =~= Seq::<EvidenceView>::empty());
                    } else {
                        let old_i = if i < pos { i } else { i - 1 };
                        assert(groups@[i] == old_groups[old_i]);
                        assert(group_key(old_groups[old_i]) != k);
                    }
                }
                assert forall|q: (Seq<char>, Seq<char>, Seq<char>)| has_key(post, q) <==> exists|i: int| 0 <= i < groups@.len() && group_key(#[trigger] groups@[i]) == q by {
                    if has_key(post, q) {
                        let i = choose|i: int| 0 <= i < post.len() && edge_key(#[trigger] post[i]) == q;
                        if i < pre.len() {
                            assert(post[i] == pre[i]);
                            assert(has_key(pre, q));
                            let j = choose|j: int| 0 <= j < old_groups.len() && group_key(#[trigger] old_groups[j]) == q;
                            if j < pos {
                                assert(group_key(groups@[j]) == q);
                            } else {
                                assert(group_key(groups@[j + 1]) == q);
                            }
                        } else {
                            assert(group_key(groups@[pos as int]) == q);
                        }
                    }
                    if exists|i: int| 0 <= i < groups@.len() && group_key(#[trigger] groups@[i]) == q {
                        let i = choose|i: int| 0 <= i < groups@.len() && group_key(#[trigger] groups@[i]) == q;
                        if i == pos as int {
                            assert(edge_key(post[pre.len() as int]) == q);
                        } else {
                            let old_i = if i < pos { i } else { i - 1 };
                            assert(group_key(old_groups[old_i]) == q);
                            assert(has_key(pre, q));
                            let m = choose|m: int| 0 <= m < pre.len() && edge_key(#[trigger] pre[m]) == q;
                            assert(post[m] == pre[m]);
                        }
                    }
                }
            }
        }
}

/// The edges behind the references.
pub open spec fn deref_all(s: Seq<&ResolvedEdge>) -> Seq<ResolvedEdge> {
    s.map_values(|e: &ResolvedEdge| *e)
}

/// The observed architecture edges: one per source node, target node and
/// kind, in that order, each counting and sampling its observations.
pub fn aggregate_observed(edges: &[&ResolvedEdge], limit: usize) -> (r: Vec<CompiledEdge>)
    requires
        deref_all(edges@).len() < usize::MAX,
    ensures
        forall|i: int, j: int| 0 <= i < j < r@.len() ==> key_order(compiled_key(#[trigger] r@[i]), compiled_key(#[trigger] r@[j])) < 0,
        forall|k: (Seq<char>, Seq<char>, Seq<char>)| has_key(deref_all(edges@), k) <==> exists|i: int| 0 <= i < r@.len() && compiled_key(#[trigger] r@[i]) == k,
        forall|i: int| 0 <= i < r@.len() ==> (#[trigger] r@[i]).origin == crate::model::EdgeOrigin::Observed
            && r@[i].manual_edges@.len() == 0
            && compiled_acc(r@[i]) == acc_of(with_key(deref_all(edges@), compiled_key(r@[i])), limit as nat),
{
    let mut groups: Vec<Group> = Vec::new();
    let mut n: usize = 0;
    while n < edges.len()
        invariant
            n <= deref_all(edges@).len(),
            deref_all(edges@).len() < usize::MAX,
            groups_sorted(groups@),
            groups_cover(groups@, deref_all(edges@).take(n as int)),
            groups_accumulate(groups@, deref_all(edges@).take(n as int), limit as nat),
        decreases deref_all(edges@).len() - n,
    {
        proof {
            assert(deref_all(edges@).take(n + 1) =~= deref_all(edges@).take(n as int).push(*edges@[n as int]));
        }
        add_observation(&mut groups, edges[n], limit, Ghost(deref_all(edges@).take(n as int)));
        n = n + 1;
    }
    proof {
        assert(deref_all(edges@).take(deref_all(edges@).len() as int) =~= deref_all(edges@));
    }
    let mut out: Vec<CompiledEdge> = Vec::new();
    let mut rest = groups;
    let ghost all = rest@;
    // Edges are taken from the back and put in front, keeping the order.
    let mut taken: Vec<CompiledEdge> = Vec::new();
    while rest.len() > 0
        invariant
            rest@.len() + taken@.len() == all.len(),
            forall|i: int| 0 <= i < rest@.len() ==> rest@[i] == all[i],
            forall|t: int| 0 <= t < taken@.len() ==> compiled_key(#[trigger] taken@[t]) == group_key(all[all.len() - 1 - t])
                && taken@[t].origin == crate::model::EdgeOrigin::Observed && taken@[t].manual_edges@.len() == 0
                && compiled_acc(taken@[t]) == all[all.len() - 1 - t].acc.view_acc(),
        decreases rest@.len(),
    {
        let g = rest.pop().unwrap();
        let Group { from, to, kind, acc } = g;
        let edge = acc.into_edge(from, to, kind);
        taken.push(edge);
    }
    while taken.len() > 0
        invariant
            out@.len() + taken@.len() == all.len(),
            forall|t: int| 0 <= t < taken@.len() ==> compiled_key(#[trigger] taken@[t]) == group_key(all[all.len() - 1 - t])
                && taken@[t].origin == crate::model::EdgeOrigin::Observed && taken@[t].manual_edges@.len() == 0
                && compiled_acc(taken@[t]) == all[all.len() - 1 - t].acc.view_acc(),
            forall|i: int| 0 <= i < out@.len() ==> compiled_key(#[trigger] out@[i]) == group_key(all[i])
                && out@[i].origin == crate::model::EdgeOrigin::Observed && out@[i].manual_edges@.len() == 0
                && compiled_acc(out@[i]) == all[i].acc.view_acc(),
        decreases taken@.len(),
    {
        let edge = taken.pop().unwrap();
        out.push(edge);
    }
    proof {
        assert forall|i: int, j: int| 0 <= i < j < out@.len() implies key_order(compiled_key(#[trigger] out@[i]), compiled_key(#[trigger] out@[j])) < 0 by {
            assert(key_order(group_key(all[i]), group_key(all[j])) < 0);
        }
        assert forall|q: (Seq<char>, Seq<char>, Seq<char>)| has_key(deref_all(edges@), q) <==> exists|i: int| 0 <= i < out@.len() && compiled_key(#[trigger] out@[i]) == q by {
            if has_key(deref_all(edges@), q) {
                let i = choose|i: int| 0 <= i < all.len() && group_key(#[trigger] all[i]) == q;
                assert(compiled_key(out@[i]) == q);
            }
            if exists|i: int| 0 <= i < out@.len() && compiled_key(#[trigger] out@[i]) == q {
                let i = choose|i: int| 0 <= i < out@.len() && compiled_key(#[trigger] out@[i]) == q;
                assert(group_key(all[i]) == q);
            }
        }
    }
    out
}

} // verus!
