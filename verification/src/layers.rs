//! The layer order of a dependency cycle: its members from upper to lower so
//! that as little observed weight as possible points upwards (a minimum
//! feedback arc set), exact over all orders of up to 16 members and greedy
//! (Eades, Lin and Smyth) above that. Members are numbered; `w[a][b]` is the
//! weight of the dependencies from member `a` to member `b`.
use vstd::prelude::*;
use crate::evidence::CompiledEdge;
use crate::model::{cut_view, CycleCut};
use crate::text::str_eq;

verus! {

pub open spec fn p2(i: nat) -> nat
    decreases i,
{
    if i == 0 {
        1
    } else {
        2 * p2((i - 1) as nat)
    }
}

/// Bit `i` of `m`: member `i` belongs to the set `m`.
pub open spec fn bit(m: nat, i: nat) -> bool
    decreases i,
{
    if i == 0 {
        m % 2 == 1
    } else {
        bit(m / 2, (i - 1) as nat)
    }
}

proof fn lemma_p2_pos(i: nat)
    ensures
        p2(i) >= 1,
    decreases i,
{
    if i > 0 {
        lemma_p2_pos((i - 1) as nat);
    }
}

proof fn lemma_p2_mono(i: nat, j: nat)
    requires
        i <= j,
    ensures
        p2(i) <= p2(j),
    decreases j,
{
    if i < j {
        lemma_p2_mono(i, (j - 1) as nat);
    }
}

proof fn lemma_bit_sub(m: nat, v: nat, i: nat)
    requires
        bit(m, v),
    ensures
        m >= p2(v),
        bit((m - p2(v)) as nat, i) == (bit(m, i) && i != v),
    decreases v, i,
{
    if v == 0 {
        if i > 0 {
            assert(((m - 1) as nat) / 2 == m / 2);
        }
    } else {
        let p = p2((v - 1) as nat);
        let j: nat = if i > 0 { (i - 1) as nat } else { 0 };
        lemma_bit_sub(m / 2, (v - 1) as nat, j);
        assert(p2(v) == 2 * p);
        assert(((m - 2 * p) as nat) % 2 == m % 2);
        assert(((m - 2 * p) as nat) / 2 == (m / 2 - p) as nat);
    }
}

proof fn lemma_bit_zero(i: nat)
    ensures
        !bit(0, i),
    decreases i,
{
    if i > 0 {
        lemma_bit_zero((i - 1) as nat);
    }
}

proof fn lemma_bit_full(n: nat, i: nat)
    requires
        i < n,
    ensures
        bit((p2(n) - 1) as nat, i),
    decreases n,
{
    lemma_p2_pos((n - 1) as nat);
    let p = p2((n - 1) as nat);
    assert(p2(n) == 2 * p);
    assert(((2 * p - 1) as nat) % 2 == 1);
    assert(((2 * p - 1) as nat) / 2 == (p - 1) as nat);
    if i > 0 {
        lemma_bit_full((n - 1) as nat, (i - 1) as nat);
    }
}

/// A nonempty set below `p2(n)` has a member below `n`.
proof fn lemma_some_bit(m: nat, n: nat) -> (v: nat)
    requires
        0 < m < p2(n),
    ensures
        v < n,
        bit(m, v),
    decreases n,
{
    if n == 0 {
        assert(false);
        0
    } else if m % 2 == 1 {
        0
    } else {
        assert(p2(n) == 2 * p2((n - 1) as nat));
        let v = lemma_some_bit(m / 2, (n - 1) as nat);
        v + 1
    }
}

pub open spec fn wt(w: Seq<Seq<u128>>, a: int, b: int) -> nat {
    w[a][b] as nat
}

/// The weight from `v` to the members of `m` below `k`.
pub open spec fn incost(w: Seq<Seq<u128>>, v: int, m: nat, k: nat) -> nat
    decreases k,
{
    if k == 0 {
        0
    } else {
        incost(w, v, m, (k - 1) as nat) + if bit(m, (k - 1) as nat) {
            wt(w, v, k - 1)
        } else {
            0
        }
    }
}

proof fn lemma_incost_sub(w: Seq<Seq<u128>>, v: int, m: nat, x: nat, k: nat)
    requires
        bit(m, x),
    ensures
        incost(w, v, m, k) == incost(w, v, (m - p2(x)) as nat, k) + if x < k {
            wt(w, v, x as int)
        } else {
            0
        },
    decreases k,
{
    if k > 0 {
        lemma_incost_sub(w, v, m, x, (k - 1) as nat);
        lemma_bit_sub(m, x, (k - 1) as nat);
    }
}

proof fn lemma_incost_empty(w: Seq<Seq<u128>>, v: int, m: nat, k: nat)
    requires
        forall|i: nat| i < k ==> !#[trigger] bit(m, i),
    ensures
        incost(w, v, m, k) == 0,
    decreases k,
{
    if k > 0 {
        lemma_incost_empty(w, v, m, (k - 1) as nat);
    }
}

/// The weight from `v` to the members listed in `q`.
pub open spec fn seqcost(w: Seq<Seq<u128>>, v: int, q: Seq<usize>) -> nat
    decreases q.len(),
{
    if q.len() == 0 {
        0
    } else {
        seqcost(w, v, q.drop_last()) + wt(w, v, q.last() as int)
    }
}

/// The weight pointing upwards in the order `q`, upper first: from each
/// member to those above it.
pub open spec fn cost(w: Seq<Seq<u128>>, q: Seq<usize>) -> nat
    decreases q.len(),
{
    if q.len() == 0 {
        0
    } else {
        cost(w, q.drop_last()) + seqcost(w, q.last() as int, q.drop_last())
    }
}

pub open spec fn distinct(q: Seq<usize>) -> bool {
    forall|a: int, b: int| 0 <= a < b < q.len() ==> q[a] != q[b]
}

/// `q` lists, once each, the members of the set `m` below `n`.
pub open spec fn lists_set(q: Seq<usize>, m: nat, n: nat) -> bool {
    &&& distinct(q)
    &&& forall|k: int| 0 <= k < q.len() ==> (q[k] as nat) < n && bit(m, #[trigger] q[k] as nat)
    &&& forall|i: nat| i < n && #[trigger] bit(m, i) ==> listed(q, i)
}

/// `q` is an order of the members `0..n`.
pub open spec fn is_order(q: Seq<usize>, n: nat) -> bool {
    &&& distinct(q)
    &&& forall|k: int| 0 <= k < q.len() ==> (#[trigger] q[k] as nat) < n
    &&& forall|i: nat| i < n ==> #[trigger] listed(q, i)
}

/// `q` lists `i`.
pub open spec fn listed(q: Seq<usize>, i: nat) -> bool {
    exists|k: int| 0 <= k < q.len() && q[k] as nat == i
}

proof fn lemma_lists_drop(q: Seq<usize>, m: nat, n: nat)
    requires
        lists_set(q, m, n),
        q.len() > 0,
    ensures
        bit(m, q.last() as nat),
        m >= p2(q.last() as nat),
        lists_set(q.drop_last(), (m - p2(q.last() as nat)) as nat, n),
{
    let x = q.last() as nat;
    let d = q.drop_last();
    let m2 = (m - p2(x)) as nat;
    assert(bit(m, q[q.len() - 1] as nat));
    lemma_bit_sub(m, x, 0);
    assert forall|k: int| 0 <= k < d.len() implies (d[k] as nat) < n && bit(m2, #[trigger] d[k] as nat) by {
        assert(d[k] == q[k]);
        assert(bit(m, q[k] as nat));
        lemma_bit_sub(m, x, d[k] as nat);
        assert(q[k] != q[q.len() - 1]);
    }
    assert forall|i: nat| i < n && #[trigger] bit(m2, i) implies listed(d, i) by {
        lemma_bit_sub(m, x, i);
        assert(listed(q, i));
        let k = choose|k: int| 0 <= k < q.len() && q[k] as nat == i;
        assert(k != q.len() - 1);
        assert(d[k] == q[k]);
    }
}

proof fn lemma_seqcost_set(w: Seq<Seq<u128>>, v: int, q: Seq<usize>, m: nat, n: nat)
    requires
        lists_set(q, m, n),
    ensures
        seqcost(w, v, q) == incost(w, v, m, n),
    decreases q.len(),
{
    if q.len() == 0 {
        assert forall|i: nat| i < n implies !#[trigger] bit(m, i) by {
            if bit(m, i) {
                assert(listed(q, i));
            }
        }
        lemma_incost_empty(w, v, m, n);
    } else {
        let x = q.last() as nat;
        lemma_lists_drop(q, m, n);
        lemma_seqcost_set(w, v, q.drop_last(), (m - p2(x)) as nat, n);
        lemma_incost_sub(w, v, m, x, n);
        assert(q[q.len() - 1] as nat == x);
        assert((q[q.len() - 1] as nat) < n);
    }
}

/// Bits `0..n` of `m`.
fn bits_of(m: usize, n: usize) -> (r: Vec<bool>)
    ensures
        r@.len() == n,
        forall|i: int| 0 <= i < n ==> r@[i] == bit(m as nat, i as nat),
{
    let mut r: Vec<bool> = Vec::new();
    let mut t = m;
    let mut i: usize = 0;
    while i < n
        invariant
            i <= n,
            r@.len() == i,
            forall|k: int| 0 <= k < i ==> r@[k] == bit(m as nat, k as nat),
            forall|j: nat| #[trigger] bit(t as nat, j) == bit(m as nat, j + i as nat),
        decreases n - i,
    {
        proof {
            assert(bit(t as nat, 0) == bit(m as nat, 0 + i as nat));
        }
        r.push(t % 2 == 1);
        proof {
            assert forall|j: nat| #[trigger] bit((t / 2) as nat, j) == bit(m as nat, j + i as nat + 1) by {
                assert(bit(t as nat, j + 1) == bit(m as nat, j + 1 + i as nat));
                assert(bit(t as nat, j + 1) == bit((t as nat) / 2, j));
            }
        }
        t = t / 2;
        i = i + 1;
    }
    r
}

/// The weight from `v` to the members marked in `bits`.
fn incost_exec(w: &Vec<Vec<u128>>, v: usize, bits: &Vec<bool>, Ghost(m): Ghost<nat>, n: usize) -> (r: u128)
    requires
        n <= 16,
        v < n,
        w@.len() == n,
        forall|a: int| 0 <= a < n ==> (#[trigger] w@[a])@.len() == n,
        forall|a: int, b: int| 0 <= a < n && 0 <= b < n ==> w@[a]@[b] <= 0xffff_ffff_ffff_ffff,
        bits@.len() == n,
        forall|i: int| 0 <= i < n ==> bits@[i] == bit(m, i as nat),
    ensures
        r == incost(wview(w@), v as int, m, n as nat),
        r <= n * 0xffff_ffff_ffff_ffff,
{
    let mut s: u128 = 0;
    let mut u: usize = 0;
    while u < n
        invariant
            u <= n,
            n <= 16,
            v < n,
            w@.len() == n,
            forall|a: int| 0 <= a < n ==> (#[trigger] w@[a])@.len() == n,
            forall|a: int, b: int| 0 <= a < n && 0 <= b < n ==> w@[a]@[b] <= 0xffff_ffff_ffff_ffff,
            bits@.len() == n,
            forall|i: int| 0 <= i < n ==> bits@[i] == bit(m, i as nat),
            s == incost(wview(w@), v as int, m, u as nat),
            s <= u * 0xffff_ffff_ffff_ffff,
        decreases n - u,
    {
        if bits[u] {
            s = s + w[v][u];
        }
        u = u + 1;
    }
    s
}

pub open spec fn wview(w: Seq<Vec<u128>>) -> Seq<Seq<u128>> {
    w.map_values(|r: Vec<u128>| r@)
}

pub open spec fn cand(w: Seq<Seq<u128>>, dp: Seq<u128>, m: nat, v: nat, n: nat) -> nat {
    dp[(m - p2(v)) as int] as nat + incost(w, v as int, (m - p2(v)) as nat, n)
}

/// The order rebuilt from the member chosen last for each set.
pub open spec fn recon(choice: Seq<usize>, m: nat) -> Seq<usize>
    decreases m,
{
    if m == 0 || m >= choice.len() {
        Seq::empty()
    } else {
        let c = choice[m as int] as nat;
        if 1 <= p2(c) && p2(c) <= m {
            recon(choice, (m - p2(c)) as nat).push(choice[m as int])
        } else {
            Seq::empty()
        }
    }
}

/// The table of the best costs and choices of the sets below `dp.len()`.
pub open spec fn table_ok(w: Seq<Seq<u128>>, dp: Seq<u128>, choice: Seq<usize>, n: nat) -> bool {
    &&& dp.len() == choice.len()
    &&& dp.len() > 0
    &&& dp[0] == 0
    &&& forall|m: int| 0 < m < dp.len() ==> {
        let c = (#[trigger] choice[m]) as nat;
        &&& c < n
        &&& bit(m as nat, c)
        &&& dp[m] as nat == cand(w, dp, m as nat, c, n)
    }
    &&& forall|m: int| 0 <= m < dp.len() ==> #[trigger] dp[m] <= m * n * 0xffff_ffff_ffff_ffff
    &&& forall|m: int, q: Seq<usize>| 0 <= m < dp.len() && #[trigger] lists_set(q, m as nat, n) ==> dp[m] <= cost(w, q)
}

proof fn lemma_recon(w: Seq<Seq<u128>>, dp: Seq<u128>, choice: Seq<usize>, n: nat, m: nat)
    requires
        table_ok(w, dp, choice, n),
        m < dp.len(),
    ensures
        lists_set(recon(choice, m), m, n),
        cost(w, recon(choice, m)) == dp[m as int],
    decreases m,
{
    if m == 0 {
        assert forall|i: nat| i < n && #[trigger] bit(0, i) implies listed(recon(choice, 0), i) by {
            lemma_bit_zero(i);
        }
    } else {
        let c = choice[m as int] as nat;
        assert(bit(m, c));
        lemma_bit_sub(m, c, 0);
        lemma_p2_pos(c);
        let m2 = (m - p2(c)) as nat;
        lemma_recon(w, dp, choice, n, m2);
        let r2 = recon(choice, m2);
        let r = recon(choice, m);
        assert(r == r2.push(choice[m as int]));
        assert(r.drop_last() =~= r2);
        lemma_seqcost_set(w, c as int, r2, m2, n);
        assert forall|a: int, b: int| 0 <= a < b < r.len() implies r[a] != r[b] by {
            if b == r.len() - 1 {
                assert(r[a] == r2[a]);
                assert(bit(m2, r2[a] as nat));
                lemma_bit_sub(m, c, r2[a] as nat);
            } else {
                assert(r[a] == r2[a] && r[b] == r2[b]);
            }
        }
        assert forall|k: int| 0 <= k < r.len() implies (r[k] as nat) < n && bit(m, #[trigger] r[k] as nat) by {
            if k < r2.len() {
                assert(r[k] == r2[k]);
                assert(bit(m2, r2[k] as nat));
                lemma_bit_sub(m, c, r2[k] as nat);
            }
        }
        assert forall|i: nat| i < n && #[trigger] bit(m, i) implies listed(r, i) by {
            if i == c {
                assert(r[r.len() - 1] as nat == i);
            } else {
                lemma_bit_sub(m, c, i);
                assert(listed(r2, i));
                let k = choose|k: int| 0 <= k < r2.len() && r2[k] as nat == i;
                assert(r[k] == r2[k]);
            }
        }
    }
}

/// An order of the members `0..n` (at most 16) with the least weight
/// pointing upwards of all orders.
pub fn best_order(w: &Vec<Vec<u128>>, n: usize) -> (r: Vec<usize>)
    requires
        n <= 16,
        w@.len() == n,
        forall|a: int| 0 <= a < n ==> (#[trigger] w@[a])@.len() == n,
        forall|a: int, b: int| 0 <= a < n && 0 <= b < n ==> w@[a]@[b] <= 0xffff_ffff_ffff_ffff,
    ensures
        is_order(r@, n as nat),
        forall|q: Seq<usize>| is_order(q, n as nat) ==> cost(wview(w@), r@) <= cost(wview(w@), q),
{
    let ghost wv = wview(w@);
    let mut pw: Vec<usize> = Vec::new();
    let mut x: usize = 1;
    let mut k: usize = 0;
    proof {
        reveal_with_fuel(p2, 18);
        assert(p2(17) == 131072);
        lemma_p2_mono(n as nat, 16);
        assert(p2(16) == 65536);
    }
    while k <= n
        invariant
            n <= 16,
            k <= n + 1,
            pw@.len() == k,
            forall|i: int| 0 <= i < k ==> pw@[i] as nat == p2(i as nat),
            x as nat == p2(k as nat),
            p2(17) == 131072,
        decreases n + 1 - k,
    {
        pw.push(x);
        proof {
            lemma_p2_mono((k + 1) as nat, 17);
        }
        x = x * 2;
        k = k + 1;
    }
    let full = pw[n];
    proof {
        lemma_p2_mono(n as nat, 16);
        lemma_p2_pos(n as nat);
    }
    let mut dp: Vec<u128> = Vec::new();
    let mut choice: Vec<usize> = Vec::new();
    dp.push(0);
    choice.push(0);
    proof {
        assert forall|m: int, q: Seq<usize>| 0 <= m < dp@.len() && #[trigger] lists_set(q, m as nat, n as nat) implies dp@[m] <= cost(wv, q) by {}
    }
    let mut m: usize = 1;
    while m < full
        invariant
            n <= 16,
            w@.len() == n,
            wv == wview(w@),
            forall|a: int| 0 <= a < n ==> (#[trigger] w@[a])@.len() == n,
            forall|a: int, b: int| 0 <= a < n && 0 <= b < n ==> w@[a]@[b] <= 0xffff_ffff_ffff_ffff,
            pw@.len() == n + 1,
            forall|i: int| 0 <= i <= n ==> pw@[i] as nat == p2(i as nat),
            full as nat == p2(n as nat),
            full <= 65536,
            1 <= m <= full,
            dp@.len() == m,
            table_ok(wv, dp@, choice@, n as nat),
        decreases full - m,
    {
        let bits = bits_of(m, n);
        let mut best: u128 = 0;
        let mut found = false;
        let mut bv: usize = 0;
        let mut v: usize = 0;
        while v < n
            invariant
                n <= 16,
                w@.len() == n,
                wv == wview(w@),
                forall|a: int| 0 <= a < n ==> (#[trigger] w@[a])@.len() == n,
                forall|a: int, b: int| 0 <= a < n && 0 <= b < n ==> w@[a]@[b] <= 0xffff_ffff_ffff_ffff,
                pw@.len() == n + 1,
                forall|i: int| 0 <= i <= n ==> pw@[i] as nat == p2(i as nat),
                1 <= m < full <= 65536,
                dp@.len() == m,
                table_ok(wv, dp@, choice@, n as nat),
                bits@.len() == n,
                forall|i: int| 0 <= i < n ==> bits@[i] == bit(m as nat, i as nat),
                v <= n,
                found ==> bv < n && bit(m as nat, bv as nat) && best as nat == cand(wv, dp@, m as nat, bv as nat, n as nat),
                found ==> best <= m * n * 0xffff_ffff_ffff_ffff,
                forall|u: nat| u < v && #[trigger] bit(m as nat, u) ==> found && best <= cand(wv, dp@, m as nat, u, n as nat),
            decreases n - v,
        {
            if bits[v] {
                proof {
                    lemma_bit_sub(m as nat, v as nat, 0);
                    lemma_p2_pos(v as nat);
                }
                let m2 = m - pw[v];
                let mut bits2 = bits.clone();
                bits2.set(v, false);
                proof {
                    assert forall|i: int| 0 <= i < n implies bits2@[i] == bit(m2 as nat, i as nat) by {
                        lemma_bit_sub(m as nat, v as nat, i as nat);
                    }
                    assert(dp@[m2 as int] <= m2 * n * 0xffff_ffff_ffff_ffff);
                }
                let inc = incost_exec(w, v, &bits2, Ghost(m2 as nat), n);
                proof {
                    assert((m2 + 1) * n * 0xffff_ffff_ffff_ffff <= m * n * 0xffff_ffff_ffff_ffff) by (nonlinear_arith)
                        requires
                            m2 + 1 <= m,
                    ;
                    assert(m * n * 0xffff_ffff_ffff_ffff <= 65536 * 16 * 0xffff_ffff_ffff_ffff) by (nonlinear_arith)
                        requires
                            m <= 65536,
                            n <= 16,
                    ;
                    assert(m2 * n * 0xffff_ffff_ffff_ffff + n * 0xffff_ffff_ffff_ffff == (m2 + 1) * n * 0xffff_ffff_ffff_ffff) by (nonlinear_arith);
                }
                let c = dp[m2] + inc;
                if !found || c < best {
                    best = c;
                    bv = v;
                    found = true;
                }
            }
            v = v + 1;
        }
        proof {
            let v0 = lemma_some_bit(m as nat, n as nat);
            assert(bit(m as nat, v0));
        }
        let ghost old_dp = dp@;
        let ghost old_choice = choice@;
        dp.push(best);
        choice.push(bv);
        proof {
            let nd = dp@;
            let nc = choice@;
            assert forall|j: int| 0 <= j < m implies nd[j] == old_dp[j] && nc[j] == old_choice[j] by {}
            assert forall|j: nat, u: nat| j < m && bit(j, u) && u < n implies cand(wv, nd, j, u, n as nat) == cand(wv, old_dp, j, u, n as nat) by {
                lemma_bit_sub(j, u, 0);
            }
            assert forall|j: int| 0 < j < nd.len() implies {
                let c = (#[trigger] nc[j]) as nat;
                &&& c < n
                &&& bit(j as nat, c)
                &&& nd[j] as nat == cand(wv, nd, j as nat, c, n as nat)
            } by {
                if j < m {
                    assert(nc[j] == old_choice[j]);
                    assert(bit(j as nat, old_choice[j] as nat));
                } else {
                    lemma_bit_sub(m as nat, bv as nat, 0);
                    lemma_p2_pos(bv as nat);
                }
            }
            assert forall|j: int| 0 <= j < nd.len() implies #[trigger] nd[j] <= j * n * 0xffff_ffff_ffff_ffff by {
                if j < m {
                    assert(nd[j] == old_dp[j]);
                }
            }
            assert forall|j: int, q: Seq<usize>| 0 <= j < nd.len() && #[trigger] lists_set(q, j as nat, n as nat) implies nd[j] <= cost(wv, q) by {
                if j < m {
                    assert(nd[j] == old_dp[j]);
                } else {
                    let u = lemma_some_bit(m as nat, n as nat);
                    assert(listed(q, u));
                    lemma_lists_drop(q, m as nat, n as nat);
                    let xl = q.last() as nat;
                    lemma_p2_pos(xl);
                    let m2 = (m - p2(xl)) as nat;
                    assert(old_dp[m2 as int] <= cost(wv, q.drop_last()));
                    lemma_seqcost_set(wv, xl as int, q.drop_last(), m2, n as nat);
                    assert(q[q.len() - 1] as nat == xl);
                    assert((q[q.len() - 1] as nat) < n);
                    assert(best <= cand(wv, old_dp, m as nat, xl, n as nat));
                }
            }
        }
        m = m + 1;
    }
    let ghost ch = choice@;
    let ghost top = (full - 1) as nat;
    let mut rev: Vec<usize> = Vec::new();
    let mut mm: usize = full - 1;
    proof {
        assert(rev@.reverse() =~= Seq::<usize>::empty());
        assert(recon(ch, top) =~= recon(ch, mm as nat) + rev@.reverse());
    }
    while mm > 0
        invariant
            mm <= top,
            top < dp@.len(),
            ch == choice@,
            pw@.len() == n + 1,
            forall|i: int| 0 <= i <= n ==> pw@[i] as nat == p2(i as nat),
            table_ok(wv, dp@, choice@, n as nat),
            recon(ch, top) == recon(ch, mm as nat) + rev@.reverse(),
        decreases mm,
    {
        let c = choice[mm];
        proof {
            assert(bit(mm as nat, ch[mm as int] as nat));
            lemma_bit_sub(mm as nat, c as nat, 0);
            lemma_p2_pos(c as nat);
        }
        let ghost before = rev@;
        rev.push(c);
        proof {
            assert(recon(ch, mm as nat) == recon(ch, (mm - p2(c as nat)) as nat).push(c));
            assert(rev@.reverse() =~= seq![c] + before.reverse());
            assert(recon(ch, top) =~= recon(ch, (mm - p2(c as nat)) as nat) + rev@.reverse());
        }
        mm = mm - pw[c];
    }
    let mut out: Vec<usize> = Vec::new();
    let mut j: usize = rev.len();
    while j > 0
        invariant
            j <= rev@.len(),
            out@ == rev@.reverse().take((rev@.len() - j) as int),
        decreases j,
    {
        j = j - 1;
        out.push(rev[j]);
        proof {
            assert(out@ =~= rev@.reverse().take((rev@.len() - j) as int));
        }
    }
    proof {
        assert(out@ =~= rev@.reverse());
        assert(recon(ch, 0) =~= Seq::<usize>::empty());
        assert(out@ =~= recon(ch, top));
        lemma_recon(wv, dp@, choice@, n as nat, top);
        assert forall|i: nat| i < n implies #[trigger] listed(out@, i) by {
            lemma_bit_full(n as nat, i);
        }
        assert forall|q: Seq<usize>| is_order(q, n as nat) implies cost(wv, out@) <= cost(wv, q) by {
            assert forall|k: int| 0 <= k < q.len() implies (q[k] as nat) < n && bit(top, #[trigger] q[k] as nat) by {
                lemma_bit_full(n as nat, q[k] as nat);
            }
            assert(lists_set(q, top, n as nat));
        }
    }
    out
}

/// How many entries are false.
pub open spec fn count_false(s: Seq<bool>) -> nat
    decreases s.len(),
{
    if s.len() == 0 {
        0
    } else {
        count_false(s.drop_last()) + if s.last() {
            0nat
        } else {
            1nat
        }
    }
}

proof fn lemma_count_set(s: Seq<bool>, i: int)
    requires
        0 <= i < s.len(),
        !s[i],
    ensures
        count_false(s.update(i, true)) + 1 == count_false(s),
    decreases s.len(),
{
    let t = s.update(i, true);
    if i == s.len() - 1 {
        assert(t.drop_last() =~= s.drop_last());
    } else {
        lemma_count_set(s.drop_last(), i);
        assert(t.drop_last() =~= s.drop_last().update(i, true));
    }
}

pub open spec fn placed(front: Seq<usize>, back: Seq<usize>, i: nat) -> bool {
    listed(front, i) || listed(back, i)
}

/// The weight from `i` to the members left and from them to `i`.
fn flows(w: &Vec<Vec<u128>>, removed: &Vec<bool>, n: usize, i: usize) -> (r: (u128, u128))
    requires
        i < n,
        w@.len() == n,
        removed@.len() == n,
        forall|a: int| 0 <= a < n ==> (#[trigger] w@[a])@.len() == n,
        forall|a: int, b: int| 0 <= a < n && 0 <= b < n ==> w@[a]@[b] <= 0xffff_ffff_ffff_ffff,
    ensures
        r.0 <= n * 0xffff_ffff_ffff_ffff,
        r.1 <= n * 0xffff_ffff_ffff_ffff,
{
    let mut out: u128 = 0;
    let mut inw: u128 = 0;
    let mut j: usize = 0;
    while j < n
        invariant
            j <= n,
            i < n,
            w@.len() == n,
            removed@.len() == n,
            forall|a: int| 0 <= a < n ==> (#[trigger] w@[a])@.len() == n,
            forall|a: int, b: int| 0 <= a < n && 0 <= b < n ==> w@[a]@[b] <= 0xffff_ffff_ffff_ffff,
            out <= j * 0xffff_ffff_ffff_ffff,
            inw <= j * 0xffff_ffff_ffff_ffff,
        decreases n - j,
    {
        proof {
            assert((j + 1) * 0xffff_ffff_ffff_ffff <= n * 0xffff_ffff_ffff_ffff) by (nonlinear_arith)
                requires
                    j + 1 <= n,
            ;
            assert(n * 0xffff_ffff_ffff_ffff <= 0xffff_ffff_ffff_ffff * 0xffff_ffff_ffff_ffff) by (nonlinear_arith)
                requires
                    n <= 0xffff_ffff_ffff_ffff,
            ;
        }
        if j != i && !removed[j] {
            out = out + w[i][j];
            inw = inw + w[j][i];
        }
        j = j + 1;
    }
    (out, inw)
}

/// Whether `a - b` exceeds `c - d`.
fn exceeds(a: u128, b: u128, c: u128, d: u128) -> (r: bool)
    ensures
        r == (a - b > c - d),
{
    if a >= b {
        if c >= d {
            a - b > c - d
        } else {
            true
        }
    } else {
        if c >= d {
            false
        } else {
            d - c > b - a
        }
    }
}

/// The next member to place: a sink (to the bottom), else a source (to the
/// top), else the one whose outgoing weight most exceeds its incoming weight
/// (to the top); nothing when every member is placed.
fn pick_next(w: &Vec<Vec<u128>>, removed: &Vec<bool>, n: usize) -> (r: Option<(usize, bool)>)
    requires
        w@.len() == n,
        removed@.len() == n,
        forall|a: int| 0 <= a < n ==> (#[trigger] w@[a])@.len() == n,
        forall|a: int, b: int| 0 <= a < n && 0 <= b < n ==> w@[a]@[b] <= 0xffff_ffff_ffff_ffff,
    ensures
        match r {
            Some((i, _)) => i < n && !removed@[i as int],
            None => forall|i: int| 0 <= i < n ==> removed@[i],
        },
{
    let mut source: Option<usize> = None;
    let mut best: Option<(usize, u128, u128)> = None;
    let mut i: usize = 0;
    while i < n
        invariant
            i <= n,
            w@.len() == n,
            removed@.len() == n,
            forall|a: int| 0 <= a < n ==> (#[trigger] w@[a])@.len() == n,
            forall|a: int, b: int| 0 <= a < n && 0 <= b < n ==> w@[a]@[b] <= 0xffff_ffff_ffff_ffff,
            source matches Some(s) ==> s < n && !removed@[s as int],
            best matches Some(b) ==> b.0 < n && !removed@[b.0 as int] && b.1 <= n * 0xffff_ffff_ffff_ffff && b.2 <= n * 0xffff_ffff_ffff_ffff,
            best is None ==> forall|k: int| 0 <= k < i ==> removed@[k],
        decreases n - i,
    {
        if !removed[i] {
            let (out, inw) = flows(w, removed, n, i);
            if out == 0 {
                return Some((i, true));
            }
            if inw == 0 && source.is_none() {
                source = Some(i);
            }
            proof {
                assert(n * 0xffff_ffff_ffff_ffff <= 0xffff_ffff_ffff_ffff * 0xffff_ffff_ffff_ffff) by (nonlinear_arith)
                    requires
                        n <= 0xffff_ffff_ffff_ffff,
                ;
            }
            match best {
                None => {
                    best = Some((i, out, inw));
                },
                Some((_, bo, bi)) => {
                    if exceeds(out, inw, bo, bi) {
                        best = Some((i, out, inw));
                    }
                },
            }
        }
        i = i + 1;
    }
    match source {
        Some(s) => Some((s, false)),
        None => match best {
            Some((b, _, _)) => Some((b, false)),
            None => None,
        },
    }
}

/// An order of the members `0..n` by the greedy heuristic of Eades, Lin and
/// Smyth: sinks go to the bottom, sources to the top, and otherwise the
/// member whose outgoing weight most exceeds its incoming weight goes next
/// to the top.
pub fn greedy_order(w: &Vec<Vec<u128>>, n: usize) -> (r: Vec<usize>)
    requires
        w@.len() == n,
        forall|a: int| 0 <= a < n ==> (#[trigger] w@[a])@.len() == n,
        forall|a: int, b: int| 0 <= a < n && 0 <= b < n ==> w@[a]@[b] <= 0xffff_ffff_ffff_ffff,
    ensures
        is_order(r@, n as nat),
{
    let mut removed: Vec<bool> = Vec::new();
    let mut k: usize = 0;
    while k < n
        invariant
            k <= n,
            removed@.len() == k,
            forall|i: int| 0 <= i < k ==> !removed@[i],
        decreases n - k,
    {
        removed.push(false);
        k = k + 1;
    }
    let mut front: Vec<usize> = Vec::new();
    let mut back: Vec<usize> = Vec::new();
    loop
        invariant
            w@.len() == n,
            forall|a: int| 0 <= a < n ==> (#[trigger] w@[a])@.len() == n,
            forall|a: int, b: int| 0 <= a < n && 0 <= b < n ==> w@[a]@[b] <= 0xffff_ffff_ffff_ffff,
            removed@.len() == n,
            distinct(front@),
            distinct(back@),
            forall|a: int, b: int| 0 <= a < front@.len() && 0 <= b < back@.len() ==> front@[a] != back@[b],
            forall|k: int| 0 <= k < front@.len() ==> (#[trigger] front@[k] as nat) < n,
            forall|k: int| 0 <= k < back@.len() ==> (#[trigger] back@[k] as nat) < n,
            forall|i: nat| i < n ==> (removed@[i as int] <==> #[trigger] placed(front@, back@, i)),
        ensures
            distinct(front@),
            distinct(back@),
            forall|a: int, b: int| 0 <= a < front@.len() && 0 <= b < back@.len() ==> front@[a] != back@[b],
            forall|k: int| 0 <= k < front@.len() ==> (#[trigger] front@[k] as nat) < n,
            forall|k: int| 0 <= k < back@.len() ==> (#[trigger] back@[k] as nat) < n,
            forall|i: nat| i < n ==> #[trigger] placed(front@, back@, i),
        decreases count_false(removed@),
    {
        match pick_next(w, &removed, n) {
            None => {
                proof {
                    assert forall|i: nat| i < n implies #[trigger] placed(front@, back@, i) by {
                        assert(removed@[i as int]);
                    }
                }
                break;
            },
            Some((i, bottom)) => {
                proof {
                    lemma_count_set(removed@, i as int);
                    assert(!removed@[i as int]);
                    let iv = i as nat;
                    assert(iv < n);
                    assert(removed@[iv as int] <==> placed(front@, back@, iv));
                    assert(!listed(front@, i as nat) && !listed(back@, i as nat));
                }
                let ghost f0 = front@;
                let ghost b0 = back@;
                let ghost r0 = removed@;
                removed.set(i, true);
                if bottom {
                    back.push(i);
                } else {
                    front.push(i);
                }
                proof {
                    assert forall|a: int, b: int| 0 <= a < front@.len() && 0 <= b < back@.len() implies front@[a] != back@[b] by {
                        if bottom {
                            if b == b0.len() {
                                assert(front@[a] == f0[a]);
                                assert(!listed(f0, i as nat));
                            }
                        } else {
                            if a == f0.len() {
                                assert(back@[b] == b0[b]);
                                assert(!listed(b0, i as nat));
                            }
                        }
                    }
                    assert forall|a: int, b: int| 0 <= a < b < front@.len() implies front@[a] != front@[b] by {
                        if !bottom && b == f0.len() {
                            assert(front@[a] == f0[a]);
                            assert(!listed(f0, i as nat));
                        }
                    }
                    assert forall|a: int, b: int| 0 <= a < b < back@.len() implies back@[a] != back@[b] by {
                        if bottom && b == b0.len() {
                            assert(back@[a] == b0[a]);
                            assert(!listed(b0, i as nat));
                        }
                    }
                    assert forall|x: nat| x < n implies (removed@[x as int] <==> #[trigger] placed(front@, back@, x)) by {
                        assert(r0[x as int] <==> placed(f0, b0, x));
                        if listed(front@, x) {
                            let k = choose|k: int| 0 <= k < front@.len() && front@[k] as nat == x;
                            if k < f0.len() {
                                assert(front@[k] == f0[k]);
                                assert(listed(f0, x));
                            }
                        }
                        if listed(back@, x) {
                            let k = choose|k: int| 0 <= k < back@.len() && back@[k] as nat == x;
                            if k < b0.len() {
                                assert(back@[k] == b0[k]);
                                assert(listed(b0, x));
                            }
                        }
                        if listed(f0, x) {
                            let k = choose|k: int| 0 <= k < f0.len() && f0[k] as nat == x;
                            assert(front@[k] == f0[k]);
                        }
                        if listed(b0, x) {
                            let k = choose|k: int| 0 <= k < b0.len() && b0[k] as nat == x;
                            assert(back@[k] == b0[k]);
                        }
                        if x == i as nat {
                            if bottom {
                                assert(back@[b0.len() as int] as nat == x);
                            } else {
                                assert(front@[f0.len() as int] as nat == x);
                            }
                        }
                    }
                }
            },
        }
    }
    let mut out: Vec<usize> = Vec::new();
    let mut k: usize = 0;
    while k < front.len()
        invariant
            k <= front@.len(),
            out@ == front@.take(k as int),
        decreases front@.len() - k,
    {
        out.push(front[k]);
        proof {
            assert(out@ =~= front@.take(k + 1));
        }
        k = k + 1;
    }
    proof {
        assert(out@ =~= front@);
    }
    let mut j: usize = back.len();
    while j > 0
        invariant
            j <= back@.len(),
            out@.len() == front@.len() + back@.len() - j,
            forall|a: int| 0 <= a < front@.len() ==> out@[a] == front@[a],
            forall|a: int| front@.len() <= a < out@.len() ==> out@[a] == back@[back@.len() - 1 - (a - front@.len())],
        decreases j,
    {
        j = j - 1;
        out.push(back[j]);
    }
    proof {
        let fl = front@.len() as int;
        let bl = back@.len() as int;
        assert forall|a: int, b: int| 0 <= a < b < out@.len() implies out@[a] != out@[b] by {
            if b < fl {
            } else if a < fl {
                assert(out@[b] == back@[bl - 1 - (b - fl)]);
            } else {
                assert(out@[a] == back@[bl - 1 - (a - fl)]);
                assert(out@[b] == back@[bl - 1 - (b - fl)]);
            }
        }
        assert forall|a: int| 0 <= a < out@.len() implies (#[trigger] out@[a] as nat) < n by {
            if a >= fl {
                assert(out@[a] == back@[bl - 1 - (a - fl)]);
            }
        }
        assert forall|x: nat| x < n implies #[trigger] listed(out@, x) by {
            assert(placed(front@, back@, x));
            if listed(front@, x) {
                let k = choose|k: int| 0 <= k < front@.len() && front@[k] as nat == x;
                assert(out@[k] == front@[k]);
            } else {
                assert(listed(back@, x));
                let k = choose|k: int| 0 <= k < back@.len() && back@[k] as nat == x;
                let a = fl + (bl - 1 - k);
                assert(out@[a] == back@[bl - 1 - (a - fl)]);
            }
        }
    }
    out
}

/// The observations of the dependencies from `a` to `b`, over all kinds.
pub open spec fn weight(es: Seq<CompiledEdge>, a: Seq<char>, b: Seq<char>) -> nat
    decreases es.len(),
{
    if es.len() == 0 {
        0
    } else {
        weight(es.drop_last(), a, b) + if es.last().from@ == a && es.last().to@ == b {
            es.last().count as nat
        } else {
            0
        }
    }
}

/// The observations of all the dependencies.
pub open spec fn total_count(es: Seq<CompiledEdge>) -> nat
    decreases es.len(),
{
    if es.len() == 0 {
        0
    } else {
        total_count(es.drop_last()) + es.last().count as nat
    }
}

/// The observations from `x` to the members in `q`.
pub open spec fn below_weight(es: Seq<CompiledEdge>, x: Seq<char>, q: Seq<Seq<char>>) -> nat
    decreases q.len(),
{
    if q.len() == 0 {
        0
    } else {
        below_weight(es, x, q.drop_last()) + weight(es, x, q.last())
    }
}

/// The observations that point upwards in `order`, upper first: from each
/// member to those above it.
pub open spec fn upward(es: Seq<CompiledEdge>, order: Seq<Seq<char>>) -> nat
    decreases order.len(),
{
    if order.len() == 0 {
        0
    } else {
        upward(es, order.drop_last()) + below_weight(es, order.last(), order.drop_last())
    }
}

pub open spec fn names_distinct(s: Seq<Seq<char>>) -> bool {
    forall|a: int, b: int| 0 <= a < b < s.len() ==> s[a] != s[b]
}

pub open spec fn has_name(s: Seq<Seq<char>>, x: Seq<char>) -> bool {
    exists|k: int| 0 <= k < s.len() && s[k] == x
}

/// `p` puts the members `nodes` in some order, each once.
pub open spec fn arranges(p: Seq<Seq<char>>, nodes: Seq<Seq<char>>) -> bool {
    &&& names_distinct(p)
    &&& forall|k: int| 0 <= k < p.len() ==> #[trigger] has_name(nodes, p[k])
    &&& forall|k: int| 0 <= k < nodes.len() ==> #[trigger] has_name(p, nodes[k])
}

/// `x` is a dependency that points upwards in `order`: from a member below
/// to one above it, with its observations.
pub open spec fn cut_of(es: Seq<CompiledEdge>, order: Seq<Seq<char>>, x: (Seq<char>, Seq<char>, usize)) -> bool {
    exists|i: int, j: int| #![trigger order[i], order[j]]
        0 <= i < j < order.len() && order[j] == x.0 && order[i] == x.1 && weight(es, x.0, x.1) > 0
            && x.2 as nat == weight(es, x.0, x.1)
}

pub open spec fn has_cut(cuts: Seq<(Seq<char>, Seq<char>, usize)>, x: (Seq<char>, Seq<char>, usize)) -> bool {
    exists|k: int| 0 <= k < cuts.len() && cuts[k] == x
}

/// The layer order and the suggested cut of a cycle among `nodes` with the
/// dependencies `es`: the members ordered so that as few observations as
/// possible point upwards (the fewest of all orders for up to 16 members),
/// and the upward dependencies, most observed first. Where the
/// observations do not fit a `usize`, there are neither.
pub open spec fn layers_fit(nodes: Seq<Seq<char>>, es: Seq<CompiledEdge>, order: Seq<Seq<char>>, cuts: Seq<(Seq<char>, Seq<char>, usize)>) -> bool {
    if total_count(es) > usize::MAX {
        order.len() == 0 && cuts.len() == 0
    } else {
        &&& arranges(order, nodes)
        &&& (nodes.len() <= 16 ==> forall|p: Seq<Seq<char>>| #[trigger] arranges(p, nodes) ==> upward(es, order) <= upward(es, p))
        &&& forall|x: (Seq<char>, Seq<char>, usize)| #[trigger] has_cut(cuts, x) <==> cut_of(es, order, x)
        &&& forall|k: int, l: int| 0 <= k < l < cuts.len() ==> (#[trigger] cuts[k]).2 >= (#[trigger] cuts[l]).2
        &&& forall|k: int, l: int| 0 <= k < l < cuts.len() ==> ((#[trigger] cuts[k]).0, cuts[k].1) != ((#[trigger] cuts[l]).0, cuts[l].1)
    }
}

proof fn lemma_weight_le(es: Seq<CompiledEdge>, a: Seq<char>, b: Seq<char>)
    ensures
        weight(es, a, b) <= total_count(es),
    decreases es.len(),
{
    if es.len() > 0 {
        lemma_weight_le(es.drop_last(), a, b);
    }
}

fn total_exec(es: &Vec<CompiledEdge>) -> (r: u128)
    ensures
        r as nat == total_count(es@),
{
    let mut t: u128 = 0;
    let mut i: usize = 0;
    while i < es.len()
        invariant
            i <= es@.len(),
            t as nat == total_count(es@.take(i as int)),
            t <= i * 0xffff_ffff_ffff_ffff,
        decreases es@.len() - i,
    {
        proof {
            assert(es@.take(i + 1).drop_last() =~= es@.take(i as int));
            assert(i * 0xffff_ffff_ffff_ffff + 0xffff_ffff_ffff_ffff <= 0xffff_ffff_ffff_ffff * 0x1_0000_0000_0000_0000) by (nonlinear_arith)
                requires
                    i < 0x1_0000_0000_0000_0000,
            ;
        }
        t = t + es[i].count as u128;
        i = i + 1;
    }
    proof {
        assert(es@.take(es@.len() as int) =~= es@);
    }
    t
}

fn weight_exec(es: &Vec<CompiledEdge>, a: &str, b: &str) -> (r: u128)
    requires
        total_count(es@) <= usize::MAX,
    ensures
        r as nat == weight(es@, a@, b@),
{
    let mut t: u128 = 0;
    let mut i: usize = 0;
    while i < es.len()
        invariant
            i <= es@.len(),
            total_count(es@) <= usize::MAX,
            t as nat == weight(es@.take(i as int), a@, b@),
        decreases es@.len() - i,
    {
        proof {
            assert(es@.take(i + 1).drop_last() =~= es@.take(i as int));
            lemma_weight_le(es@.take(i + 1), a@, b@);
            lemma_total_prefix(es@, i + 1);
        }
        if str_eq(es[i].from.as_str(), a) && str_eq(es[i].to.as_str(), b) {
            t = t + es[i].count as u128;
        }
        i = i + 1;
    }
    proof {
        assert(es@.take(es@.len() as int) =~= es@);
    }
    t
}

proof fn lemma_total_prefix(es: Seq<CompiledEdge>, n: int)
    requires
        0 <= n <= es.len(),
    ensures
        total_count(es.take(n)) <= total_count(es),
    decreases es.len() - n,
{
    if n < es.len() {
        lemma_total_prefix(es, n + 1);
        assert(es.take(n + 1).drop_last() =~= es.take(n));
    } else {
        assert(es.take(n) =~= es);
    }
}

pub open spec fn names_of(nodes: Seq<Seq<char>>, q: Seq<usize>) -> Seq<Seq<char>> {
    q.map_values(|i: usize| nodes[i as int])
}

/// The weights between the members are those of their dependencies.
pub open spec fn weights_of(w: Seq<Seq<u128>>, nodes: Seq<Seq<char>>, es: Seq<CompiledEdge>) -> bool {
    &&& w.len() == nodes.len()
    &&& forall|a: int| 0 <= a < nodes.len() ==> (#[trigger] w[a]).len() == nodes.len()
    &&& forall|a: int, b: int| 0 <= a < nodes.len() && 0 <= b < nodes.len() ==> w[a][b] as nat == weight(es, nodes[a], nodes[b])
}

proof fn lemma_seqcost_names(w: Seq<Seq<u128>>, nodes: Seq<Seq<char>>, es: Seq<CompiledEdge>, x: int, q: Seq<usize>)
    requires
        weights_of(w, nodes, es),
        0 <= x < nodes.len(),
        forall|k: int| 0 <= k < q.len() ==> (q[k] as int) < nodes.len(),
    ensures
        seqcost(w, x, q) == below_weight(es, nodes[x], names_of(nodes, q)),
    decreases q.len(),
{
    if q.len() > 0 {
        lemma_seqcost_names(w, nodes, es, x, q.drop_last());
        assert(names_of(nodes, q).drop_last() =~= names_of(nodes, q.drop_last()));
        assert((q[q.len() - 1] as int) < nodes.len());
    }
}

proof fn lemma_cost_names(w: Seq<Seq<u128>>, nodes: Seq<Seq<char>>, es: Seq<CompiledEdge>, q: Seq<usize>)
    requires
        weights_of(w, nodes, es),
        forall|k: int| 0 <= k < q.len() ==> (q[k] as int) < nodes.len(),
    ensures
        cost(w, q) == upward(es, names_of(nodes, q)),
    decreases q.len(),
{
    if q.len() > 0 {
        lemma_cost_names(w, nodes, es, q.drop_last());
        assert(names_of(nodes, q).drop_last() =~= names_of(nodes, q.drop_last()));
        assert((q[q.len() - 1] as int) < nodes.len());
        lemma_seqcost_names(w, nodes, es, q.last() as int, q.drop_last());
    }
}

pub open spec fn index_of(nodes: Seq<Seq<char>>, x: Seq<char>) -> int {
    choose|i: int| 0 <= i < nodes.len() && nodes[i] == x
}

/// An arrangement of the members, as numbers.
proof fn lemma_arrangement_order(nodes: Seq<Seq<char>>, p: Seq<Seq<char>>) -> (q: Seq<usize>)
    requires
        names_distinct(nodes),
        nodes.len() <= usize::MAX,
        arranges(p, nodes),
    ensures
        is_order(q, nodes.len()),
        names_of(nodes, q) == p,
{
    let q = Seq::new(p.len(), |k: int| index_of(nodes, p[k]) as usize);
    assert forall|k: int| 0 <= k < p.len() implies 0 <= index_of(nodes, p[k]) < nodes.len() && nodes[index_of(nodes, p[k])] == p[k] by {
        assert(has_name(nodes, p[k]));
    }
    assert forall|a: int, b: int| 0 <= a < b < q.len() implies q[a] != q[b] by {
        assert(p[a] != p[b]);
    }
    assert forall|i: nat| i < nodes.len() implies #[trigger] listed(q, i) by {
        assert(has_name(p, nodes[i as int]));
        let k = choose|k: int| 0 <= k < p.len() && p[k] == nodes[i as int];
        let j = index_of(nodes, p[k]);
        if j != i as int {
            if j < i as int {
                assert(nodes[j] != nodes[i as int]);
            } else {
                assert(nodes[i as int] != nodes[j]);
            }
        }
        assert(q[k] as nat == i);
    }
    assert(names_of(nodes, q) =~= p);
    q
}

/// The weights between the members: `w[a][b]` observes the dependencies
/// from `nodes[a]` to `nodes[b]`.
fn weight_table(nodes: &Vec<String>, es: &Vec<CompiledEdge>) -> (w: Vec<Vec<u128>>)
    requires
        total_count(es@) <= usize::MAX,
        total_count(es@) <= 0xffff_ffff_ffff_ffff,
    ensures
        weights_of(wview(w@), crate::text::views(nodes@), es@),
        w@.len() == nodes@.len(),
        forall|a: int| 0 <= a < nodes@.len() ==> (#[trigger] w@[a])@.len() == nodes@.len(),
        forall|a: int, b: int| 0 <= a < nodes@.len() && 0 <= b < nodes@.len() ==> w@[a]@[b] <= 0xffff_ffff_ffff_ffff,
{
    let ghost nv = crate::text::views(nodes@);
    let n = nodes.len();
    let mut w: Vec<Vec<u128>> = Vec::new();
    let mut a: usize = 0;
    while a < n
        invariant
            a <= n,
            n == nodes@.len(),
            nv == crate::text::views(nodes@),
            total_count(es@) <= usize::MAX,
            total_count(es@) <= 0xffff_ffff_ffff_ffff,
            w@.len() == a,
            forall|x: int| 0 <= x < a ==> (#[trigger] w@[x])@.len() == n,
            forall|x: int, y: int| 0 <= x < a && 0 <= y < n ==> w@[x]@[y] as nat == weight(es@, nv[x], nv[y]),
        decreases n - a,
    {
        let mut row: Vec<u128> = Vec::new();
        let mut b: usize = 0;
        while b < n
            invariant
                b <= n,
                a < n,
                n == nodes@.len(),
                nv == crate::text::views(nodes@),
                total_count(es@) <= usize::MAX,
                row@.len() == b,
                forall|y: int| 0 <= y < b ==> row@[y] as nat == weight(es@, nv[a as int], nv[y]),
            decreases n - b,
        {
            let x = weight_exec(es, nodes[a].as_str(), nodes[b].as_str());
            row.push(x);
            b = b + 1;
        }
        w.push(row);
        a = a + 1;
    }
    let ghost wv = wview(w@);
    proof {
        assert forall|x: int, y: int| 0 <= x < n && 0 <= y < n implies w@[x]@[y] <= 0xffff_ffff_ffff_ffff by {
            lemma_weight_le(es@, nv[x], nv[y]);
        }
        assert(weights_of(wv, nv, es@));
    }
    proof {
        assert forall|x: int, y: int| 0 <= x < n && 0 <= y < n implies w@[x]@[y] <= 0xffff_ffff_ffff_ffff by {
            lemma_weight_le(es@, nv[x], nv[y]);
        }
    }
    w
}

/// The names of the members in the order.
fn order_names(nodes: &Vec<String>, order: &Vec<usize>) -> (r: Vec<String>)
    requires
        is_order(order@, nodes@.len() as nat),
    ensures
        crate::text::views(r@) == names_of(crate::text::views(nodes@), order@),
{
    let ghost nv = crate::text::views(nodes@);
    let n = nodes.len();
    let mut names: Vec<String> = Vec::new();
    let mut k: usize = 0;
    while k < order.len()
        invariant
            k <= order@.len(),
            n == nodes@.len(),
            nv == crate::text::views(nodes@),
            is_order(order@, n as nat),
            crate::text::views(names@) == names_of(nv, order@.take(k as int)),
        decreases order@.len() - k,
    {
        let i = order[k];
        proof {
            assert((order@[k as int] as nat) < n);
        }
        let ghost before = names@;
        names.push(nodes[i].clone());
        proof {
            assert(nv[i as int] == nodes@[i as int]@);
            assert(order@.take(k + 1) =~= order@.take(k as int).push(i));
            assert(names_of(nv, order@.take(k + 1)) =~= names_of(nv, order@.take(k as int)).push(nv[i as int]));
            assert(crate::text::views(names@) =~= crate::text::views(before).push(nv[i as int]));
        }
        k = k + 1;
    }
    proof {
        assert(order@.take(order@.len() as int) =~= order@);
    }
    names
}

/// The order's names arrange the members, with no more weight pointing
/// upwards than the order itself has among the numbered members.
proof fn lemma_plan_order(w: Seq<Seq<u128>>, nv: Seq<Seq<char>>, es: Seq<CompiledEdge>, order: Seq<usize>)
    requires
        names_distinct(nv),
        nv.len() <= usize::MAX,
        weights_of(w, nv, es),
        is_order(order, nv.len()),
        nv.len() <= 16 ==> forall|q: Seq<usize>| is_order(q, nv.len()) ==> cost(w, order) <= cost(w, q),
    ensures
        arranges(names_of(nv, order), nv),
        names_distinct(names_of(nv, order)),
        nv.len() <= 16 ==> forall|p: Seq<Seq<char>>| #[trigger] arranges(p, nv) ==> upward(es, names_of(nv, order)) <= upward(es, p),
{
    let n = nv.len();
    let on = names_of(nv, order);
    assert forall|x: int, y: int| 0 <= x < y < on.len() implies on[x] != on[y] by {
        assert(order[x] != order[y]);
        assert((order[x] as nat) < n && (order[y] as nat) < n);
        if (order[x] as int) < (order[y] as int) {
            assert(nv[order[x] as int] != nv[order[y] as int]);
        } else {
            assert(nv[order[y] as int] != nv[order[x] as int]);
        }
    }
    assert forall|x: int| 0 <= x < on.len() implies #[trigger] has_name(nv, on[x]) by {
        assert((order[x] as nat) < n);
        assert(nv[order[x] as int] == on[x]);
    }
    assert forall|i: int| 0 <= i < nv.len() implies #[trigger] has_name(on, nv[i]) by {
        assert(listed(order, i as nat));
        let x = choose|x: int| 0 <= x < order.len() && order[x] as nat == i as nat;
        assert(on[x] == nv[i]);
    }
    assert forall|x: int| 0 <= x < order.len() implies (order[x] as int) < nv.len() by {
        assert((order[x] as nat) < n);
    }
    lemma_cost_names(w, nv, es, order);
    if n <= 16 {
        assert forall|p: Seq<Seq<char>>| #[trigger] arranges(p, nv) implies upward(es, on) <= upward(es, p) by {
            let q = lemma_arrangement_order(nv, p);
            assert forall|x: int| 0 <= x < q.len() implies (q[x] as int) < nv.len() by {
                assert((q[x] as nat) < n);
            }
            lemma_cost_names(w, nv, es, q);
        }
    }
}

/// The dependencies that point upwards in the order, most observed first.
fn collect_cuts(nodes: &Vec<String>, es: &Vec<CompiledEdge>, w: &Vec<Vec<u128>>, order: &Vec<usize>, Ghost(on): Ghost<Seq<Seq<char>>>) -> (cuts: Vec<CycleCut>)
    requires
        is_order(order@, nodes@.len() as nat),
        on == names_of(crate::text::views(nodes@), order@),
        names_distinct(on),
        weights_of(wview(w@), crate::text::views(nodes@), es@),
        w@.len() == nodes@.len(),
        forall|a: int| 0 <= a < nodes@.len() ==> (#[trigger] w@[a])@.len() == nodes@.len(),
        total_count(es@) <= usize::MAX,
    ensures
        cuts_sorted(cuts@),
        pairs_distinct(cuts@),
        forall|y: (Seq<char>, Seq<char>, usize)| #[trigger] has_cut(crate::model::cut_views(cuts@), y) <==> cut_of(es@, on, y),
{
    let ghost nv = crate::text::views(nodes@);
    let ghost wv = wview(w@);
    let n = nodes.len();
    let mut cuts: Vec<CycleCut> = Vec::new();
    let mut j: usize = 0;
    while j < order.len()
        invariant
            j <= order@.len(),
            n == nodes@.len(),
            nv == crate::text::views(nodes@),
            is_order(order@, n as nat),
            on == names_of(nv, order@),
            names_distinct(on),
            weights_of(wv, nv, es@),
            wv == wview(w@),
            total_count(es@) <= usize::MAX,
            cuts_sorted(cuts@),
            pairs_distinct(cuts@),
            forall|x: (Seq<char>, Seq<char>, usize)| #[trigger] has_cut(crate::model::cut_views(cuts@), x)
                <==> cut_seen(es@, on, j as int, 0, x),
        decreases order@.len() - j,
    {
        let mut i: usize = 0;
        while i < j
            invariant
                i <= j < order@.len(),
                n == nodes@.len(),
                nv == crate::text::views(nodes@),
                is_order(order@, n as nat),
                on == names_of(nv, order@),
                names_distinct(on),
                weights_of(wv, nv, es@),
                wv == wview(w@),
                total_count(es@) <= usize::MAX,
                cuts_sorted(cuts@),
                pairs_distinct(cuts@),
                forall|x: (Seq<char>, Seq<char>, usize)| #[trigger] has_cut(crate::model::cut_views(cuts@), x)
                    <==> cut_seen(es@, on, j as int, i as int, x),
            decreases j - i,
        {
            let lo = order[j];
            let hi = order[i];
            proof {
                assert((order@[j as int] as nat) < n && (order@[i as int] as nat) < n);
                assert(wv[lo as int][hi as int] == w@[lo as int]@[hi as int]);
                lemma_weight_le(es@, nv[lo as int], nv[hi as int]);
            }
            let x = w[lo][hi];
            let ghost old_cuts = cuts@;
            let ghost pair = (on[j as int], on[i as int]);
            if x > 0 {
                let c = CycleCut { from: nodes[lo].clone(), to: nodes[hi].clone(), count: x as usize };
                proof {
                    assert(cut_view(c) == (on[j as int], on[i as int], x as usize));
                    assert forall|m: int| 0 <= m < old_cuts.len() implies (old_cuts[m].from@, old_cuts[m].to@) != pair by {
                        let y = cut_view(old_cuts[m]);
                        assert(crate::model::cut_views(old_cuts)[m] == y);
                        assert(has_cut(crate::model::cut_views(old_cuts), y));
                        let (ii, jj) = choose|ii: int, jj: int| #[trigger] cut_seen_at(es@, on, j as int, i as int, ii, jj, y);
                        if (y.0, y.1) == pair {
                            assert(on[jj] == on[j as int]);
                            assert(on[ii] == on[i as int]);
                            if jj != j as int {
                                if jj < j as int {
                                    assert(on[jj] != on[j as int]);
                                } else {
                                    assert(on[j as int] != on[jj]);
                                }
                            }
                            if ii < i as int {
                                assert(on[ii] != on[i as int]);
                            }
                        }
                    }
                }
                let pos = insert_cut(&mut cuts, c);
                proof {
                    let nc = cuts@;
                    assert forall|a: int, b: int| 0 <= a < b < nc.len() implies ((#[trigger] nc[a]).from@, nc[a].to@) != ((#[trigger] nc[b]).from@, nc[b].to@) by {
                        if a < pos && b < pos {
                            assert(nc[a] == old_cuts[a] && nc[b] == old_cuts[b]);
                        } else if a < pos && b == pos {
                            assert(nc[a] == old_cuts[a]);
                        } else if a < pos {
                            assert(nc[a] == old_cuts[a] && nc[b] == old_cuts[b - 1]);
                        } else if a == pos {
                            assert(nc[b] == old_cuts[b - 1]);
                        } else {
                            assert(nc[a] == old_cuts[a - 1] && nc[b] == old_cuts[b - 1]);
                        }
                    }
                    assert forall|y: (Seq<char>, Seq<char>, usize)| #[trigger] has_cut(crate::model::cut_views(nc), y)
                        <==> cut_seen(es@, on, j as int, i + 1, y) by {
                        lemma_cut_seen_step(es@, on, j as int, i as int, y);
                        if has_cut(crate::model::cut_views(nc), y) {
                            let m = choose|m: int| 0 <= m < nc.len() && crate::model::cut_views(nc)[m] == y;
                            if m < pos {
                                assert(nc[m] == old_cuts[m]);
                                assert(crate::model::cut_views(old_cuts)[m] == y);
                            } else if m > pos {
                                assert(nc[m] == old_cuts[m - 1]);
                                assert(crate::model::cut_views(old_cuts)[m - 1] == y);
                            }
                        }
                        if has_cut(crate::model::cut_views(old_cuts), y) {
                            let m = choose|m: int| 0 <= m < old_cuts.len() && crate::model::cut_views(old_cuts)[m] == y;
                            if m < pos {
                                assert(nc[m] == old_cuts[m]);
                                assert(crate::model::cut_views(nc)[m] == y);
                            } else {
                                assert(nc[m + 1] == old_cuts[m]);
                                assert(crate::model::cut_views(nc)[m + 1] == y);
                            }
                        }
                        if y == cut_view(c) {
                            assert(crate::model::cut_views(nc)[pos as int] == y);
                        }
                    }
                }
            } else {
                proof {
                    assert forall|y: (Seq<char>, Seq<char>, usize)| #[trigger] has_cut(crate::model::cut_views(cuts@), y)
                        <==> cut_seen(es@, on, j as int, i + 1, y) by {
                        lemma_cut_seen_step(es@, on, j as int, i as int, y);
                    }
                }
            }
            i = i + 1;
        }
        proof {
            assert forall|y: (Seq<char>, Seq<char>, usize)| #[trigger] has_cut(crate::model::cut_views(cuts@), y)
                <==> cut_seen(es@, on, j + 1, 0, y) by {
                lemma_cut_seen_row(es@, on, j as int, y);
            }
        }
        j = j + 1;
    }
    proof {
        assert forall|y: (Seq<char>, Seq<char>, usize)| #[trigger] has_cut(crate::model::cut_views(cuts@), y) <==> cut_of(es@, on, y) by {
            lemma_cut_seen_all(es@, on, y);
        }
    }
    cuts
}

/// The layer order and the suggested cut of a cycle among `nodes`, which
/// are distinct, with the dependencies `es` between them.
pub fn layer_plan(nodes: &Vec<String>, es: &Vec<CompiledEdge>) -> (r: (Vec<String>, Vec<CycleCut>))
    requires
        names_distinct(crate::text::views(nodes@)),
    ensures
        layers_fit(crate::text::views(nodes@), es@, crate::text::views(r.0@), crate::model::cut_views(r.1@)),
{
    let ghost nv = crate::text::views(nodes@);
    let n = nodes.len();
    let total = total_exec(es);
    if total > 0xffff_ffff_ffff_ffff || total > usize::MAX as u128 {
        let no_order: Vec<String> = Vec::new();
        let no_cuts: Vec<CycleCut> = Vec::new();
        proof {
            assert(crate::text::views(no_order@) =~= Seq::<Seq<char>>::empty());
            assert(crate::model::cut_views(no_cuts@) =~= Seq::<(Seq<char>, Seq<char>, usize)>::empty());
        }
        return (no_order, no_cuts);
    }
    let w = weight_table(nodes, es);
    let order = if n <= 16 {
        best_order(&w, n)
    } else {
        greedy_order(&w, n)
    };
    let names = order_names(nodes, &order);
    let ghost on = names_of(nv, order@);
    proof {
        lemma_plan_order(wview(w@), nv, es@, order@);
    }
    let cuts = collect_cuts(nodes, es, &w, &order, Ghost(on));
    proof {
        let cv = crate::model::cut_views(cuts@);
        assert forall|k: int, l: int| 0 <= k < l < cv.len() implies (#[trigger] cv[k]).2 >= (#[trigger] cv[l]).2 by {
            assert(cuts@[k].count >= cuts@[l].count);
        }
        assert forall|k: int, l: int| 0 <= k < l < cv.len() implies ((#[trigger] cv[k]).0, cv[k].1) != ((#[trigger] cv[l]).0, cv[l].1) by {
            assert((cuts@[k].from@, cuts@[k].to@) != (cuts@[l].from@, cuts@[l].to@));
        }
    }
    (names, cuts)
}

pub open spec fn cuts_sorted(s: Seq<CycleCut>) -> bool {
    forall|k: int, l: int| 0 <= k < l < s.len() ==> (#[trigger] s[k]).count >= (#[trigger] s[l]).count
}

pub open spec fn pairs_distinct(s: Seq<CycleCut>) -> bool {
    forall|a: int, b: int| 0 <= a < b < s.len() ==> ((#[trigger] s[a]).from@, s[a].to@) != ((#[trigger] s[b]).from@, s[b].to@)
}

/// `x` is the upward dependency from position `jj` to position `ii`, one of
/// those before position `(j, i)` of the scan.
pub open spec fn cut_seen_at(es: Seq<CompiledEdge>, order: Seq<Seq<char>>, j: int, i: int, ii: int, jj: int, x: (Seq<char>, Seq<char>, usize)) -> bool {
    &&& 0 <= ii < jj < order.len()
    &&& (jj < j || (jj == j && ii < i))
    &&& order[jj] == x.0
    &&& order[ii] == x.1
    &&& weight(es, x.0, x.1) > 0
    &&& x.2 as nat == weight(es, x.0, x.1)
}

pub open spec fn cut_seen(es: Seq<CompiledEdge>, order: Seq<Seq<char>>, j: int, i: int, x: (Seq<char>, Seq<char>, usize)) -> bool {
    exists|ii: int, jj: int| #[trigger] cut_seen_at(es, order, j, i, ii, jj, x)
}

proof fn lemma_cut_seen_step(es: Seq<CompiledEdge>, order: Seq<Seq<char>>, j: int, i: int, x: (Seq<char>, Seq<char>, usize))
    requires
        0 <= i < j < order.len(),
    ensures
        cut_seen(es, order, j, i + 1, x) <==> (cut_seen(es, order, j, i, x) || (order[j] == x.0 && order[i] == x.1
            && weight(es, x.0, x.1) > 0 && x.2 as nat == weight(es, x.0, x.1))),
{
    let ip = i + 1;
    if cut_seen(es, order, j, i + 1, x) {
        let (ii, jj) = choose|ii: int, jj: int| #[trigger] cut_seen_at(es, order, j, ip, ii, jj, x);
        if !(jj == j && ii == i) {
            assert(cut_seen_at(es, order, j, i, ii, jj, x));
        }
    }
    if cut_seen(es, order, j, i, x) {
        let (ii, jj) = choose|ii: int, jj: int| #[trigger] cut_seen_at(es, order, j, i, ii, jj, x);
        assert(cut_seen_at(es, order, j, i + 1, ii, jj, x));
    }
    if order[j] == x.0 && order[i] == x.1 && weight(es, x.0, x.1) > 0 && x.2 as nat == weight(es, x.0, x.1) {
        assert(cut_seen_at(es, order, j, i + 1, i, j, x));
    }
}

proof fn lemma_cut_seen_row(es: Seq<CompiledEdge>, order: Seq<Seq<char>>, j: int, x: (Seq<char>, Seq<char>, usize))
    requires
        0 <= j < order.len(),
    ensures
        cut_seen(es, order, j, j, x) <==> cut_seen(es, order, j + 1, 0, x),
{
    let jp = j + 1;
    if cut_seen(es, order, j, j, x) {
        let (ii, jj) = choose|ii: int, jj: int| #[trigger] cut_seen_at(es, order, j, j, ii, jj, x);
        assert(cut_seen_at(es, order, j + 1, 0, ii, jj, x));
    }
    if cut_seen(es, order, j + 1, 0, x) {
        let (ii, jj) = choose|ii: int, jj: int| #[trigger] cut_seen_at(es, order, jp, 0, ii, jj, x);
        assert(cut_seen_at(es, order, j, j, ii, jj, x));
    }
}

proof fn lemma_cut_seen_all(es: Seq<CompiledEdge>, order: Seq<Seq<char>>, x: (Seq<char>, Seq<char>, usize))
    ensures
        cut_seen(es, order, order.len() as int, 0, x) <==> cut_of(es, order, x),
{
    if cut_seen(es, order, order.len() as int, 0, x) {
        let (ii, jj) = choose|ii: int, jj: int| #[trigger] cut_seen_at(es, order, order.len() as int, 0, ii, jj, x);
        assert(order[ii] == x.1 && order[jj] == x.0);
    }
    if cut_of(es, order, x) {
        let (i, j) = choose|i: int, j: int| #![trigger order[i], order[j]]
            0 <= i < j < order.len() && order[j] == x.0 && order[i] == x.1 && weight(es, x.0, x.1) > 0
                && x.2 as nat == weight(es, x.0, x.1);
        assert(cut_seen_at(es, order, order.len() as int, 0, i, j, x));
    }
}

/// Inserts a cut after those with at least its count.
fn insert_cut(cuts: &mut Vec<CycleCut>, c: CycleCut) -> (pos: usize)
    requires
        cuts_sorted(old(cuts)@),
    ensures
        pos <= old(cuts)@.len(),
        final(cuts)@ == old(cuts)@.insert(pos as int, c),
        cuts_sorted(final(cuts)@),
{
    let ghost o = cuts@;
    let mut pos: usize = 0;
    while pos < cuts.len() && cuts[pos].count >= c.count
        invariant
            pos <= cuts@.len(),
            o == cuts@,
            forall|k: int| 0 <= k < pos ==> (#[trigger] o[k]).count >= c.count,
        decreases cuts@.len() - pos,
    {
        pos = pos + 1;
    }
    let ghost cc = c.count;
    cuts.insert(pos, c);
    proof {
        let n = cuts@;
        assert(n =~= o.insert(pos as int, c));
        assert forall|k: int, l: int| 0 <= k < l < n.len() implies (#[trigger] n[k]).count >= (#[trigger] n[l]).count by {
            if l < pos {
                assert(n[k] == o[k] && n[l] == o[l]);
            } else if l == pos {
                assert(n[k] == o[k]);
            } else if k < pos {
                assert(n[k] == o[k] && n[l] == o[l - 1]);
                assert(o[pos as int].count < cc);
            } else if k == pos {
                assert(n[l] == o[l - 1]);
                assert(o[pos as int].count < cc);
                if l - 1 > pos {
                    assert(o[pos as int].count >= o[l - 1].count);
                }
            } else {
                assert(n[k] == o[k - 1] && n[l] == o[l - 1]);
            }
        }
    }
    pos
}

} // verus!
