//! Reachability in a directed graph over the numbers `0..n`, given by each
//! vertex's successors.
use vstd::prelude::*;

verus! {

pub open spec fn adj_view(adj: Seq<Vec<usize>>) -> Seq<Seq<usize>> {
    adj.map_values(|v: Vec<usize>| v@)
}

/// Every successor is a vertex.
pub open spec fn well_formed(adj: Seq<Seq<usize>>) -> bool {
    forall|i: int, k: int| 0 <= i < adj.len() && 0 <= k < adj[i].len() ==> (#[trigger] adj[i][k]) < adj.len()
}

/// A path of at most `n` edges leads from `a` to `b`.
pub open spec fn ipath(adj: Seq<Seq<usize>>, a: int, b: int, n: nat) -> bool
    decreases n,
{
    a == b || (n > 0 && 0 <= a < adj.len() && exists|k: int| 0 <= k < adj[a].len() && ipath(adj, #[trigger] adj[a][k] as int, b, (n - 1) as nat))
}

pub open spec fn ireach(adj: Seq<Seq<usize>>, a: int, b: int) -> bool {
    exists|n: nat| ipath(adj, a, b, n)
}

/// A path can be extended by one edge at its end.
pub proof fn lemma_path_extend(adj: Seq<Seq<usize>>, a: int, b: int, n: nat, k: int)
    requires
        ipath(adj, a, b, n),
        0 <= b < adj.len(),
        0 <= k < adj[b].len(),
    ensures
        ipath(adj, a, adj[b][k] as int, n + 1),
    decreases n,
{
    let c = adj[b][k] as int;
    if a == b {
        assert(ipath(adj, c, c, 0));
        assert(ipath(adj, a, c, 1));
        lemma_path_monotone(adj, a, c, 1, n + 1);
    } else {
        let j = choose|j: int| 0 <= j < adj[a].len() && ipath(adj, #[trigger] adj[a][j] as int, b, (n - 1) as nat);
        lemma_path_extend(adj, adj[a][j] as int, b, (n - 1) as nat, k);
        assert(ipath(adj, adj[a][j] as int, c, n));
    }
}

/// A path of at most `n` edges is one of at most `m >= n` edges.
pub proof fn lemma_path_monotone(adj: Seq<Seq<usize>>, a: int, b: int, n: nat, m: nat)
    requires
        ipath(adj, a, b, n),
        n <= m,
    ensures
        ipath(adj, a, b, m),
    decreases n,
{
    if a != b {
        let j = choose|j: int| 0 <= j < adj[a].len() && ipath(adj, #[trigger] adj[a][j] as int, b, (n - 1) as nat);
        lemma_path_monotone(adj, adj[a][j] as int, b, (n - 1) as nat, (m - 1) as nat);
    }
}

/// Paths compose.
pub proof fn lemma_path_join(adj: Seq<Seq<usize>>, a: int, b: int, c: int, n: nat, m: nat)
    requires
        ipath(adj, a, b, n),
        ipath(adj, b, c, m),
    ensures
        ipath(adj, a, c, n + m),
    decreases n,
{
    if a == b {
        lemma_path_monotone(adj, b, c, m, n + m);
    } else {
        let j = choose|j: int| 0 <= j < adj[a].len() && ipath(adj, #[trigger] adj[a][j] as int, b, (n - 1) as nat);
        lemma_path_join(adj, adj[a][j] as int, b, c, (n - 1) as nat, m);
        assert(ipath(adj, adj[a][j] as int, c, (n - 1 + m) as nat));
    }
}

pub proof fn lemma_reach_transitive(adj: Seq<Seq<usize>>, a: int, b: int, c: int)
    requires
        ireach(adj, a, b),
        ireach(adj, b, c),
    ensures
        ireach(adj, a, c),
{
    let n = choose|n: nat| ipath(adj, a, b, n);
    let m = choose|m: nat| ipath(adj, b, c, m);
    lemma_path_join(adj, a, b, c, n, m);
}

/// A set closed under successors holds everything reachable from its members.
proof fn lemma_closed(adj: Seq<Seq<usize>>, visited: Seq<bool>, a: int, b: int, n: nat)
    requires
        visited.len() == adj.len(),
        0 <= a < adj.len(),
        visited[a],
        forall|x: int, k: int| 0 <= x < adj.len() && visited[x] && 0 <= k < adj[x].len() ==> visited[#[trigger] adj[x][k] as int],
        well_formed(adj),
        ipath(adj, a, b, n),
    ensures
        0 <= b < adj.len() && visited[b],
    decreases n,
{
    if a != b {
        let j = choose|j: int| 0 <= j < adj[a].len() && ipath(adj, #[trigger] adj[a][j] as int, b, (n - 1) as nat);
        assert(visited[adj[a][j] as int]);
        lemma_closed(adj, visited, adj[a][j] as int, b, (n - 1) as nat);
    }
}

pub open spec fn count_true(s: Seq<bool>) -> nat
    decreases s.len(),
{
    if s.len() == 0 {
        0
    } else {
        count_true(s.drop_last()) + if s.last() { 1nat } else { 0nat }
    }
}

proof fn lemma_count_bound(s: Seq<bool>)
    ensures
        count_true(s) <= s.len(),
    decreases s.len(),
{
    if s.len() > 0 {
        lemma_count_bound(s.drop_last());
    }
}

/// Setting an unset entry raises the count by one.
proof fn lemma_count_set(s: Seq<bool>, i: int)
    requires
        0 <= i < s.len(),
        !s[i],
    ensures
        count_true(s.update(i, true)) == count_true(s) + 1,
    decreases s.len(),
{
    if i < s.len() - 1 {
        lemma_count_set(s.drop_last(), i);
        assert(s.update(i, true).drop_last() =~= s.drop_last().update(i, true));
    } else {
        assert(s.update(i, true).drop_last() =~= s.drop_last());
    }
}

/// For every vertex, whether it is reachable from `start`.
pub fn reachable_from(adj: &Vec<Vec<usize>>, start: usize) -> (r: Vec<bool>)
    requires
        start < adj@.len(),
        well_formed(adj_view(adj@)),
    ensures
        r@.len() == adj@.len(),
        forall|b: int| 0 <= b < adj@.len() ==> (r@[b] <==> ireach(adj_view(adj@), start as int, b)),
{
    let ghost g = adj_view(adj@);
    let n = adj.len();
    let mut visited: Vec<bool> = Vec::new();
    let mut i: usize = 0;
    while i < n
        invariant
            i <= n,
            n == adj@.len(),
            visited@.len() == i,
            forall|k: int| 0 <= k < i ==> !visited@[k],
        decreases n - i,
    {
        visited.push(false);
        i = i + 1;
    }
    proof {
        assert(count_true(visited@) == 0) by {
            lemma_count_zero(visited@);
        }
        lemma_count_set(visited@, start as int);
        assert(ipath(g, start as int, start as int, 0));
    }
    visited.set(start, true);
    let mut queue: Vec<usize> = vec![start];
    // A vertex is waiting when it is visited and its successors may not be.
    while queue.len() > 0
        invariant
            n == adj@.len(),
            g == adj_view(adj@),
            well_formed(g),
            start < n,
            visited@.len() == n,
            visited@[start as int],
            forall|q: int| 0 <= q < queue@.len() ==> (#[trigger] queue@[q]) < n && visited@[queue@[q] as int],
            forall|x: int| 0 <= x < n && visited@[x] ==> ireach(g, start as int, x),
            forall|x: int, k: int| 0 <= x < n && visited@[x] && !queue@.contains(x as usize) && 0 <= k < g[x].len()
                ==> visited@[#[trigger] g[x][k] as int],
            count_true(visited@) + queue@.len() <= 2 * n + 1,
            queue@.len() <= count_true(visited@),
        decreases (n + 1) * (n - count_true(visited@)) + queue@.len(),
    {
        let ghost before_visited = visited@;
        let ghost before_queue = queue@;
        let u = queue.pop().unwrap();
        proof {
            assert(before_queue == queue@.push(u));
            assert(visited@[u as int]);
            lemma_count_bound(visited@);
        }
        let ghost popped_queue = queue@;
        let m = adj[u].len();
        let mut k: usize = 0;
        while k < m
            invariant
                n == adj@.len(),
                g == adj_view(adj@),
                well_formed(g),
                u < n,
                m == g[u as int].len(),
                k <= m,
                start < n,
                visited@.len() == n,
                visited@[start as int],
                visited@[u as int],
                forall|q: int| 0 <= q < queue@.len() ==> (#[trigger] queue@[q]) < n && visited@[queue@[q] as int],
                forall|x: int| 0 <= x < n && visited@[x] ==> ireach(g, start as int, x),
                forall|x: int, j: int| 0 <= x < n && visited@[x] && !queue@.contains(x as usize) && x != u && 0 <= j < g[x].len()
                    ==> visited@[#[trigger] g[x][j] as int],
                forall|j: int| 0 <= j < k ==> visited@[#[trigger] g[u as int][j] as int],
                forall|x: int| 0 <= x < n && before_visited[x] ==> visited@[x],
                count_true(visited@) >= count_true(before_visited),
                queue@.len() + count_true(before_visited) == popped_queue.len() + count_true(visited@),
                popped_queue.len() + 1 <= count_true(before_visited),
                count_true(visited@) <= n,
            decreases m - k,
        {
            let v = adj[u][k];
            proof {
                assert(g[u as int][k as int] == v);
                assert(v < n);
            }
            if !visited[v] {
                proof {
                    lemma_count_set(visited@, v as int);
                    let p = choose|p: nat| ipath(g, start as int, u as int, p);
                    lemma_path_extend(g, start as int, u as int, p, k as int);
                    lemma_count_bound(visited@.update(v as int, true));
                }
                let ghost q0 = queue@;
                let ghost v0 = visited@;
                visited.set(v, true);
                queue.push(v);
                proof {
                    assert forall|x: int, j: int| 0 <= x < n && visited@[x] && !queue@.contains(x as usize) && x != u && 0 <= j < g[x].len()
                        implies visited@[#[trigger] g[x][j] as int] by {
                        assert(x != v as int) by {
                            assert(queue@[queue@.len() - 1] == v);
                        }
                        assert(v0[x]);
                        if q0.contains(x as usize) {
                            let q = choose|q: int| 0 <= q < q0.len() && q0[q] == x as usize;
                            assert(queue@[q] == x as usize);
                        }
                    }
                }
            }
            k = k + 1;
        }
        proof {
            lemma_count_bound(visited@);
            let c0 = count_true(before_visited);
            let c1 = count_true(visited@);
            let q0 = before_queue.len();
            let q1 = queue@.len();
            assert(q1 + c0 + 1 == q0 + c1);
            assert((n + 1) * (n - c1) + q1 < (n + 1) * (n - c0) + q0) by (nonlinear_arith)
                requires
                    q1 + c0 + 1 == q0 + c1,
                    c0 <= c1,
                    c1 <= n,
            ;
            assert forall|x: int, j: int| 0 <= x < n && visited@[x] && !queue@.contains(x as usize) && 0 <= j < g[x].len()
                implies visited@[#[trigger] g[x][j] as int] by {
                if x != u as int {
                } else {
                }
            }
        }
    }
    proof {
        assert forall|b: int| 0 <= b < n implies (visited@[b] <==> ireach(g, start as int, b)) by {
            if ireach(g, start as int, b) {
                let p = choose|p: nat| ipath(g, start as int, b, p);
                lemma_closed(g, visited@, start as int, b, p);
            }
        }
    }
    visited
}

proof fn lemma_count_zero(s: Seq<bool>)
    requires
        forall|k: int| 0 <= k < s.len() ==> !s[k],
    ensures
        count_true(s) == 0,
    decreases s.len(),
{
    if s.len() > 0 {
        lemma_count_zero(s.drop_last());
    }
}

} // verus!
