//! Architecture rules and the graph analysis they need: strongly connected
//! components of the dependency graph between sibling nodes.
use vstd::prelude::*;
use crate::graph::{adj_view, ipath, ireach, lemma_reach_transitive, reachable_from, well_formed};
use crate::order::{lex_lt, lemma_lex_antisymmetric, seq_has, sorted_unique, strictly_sorted};
use crate::strmap::StrMap;
use crate::text::{cat2, cat3, cat4, chars_eq, chars_of, copy_opt, copy_strings, decimal, decimal_spec, opt_view, str_eq, views};
use crate::config::{immediate_child, is_within, within, child_toward, RuleConfig};
use crate::evidence::{
    acc_of, aggregate_observed, compiled_acc, compiled_key, deref_all, ev_views, has_key,
    key_order, with_key, AccView, CompiledEdge, EdgeEvidence, ResolvedEdge,
};
use crate::model::CycleCut;
use crate::order::str_le;
use crate::evidence::{lemma_key_order, lemma_text_order, lemma_text_order_trans, text_order};

verus! {

/// `g` has an edge from `a` to `b`: `b` is among the targets listed under `a`.
pub open spec fn has_edge(g: StrMap<Vec<String>>, a: Seq<char>, b: Seq<char>) -> bool {
    exists|i: int| 0 <= i < g.keys().len() && g.keys()[i] == a && seq_has(views(g.values()[i]@), b)
}

/// A vertex of `g`: a key or a target.
pub open spec fn graph_node(g: StrMap<Vec<String>>, x: Seq<char>) -> bool {
    seq_has(g.keys(), x) || exists|i: int| 0 <= i < g.keys().len() && seq_has(views(g.values()[i]@), x)
}

/// A path of at most `n` edges leads from `a` to `b`.
pub open spec fn spath(g: StrMap<Vec<String>>, a: Seq<char>, b: Seq<char>, n: nat) -> bool
    decreases n,
{
    a == b || (n > 0 && exists|m: Seq<char>| #[trigger] has_edge(g, a, m) && spath(g, m, b, (n - 1) as nat))
}

pub open spec fn reaches(g: StrMap<Vec<String>>, a: Seq<char>, b: Seq<char>) -> bool {
    exists|n: nat| spath(g, a, b, n)
}

pub open spec fn mutually_reachable(g: StrMap<Vec<String>>, a: Seq<char>, b: Seq<char>) -> bool {
    reaches(g, a, b) && reaches(g, b, a)
}

/// `comps` are the strongly connected components of `g`, each in ascending
/// order, listed by their first members in ascending order.
pub open spec fn scc_list(g: StrMap<Vec<String>>, comps: Seq<Seq<Seq<char>>>) -> bool {
    &&& forall|i: int| 0 <= i < comps.len() ==> (#[trigger] comps[i]).len() > 0 && strictly_sorted(comps[i])
    &&& forall|i: int, x: Seq<char>| 0 <= i < comps.len() && #[trigger] seq_has(comps[i], x) ==> graph_node(g, x)
    &&& forall|i: int, x: Seq<char>, y: Seq<char>|
        #![trigger seq_has(comps[i], x), seq_has(comps[i], y)]
        0 <= i < comps.len() && seq_has(comps[i], x) && seq_has(comps[i], y) ==> mutually_reachable(g, x, y)
    &&& forall|i: int, x: Seq<char>, y: Seq<char>|
        #![trigger seq_has(comps[i], x), mutually_reachable(g, x, y)]
        0 <= i < comps.len() && seq_has(comps[i], x) && graph_node(g, y) && mutually_reachable(g, x, y)
            ==> seq_has(comps[i], y)
    &&& forall|x: Seq<char>| graph_node(g, x) ==> exists|i: int| 0 <= i < comps.len() && #[trigger] seq_has(comps[i], x)
    &&& forall|i: int, j: int| 0 <= i < j < comps.len() ==> lex_lt(#[trigger] comps[i][0], #[trigger] comps[j][0])
}

pub open spec fn comps_view(comps: Seq<Vec<String>>) -> Seq<Seq<Seq<char>>> {
    comps.map_values(|c: Vec<String>| views(c@))
}

/// The index of `x` among the sorted, repetition-free `v`.
fn index_of(v: &Vec<String>, x: &str) -> (r: usize)
    requires
        seq_has(views(v@), x@),
    ensures
        r < v@.len(),
        v@[r as int]@ == x@,
{
    let mut i: usize = 0;
    while i < v.len()
        invariant
            i <= v@.len(),
            seq_has(views(v@), x@),
            forall|k: int| 0 <= k < i ==> v@[k]@ != x@,
        decreases v@.len() - i,
    {
        if str_eq(v[i].as_str(), x) {
            return i;
        }
        i = i + 1;
    }
    proof {
        let k = choose|k: int| 0 <= k < views(v@).len() && views(v@)[k] == x@;
        assert(v@[k]@ == x@);
    }
    0
}

/// Index paths in the graph of vertex indices are paths between the vertices.
proof fn lemma_paths_agree(
    g: StrMap<Vec<String>>,
    vs: Seq<Seq<char>>,
    adj: Seq<Seq<usize>>,
    a: int,
    b: int,
    n: nat,
)
    requires
        strictly_sorted(vs),
        adj.len() == vs.len(),
        vs.len() <= usize::MAX,
        well_formed(adj),
        forall|x: Seq<char>| graph_node(g, x) <==> seq_has(vs, x),
        forall|i: int, j: int| 0 <= i < vs.len() && 0 <= j < vs.len() ==> (adj[i].contains(j as usize) <==> #[trigger] has_edge(g, vs[i], vs[j])),
        0 <= a < vs.len(),
        0 <= b < vs.len(),
    ensures
        ipath(adj, a, b, n) <==> spath(g, vs[a], vs[b], n),
    decreases n,
{
    if a != b {
        assert(vs[a] != vs[b]) by {
            if a < b {
                assert(lex_lt(vs[a], vs[b]));
            } else {
                assert(lex_lt(vs[b], vs[a]));
            }
        }
    }
    if n > 0 && a != b {
        if ipath(adj, a, b, n) {
            let k = choose|k: int| 0 <= k < adj[a].len() && ipath(adj, #[trigger] adj[a][k] as int, b, (n - 1) as nat);
            let j = adj[a][k] as int;
            assert(adj[a].contains(j as usize));
            lemma_paths_agree(g, vs, adj, j, b, (n - 1) as nat);
            assert(has_edge(g, vs[a], vs[j]));
        }
        if spath(g, vs[a], vs[b], n) {
            let m = choose|m: Seq<char>| #[trigger] has_edge(g, vs[a], m) && spath(g, m, vs[b], (n - 1) as nat);
            assert(graph_node(g, m)) by {
                let i = choose|i: int| 0 <= i < g.keys().len() && g.keys()[i] == vs[a] && seq_has(views(g.values()[i]@), m);
            }
            let j = choose|j: int| 0 <= j < vs.len() && vs[j] == m;
            assert(adj[a].contains(j as usize));
            let k = choose|k: int| 0 <= k < adj[a].len() && adj[a][k] == j as usize;
            lemma_paths_agree(g, vs, adj, j, b, (n - 1) as nat);
            assert(ipath(adj, adj[a][k] as int, b, (n - 1) as nat));
        }
    }
}

proof fn lemma_reach_agree(
    g: StrMap<Vec<String>>,
    vs: Seq<Seq<char>>,
    adj: Seq<Seq<usize>>,
    a: int,
    b: int,
)
    requires
        strictly_sorted(vs),
        adj.len() == vs.len(),
        vs.len() <= usize::MAX,
        well_formed(adj),
        forall|x: Seq<char>| graph_node(g, x) <==> seq_has(vs, x),
        forall|i: int, j: int| 0 <= i < vs.len() && 0 <= j < vs.len() ==> (adj[i].contains(j as usize) <==> #[trigger] has_edge(g, vs[i], vs[j])),
        0 <= a < vs.len(),
        0 <= b < vs.len(),
    ensures
        ireach(adj, a, b) <==> reaches(g, vs[a], vs[b]),
{
    if ireach(adj, a, b) {
        let n = choose|n: nat| ipath(adj, a, b, n);
        lemma_paths_agree(g, vs, adj, a, b, n);
    }
    if reaches(g, vs[a], vs[b]) {
        let n = choose|n: nat| spath(g, vs[a], vs[b], n);
        lemma_paths_agree(g, vs, adj, a, b, n);
    }
}

/// The vertices of `g`, sorted.
fn graph_nodes(g: &StrMap<Vec<String>>) -> (r: Vec<String>)
    ensures
        strictly_sorted(views(r@)),
        forall|x: Seq<char>| graph_node(*g, x) <==> seq_has(views(r@), x),
{
    let mut all: Vec<String> = Vec::new();
    let n = g.len();
    let mut i: usize = 0;
    while i < n
        invariant
            i <= n,
            n == g.keys().len(),
            forall|x: Seq<char>| seq_has(views(all@), x) <==> (
                (exists|k: int| 0 <= k < i && g.keys()[k] == x)
                || exists|k: int| 0 <= k < i && seq_has(views(g.values()[k]@), x)),
        decreases n - i,
    {
        let ghost before = views(all@);
        all.push(g.key(i).clone());
        let targets = g.value(i);
        let mut j: usize = 0;
        proof {
            assert(views(all@) =~= before.push(g.keys()[i as int]));
        }
        while j < targets.len()
            invariant
                i < n,
                n == g.keys().len(),
                *targets == g.values()[i as int],
                j <= targets@.len(),
                views(all@) == before.push(g.keys()[i as int]) + views(targets@).take(j as int),
            decreases targets@.len() - j,
        {
            let ghost b2 = views(all@);
            all.push(targets[j].clone());
            proof {
                assert(views(all@) =~= b2.push(targets@[j as int]@));
                assert(views(targets@).take(j + 1) =~= views(targets@).take(j as int).push(targets@[j as int]@));
                assert(views(all@) =~= before.push(g.keys()[i as int]) + views(targets@).take(j + 1));
            }
            j = j + 1;
        }
        proof {
            assert(views(targets@).take(targets@.len() as int) =~= views(targets@));
            let a = views(all@);
            let t = views(g.values()[i as int]@);
            assert forall|x: Seq<char>| seq_has(a, x) <==> (
                (exists|k: int| 0 <= k < i + 1 && g.keys()[k] == x)
                || exists|k: int| 0 <= k < i + 1 && seq_has(views(g.values()[k]@), x)) by {
                if seq_has(a, x) {
                    let p = choose|p: int| 0 <= p < a.len() && a[p] == x;
                    if p < before.len() {
                        assert(before[p] == x);
                        assert(seq_has(before, x));
                    } else if p == before.len() {
                        assert(g.keys()[i as int] == x);
                    } else {
                        assert(t[p - before.len() - 1] == x);
                        assert(seq_has(t, x));
                    }
                }
                if exists|k: int| 0 <= k < i + 1 && g.keys()[k] == x {
                    let k = choose|k: int| 0 <= k < i + 1 && g.keys()[k] == x;
                    if k < i {
                        assert(seq_has(before, x));
                        let p = choose|p: int| 0 <= p < before.len() && before[p] == x;
                        assert(a[p] == x);
                    } else {
                        assert(a[before.len() as int] == x);
                    }
                }
                if exists|k: int| 0 <= k < i + 1 && seq_has(views(g.values()[k]@), x) {
                    let k = choose|k: int| 0 <= k < i + 1 && seq_has(views(g.values()[k]@), x);
                    if k < i {
                        assert(seq_has(before, x));
                        let p = choose|p: int| 0 <= p < before.len() && before[p] == x;
                        assert(a[p] == x);
                    } else {
                        let p = choose|p: int| 0 <= p < t.len() && t[p] == x;
                        assert(a[before.len() + 1 + p] == x);
                    }
                }
            }
        }
        i = i + 1;
    }
    let r = sorted_unique(&all);
    proof {
        assert forall|x: Seq<char>| graph_node(*g, x) <==> seq_has(views(r@), x) by {
            if seq_has(g.keys(), x) {
                let k = choose|k: int| 0 <= k < g.keys().len() && g.keys()[k] == x;
            }
        }
    }
    r
}

/// The successors of each vertex, by index among the sorted vertices.
fn adjacency(g: &StrMap<Vec<String>>, nodes: &Vec<String>) -> (r: Vec<Vec<usize>>)
    requires
        strictly_sorted(views(nodes@)),
        forall|x: Seq<char>| graph_node(*g, x) <==> seq_has(views(nodes@), x),
    ensures
        r@.len() == nodes@.len(),
        well_formed(adj_view(r@)),
        forall|i: int, j: int| 0 <= i < nodes@.len() && 0 <= j < nodes@.len() ==> (adj_view(r@)[i].contains(j as usize)
            <==> #[trigger] has_edge(*g, views(nodes@)[i], views(nodes@)[j])),
{
    g.keys_sorted();
    let ghost vs = views(nodes@);
    let n = nodes.len();
    let mut adj: Vec<Vec<usize>> = Vec::new();
    let mut i: usize = 0;
    while i < n
        invariant
            n == nodes@.len(),
            vs == views(nodes@),
            strictly_sorted(vs),
            strictly_sorted(g.keys()),
            forall|x: Seq<char>| graph_node(*g, x) <==> seq_has(vs, x),
            i <= n,
            adj@.len() == i,
            well_formed_prefix(adj_view(adj@), n as nat),
            forall|a: int, j: int| 0 <= a < i && 0 <= j < n ==> (adj_view(adj@)[a].contains(j as usize)
                <==> #[trigger] has_edge(*g, vs[a], vs[j])),
        decreases n - i,
    {
        let mut row: Vec<usize> = Vec::new();
        match g.find(nodes[i].as_str()) {
            Some(k) => {
                let targets = g.value(k);
                let mut t: usize = 0;
                while t < targets.len()
                    invariant
                        n == nodes@.len(),
                        vs == views(nodes@),
                        forall|x: Seq<char>| graph_node(*g, x) <==> seq_has(vs, x),
                        k < g.keys().len(),
                        *targets == g.values()[k as int],
                        t <= targets@.len(),
                        row@.len() == t,
                        forall|p: int| 0 <= p < t ==> (#[trigger] row@[p]) < n && vs[row@[p] as int] == targets@[p]@,
                    decreases targets@.len() - t,
                {
                    proof {
                        assert(seq_has(views(g.values()[k as int]@), targets@[t as int]@)) by {
                            assert(views(g.values()[k as int]@)[t as int] == targets@[t as int]@);
                        }
                        assert(graph_node(*g, targets@[t as int]@));
                    }
                    let j = index_of(nodes, targets[t].as_str());
                    row.push(j);
                    t = t + 1;
                }
                proof {
                    assert forall|j: int| 0 <= j < n implies (row@.contains(j as usize) <==> has_edge(*g, vs[i as int], vs[j])) by {
                        if row@.contains(j as usize) {
                            let p = choose|p: int| 0 <= p < row@.len() && row@[p] == j as usize;
                            assert(views(g.values()[k as int]@)[p] == vs[j]);
                            assert(seq_has(views(g.values()[k as int]@), vs[j]));
                        }
                        if has_edge(*g, vs[i as int], vs[j]) {
                            let q = choose|q: int| 0 <= q < g.keys().len() && g.keys()[q] == vs[i as int] && seq_has(views(g.values()[q]@), vs[j]);
                            if q != k as int {
                                if q < k {
                                    assert(lex_lt(g.keys()[q], g.keys()[k as int]));
                                } else {
                                    assert(lex_lt(g.keys()[k as int], g.keys()[q]));
                                }
                            }
                            let p = choose|p: int| 0 <= p < views(g.values()[k as int]@).len() && views(g.values()[k as int]@)[p] == vs[j];
                            assert(vs[row@[p] as int] == vs[j]);
                            if row@[p] as int != j {
                                if (row@[p] as int) < j {
                                    assert(lex_lt(vs[row@[p] as int], vs[j]));
                                } else {
                                    assert(lex_lt(vs[j], vs[row@[p] as int]));
                                }
                            }
                            assert(row@[p] == j as usize);
                        }
                    }
                }
            },
            None => {
                proof {
                    assert forall|j: int| 0 <= j < n implies !has_edge(*g, vs[i as int], vs[j]) by {
                        if has_edge(*g, vs[i as int], vs[j]) {
                            let q = choose|q: int| 0 <= q < g.keys().len() && g.keys()[q] == vs[i as int] && seq_has(views(g.values()[q]@), vs[j]);
                            assert(seq_has(g.keys(), vs[i as int]));
                        }
                    }
                }
            },
        }
        let ghost before = adj_view(adj@);
        adj.push(row);
        proof {
            assert(adj_view(adj@) =~= before.push(row@));
        }
        i = i + 1;
    }
    adj
}

pub open spec fn well_formed_prefix(adj: Seq<Seq<usize>>, n: nat) -> bool {
    forall|i: int, k: int| 0 <= i < adj.len() && 0 <= k < adj[i].len() ==> (#[trigger] adj[i][k]) < n
}

/// The strongly connected components of `graph`: each sorted, and the
/// components in ascending order. Every key and every target is a vertex.
pub fn strongly_connected_components(graph: &StrMap<Vec<String>>) -> (r: Vec<Vec<String>>)
    ensures
        scc_list(*graph, comps_view(r@)),
{
    let nodes = graph_nodes(graph);
    let adj = adjacency(graph, &nodes);
    let ghost vs = views(nodes@);
    let ghost a = adj_view(adj@);
    let n = nodes.len();
    let mut reach: Vec<Vec<bool>> = Vec::new();
    let mut s: usize = 0;
    while s < n
        invariant
            n == nodes@.len(),
            n == adj@.len(),
            a == adj_view(adj@),
            well_formed(a),
            s <= n,
            reach@.len() == s,
            forall|x: int| 0 <= x < s ==> (#[trigger] reach@[x])@.len() == n,
            forall|x: int, y: int| 0 <= x < s && 0 <= y < n ==> (reach@[x]@[y] <==> #[trigger] ireach(a, x, y)),
        decreases n - s,
    {
        let row = reachable_from(&adj, s);
        let ghost before = reach@;
        reach.push(row);
        proof {
            assert forall|x: int, y: int| 0 <= x < s + 1 && 0 <= y < n implies (reach@[x]@[y] <==> #[trigger] ireach(a, x, y)) by {
                if x < s {
                    assert(reach@[x] == before[x]);
                } else {
                    assert(reach@[x] == row);
                }
            }
        }
        s = s + 1;
    }
    let mut assigned: Vec<bool> = vec![false; n];
    let mut comps: Vec<Vec<String>> = Vec::new();
    let ghost mut firsts: Seq<int> = Seq::empty();
    let mut i: usize = 0;
    while i < n
        invariant
            n == nodes@.len(),
            vs == views(nodes@),
            strictly_sorted(vs),
            n == adj@.len(),
            a == adj_view(adj@),
            well_formed(a),
            reach@.len() == n,
            forall|x: int| 0 <= x < n ==> (#[trigger] reach@[x])@.len() == n,
            forall|x: int, y: int| 0 <= x < n && 0 <= y < n ==> (reach@[x]@[y] <==> #[trigger] ireach(a, x, y)),
            i <= n,
            assigned@.len() == n,
            comps@.len() == firsts.len(),
            forall|c: int| 0 <= c < firsts.len() ==> 0 <= #[trigger] firsts[c] < i,
            forall|c: int, d: int| 0 <= c < d < firsts.len() ==> #[trigger] firsts[c] < #[trigger] firsts[d],
            forall|j: int| 0 <= j < n ==> (assigned@[j] <==> #[trigger] covered(a, firsts, j)),
            forall|j: int| 0 <= j < i ==> assigned@[j],
            forall|c: int| 0 <= c < firsts.len() ==> class_view(vs, a, #[trigger] firsts[c], views(comps@[c]@)),
        decreases n - i,
    {
        if !assigned[i] {
            let ghost f = i as int;
            proof {
                assert forall|j: int| 0 <= j < i implies !mutual(a, f, j) by {
                    if mutual(a, f, j) {
                        assert(assigned@[j]);
                        assert(covered(a, firsts, j));
                        let c = choose|c: int| 0 <= c < firsts.len() && mutual(a, #[trigger] firsts[c], j);
                        lemma_reach_transitive(a, firsts[c], j, f);
                        lemma_reach_transitive(a, f, j, firsts[c]);
                        assert(mutual(a, firsts[c], f));
                        assert(covered(a, firsts, f));
                    }
                }
            }
            let mut comp: Vec<String> = Vec::new();
            let mut j: usize = 0;
            proof {
                assert(ipath(a, f, f, 0));
                assert(mutual(a, f, f));
                assert(views(comp@) =~= Seq::<Seq<char>>::empty());
            }
            while j < n
                invariant
                    n == nodes@.len(),
                    vs == views(nodes@),
                    strictly_sorted(vs),
                    a == adj_view(adj@),
                    well_formed(a),
                    reach@.len() == n,
                    forall|x: int| 0 <= x < n ==> (#[trigger] reach@[x])@.len() == n,
                    forall|x: int, y: int| 0 <= x < n && 0 <= y < n ==> (reach@[x]@[y] <==> #[trigger] ireach(a, x, y)),
                    f == i as int,
                    i < n,
                    j <= n,
                    mutual(a, f, f),
                    assigned@.len() == n,
                    forall|m: int| 0 <= m < i ==> !mutual(a, f, m),
                    forall|m: int| 0 <= m < n ==> (#[trigger] assigned@[m] <==> covered(a, firsts, m) || (m < j && mutual(a, f, m))),
                    forall|m: int| 0 <= m < i ==> assigned@[m],
                    class_prefix(vs, a, f, views(comp@), j as int),
                decreases n - j,
            {
                let ghost old_assigned = assigned@;
                if reach[i][j] && reach[j][i] {
                    let ghost before = views(comp@);
                    comp.push(nodes[j].clone());
                    assigned.set(j, true);
                    proof {
                        assert forall|m: int| 0 <= m < n implies (#[trigger] assigned@[m] <==> covered(a, firsts, m) || (m < j + 1 && mutual(a, f, m))) by {
                            if m != j as int {
                                assert(assigned@[m] == old_assigned[m]);
                            }
                        }
                        assert(views(comp@) =~= before.push(vs[j as int]));
                        lemma_class_push(vs, a, f, before, j as int);
                    }
                } else {
                    proof {
                        lemma_class_skip(vs, a, f, views(comp@), j as int);
                        assert forall|m: int| 0 <= m < n implies (#[trigger] assigned@[m] <==> covered(a, firsts, m) || (m < j + 1 && mutual(a, f, m))) by {
                            if m == j as int {
                                assert(!mutual(a, f, m));
                            }
                        }
                    }
                }
                j = j + 1;
            }
            let ghost old_comps = comps@;
            let ghost old_firsts = firsts;
            proof {
                assert(class_view(vs, a, f, views(comp@)));
            }
            comps.push(comp);
            proof {
                firsts = firsts.push(f);
                assert forall|c: int| 0 <= c < firsts.len() implies class_view(vs, a, #[trigger] firsts[c], views(comps@[c]@)) by {
                    if c < firsts.len() - 1 {
                        assert(comps@[c] == old_comps[c]);
                        assert(firsts[c] == old_firsts[c]);
                    }
                }
                assert forall|m: int| 0 <= m < n implies (assigned@[m] <==> #[trigger] covered(a, firsts, m)) by {
                    if covered(a, old_firsts, m) {
                        let c = choose|c: int| 0 <= c < old_firsts.len() && mutual(a, #[trigger] old_firsts[c], m);
                        assert(firsts[c] == old_firsts[c]);
                    }
                    if mutual(a, f, m) {
                        assert(firsts[firsts.len() - 1] == f);
                    }
                    if covered(a, firsts, m) {
                        let c = choose|c: int| 0 <= c < firsts.len() && mutual(a, #[trigger] firsts[c], m);
                        if c < firsts.len() - 1 {
                            assert(old_firsts[c] == firsts[c]);
                        }
                    }
                }
                assert(assigned@[i as int]);
            }
        }
        i = i + 1;
    }
    proof {
        assert forall|j: int| 0 <= j < vs.len() implies #[trigger] covered(a, firsts, j) by {
            assert(assigned@[j]);
        }
        assert(vs.len() <= usize::MAX);
        assert forall|c: int| 0 <= c < firsts.len() implies class_view(vs, a, #[trigger] firsts[c], comps_view(comps@)[c]) by {
            assert(comps_view(comps@)[c] == views(comps@[c]@));
        }
        lemma_components_correct(*graph, vs, a, firsts, comps_view(comps@));
    }
    comps
}

pub open spec fn covered(a: Seq<Seq<usize>>, firsts: Seq<int>, j: int) -> bool {
    exists|c: int| 0 <= c < firsts.len() && mutual(a, #[trigger] firsts[c], j)
}

pub open spec fn mutual(a: Seq<Seq<usize>>, x: int, y: int) -> bool {
    ireach(a, x, y) && ireach(a, y, x)
}

/// `comp` lists, in order, the vertices below `j` mutually reachable with `f`.
pub open spec fn class_prefix(vs: Seq<Seq<char>>, a: Seq<Seq<usize>>, f: int, comp: Seq<Seq<char>>, j: int) -> bool {
    &&& strictly_sorted(comp)
    &&& forall|x: Seq<char>| seq_has(comp, x) <==> exists|m: int| 0 <= m < j && #[trigger] vs[m] == x && mutual(a, f, m)
    &&& forall|p: int| 0 <= p < comp.len() ==> exists|m: int| 0 <= m < j && #[trigger] vs[m] == #[trigger] comp[p] && mutual(a, f, m)
    &&& (j > f ==> comp.len() > 0 && comp[0] == vs[f])
    &&& (comp.len() > 0 ==> exists|m: int| 0 <= m < j && vs[m] == comp.last() && forall|q: int| m < q < vs.len() ==> lex_lt(comp.last(), #[trigger] vs[q]))
}

/// The class of `f`: every vertex mutually reachable with it, in order.
pub open spec fn class_view(vs: Seq<Seq<char>>, a: Seq<Seq<usize>>, f: int, comp: Seq<Seq<char>>) -> bool {
    class_prefix(vs, a, f, comp, vs.len() as int)
}

proof fn lemma_class_push(vs: Seq<Seq<char>>, a: Seq<Seq<usize>>, f: int, comp: Seq<Seq<char>>, j: int)
    requires
        strictly_sorted(vs),
        0 <= f < vs.len(),
        0 <= j < vs.len(),
        class_prefix(vs, a, f, comp, j),
        mutual(a, f, j),
        forall|m: int| 0 <= m < f ==> !mutual(a, f, m),
    ensures
        class_prefix(vs, a, f, comp.push(vs[j]), j + 1),
{
    let c2 = comp.push(vs[j]);
    assert(j >= f);
    assert forall|p: int, q: int| 0 <= p < q < c2.len() implies lex_lt(#[trigger] c2[p], #[trigger] c2[q]) by {
        if q == c2.len() - 1 {
            if p == comp.len() - 1 {
                let m = choose|m: int| 0 <= m < j && vs[m] == comp.last() && forall|q: int| m < q < vs.len() ==> lex_lt(comp.last(), #[trigger] vs[q]);
                assert(lex_lt(comp.last(), vs[j]));
            } else {
                let m = choose|m: int| 0 <= m < j && vs[m] == comp.last() && forall|q: int| m < q < vs.len() ==> lex_lt(comp.last(), #[trigger] vs[q]);
                assert(lex_lt(comp[p], comp.last()));
                assert(lex_lt(comp.last(), vs[j]));
                crate::order::lemma_lex_transitive(comp[p], comp.last(), vs[j]);
                if comp[p] == vs[j] {
                    lemma_lex_antisymmetric(comp.last(), vs[j]);
                }
            }
        } else {
            assert(c2[p] == comp[p] && c2[q] == comp[q]);
        }
    }
    assert forall|x: Seq<char>| seq_has(c2, x) <==> exists|m: int| 0 <= m < j + 1 && #[trigger] vs[m] == x && mutual(a, f, m) by {
        if seq_has(c2, x) {
            let p = choose|p: int| 0 <= p < c2.len() && c2[p] == x;
            if p < comp.len() {
                assert(comp[p] == x);
                assert(seq_has(comp, x));
            }
        }
        if exists|m: int| 0 <= m < j + 1 && #[trigger] vs[m] == x && mutual(a, f, m) {
            let m = choose|m: int| 0 <= m < j + 1 && #[trigger] vs[m] == x && mutual(a, f, m);
            if m < j {
                assert(seq_has(comp, x));
                let p = choose|p: int| 0 <= p < comp.len() && comp[p] == x;
                assert(c2[p] == x);
            } else {
                assert(c2[c2.len() - 1] == x);
            }
        }
    }
    assert forall|p: int| 0 <= p < c2.len() implies exists|m: int| 0 <= m < j + 1 && #[trigger] vs[m] == #[trigger] c2[p] && mutual(a, f, m) by {
        if p < comp.len() {
            assert(c2[p] == comp[p]);
        } else {
            assert(vs[j] == c2[p]);
        }
    }
    if j == f {
        if comp.len() > 0 {
            let m = choose|m: int| 0 <= m < j && #[trigger] vs[m] == comp[0] && mutual(a, f, m);
        }
        assert(comp.len() == 0);
        assert(c2[0] == vs[f]);
    } else {
        assert(c2[0] == comp[0]);
    }
    assert forall|q: int| j < q < vs.len() implies lex_lt(c2.last(), #[trigger] vs[q]) by {
        assert(lex_lt(vs[j], vs[q]));
    }
}

proof fn lemma_class_skip(vs: Seq<Seq<char>>, a: Seq<Seq<usize>>, f: int, comp: Seq<Seq<char>>, j: int)
    requires
        strictly_sorted(vs),
        0 <= f < vs.len(),
        0 <= j < vs.len(),
        class_prefix(vs, a, f, comp, j),
        !mutual(a, f, j),
        mutual(a, f, f),
    ensures
        class_prefix(vs, a, f, comp, j + 1),
{
    assert(j != f);
    assert forall|x: Seq<char>| seq_has(comp, x) <==> exists|m: int| 0 <= m < j + 1 && #[trigger] vs[m] == x && mutual(a, f, m) by {
        if exists|m: int| 0 <= m < j + 1 && #[trigger] vs[m] == x && mutual(a, f, m) {
            let m = choose|m: int| 0 <= m < j + 1 && #[trigger] vs[m] == x && mutual(a, f, m);
            assert(m != j);
        }
    }
    assert forall|p: int| 0 <= p < comp.len() implies exists|m: int| 0 <= m < j + 1 && #[trigger] vs[m] == #[trigger] comp[p] && mutual(a, f, m) by {
        let m = choose|m: int| 0 <= m < j && #[trigger] vs[m] == comp[p] && mutual(a, f, m);
    }
}

proof fn lemma_components_correct(
    g: StrMap<Vec<String>>,
    vs: Seq<Seq<char>>,
    a: Seq<Seq<usize>>,
    firsts: Seq<int>,
    comps: Seq<Seq<Seq<char>>>,
)
    requires
        strictly_sorted(vs),
        a.len() == vs.len(),
        vs.len() <= usize::MAX,
        well_formed(a),
        forall|x: Seq<char>| graph_node(g, x) <==> seq_has(vs, x),
        forall|i: int, j: int| 0 <= i < vs.len() && 0 <= j < vs.len() ==> (a[i].contains(j as usize) <==> #[trigger] has_edge(g, vs[i], vs[j])),
        comps.len() == firsts.len(),
        forall|c: int| 0 <= c < firsts.len() ==> 0 <= #[trigger] firsts[c] < vs.len(),
        forall|c: int, d: int| 0 <= c < d < firsts.len() ==> #[trigger] firsts[c] < #[trigger] firsts[d],
        forall|j: int| 0 <= j < vs.len() ==> #[trigger] covered(a, firsts, j),
        forall|c: int| 0 <= c < firsts.len() ==> class_view(vs, a, #[trigger] firsts[c], comps[c]),
    ensures
        scc_list(g, comps),
{
    assert forall|c: int| 0 <= c < comps.len() implies (#[trigger] comps[c]).len() > 0 && strictly_sorted(comps[c]) by {
        assert(class_view(vs, a, firsts[c], comps[c]));
    }
    assert forall|c: int, x: Seq<char>| 0 <= c < comps.len() && #[trigger] seq_has(comps[c], x) implies graph_node(g, x) by {
        assert(class_view(vs, a, firsts[c], comps[c]));
        let m = choose|m: int| 0 <= m < vs.len() && #[trigger] vs[m] == x && mutual(a, firsts[c], m);
        assert(seq_has(vs, x));
    }
    assert forall|c: int, x: Seq<char>, y: Seq<char>|
        #![trigger seq_has(comps[c], x), seq_has(comps[c], y)]
        0 <= c < comps.len() && seq_has(comps[c], x) && seq_has(comps[c], y) implies mutually_reachable(g, x, y) by {
        let f = firsts[c];
        assert(class_view(vs, a, f, comps[c]));
        let mx = choose|m: int| 0 <= m < vs.len() && #[trigger] vs[m] == x && mutual(a, f, m);
        let my = choose|m: int| 0 <= m < vs.len() && #[trigger] vs[m] == y && mutual(a, f, m);
        lemma_reach_transitive(a, mx, f, my);
        lemma_reach_transitive(a, my, f, mx);
        lemma_reach_agree(g, vs, a, mx, my);
        lemma_reach_agree(g, vs, a, my, mx);
    }
    assert forall|c: int, x: Seq<char>, y: Seq<char>|
        #![trigger seq_has(comps[c], x), mutually_reachable(g, x, y)]
        0 <= c < comps.len() && seq_has(comps[c], x) && graph_node(g, y) && mutually_reachable(g, x, y)
            implies seq_has(comps[c], y) by {
        let f = firsts[c];
        assert(class_view(vs, a, f, comps[c]));
        let mx = choose|m: int| 0 <= m < vs.len() && #[trigger] vs[m] == x && mutual(a, f, m);
        let my = choose|m: int| 0 <= m < vs.len() && vs[m] == y;
        lemma_reach_agree(g, vs, a, mx, my);
        lemma_reach_agree(g, vs, a, my, mx);
        lemma_reach_transitive(a, f, mx, my);
        lemma_reach_transitive(a, my, mx, f);
        assert(vs[my] == y && mutual(a, f, my));
    }
    assert forall|x: Seq<char>| graph_node(g, x) implies exists|c: int| 0 <= c < comps.len() && #[trigger] seq_has(comps[c], x) by {
        let m = choose|m: int| 0 <= m < vs.len() && vs[m] == x;
        assert(covered(a, firsts, m));
        let c = choose|c: int| 0 <= c < firsts.len() && mutual(a, #[trigger] firsts[c], m);
        assert(class_view(vs, a, firsts[c], comps[c]));
        assert(vs[m] == x && mutual(a, firsts[c], m));
        assert(seq_has(comps[c], x));
    }
    assert forall|c: int, d: int| 0 <= c < d < comps.len() implies lex_lt(#[trigger] comps[c][0], #[trigger] comps[d][0]) by {
        assert(class_view(vs, a, firsts[c], comps[c]));
        assert(class_view(vs, a, firsts[d], comps[d]));
        assert(firsts[c] < firsts[d]);
    }
}

/// A rule broken by observed dependencies.
pub struct Violation {
    pub rule_id: String,
    pub kind: String,
    pub from: Option<String>,
    pub to: Option<String>,
    pub edge_kind: Option<String>,
    pub nodes: Vec<String>,
    /// Actual ownership nodes touched by the violating observations; unlike
    /// cycle display nodes, these permit precise subtree filtering at deeper
    /// focuses.
    pub affected_nodes: Vec<String>,
    pub count: usize,
    pub message: String,
    pub evidence: Vec<EdgeEvidence>,
    /// Every participating architecture edge, each with its own sample.
    pub architecture_edges: Vec<CompiledEdge>,
    /// `no_cycles` only: members ordered from upper to lower layer.
    pub layer_order: Vec<String>,
    /// `no_cycles` only: the upward dependencies in `layer_order`.
    pub suggested_cuts: Vec<CycleCut>,
}

/// What a violation holds, as values.
pub struct ViolationView {
    pub rule_id: Seq<char>,
    pub kind: Seq<char>,
    pub from: Option<Seq<char>>,
    pub to: Option<Seq<char>>,
    pub edge_kind: Option<Seq<char>>,
    pub nodes: Seq<Seq<char>>,
    pub affected_nodes: Seq<Seq<char>>,
    pub count: usize,
    pub message: Seq<char>,
    pub evidence: Seq<crate::evidence::EvidenceView>,
    pub architecture_edges: Seq<crate::evidence::CompiledView>,
    pub layer_order: Seq<Seq<char>>,
    pub suggested_cuts: Seq<(Seq<char>, Seq<char>, usize)>,
}

pub open spec fn violation_view(v: Violation) -> ViolationView {
    ViolationView {
        rule_id: v.rule_id@,
        kind: v.kind@,
        from: opt_view(v.from),
        to: opt_view(v.to),
        edge_kind: opt_view(v.edge_kind),
        nodes: views(v.nodes@),
        affected_nodes: views(v.affected_nodes@),
        count: v.count,
        message: v.message@,
        evidence: ev_views(v.evidence@),
        architecture_edges: crate::evidence::compiled_views(v.architecture_edges@),
        layer_order: views(v.layer_order@),
        suggested_cuts: crate::model::cut_views(v.suggested_cuts@),
    }
}

pub open spec fn violation_views(v: Seq<Violation>) -> Seq<ViolationView> {
    v.map_values(|x: Violation| violation_view(x))
}

impl Violation {
    /// A copy of the violation.
    pub fn duplicate(&self) -> (r: Violation)
        ensures
            violation_view(r) == violation_view(*self),
    {
        Violation {
            rule_id: self.rule_id.clone(),
            kind: self.kind.clone(),
            from: copy_opt(&self.from),
            to: copy_opt(&self.to),
            edge_kind: copy_opt(&self.edge_kind),
            nodes: copy_strings(&self.nodes),
            affected_nodes: copy_strings(&self.affected_nodes),
            count: self.count,
            message: self.message.clone(),
            evidence: crate::evidence::copy_evidence(&self.evidence),
            architecture_edges: crate::evidence::copy_compiled(&self.architecture_edges),
            layer_order: copy_strings(&self.layer_order),
            suggested_cuts: crate::model::copy_cuts(&self.suggested_cuts),
        }
    }
}

/// A copy of a list of violations.
pub fn copy_violations(v: &Vec<Violation>) -> (r: Vec<Violation>)
    ensures
        violation_views(r@) == violation_views(v@),
{
    let mut out: Vec<Violation> = Vec::new();
    let mut i: usize = 0;
    while i < v.len()
        invariant
            i <= v@.len(),
            violation_views(out@) == violation_views(v@).take(i as int),
        decreases v@.len() - i,
    {
        let ghost before = out@;
        let d = v[i].duplicate();
        out.push(d);
        proof {
            assert(violation_views(out@) =~= violation_views(before).push(violation_view(v@[i as int])));
            assert(violation_views(v@).take(i + 1) =~= violation_views(v@).take(i as int).push(violation_view(v@[i as int])));
        }
        i = i + 1;
    }
    proof {
        assert(violation_views(v@).take(v@.len() as int) =~= violation_views(v@));
    }
    out
}

/// `node` is `scope`, or lies below it when descendants count.
pub open spec fn in_scope_spec(node: Seq<char>, scope: Seq<char>, descendants: bool) -> bool {
    node == scope || (descendants && within(node, scope))
}

pub fn in_scope(node: &str, scope: &str, descendants: bool) -> (r: bool)
    ensures
        r == in_scope_spec(node@, scope@, descendants),
{
    str_eq(node, scope) || (descendants && is_within(node, scope))
}

/// Whether any of the violation's affected nodes lies within `node`.
pub fn violation_touches(violation: &Violation, node: &str) -> (r: bool)
    ensures
        r == exists|i: int| 0 <= i < violation.affected_nodes@.len() && within(#[trigger] violation.affected_nodes@[i]@, node@),
{
    let mut i: usize = 0;
    while i < violation.affected_nodes.len()
        invariant
            i <= violation.affected_nodes@.len(),
            forall|k: int| 0 <= k < i ==> !within(#[trigger] violation.affected_nodes@[k]@, node@),
        decreases violation.affected_nodes@.len() - i,
    {
        if is_within(violation.affected_nodes[i].as_str(), node) {
            return true;
        }
        i = i + 1;
    }
    false
}

/// The observation breaks the rule: `deny_dependency` forbids edges from its
/// scope into the other; `allow_only` forbids edges leaving its scope except
/// into the allowed ones. `no_cycles` forbids none edge by edge.
pub open spec fn forbidden_by(rule: RuleConfig, e: ResolvedEdge) -> bool {
    match rule {
        RuleConfig::DenyDependency { from, to, edge_types, include_descendants, .. } =>
            seq_has(views(edge_types@), e.kind@) && in_scope_spec(e.from@, from@, include_descendants)
                && in_scope_spec(e.to@, to@, include_descendants),
        RuleConfig::AllowOnly { from, to, edge_types, include_descendants, .. } =>
            seq_has(views(edge_types@), e.kind@) && in_scope_spec(e.from@, from@, include_descendants)
                && !within(e.to@, from@)
                && !exists|t: int| 0 <= t < to@.len() && in_scope_spec(e.to@, #[trigger] to@[t]@, include_descendants),
        RuleConfig::NoCycles { .. } => false,
    }
}

/// The observations the rule forbids, in order.
pub open spec fn forbidden_edges(rule: RuleConfig, edges: Seq<ResolvedEdge>) -> Seq<ResolvedEdge>
    decreases edges.len(),
{
    if edges.len() == 0 {
        Seq::<ResolvedEdge>::empty()
    } else if forbidden_by(rule, edges.last()) {
        forbidden_edges(rule, edges.drop_last()).push(edges.last())
    } else {
        forbidden_edges(rule, edges.drop_last())
    }
}

pub(crate) fn has_text(list: &Vec<String>, x: &str) -> (r: bool)
    ensures
        r == seq_has(views(list@), x@),
{
    let mut i: usize = 0;
    while i < list.len()
        invariant
            i <= list@.len(),
            forall|k: int| 0 <= k < i ==> list@[k]@ != x@,
        decreases list@.len() - i,
    {
        if str_eq(list[i].as_str(), x) {
            proof {
                assert(views(list@)[i as int] == x@);
            }
            return true;
        }
        i = i + 1;
    }
    proof {
        if seq_has(views(list@), x@) {
            let k = choose|k: int| 0 <= k < views(list@).len() && views(list@)[k] == x@;
            assert(list@[k]@ == x@);
        }
    }
    false
}

pub(crate) fn is_forbidden(rule: &RuleConfig, e: &ResolvedEdge) -> (r: bool)
    ensures
        r == forbidden_by(*rule, *e),
{
    match rule {
        RuleConfig::DenyDependency { from, to, edge_types, include_descendants, .. } => {
            has_text(edge_types, e.kind.as_str()) && in_scope(e.from.as_str(), from.as_str(), *include_descendants)
                && in_scope(e.to.as_str(), to.as_str(), *include_descendants)
        },
        RuleConfig::AllowOnly { from, to, edge_types, include_descendants, .. } => {
            if !(has_text(edge_types, e.kind.as_str()) && in_scope(e.from.as_str(), from.as_str(), *include_descendants)
                && !is_within(e.to.as_str(), from.as_str())) {
                return false;
            }
            let mut t: usize = 0;
            while t < to.len()
                invariant
                    t <= to@.len(),
                    forbidden_by(*rule, *e) <==> !exists|k: int| 0 <= k < to@.len() && in_scope_spec(e.to@, #[trigger] to@[k]@, *include_descendants),
                    forall|k: int| 0 <= k < t ==> !in_scope_spec(e.to@, #[trigger] to@[k]@, *include_descendants),
                decreases to@.len() - t,
            {
                if in_scope(e.to.as_str(), to[t].as_str(), *include_descendants) {
                    return false;
                }
                t = t + 1;
            }
            true
        },
        RuleConfig::NoCycles { .. } => false,
    }
}

fn forbidden_list<'a>(rule: &RuleConfig, edges: &'a [ResolvedEdge]) -> (r: Vec<&'a ResolvedEdge>)
    ensures
        deref_all(r@) == forbidden_edges(*rule, edges@),
{
    let mut out: Vec<&ResolvedEdge> = Vec::new();
    let mut i: usize = 0;
    proof {
        assert(deref_all(out@) =~= forbidden_edges(*rule, edges@.take(0)));
    }
    while i < edges.len()
        invariant
            i <= edges@.len(),
            deref_all(out@) == forbidden_edges(*rule, edges@.take(i as int)),
        decreases edges@.len() - i,
    {
        proof {
            assert(edges@.take(i + 1).drop_last() =~= edges@.take(i as int));
            assert(edges@.take(i + 1).last() == edges@[i as int]);
        }
        if is_forbidden(rule, &edges[i]) {
            let ghost before = deref_all(out@);
            out.push(&edges[i]);
            proof {
                assert(deref_all(out@) =~= before.push(edges@[i as int]));
            }
        }
        i = i + 1;
    }
    proof {
        assert(edges@.take(edges@.len() as int) =~= edges@);
    }
    out
}

proof fn lemma_forbidden_len(rule: RuleConfig, edges: Seq<ResolvedEdge>)
    ensures
        forbidden_edges(rule, edges).len() <= edges.len(),
    decreases edges.len(),
{
    if edges.len() > 0 {
        lemma_forbidden_len(rule, edges.drop_last());
    }
}

/// The nodes of a dependency: both ends, once each, in order.
pub open spec fn pair_nodes(a: Seq<char>, b: Seq<char>) -> Seq<Seq<char>> {
    if a == b {
        seq![a]
    } else if lex_le_spec(a, b) {
        seq![a, b]
    } else {
        seq![b, a]
    }
}

pub open spec fn lex_le_spec(a: Seq<char>, b: Seq<char>) -> bool {
    crate::order::lex_le(a, b)
}

/// `from -> to [kind] × count violates kind `id``.
pub open spec fn dependency_message(from: Seq<char>, to: Seq<char>, kind: Seq<char>, count: nat, rule_kind: Seq<char>, id: Seq<char>) -> Seq<char> {
    from + " -> "@ + to + " ["@ + kind + "] × "@ + decimal_spec(count) + " violates "@ + rule_kind + " `"@ + id + "`"@
}

/// The violation of `rule` by the observations of one architecture edge.
pub open spec fn dependency_violation_fits(rule: RuleConfig, forbidden: Seq<ResolvedEdge>, limit: nat, v: Violation) -> bool {
    &&& v.from matches Some(f)
    &&& v.to matches Some(t)
    &&& v.edge_kind matches Some(k)
    &&& {
        let key = (f@, t@, k@);
        let acc = acc_of(with_key(forbidden, key), limit);
        &&& has_key(forbidden, key)
        &&& v.rule_id@ == rule.id_view()
        &&& v.kind@ == rule.kind_view()
        &&& views(v.nodes@) == pair_nodes(f@, t@)
        &&& views(v.affected_nodes@) == pair_nodes(f@, t@)
        &&& v.count == acc.count
        &&& ev_views(v.evidence@) == acc.evidence
        &&& v.architecture_edges@.len() == 1
        &&& compiled_key(v.architecture_edges@[0]) == key
        &&& compiled_acc(v.architecture_edges@[0]) == acc
        &&& v.message@ == dependency_message(f@, t@, k@, acc.count, rule.kind_view(), rule.id_view())
        &&& v.layer_order@.len() == 0
        &&& v.suggested_cuts@.len() == 0
    }
}

pub open spec fn violation_key(v: Violation) -> (Seq<char>, Seq<char>, Seq<char>) {
    match (v.from, v.to, v.edge_kind) {
        (Some(f), Some(t), Some(k)) => (f@, t@, k@),
        _ => (Seq::<char>::empty(), Seq::<char>::empty(), Seq::<char>::empty()),
    }
}

/// One violation per architecture edge that forbidden observations make, in
/// the order of the edges.
pub open spec fn dependency_violations_fit(rule: RuleConfig, forbidden: Seq<ResolvedEdge>, limit: nat, r: Seq<Violation>) -> bool {
    &&& forall|i: int| 0 <= i < r.len() ==> dependency_violation_fits(rule, forbidden, limit, #[trigger] r[i])
    &&& forall|i: int, j: int| 0 <= i < j < r.len() ==> key_order(violation_key(#[trigger] r[i]), violation_key(#[trigger] r[j])) < 0
    &&& forall|k: (Seq<char>, Seq<char>, Seq<char>)| has_key(forbidden, k) ==> exists|i: int| 0 <= i < r.len() && violation_key(#[trigger] r[i]) == k
}

fn nodes_of_pair(a: &String, b: &String) -> (r: Vec<String>)
    ensures
        views(r@) == pair_nodes(a@, b@),
{
    let r = if str_eq(a.as_str(), b.as_str()) {
        vec![a.clone()]
    } else if str_le(a.as_str(), b.as_str()) {
        vec![a.clone(), b.clone()]
    } else {
        vec![b.clone(), a.clone()]
    };
    proof {
        assert(views(r@) =~= pair_nodes(a@, b@));
    }
    r
}

fn copy_evidence(list: &Vec<EdgeEvidence>) -> (r: Vec<EdgeEvidence>)
    ensures
        ev_views(r@) == ev_views(list@),
{
    let mut out: Vec<EdgeEvidence> = Vec::new();
    let mut i: usize = 0;
    while i < list.len()
        invariant
            i <= list@.len(),
            ev_views(out@) == ev_views(list@).take(i as int),
        decreases list@.len() - i,
    {
        let ghost before = ev_views(out@);
        let d = list[i].duplicate();
        out.push(d);
        proof {
            assert(ev_views(out@) =~= before.push(crate::evidence::ev_view(list@[i as int])));
            assert(ev_views(out@) =~= ev_views(list@).take(i + 1));
        }
        i = i + 1;
    }
    proof {
        assert(ev_views(list@).take(list@.len() as int) =~= ev_views(list@));
    }
    out
}

/// One violation per architecture edge made of forbidden observations.
pub fn dependency_violations(rule: &RuleConfig, forbidden: &[&ResolvedEdge], limit: usize) -> (r: Vec<Violation>)
    requires
        forbidden@.len() < usize::MAX,
    ensures
        dependency_violations_fit(*rule, deref_all(forbidden@), limit as nat, r@),
{
    let edges = aggregate_observed(forbidden, limit);
    let ghost fs = deref_all(forbidden@);
    let ghost all = edges@;
    let mut out: Vec<Violation> = Vec::new();
    let mut rest = edges;
    let mut taken: Vec<Violation> = Vec::new();
    while rest.len() > 0
        invariant
            rest@.len() + taken@.len() == all.len(),
            forall|i: int| 0 <= i < rest@.len() ==> rest@[i] == all[i],
            forall|t: int| 0 <= t < taken@.len() ==> violation_key(#[trigger] taken@[t]) == compiled_key(all[all.len() - 1 - t])
                && dependency_violation_fits(*rule, fs, limit as nat, taken@[t]),
            forall|i: int| 0 <= i < all.len() ==> compiled_acc(#[trigger] all[i]) == acc_of(with_key(fs, compiled_key(all[i])), limit as nat),
            forall|k: (Seq<char>, Seq<char>, Seq<char>)| has_key(fs, k) <==> exists|i: int| 0 <= i < all.len() && compiled_key(#[trigger] all[i]) == k,
        decreases rest@.len(),
    {
        let edge = rest.pop().unwrap();
        let ghost idx = rest@.len() as int;
        proof {
            assert(edge == all[idx]);
            assert(has_key(fs, compiled_key(edge)));
        }
        let nodes = nodes_of_pair(&edge.from, &edge.to);
        let affected = nodes_of_pair(&edge.from, &edge.to);
        let n = decimal(edge.count as u128);
        let head = cat4(edge.from.as_str(), " -> ", edge.to.as_str(), " [");
        let head = cat4(head.as_str(), edge.kind.as_str(), "] × ", n.as_str());
        let head = cat4(head.as_str(), " violates ", rule.kind(), " `");
        let message = cat3(head.as_str(), rule.id(), "`");
        let evidence = copy_evidence(&edge.evidence);
        let v = Violation {
            rule_id: String::from_str(rule.id()),
            kind: String::from_str(rule.kind()),
            from: Some(edge.from.clone()),
            to: Some(edge.to.clone()),
            edge_kind: Some(edge.kind.clone()),
            nodes,
            affected_nodes: affected,
            count: edge.count,
            message,
            evidence,
            architecture_edges: vec![edge],
            layer_order: Vec::new(),
            suggested_cuts: Vec::new(),
        };
        proof {
            assert(violation_key(v) == compiled_key(all[idx]));
        }
        taken.push(v);
    }
    while taken.len() > 0
        invariant
            out@.len() + taken@.len() == all.len(),
            forall|t: int| 0 <= t < taken@.len() ==> violation_key(#[trigger] taken@[t]) == compiled_key(all[all.len() - 1 - t])
                && dependency_violation_fits(*rule, fs, limit as nat, taken@[t]),
            forall|i: int| 0 <= i < out@.len() ==> violation_key(#[trigger] out@[i]) == compiled_key(all[i])
                && dependency_violation_fits(*rule, fs, limit as nat, out@[i]),
        decreases taken@.len(),
    {
        let v = taken.pop().unwrap();
        out.push(v);
    }
    proof {
        assert forall|i: int, j: int| 0 <= i < j < out@.len() implies key_order(violation_key(#[trigger] out@[i]), violation_key(#[trigger] out@[j])) < 0 by {
            assert(key_order(compiled_key(all[i]), compiled_key(all[j])) < 0);
        }
        assert forall|k: (Seq<char>, Seq<char>, Seq<char>)| has_key(fs, k) implies exists|i: int| 0 <= i < out@.len() && violation_key(#[trigger] out@[i]) == k by {
            let i = choose|i: int| 0 <= i < all.len() && compiled_key(#[trigger] all[i]) == k;
            assert(violation_key(out@[i]) == k);
        }
    }
    out
}

/// An observation lifted to the immediate children of a `no_cycles` scope,
/// with the nodes it was observed between.
pub struct ProjView {
    pub from: Seq<char>,
    pub to: Seq<char>,
    pub kind: Seq<char>,
    pub evidence: crate::evidence::EvidenceView,
    pub orig_from: Seq<char>,
    pub orig_to: Seq<char>,
}

/// The observation is of a checked kind and runs between two different
/// immediate children of `scope`.
pub open spec fn projects(e: ResolvedEdge, scope: Seq<char>, types: Seq<Seq<char>>) -> bool {
    &&& seq_has(types, e.kind@)
    &&& child_toward(e.from@, scope) is Some
    &&& child_toward(e.to@, scope) is Some
    &&& child_toward(e.from@, scope) != child_toward(e.to@, scope)
}

pub open spec fn proj_view(e: ResolvedEdge, scope: Seq<char>) -> ProjView {
    ProjView {
        from: child_toward(e.from@, scope)->0,
        to: child_toward(e.to@, scope)->0,
        kind: e.kind@,
        evidence: crate::evidence::ev_view(e.evidence),
        orig_from: e.from@,
        orig_to: e.to@,
    }
}

/// The observations lifted to the scope's immediate children, in order.
pub open spec fn projected_views(edges: Seq<ResolvedEdge>, scope: Seq<char>, types: Seq<Seq<char>>) -> Seq<ProjView>
    decreases edges.len(),
{
    if edges.len() == 0 {
        Seq::<ProjView>::empty()
    } else if projects(edges.last(), scope, types) {
        projected_views(edges.drop_last(), scope, types).push(proj_view(edges.last(), scope))
    } else {
        projected_views(edges.drop_last(), scope, types)
    }
}

pub open spec fn pv_edge(pv: Seq<ProjView>, a: Seq<char>, b: Seq<char>) -> bool {
    exists|i: int| 0 <= i < pv.len() && (#[trigger] pv[i]).from == a && pv[i].to == b
}

pub open spec fn pv_node(pv: Seq<ProjView>, x: Seq<char>) -> bool {
    exists|i: int| 0 <= i < pv.len() && ((#[trigger] pv[i]).from == x || pv[i].to == x)
}

/// The graph holds exactly the lifted dependencies.
pub open spec fn graph_of(g: StrMap<Vec<String>>, pv: Seq<ProjView>) -> bool {
    &&& forall|a: Seq<char>, b: Seq<char>| #[trigger] has_edge(g, a, b) <==> pv_edge(pv, a, b)
    &&& forall|x: Seq<char>| #[trigger] graph_node(g, x) <==> pv_node(pv, x)
}

pub proof fn lemma_has_edge_lookup(g: StrMap<Vec<String>>, a: Seq<char>, b: Seq<char>)
    requires
        strictly_sorted(g.keys()),
    ensures
        has_edge(g, a, b) <==> (g.lookup(a) matches Some(v) && seq_has(views(v@), b)),
{
    if has_edge(g, a, b) {
        let i = choose|i: int| 0 <= i < g.keys().len() && g.keys()[i] == a && seq_has(views(g.values()[i]@), b);
        g.lemma_lookup_index(i);
    }
    if g.lookup(a) is Some {
        let i = choose|i: int| 0 <= i < g.keys().len() && g.keys()[i] == a;
        g.lemma_lookup_index(i);
    }
}

pub proof fn lemma_graph_node_lookup(g: StrMap<Vec<String>>, x: Seq<char>)
    requires
        strictly_sorted(g.keys()),
    ensures
        graph_node(g, x) <==> (seq_has(g.keys(), x) || exists|a: Seq<char>| #[trigger] has_edge(g, a, x)),
{
    if graph_node(g, x) && !seq_has(g.keys(), x) {
        let i = choose|i: int| 0 <= i < g.keys().len() && seq_has(views(g.values()[i]@), x);
        assert(has_edge(g, g.keys()[i], x));
    }
    if exists|a: Seq<char>| #[trigger] has_edge(g, a, x) {
        let a = choose|a: Seq<char>| #[trigger] has_edge(g, a, x);
        let i = choose|i: int| 0 <= i < g.keys().len() && g.keys()[i] == a && seq_has(views(g.values()[i]@), x);
    }
}

/// Adds the dependency `a -> b` to the graph, and `b` as a vertex.
fn add_graph_edge(g: &mut StrMap<Vec<String>>, a: &String, b: &String, Ghost(pv): Ghost<Seq<ProjView>>, Ghost(p): Ghost<ProjView>)
    requires
        graph_of(*old(g), pv),
        p.from == a@,
        p.to == b@,
    ensures
        graph_of(*final(g), pv.push(p)),
{
    let ghost g0 = *g;
    g.keys_sorted();
    let mut targets: Vec<String> = match g.get(a.as_str()) {
        Some(v) => copy_strings(v),
        None => Vec::new(),
    };
    let ghost before_targets = views(targets@);
    targets.push(b.clone());
    g.insert(a.clone(), targets);
    let ghost g1 = *g;
    g.keys_sorted();
    let empty: Vec<String> = Vec::new();
    let ghost no_targets = empty;
    if !g.contains_key(b.as_str()) {
        g.insert(b.clone(), empty);
    }
    g.keys_sorted();
    proof {
        let g2 = *g;
        let pv2 = pv.push(p);
        assert(strictly_sorted(g0.keys()));
        assert forall|x: Seq<char>, y: Seq<char>| #[trigger] has_edge(g2, x, y) <==> pv_edge(pv2, x, y) by {
            lemma_has_edge_lookup(g0, x, y);
            lemma_has_edge_lookup(g2, x, y);
            lemma_has_edge_lookup(g1, x, y);
            if pv_edge(pv, x, y) {
                let i = choose|i: int| 0 <= i < pv.len() && (#[trigger] pv[i]).from == x && pv[i].to == y;
                assert(pv2[i] == pv[i]);
            }
            if pv_edge(pv2, x, y) {
                let i = choose|i: int| 0 <= i < pv2.len() && (#[trigger] pv2[i]).from == x && pv2[i].to == y;
                if i < pv.len() {
                    assert(pv2[i] == pv[i]);
                }
            }
            if x == a@ {
                if g0.lookup(x) is Some {
                    assert(views(g1.lookup(x)->0@) == before_targets.push(b@));
                }
                if seq_has(views(g1.lookup(x)->0@), y) && y != b@ {
                    let k = choose|k: int| 0 <= k < views(g1.lookup(x)->0@).len() && views(g1.lookup(x)->0@)[k] == y;
                    assert(before_targets[k] == y);
                }
                if let Some(v) = g0.lookup(x) {
                    if seq_has(views(v@), y) {
                        let k = choose|k: int| 0 <= k < views(v@).len() && views(v@)[k] == y;
                        assert(views(g1.lookup(x)->0@)[k] == y);
                    }
                }
                assert(views(g1.lookup(x)->0@).last() == b@);
            }
            if x == b@ && x != a@ && !seq_has(g1.keys(), b@) {
                assert(g2.lookup(x) == Some(no_targets));
                assert(views(no_targets@) =~= Seq::<Seq<char>>::empty());
            }
        }
        assert forall|x: Seq<char>| #[trigger] graph_node(g2, x) <==> pv_node(pv2, x) by {
            lemma_graph_node_lookup(g0, x);
            lemma_graph_node_lookup(g2, x);
            if pv_node(pv2, x) {
                let i = choose|i: int| 0 <= i < pv2.len() && ((#[trigger] pv2[i]).from == x || pv2[i].to == x);
                if i < pv.len() {
                    assert(pv2[i] == pv[i]);
                    assert(pv_node(pv, x));
                    assert(graph_node(g0, x));
                    if seq_has(g0.keys(), x) {
                    } else {
                        let c = choose|c: Seq<char>| #[trigger] has_edge(g0, c, x);
                        assert(pv_edge(pv, c, x));
                        assert(pv_edge(pv2, c, x)) by {
                            let j = choose|j: int| 0 <= j < pv.len() && (#[trigger] pv[j]).from == c && pv[j].to == x;
                            assert(pv2[j] == pv[j]);
                        }
                        assert(has_edge(g2, c, x));
                    }
                } else {
                    assert(pv2[i] == p);
                    assert(has_edge(g2, a@, b@)) by {
                        assert(pv2[pv.len() as int].from == a@ && pv2[pv.len() as int].to == b@);
                    }
                }
            }
            if graph_node(g2, x) {
                if seq_has(g2.keys(), x) && x != a@ && x != b@ {
                    assert(seq_has(g0.keys(), x));
                    assert(pv_node(pv, x));
                    let i = choose|i: int| 0 <= i < pv.len() && ((#[trigger] pv[i]).from == x || pv[i].to == x);
                    assert(pv2[i] == pv[i]);
                } else if x == a@ || x == b@ {
                    assert(pv2[pv.len() as int] == p);
                } else {
                    let c = choose|c: Seq<char>| #[trigger] has_edge(g2, c, x);
                    assert(pv_edge(pv2, c, x));
                    let i = choose|i: int| 0 <= i < pv2.len() && (#[trigger] pv2[i]).from == c && pv2[i].to == x;
                }
            }
        }
    }
}

pub open spec fn pv_of(projected: Seq<ResolvedEdge>, origin_from: Seq<String>, origin_to: Seq<String>) -> Seq<ProjView> {
    Seq::new(projected.len(), |i: int| ProjView {
        from: projected[i].from@,
        to: projected[i].to@,
        kind: projected[i].kind@,
        evidence: crate::evidence::ev_view(projected[i].evidence),
        orig_from: origin_from[i]@,
        orig_to: origin_to[i]@,
    })
}

/// The observations of `edges` lifted to the immediate children of `scope`,
/// with the nodes each was observed between, and their graph.
fn project(edges: &[ResolvedEdge], scope: &str, types: &Vec<String>) -> (r: (Vec<ResolvedEdge>, Vec<String>, Vec<String>, StrMap<Vec<String>>))
    ensures
        r.0@.len() == r.1@.len(),
        r.0@.len() == r.2@.len(),
        r.0@.len() <= edges@.len(),
        pv_of(r.0@, r.1@, r.2@) == projected_views(edges@, scope@, views(types@)),
        graph_of(r.3, projected_views(edges@, scope@, views(types@))),
{
    let mut projected: Vec<ResolvedEdge> = Vec::new();
    let mut origin_from: Vec<String> = Vec::new();
    let mut origin_to: Vec<String> = Vec::new();
    let mut graph: StrMap<Vec<String>> = StrMap::new();
    let mut i: usize = 0;
    proof {
        assert(pv_of(projected@, origin_from@, origin_to@) =~= projected_views(edges@.take(0), scope@, views(types@)));
        assert forall|a: Seq<char>, b: Seq<char>| #[trigger] has_edge(graph, a, b) <==> pv_edge(Seq::<ProjView>::empty(), a, b) by {}
        assert forall|x: Seq<char>| #[trigger] graph_node(graph, x) <==> pv_node(Seq::<ProjView>::empty(), x) by {}
    }
    while i < edges.len()
        invariant
            i <= edges@.len(),
            projected@.len() == origin_from@.len(),
            projected@.len() == origin_to@.len(),
            projected@.len() <= i,
            pv_of(projected@, origin_from@, origin_to@) == projected_views(edges@.take(i as int), scope@, views(types@)),
            graph_of(graph, projected_views(edges@.take(i as int), scope@, views(types@))),
        decreases edges@.len() - i,
    {
        let e = &edges[i];
        let ghost pre = edges@.take(i as int);
        proof {
            assert(edges@.take(i + 1).drop_last() =~= pre);
            assert(edges@.take(i + 1).last() == *e);
        }
        if has_text(types, e.kind.as_str()) {
            match (immediate_child(e.from.as_str(), scope), immediate_child(e.to.as_str(), scope)) {
                (Some(from), Some(to)) => {
                    if !str_eq(from.as_str(), to.as_str()) {
                        let ghost pv = projected_views(pre, scope@, views(types@));
                        let ghost p = proj_view(*e, scope@);
                        add_graph_edge(&mut graph, &from, &to, Ghost(pv), Ghost(p));
                        let ghost old_pv = pv_of(projected@, origin_from@, origin_to@);
                        projected.push(ResolvedEdge { from, to, kind: e.kind.clone(), evidence: e.evidence.duplicate() });
                        origin_from.push(e.from.clone());
                        origin_to.push(e.to.clone());
                        proof {
                            assert(pv_of(projected@, origin_from@, origin_to@) =~= old_pv.push(p));
                        }
                    }
                },
                _ => {},
            }
        }
        i = i + 1;
    }
    proof {
        assert(edges@.take(edges@.len() as int) =~= edges@);
    }
    (projected, origin_from, origin_to, graph)
}

/// The parts joined with `sep`.
pub fn join_text(parts: &Vec<String>, sep: &str) -> (r: String)
    ensures
        r@ == crate::text::join(views(parts@), sep@),
{
    let mut r = String::new();
    let mut i: usize = 0;
    while i < parts.len()
        invariant
            i <= parts@.len(),
            r@ == crate::text::join(views(parts@).take(i as int), sep@),
        decreases parts@.len() - i,
    {
        proof {
            assert(views(parts@).take(i + 1).drop_last() =~= views(parts@).take(i as int));
            assert(views(parts@).take(i + 1).last() == parts@[i as int]@);
        }
        if i == 0 {
            r = copy_text(parts[0].as_str());
            proof {
                assert(views(parts@).take(1)[0] == parts@[0]@);
            }
        } else {
            r = cat3(r.as_str(), sep, parts[i].as_str());
        }
        i = i + 1;
    }
    proof {
        assert(views(parts@).take(parts@.len() as int) =~= views(parts@));
    }
    r
}

fn copy_text(s: &str) -> (r: String)
    ensures
        r@ == s@,
{
    String::from_str(s)
}

/// A path of at most `n` lifted dependencies leads from `a` to `b`.
pub open spec fn pv_path(pv: Seq<ProjView>, a: Seq<char>, b: Seq<char>, n: nat) -> bool
    decreases n,
{
    a == b || (n > 0 && exists|m: Seq<char>| #[trigger] pv_edge(pv, a, m) && pv_path(pv, m, b, (n - 1) as nat))
}

pub open spec fn pv_reaches(pv: Seq<ProjView>, a: Seq<char>, b: Seq<char>) -> bool {
    exists|n: nat| pv_path(pv, a, b, n)
}

proof fn lemma_path_graph(g: StrMap<Vec<String>>, pv: Seq<ProjView>, a: Seq<char>, b: Seq<char>, n: nat)
    requires
        graph_of(g, pv),
    ensures
        spath(g, a, b, n) <==> pv_path(pv, a, b, n),
    decreases n,
{
    if n > 0 && a != b {
        if spath(g, a, b, n) {
            let m = choose|m: Seq<char>| #[trigger] has_edge(g, a, m) && spath(g, m, b, (n - 1) as nat);
            lemma_path_graph(g, pv, m, b, (n - 1) as nat);
            assert(pv_edge(pv, a, m));
        }
        if pv_path(pv, a, b, n) {
            let m = choose|m: Seq<char>| #[trigger] pv_edge(pv, a, m) && pv_path(pv, m, b, (n - 1) as nat);
            lemma_path_graph(g, pv, m, b, (n - 1) as nat);
            assert(has_edge(g, a, m));
        }
    }
}

proof fn lemma_reach_graph(g: StrMap<Vec<String>>, pv: Seq<ProjView>, a: Seq<char>, b: Seq<char>)
    requires
        graph_of(g, pv),
    ensures
        reaches(g, a, b) <==> pv_reaches(pv, a, b),
{
    if reaches(g, a, b) {
        let n = choose|n: nat| spath(g, a, b, n);
        lemma_path_graph(g, pv, a, b, n);
    }
    if pv_reaches(pv, a, b) {
        let n = choose|n: nat| pv_path(pv, a, b, n);
        lemma_path_graph(g, pv, a, b, n);
    }
}

/// `nodes` are a strongly connected component of at least two of the lifted
/// graph's vertices, in ascending order.
pub open spec fn cycle_class(pv: Seq<ProjView>, nodes: Seq<Seq<char>>) -> bool {
    &&& nodes.len() >= 2
    &&& strictly_sorted(nodes)
    &&& forall|x: Seq<char>| #[trigger] seq_has(nodes, x) ==> pv_node(pv, x)
    &&& forall|x: Seq<char>, y: Seq<char>| #![trigger seq_has(nodes, x), seq_has(nodes, y)]
        seq_has(nodes, x) && seq_has(nodes, y) ==> pv_reaches(pv, x, y)
    &&& forall|x: Seq<char>, y: Seq<char>| #![trigger seq_has(nodes, x), pv_reaches(pv, x, y)]
        seq_has(nodes, x) && pv_node(pv, y) && pv_reaches(pv, x, y) && pv_reaches(pv, y, x) ==> seq_has(nodes, y)
}

/// The lifted dependencies between members of `nodes`, in order.
pub open spec fn inside(pv: Seq<ProjView>, nodes: Seq<Seq<char>>) -> Seq<ProjView>
    decreases pv.len(),
{
    if pv.len() == 0 {
        Seq::<ProjView>::empty()
    } else if seq_has(nodes, pv.last().from) && seq_has(nodes, pv.last().to) {
        inside(pv.drop_last(), nodes).push(pv.last())
    } else {
        inside(pv.drop_last(), nodes)
    }
}

pub open spec fn pv_evidence(pv: Seq<ProjView>) -> Seq<crate::evidence::EvidenceView> {
    pv.map_values(|p: ProjView| p.evidence)
}

pub open spec fn pv_key(p: ProjView) -> (Seq<char>, Seq<char>, Seq<char>) {
    (p.from, p.to, p.kind)
}

pub open spec fn pv_has_key(pv: Seq<ProjView>, k: (Seq<char>, Seq<char>, Seq<char>)) -> bool {
    exists|i: int| 0 <= i < pv.len() && pv_key(#[trigger] pv[i]) == k
}

/// The evidence of the lifted dependencies with key `k`, in order.
pub open spec fn pv_with_key(pv: Seq<ProjView>, k: (Seq<char>, Seq<char>, Seq<char>)) -> Seq<crate::evidence::EvidenceView>
    decreases pv.len(),
{
    if pv.len() == 0 {
        Seq::<crate::evidence::EvidenceView>::empty()
    } else if pv_key(pv.last()) == k {
        pv_with_key(pv.drop_last(), k).push(pv.last().evidence)
    } else {
        pv_with_key(pv.drop_last(), k)
    }
}

/// The observations `edges` carry the keys and evidence of `pv`, item by item.
pub open spec fn same_keys(edges: Seq<ResolvedEdge>, pv: Seq<ProjView>) -> bool {
    &&& edges.len() == pv.len()
    &&& forall|i: int| 0 <= i < pv.len() ==> crate::evidence::edge_key(#[trigger] edges[i]) == pv_key(pv[i])
        && crate::evidence::ev_view(edges[i].evidence) == pv[i].evidence
}

proof fn lemma_same_keys(edges: Seq<ResolvedEdge>, pv: Seq<ProjView>, k: (Seq<char>, Seq<char>, Seq<char>))
    requires
        same_keys(edges, pv),
    ensures
        with_key(edges, k) == pv_with_key(pv, k),
        has_key(edges, k) <==> pv_has_key(pv, k),
    decreases pv.len(),
{
    if pv.len() > 0 {
        assert(same_keys(edges.drop_last(), pv.drop_last())) by {
            assert forall|i: int| 0 <= i < pv.drop_last().len() implies crate::evidence::edge_key(#[trigger] edges.drop_last()[i]) == pv_key(pv.drop_last()[i])
                && crate::evidence::ev_view(edges.drop_last()[i].evidence) == pv.drop_last()[i].evidence by {
                assert(edges.drop_last()[i] == edges[i] && pv.drop_last()[i] == pv[i]);
            }
        }
        lemma_same_keys(edges.drop_last(), pv.drop_last(), k);
        assert(crate::evidence::edge_key(edges[edges.len() - 1]) == pv_key(pv[pv.len() - 1]));
        if has_key(edges, k) {
            let i = choose|i: int| 0 <= i < edges.len() && crate::evidence::edge_key(#[trigger] edges[i]) == k;
            assert(pv_key(pv[i]) == k);
        }
        if pv_has_key(pv, k) {
            let i = choose|i: int| 0 <= i < pv.len() && pv_key(#[trigger] pv[i]) == k;
            assert(crate::evidence::edge_key(edges[i]) == k);
        }
    }
}

pub open spec fn cycle_message(scope: Seq<char>, nodes: Seq<Seq<char>>, count: nat) -> Seq<char> {
    "cycle among immediate children of `"@ + scope + "`: "@ + crate::text::join(nodes, ", "@) + "; "@
        + decimal_spec(count) + " observed dependencies participate (SCC, not an ordered cycle path)"@
}

/// The violation of a `no_cycles` rule by one strongly connected component.
pub open spec fn cycle_violation_fits(rule: RuleConfig, scope: Seq<char>, types: Seq<Seq<char>>, pv: Seq<ProjView>, limit: nat, v: Violation) -> bool {
    let nodes = views(v.nodes@);
    let inner = inside(pv, nodes);
    let acc = acc_of(pv_evidence(inner), limit);
    &&& v.rule_id@ == rule.id_view()
    &&& v.kind@ == rule.kind_view()
    &&& v.from matches Some(f) && f@ == scope
    &&& v.to is None
    &&& (types.len() == 1 ==> (v.edge_kind matches Some(k) && k@ == types[0]))
    &&& (types.len() != 1 ==> v.edge_kind is None)
    &&& cycle_class(pv, nodes)
    &&& v.count == acc.count
    &&& ev_views(v.evidence@) == acc.evidence
    &&& strictly_sorted(views(v.affected_nodes@))
    &&& forall|x: Seq<char>| #[trigger] seq_has(views(v.affected_nodes@), x) <==> exists|i: int|
        0 <= i < inner.len() && ((#[trigger] inner[i]).orig_from == x || inner[i].orig_to == x)
    &&& forall|i: int, j: int| 0 <= i < j < v.architecture_edges@.len() ==> key_order(
        compiled_key(#[trigger] v.architecture_edges@[i]), compiled_key(#[trigger] v.architecture_edges@[j])) < 0
    &&& forall|k: (Seq<char>, Seq<char>, Seq<char>)| pv_has_key(inner, k) <==> exists|i: int|
        0 <= i < v.architecture_edges@.len() && compiled_key(#[trigger] v.architecture_edges@[i]) == k
    &&& forall|i: int| 0 <= i < v.architecture_edges@.len() ==> compiled_acc(#[trigger] v.architecture_edges@[i])
        == acc_of(pv_with_key(inner, compiled_key(v.architecture_edges@[i])), limit)
    &&& v.message@ == cycle_message(scope, nodes, acc.count)
    &&& crate::layers::layers_fit(nodes, v.architecture_edges@, views(v.layer_order@), crate::model::cut_views(v.suggested_cuts@))
}

/// One violation per strongly connected component of two or more of the
/// scope's immediate children, by first member.
pub open spec fn cycle_violations_fit(rule: RuleConfig, scope: Seq<char>, types: Seq<Seq<char>>, pv: Seq<ProjView>, limit: nat, r: Seq<Violation>) -> bool {
    &&& forall|i: int| 0 <= i < r.len() ==> cycle_violation_fits(rule, scope, types, pv, limit, #[trigger] r[i])
    &&& forall|i: int, j: int| 0 <= i < j < r.len() ==> crate::order::lex_lt(views((#[trigger] r[i]).nodes@)[0], views((#[trigger] r[j]).nodes@)[0])
    &&& forall|x: Seq<char>, y: Seq<char>| #![trigger pv_reaches(pv, x, y), pv_reaches(pv, y, x)]
        pv_node(pv, x) && pv_node(pv, y) && x != y && pv_reaches(pv, x, y) && pv_reaches(pv, y, x)
            ==> exists|i: int| 0 <= i < r.len() && #[trigger] seq_has(views(r[i].nodes@), x)
}

fn cycle_violation(
    rule: &RuleConfig,
    scope: &str,
    types: &Vec<String>,
    projected: &Vec<ResolvedEdge>,
    origin_from: &Vec<String>,
    origin_to: &Vec<String>,
    nodes: &Vec<String>,
    limit: usize,
    Ghost(pv): Ghost<Seq<ProjView>>,
) -> (v: Violation)
    requires
        projected@.len() < usize::MAX,
        projected@.len() == origin_from@.len(),
        projected@.len() == origin_to@.len(),
        pv == pv_of(projected@, origin_from@, origin_to@),
        cycle_class(pv, views(nodes@)),
    ensures
        cycle_violation_fits(*rule, scope@, views(types@), pv, limit as nat, v),
        views(v.nodes@) == views(nodes@),
{
    let ghost ns = views(nodes@);
    let mut internal: Vec<&ResolvedEdge> = Vec::new();
    let mut originals: Vec<String> = Vec::new();
    let mut acc = crate::evidence::EvidenceAccumulator::new();
    let mut p: usize = 0;
    proof {
        assert(pv.take(0) =~= Seq::<ProjView>::empty());
        assert(pv_evidence(inside(pv.take(0), ns)) =~= Seq::<crate::evidence::EvidenceView>::empty());
    }
    while p < projected.len()
        invariant
            p <= projected@.len(),
            projected@.len() < usize::MAX,
            projected@.len() == origin_from@.len(),
            projected@.len() == origin_to@.len(),
            pv == pv_of(projected@, origin_from@, origin_to@),
            ns == views(nodes@),
            same_keys(deref_all(internal@), inside(pv.take(p as int), ns)),
            acc.view_acc() == acc_of(pv_evidence(inside(pv.take(p as int), ns)), limit as nat),
            acc.count <= p,
            internal@.len() <= p,
            forall|x: Seq<char>| #[trigger] seq_has(views(originals@), x) <==> exists|i: int|
                0 <= i < inside(pv.take(p as int), ns).len() && ((#[trigger] inside(pv.take(p as int), ns)[i]).orig_from == x
                    || inside(pv.take(p as int), ns)[i].orig_to == x),
        decreases projected@.len() - p,
    {
        let ghost pre = pv.take(p as int);
        let ghost item = pv[p as int];
        proof {
            assert(pv.take(p + 1).drop_last() =~= pre);
            assert(pv.take(p + 1).last() == item);
            assert(item.from == projected@[p as int].from@ && item.to == projected@[p as int].to@);
        }
        let e = &projected[p];
        if has_text(nodes, e.from.as_str()) && has_text(nodes, e.to.as_str()) {
            let ghost in_before = inside(pre, ns);
            let ghost internal_before = deref_all(internal@);
            internal.push(e);
            acc.add(&e.evidence, limit);
            let ghost orig_before = views(originals@);
            originals.push(origin_from[p].clone());
            originals.push(origin_to[p].clone());
            proof {
                let in_after = inside(pv.take(p + 1), ns);
                assert(in_after == in_before.push(item));
                assert(deref_all(internal@) =~= internal_before.push(*e));
                assert(same_keys(deref_all(internal@), in_after)) by {
                    assert forall|i: int| 0 <= i < in_after.len() implies crate::evidence::edge_key(#[trigger] deref_all(internal@)[i]) == pv_key(in_after[i])
                        && crate::evidence::ev_view(deref_all(internal@)[i].evidence) == in_after[i].evidence by {
                        if i < in_before.len() {
                            assert(deref_all(internal@)[i] == internal_before[i]);
                            assert(in_after[i] == in_before[i]);
                        }
                    }
                }
                assert(pv_evidence(in_after) =~= pv_evidence(in_before).push(item.evidence));
                assert(pv_evidence(in_before).push(item.evidence).drop_last() =~= pv_evidence(in_before));
                assert(views(originals@) =~= orig_before.push(item.orig_from).push(item.orig_to));
                assert forall|x: Seq<char>| #[trigger] seq_has(views(originals@), x) <==> exists|i: int|
                    0 <= i < in_after.len() && ((#[trigger] in_after[i]).orig_from == x || in_after[i].orig_to == x) by {
                    let o = views(originals@);
                    if seq_has(o, x) {
                        let k = choose|k: int| 0 <= k < o.len() && o[k] == x;
                        if k < orig_before.len() {
                            assert(orig_before[k] == x);
                            assert(seq_has(orig_before, x));
                            let i = choose|i: int| 0 <= i < in_before.len() && ((#[trigger] in_before[i]).orig_from == x || in_before[i].orig_to == x);
                            assert(in_after[i] == in_before[i]);
                        } else {
                            assert(in_after[in_before.len() as int] == item);
                        }
                    }
                    if exists|i: int| 0 <= i < in_after.len() && ((#[trigger] in_after[i]).orig_from == x || in_after[i].orig_to == x) {
                        let i = choose|i: int| 0 <= i < in_after.len() && ((#[trigger] in_after[i]).orig_from == x || in_after[i].orig_to == x);
                        if i < in_before.len() {
                            assert(in_after[i] == in_before[i]);
                            assert(seq_has(orig_before, x));
                            let k = choose|k: int| 0 <= k < orig_before.len() && orig_before[k] == x;
                            assert(o[k] == x);
                        } else {
                            if item.orig_from == x {
                                assert(o[orig_before.len() as int] == x);
                            } else {
                                assert(o[(orig_before.len() + 1) as int] == x);
                            }
                        }
                    }
                }
            }
        } else {
            proof {
                let in_after = inside(pv.take(p + 1), ns);
                assert(in_after == inside(pre, ns));
            }
        }
        p = p + 1;
    }
    proof {
        assert(pv.take(projected@.len() as int) =~= pv);
    }
    let ghost inner = inside(pv, ns);
    let affected = sorted_unique(&originals);
    proof {
        assert(deref_all(internal@).len() == internal@.len());
    }
    let architecture_edges = aggregate_observed(internal.as_slice(), limit);
    proof {
        assert forall|k: (Seq<char>, Seq<char>, Seq<char>)| with_key(deref_all(internal@), k) == pv_with_key(inner, k)
            && (has_key(deref_all(internal@), k) <==> pv_has_key(inner, k)) by {
            lemma_same_keys(deref_all(internal@), inner, k);
        }
    }
    let listed = join_text(nodes, ", ");
    let count = decimal(acc.count as u128);
    let head = cat4("cycle among immediate children of `", scope, "`: ", listed.as_str());
    let message = cat4(head.as_str(), "; ", count.as_str(), " observed dependencies participate (SCC, not an ordered cycle path)");
    let edge_kind = if types.len() == 1 {
        Some(types[0].clone())
    } else {
        None
    };
    let evidence = copy_evidence(&acc.evidence);
    proof {
        assert(crate::layers::names_distinct(views(nodes@)));
    }
    let (layer_order, suggested_cuts) = crate::layers::layer_plan(nodes, &architecture_edges);
    let v = Violation {
        rule_id: String::from_str(rule.id()),
        kind: String::from_str(rule.kind()),
        from: Some(String::from_str(scope)),
        to: None,
        edge_kind,
        nodes: copy_strings(nodes),
        affected_nodes: affected,
        count: acc.count,
        message,
        evidence,
        architecture_edges,
        layer_order,
        suggested_cuts,
    };
    proof {
        assert(views(v.nodes@) == ns);
        assert forall|i: int| 0 <= i < v.architecture_edges@.len() implies compiled_acc(#[trigger] v.architecture_edges@[i])
            == acc_of(pv_with_key(inner, compiled_key(v.architecture_edges@[i])), limit as nat) by {
            assert(with_key(deref_all(internal@), compiled_key(v.architecture_edges@[i])) == pv_with_key(inner, compiled_key(v.architecture_edges@[i])));
        }
        assert forall|k: (Seq<char>, Seq<char>, Seq<char>)| pv_has_key(inner, k) <==> exists|i: int|
            0 <= i < v.architecture_edges@.len() && compiled_key(#[trigger] v.architecture_edges@[i]) == k by {
            assert(has_key(deref_all(internal@), k) <==> pv_has_key(inner, k));
        }
    }
    v
}

/// The violations of a `no_cycles` rule: one per strongly connected
/// component of two or more of `scope`'s immediate children in the graph of
/// the observed dependencies of the given kinds between them.
pub fn cycle_violations(rule: &RuleConfig, scope: &str, types: &Vec<String>, edges: &[ResolvedEdge], limit: usize) -> (r: Vec<Violation>)
    requires
        edges@.len() < usize::MAX,
    ensures
        cycle_violations_fit(*rule, scope@, views(types@), projected_views(edges@, scope@, views(types@)), limit as nat, r@),
{
    let (projected, origin_from, origin_to, graph) = project(edges, scope, types);
    let ghost pv = pv_of(projected@, origin_from@, origin_to@);
    let comps = strongly_connected_components(&graph);
    let ghost cs = comps_view(comps@);
    proof {
        assert forall|c: int| 0 <= c < cs.len() && cs[c].len() >= 2 implies cycle_class(pv, #[trigger] cs[c]) by {
            assert forall|x: Seq<char>| #[trigger] seq_has(cs[c], x) implies pv_node(pv, x) by {
                assert(graph_node(graph, x));
            }
            assert forall|x: Seq<char>, y: Seq<char>| #![trigger seq_has(cs[c], x), seq_has(cs[c], y)]
                seq_has(cs[c], x) && seq_has(cs[c], y) implies pv_reaches(pv, x, y) by {
                assert(mutually_reachable(graph, x, y));
                lemma_reach_graph(graph, pv, x, y);
            }
            assert forall|x: Seq<char>, y: Seq<char>| #![trigger seq_has(cs[c], x), pv_reaches(pv, x, y)]
                seq_has(cs[c], x) && pv_node(pv, y) && pv_reaches(pv, x, y) && pv_reaches(pv, y, x) implies seq_has(cs[c], y) by {
                lemma_reach_graph(graph, pv, x, y);
                lemma_reach_graph(graph, pv, y, x);
                assert(graph_node(graph, y));
                assert(mutually_reachable(graph, x, y));
            }
        }
    }
    let mut out: Vec<Violation> = Vec::new();
    let ghost mut picked: Seq<int> = Seq::empty();
    let mut c: usize = 0;
    while c < comps.len()
        invariant
            c <= comps@.len(),
            cs == comps_view(comps@),
            scc_list(graph, cs),
            projected@.len() <= edges@.len(),
            edges@.len() < usize::MAX,
            projected@.len() == origin_from@.len(),
            projected@.len() == origin_to@.len(),
            pv == pv_of(projected@, origin_from@, origin_to@),
            pv == projected_views(edges@, scope@, views(types@)),
            forall|k: int| 0 <= k < cs.len() && cs[k].len() >= 2 ==> cycle_class(pv, #[trigger] cs[k]),
            out@.len() == picked.len(),
            forall|i: int| 0 <= i < picked.len() ==> 0 <= #[trigger] picked[i] < c && views(out@[i].nodes@) == cs[picked[i]],
            forall|i: int, j: int| 0 <= i < j < picked.len() ==> #[trigger] picked[i] < #[trigger] picked[j],
            forall|k: int| 0 <= k < c && cs[k].len() >= 2 ==> exists|i: int| 0 <= i < picked.len() && #[trigger] picked[i] == k,
            forall|i: int| 0 <= i < out@.len() ==> cycle_violation_fits(*rule, scope@, views(types@), pv, limit as nat, #[trigger] out@[i]),
        decreases comps@.len() - c,
    {
        proof {
            assert(cs[c as int] == views(comps@[c as int]@));
        }
        let ghost out_before = out@;
        let ghost picked_before = picked;
        if comps[c].len() >= 2 {
            let v = cycle_violation(rule, scope, types, &projected, &origin_from, &origin_to, &comps[c], limit, Ghost(pv));
            out.push(v);
            proof {
                picked = picked.push(c as int);
                assert forall|i: int| 0 <= i < picked.len() implies 0 <= #[trigger] picked[i] < c + 1 && views(out@[i].nodes@) == cs[picked[i]] by {
                    if i < picked_before.len() {
                        assert(out@[i] == out_before[i]);
                    }
                }
                assert forall|k: int| 0 <= k < c + 1 && cs[k].len() >= 2 implies exists|i: int| 0 <= i < picked.len() && #[trigger] picked[i] == k by {
                    if k < c {
                        let i = choose|i: int| 0 <= i < picked_before.len() && #[trigger] picked_before[i] == k;
                        assert(picked[i] == k);
                    } else {
                        assert(picked[picked.len() - 1] == k);
                    }
                }
                assert forall|i: int| 0 <= i < out@.len() implies cycle_violation_fits(*rule, scope@, views(types@), pv, limit as nat, #[trigger] out@[i]) by {
                    if i < out_before.len() {
                        assert(out@[i] == out_before[i]);
                    }
                }
            }
        } else {
            proof {
                assert forall|k: int| 0 <= k < c + 1 && cs[k].len() >= 2 implies exists|i: int| 0 <= i < picked.len() && #[trigger] picked[i] == k by {
                    if k < c {
                        let i = choose|i: int| 0 <= i < picked_before.len() && #[trigger] picked_before[i] == k;
                        assert(picked[i] == k);
                    }
                }
            }
        }
        c = c + 1;
    }
    proof {
        assert forall|i: int, j: int| 0 <= i < j < out@.len() implies crate::order::lex_lt(views((#[trigger] out@[i]).nodes@)[0], views((#[trigger] out@[j]).nodes@)[0]) by {
            assert(picked[i] < picked[j]);
            assert(views(out@[i].nodes@) == cs[picked[i]]);
            assert(views(out@[j].nodes@) == cs[picked[j]]);
        }
        assert forall|x: Seq<char>, y: Seq<char>| #![trigger pv_reaches(pv, x, y), pv_reaches(pv, y, x)]
            pv_node(pv, x) && pv_node(pv, y) && x != y && pv_reaches(pv, x, y) && pv_reaches(pv, y, x)
                implies exists|i: int| 0 <= i < out@.len() && #[trigger] seq_has(views(out@[i].nodes@), x) by {
            assert(graph_node(graph, x));
            let k = choose|k: int| 0 <= k < cs.len() && #[trigger] seq_has(cs[k], x);
            lemma_reach_graph(graph, pv, x, y);
            lemma_reach_graph(graph, pv, y, x);
            assert(graph_node(graph, y));
            assert(mutually_reachable(graph, x, y));
            assert(seq_has(cs[k], y));
            assert(cs[k].len() >= 2) by {
                let a = choose|a: int| 0 <= a < cs[k].len() && cs[k][a] == x;
                let b = choose|b: int| 0 <= b < cs[k].len() && cs[k][b] == y;
                assert(a != b);
            }
            let i = choose|i: int| 0 <= i < picked.len() && #[trigger] picked[i] == k;
            assert(views(out@[i].nodes@) == cs[k]);
        }
    }
    out
}


/// The order of two lists of names: name by name, a list before any longer
/// list that it begins.
pub open spec fn names_order(a: Seq<Seq<char>>, b: Seq<Seq<char>>) -> int
    decreases a.len(),
{
    if a.len() == 0 {
        if b.len() == 0 {
            0
        } else {
            -1
        }
    } else if b.len() == 0 {
        1
    } else if text_order(a[0], b[0]) != 0 {
        text_order(a[0], b[0])
    } else {
        names_order(a.drop_first(), b.drop_first())
    }
}

/// The order of two optional names: no name first.
pub open spec fn option_order(a: Option<String>, b: Option<String>) -> int {
    match (a, b) {
        (None, None) => 0,
        (None, Some(_)) => -1,
        (Some(_), None) => 1,
        (Some(x), Some(y)) => text_order(x@, y@),
    }
}

/// The order in which violations are reported: by rule, nodes, source,
/// target and kind.
pub open spec fn violation_order(a: Violation, b: Violation) -> int {
    let c1 = text_order(a.rule_id@, b.rule_id@);
    let c2 = names_order(views(a.nodes@), views(b.nodes@));
    let c3 = option_order(a.from, b.from);
    let c4 = option_order(a.to, b.to);
    let c5 = option_order(a.edge_kind, b.edge_kind);
    if c1 != 0 {
        c1
    } else if c2 != 0 {
        c2
    } else if c3 != 0 {
        c3
    } else if c4 != 0 {
        c4
    } else {
        c5
    }
}

pub open spec fn violations_sorted(s: Seq<Violation>) -> bool {
    forall|i: int, j: int| 0 <= i < j < s.len() ==> violation_order(#[trigger] s[i], #[trigger] s[j]) <= 0
}

proof fn lemma_names_order(a: Seq<Seq<char>>, b: Seq<Seq<char>>)
    ensures
        names_order(a, b) == -names_order(b, a),
        -1 <= names_order(a, b) <= 1,
        names_order(a, b) == 0 <==> a == b,
    decreases a.len(),
{
    if a.len() > 0 && b.len() > 0 {
        lemma_text_order(a[0], b[0]);
        lemma_names_order(a.drop_first(), b.drop_first());
        if text_order(a[0], b[0]) == 0 && a.drop_first() == b.drop_first() {
            assert(a =~= b) by {
                assert forall|i: int| 0 <= i < a.len() implies a[i] == b[i] by {
                    if i > 0 {
                        assert(a[i] == a.drop_first()[i - 1]);
                        assert(b[i] == b.drop_first()[i - 1]);
                    }
                }
            }
        }
        if a == b {
            assert(a.drop_first() == b.drop_first());
        }
    } else if a.len() == 0 && b.len() == 0 {
        assert(a =~= b);
    }
}

proof fn lemma_names_order_trans(a: Seq<Seq<char>>, b: Seq<Seq<char>>, c: Seq<Seq<char>>)
    requires
        names_order(a, b) <= 0,
        names_order(b, c) <= 0,
    ensures
        names_order(a, c) <= 0,
        (names_order(a, b) < 0 || names_order(b, c) < 0) ==> names_order(a, c) < 0,
    decreases a.len(),
{
    if a.len() > 0 && b.len() > 0 && c.len() > 0 {
        lemma_text_order(a[0], b[0]);
        lemma_text_order(b[0], c[0]);
        lemma_text_order(a[0], c[0]);
        lemma_text_order_trans(a[0], b[0], c[0]);
        if text_order(a[0], b[0]) == 0 && text_order(b[0], c[0]) == 0 {
            lemma_names_order_trans(a.drop_first(), b.drop_first(), c.drop_first());
        }
    }
}

proof fn lemma_option_order(a: Option<String>, b: Option<String>)
    ensures
        option_order(a, b) == -option_order(b, a),
        -1 <= option_order(a, b) <= 1,
{
    if let (Some(x), Some(y)) = (a, b) {
        lemma_text_order(x@, y@);
    }
}

proof fn lemma_option_order_trans(a: Option<String>, b: Option<String>, c: Option<String>)
    requires
        option_order(a, b) <= 0,
        option_order(b, c) <= 0,
    ensures
        option_order(a, c) <= 0,
        (option_order(a, b) < 0 || option_order(b, c) < 0) ==> option_order(a, c) < 0,
        option_order(a, b) == 0 ==> option_order(a, c) == option_order(b, c),
        option_order(b, c) == 0 ==> option_order(a, c) == option_order(a, b),
{
    if let (Some(x), Some(y), Some(z)) = (a, b, c) {
        lemma_text_order_trans(x@, y@, z@);
    }
}

/// `violation_order` is antisymmetric in sign.
pub proof fn lemma_violation_order(a: Violation, b: Violation)
    ensures
        violation_order(a, b) == -violation_order(b, a),
        -1 <= violation_order(a, b) <= 1,
{
    lemma_text_order(a.rule_id@, b.rule_id@);
    lemma_names_order(views(a.nodes@), views(b.nodes@));
    lemma_option_order(a.from, b.from);
    lemma_option_order(a.to, b.to);
    lemma_option_order(a.edge_kind, b.edge_kind);
}

/// `violation_order` is transitive, strictly where either step is strict.
pub proof fn lemma_violation_order_trans(a: Violation, b: Violation, c: Violation)
    requires
        violation_order(a, b) <= 0,
        violation_order(b, c) <= 0,
    ensures
        violation_order(a, c) <= 0,
        (violation_order(a, b) < 0 || violation_order(b, c) < 0) ==> violation_order(a, c) < 0,
{
    lemma_violation_order(a, b);
    lemma_violation_order(b, c);
    lemma_violation_order(a, c);
    let (ra, rb, rc) = (a.rule_id@, b.rule_id@, c.rule_id@);
    lemma_text_order(ra, rb);
    lemma_text_order(rb, rc);
    if text_order(ra, rb) <= 0 && text_order(rb, rc) <= 0 {
        lemma_text_order_trans(ra, rb, rc);
    }
    let (na, nb, nc) = (views(a.nodes@), views(b.nodes@), views(c.nodes@));
    lemma_names_order(na, nb);
    lemma_names_order(nb, nc);
    lemma_names_order(na, nc);
    if names_order(na, nb) <= 0 && names_order(nb, nc) <= 0 {
        lemma_names_order_trans(na, nb, nc);
    }
    lemma_option_order(a.from, b.from);
    lemma_option_order(b.from, c.from);
    lemma_option_order(a.from, c.from);
    if option_order(a.from, b.from) <= 0 && option_order(b.from, c.from) <= 0 {
        lemma_option_order_trans(a.from, b.from, c.from);
    }
    lemma_option_order(a.to, b.to);
    lemma_option_order(b.to, c.to);
    lemma_option_order(a.to, c.to);
    if option_order(a.to, b.to) <= 0 && option_order(b.to, c.to) <= 0 {
        lemma_option_order_trans(a.to, b.to, c.to);
    }
    lemma_option_order(a.edge_kind, b.edge_kind);
    lemma_option_order(b.edge_kind, c.edge_kind);
    lemma_option_order(a.edge_kind, c.edge_kind);
    if option_order(a.edge_kind, b.edge_kind) <= 0 && option_order(b.edge_kind, c.edge_kind) <= 0 {
        lemma_option_order_trans(a.edge_kind, b.edge_kind, c.edge_kind);
    }
}


proof fn lemma_names_order_step(a: Seq<Seq<char>>, b: Seq<Seq<char>>, i: int)
    requires
        0 <= i < a.len(),
        i < b.len(),
        a[i] == b[i],
    ensures
        names_order(a.skip(i), b.skip(i)) == names_order(a.skip(i + 1), b.skip(i + 1)),
{
    assert(a.skip(i)[0] == a[i]);
    assert(b.skip(i)[0] == b[i]);
    assert(a.skip(i).drop_first() =~= a.skip(i + 1));
    assert(b.skip(i).drop_first() =~= b.skip(i + 1));
}

fn order_of_names(a: &Vec<String>, b: &Vec<String>) -> (r: i8)
    ensures
        r == names_order(views(a@), views(b@)),
{
    let ghost va = views(a@);
    let ghost vb = views(b@);
    let mut i: usize = 0;
    proof {
        assert(va.skip(0) =~= va);
        assert(vb.skip(0) =~= vb);
    }
    while i < a.len() && i < b.len()
        invariant
            i <= a@.len(),
            i <= b@.len(),
            va == views(a@),
            vb == views(b@),
            names_order(va, vb) == names_order(va.skip(i as int), vb.skip(i as int)),
        decreases a@.len() - i,
    {
        let c = crate::evidence::order_of_text(a[i].as_str(), b[i].as_str());
        if c != 0 {
            proof {
                assert(va.skip(i as int)[0] == va[i as int]);
                assert(vb.skip(i as int)[0] == vb[i as int]);
            }
            return c;
        }
        proof {
            lemma_names_order_step(va, vb, i as int);
        }
        i = i + 1;
    }
    if i < a.len() {
        1
    } else if i < b.len() {
        -1
    } else {
        0
    }
}

fn order_of_option(a: &Option<String>, b: &Option<String>) -> (r: i8)
    ensures
        r == option_order(*a, *b),
{
    match (a, b) {
        (None, None) => 0,
        (None, Some(_)) => -1,
        (Some(_), None) => 1,
        (Some(x), Some(y)) => crate::evidence::order_of_text(x.as_str(), y.as_str()),
    }
}

fn order_of_violations(a: &Violation, b: &Violation) -> (r: i8)
    ensures
        r == violation_order(*a, *b),
{
    let c = crate::evidence::order_of_text(a.rule_id.as_str(), b.rule_id.as_str());
    if c != 0 {
        return c;
    }
    let c = order_of_names(&a.nodes, &b.nodes);
    if c != 0 {
        return c;
    }
    let c = order_of_option(&a.from, &b.from);
    if c != 0 {
        return c;
    }
    let c = order_of_option(&a.to, &b.to);
    if c != 0 {
        return c;
    }
    order_of_option(&a.edge_kind, &b.edge_kind)
}

/// The violations in report order; of two with equal keys, the earlier
/// stays first.
pub fn sort_violations(v: Vec<Violation>) -> (r: Vec<Violation>)
    ensures
        violations_sorted(r@),
        r@.to_multiset() == v@.to_multiset(),
{
    let ghost start = v@;
    let mut rest = v;
    let mut out: Vec<Violation> = Vec::new();
    proof {
        vstd::seq_lib::to_multiset_len(out@);
        vstd::multiset::lemma_multiset_empty_len(out@.to_multiset());
        assert(out@.to_multiset().add(rest@.to_multiset()) =~= start.to_multiset());
    }
    while rest.len() > 0
        invariant
            violations_sorted(out@),
            out@.to_multiset().add(rest@.to_multiset()) == start.to_multiset(),
        decreases rest@.len(),
    {
        let ghost before = rest@;
        let x = rest.pop().unwrap();
        proof {
            assert(before =~= rest@.push(x));
        }
        let mut p: usize = 0;
        while p < out.len() && order_of_violations(&out[p], &x) < 0
            invariant
                p <= out@.len(),
                forall|k: int| 0 <= k < p ==> violation_order(#[trigger] out@[k], x) < 0,
            decreases out@.len() - p,
        {
            p = p + 1;
        }
        let ghost old_out = out@;
        out.insert(p, x);
        proof {
            vstd::seq_lib::to_multiset_insert(old_out, p as int, x);
            assert(out@.to_multiset() == old_out.to_multiset().insert(x));
            vstd::seq_lib::to_multiset_build(rest@, x);
            assert(out@.to_multiset().add(rest@.to_multiset()) =~= old_out.to_multiset().add(before.to_multiset()));
            assert forall|i: int, j: int| 0 <= i < j < out@.len() implies violation_order(#[trigger] out@[i], #[trigger] out@[j]) <= 0 by {
                if j < p {
                    assert(out@[i] == old_out[i] && out@[j] == old_out[j]);
                } else if j == p {
                    assert(out@[i] == old_out[i]);
                } else if i == p {
                    assert(out@[j] == old_out[j - 1]);
                    lemma_violation_order(old_out[p as int], x);
                    if j - 1 > p {
                        lemma_violation_order_trans(x, old_out[p as int], old_out[j - 1]);
                    }
                } else if i < p {
                    assert(out@[i] == old_out[i] && out@[j] == old_out[j - 1]);
                } else {
                    assert(out@[i] == old_out[i - 1] && out@[j] == old_out[j - 1]);
                }
            }
        }
    }
    proof {
        vstd::seq_lib::to_multiset_len(rest@);
        vstd::multiset::lemma_multiset_empty_len(rest@.to_multiset());
        assert(out@.to_multiset() =~= out@.to_multiset().add(rest@.to_multiset()));
    }
    out
}

/// The violations one rule reports on the given observations.
pub open spec fn rule_violations_fit(rule: RuleConfig, edges: Seq<ResolvedEdge>, limit: nat, r: Seq<Violation>) -> bool {
    match rule {
        RuleConfig::NoCycles { within, edge_types, .. } => cycle_violations_fit(
            rule,
            within@,
            views(edge_types@),
            projected_views(edges, within@, views(edge_types@)),
            limit,
            r,
        ),
        _ => dependency_violations_fit(rule, forbidden_edges(rule, edges), limit, r),
    }
}

/// The violations of one rule.
pub fn rule_violations(rule: &RuleConfig, edges: &[ResolvedEdge], limit: usize) -> (r: Vec<Violation>)
    requires
        edges@.len() < usize::MAX,
    ensures
        rule_violations_fit(*rule, edges@, limit as nat, r@),
{
    match rule {
        RuleConfig::NoCycles { within, edge_types, .. } => cycle_violations(rule, within.as_str(), edge_types, edges, limit),
        _ => {
            let forbidden = forbidden_list(rule, edges);
            proof {
                lemma_forbidden_len(*rule, edges@);
                assert(deref_all(forbidden@).len() == forbidden@.len());
            }
            dependency_violations(rule, forbidden.as_slice(), limit)
        },
    }
}

/// All violations of the rules on the observed dependencies, in report
/// order: each rule's own, sorted by rule, nodes, source, target and kind.
pub open spec fn evaluation(rules: Seq<RuleConfig>, edges: Seq<ResolvedEdge>, limit: nat, r: Seq<Violation>) -> bool {
    &&& violations_sorted(r)
    &&& exists|groups: Seq<Seq<Violation>>| {
        &&& groups.len() == rules.len()
        &&& forall|i: int| 0 <= i < groups.len() ==> rule_violations_fit(rules[i], edges, limit, #[trigger] groups[i])
        &&& r.to_multiset() == groups.flatten().to_multiset()
    }
}

pub fn evaluate(rules: &[RuleConfig], edges: &[ResolvedEdge], limit: usize) -> (r: Vec<Violation>)
    requires
        edges@.len() < usize::MAX,
    ensures
        evaluation(rules@, edges@, limit as nat, r@),
{
    let mut all: Vec<Violation> = Vec::new();
    let ghost mut groups: Seq<Seq<Violation>> = Seq::empty();
    let mut i: usize = 0;
    while i < rules.len()
        invariant
            i <= rules@.len(),
            edges@.len() < usize::MAX,
            groups.len() == i,
            forall|k: int| 0 <= k < i ==> rule_violations_fit(rules@[k], edges@, limit as nat, #[trigger] groups[k]),
            all@ == groups.flatten_alt(),
        decreases rules@.len() - i,
    {
        let mut found = rule_violations(&rules[i], edges, limit);
        let ghost g = found@;
        let ghost before = all@;
        all.append(&mut found);
        proof {
            let next = groups.push(g);
            assert(next.drop_last() =~= groups);
            assert(next.last() == g);
            assert(all@ =~= before + g);
            groups = next;
        }
        i = i + 1;
    }
    proof {
        groups.lemma_flatten_and_flatten_alt_are_equivalent();
    }
    let r = sort_violations(all);
    proof {
        assert(groups.len() == rules@.len());
        assert(r@.to_multiset() == groups.flatten().to_multiset());
        assert(forall|i: int| 0 <= i < groups.len() ==> rule_violations_fit(rules@[i], edges@, limit as nat, #[trigger] groups[i]));
    }
    r
}


proof fn lemma_strict_keys_equal(a: Seq<(Seq<char>, Seq<char>, Seq<char>)>, b: Seq<(Seq<char>, Seq<char>, Seq<char>)>)
    requires
        forall|i: int, j: int| 0 <= i < j < a.len() ==> key_order(#[trigger] a[i], #[trigger] a[j]) < 0,
        forall|i: int, j: int| 0 <= i < j < b.len() ==> key_order(#[trigger] b[i], #[trigger] b[j]) < 0,
        forall|k: (Seq<char>, Seq<char>, Seq<char>)| a.contains(k) <==> b.contains(k),
    ensures
        a == b,
    decreases a.len(),
{
    if a.len() == 0 {
        if b.len() > 0 {
            assert(b.contains(b[0]));
        }
        assert(a =~= b);
    } else if b.len() == 0 {
        assert(a.contains(a[0]));
    } else {
        assert(a.contains(a[0]));
        assert(b.contains(b[0]));
        let j = choose|j: int| 0 <= j < b.len() && b[j] == a[0];
        let i = choose|i: int| 0 <= i < a.len() && a[i] == b[0];
        if j > 0 {
            assert(key_order(b[0], b[j]) < 0);
            if i > 0 {
                assert(key_order(a[0], a[i]) < 0);
                lemma_key_order(a[0], b[0]);
            } else {
                lemma_key_order(b[0], b[j]);
            }
        }
        assert(a[0] == b[0]);
        let ta = a.drop_first();
        let tb = b.drop_first();
        assert forall|k: (Seq<char>, Seq<char>, Seq<char>)| ta.contains(k) <==> tb.contains(k) by {
            if ta.contains(k) {
                let p = choose|p: int| 0 <= p < ta.len() && ta[p] == k;
                assert(a[p + 1] == k);
                assert(key_order(a[0], a[p + 1]) < 0);
                lemma_key_order(a[0], k);
                assert(b.contains(k));
                let q = choose|q: int| 0 <= q < b.len() && b[q] == k;
                assert(q != 0);
                assert(tb[q - 1] == k);
            }
            if tb.contains(k) {
                let p = choose|p: int| 0 <= p < tb.len() && tb[p] == k;
                assert(b[p + 1] == k);
                assert(key_order(b[0], b[p + 1]) < 0);
                lemma_key_order(b[0], k);
                assert(a.contains(k));
                let q = choose|q: int| 0 <= q < a.len() && a[q] == k;
                assert(q != 0);
                assert(ta[q - 1] == k);
            }
        }
        assert forall|x: int, y: int| 0 <= x < y < ta.len() implies key_order(#[trigger] ta[x], #[trigger] ta[y]) < 0 by {
            assert(ta[x] == a[x + 1] && ta[y] == a[y + 1]);
        }
        assert forall|x: int, y: int| 0 <= x < y < tb.len() implies key_order(#[trigger] tb[x], #[trigger] tb[y]) < 0 by {
            assert(tb[x] == b[x + 1] && tb[y] == b[y + 1]);
        }
        lemma_strict_keys_equal(ta, tb);
        assert(a =~= seq![a[0]] + ta);
        assert(b =~= seq![b[0]] + tb);
    }
}

pub open spec fn violation_keys(r: Seq<Violation>) -> Seq<(Seq<char>, Seq<char>, Seq<char>)> {
    r.map_values(|v: Violation| violation_key(v))
}

proof fn lemma_same_key_agree(rule: RuleConfig, forbidden: Seq<ResolvedEdge>, l1: nat, l2: nat, v1: Violation, v2: Violation)
    requires
        dependency_violation_fits(rule, forbidden, l1, v1),
        dependency_violation_fits(rule, forbidden, l2, v2),
        violation_key(v1) == violation_key(v2),
    ensures
        v1.rule_id@ == v2.rule_id@,
        v1.kind@ == v2.kind@,
        views(v1.nodes@) == views(v2.nodes@),
        views(v1.affected_nodes@) == views(v2.affected_nodes@),
        v1.count == v2.count,
        v1.message@ == v2.message@,
{
    let key = violation_key(v1);
    crate::evidence::lemma_acc_count(with_key(forbidden, key), l1);
    crate::evidence::lemma_acc_count(with_key(forbidden, key), l2);
}

proof fn lemma_keys_of(rule: RuleConfig, forbidden: Seq<ResolvedEdge>, l: nat, r: Seq<Violation>)
    requires
        dependency_violations_fit(rule, forbidden, l, r),
    ensures
        violation_keys(r).len() == r.len(),
        forall|i: int, j: int| 0 <= i < j < r.len() ==> key_order(#[trigger] violation_keys(r)[i], #[trigger] violation_keys(r)[j]) < 0,
        forall|k: (Seq<char>, Seq<char>, Seq<char>)| violation_keys(r).contains(k) <==> has_key(forbidden, k),
{
    let ks = violation_keys(r);
    assert forall|i: int| 0 <= i < r.len() implies #[trigger] ks[i] == violation_key(r[i]) && has_key(forbidden, ks[i]) by {
        assert(dependency_violation_fits(rule, forbidden, l, r[i]));
    }
    assert forall|i: int, j: int| 0 <= i < j < r.len() implies key_order(#[trigger] ks[i], #[trigger] ks[j]) < 0 by {
        assert(key_order(violation_key(r[i]), violation_key(r[j])) < 0);
    }
    assert forall|k: (Seq<char>, Seq<char>, Seq<char>)| ks.contains(k) <==> has_key(forbidden, k) by {
        if has_key(forbidden, k) {
            let j = choose|j: int| 0 <= j < r.len() && violation_key(#[trigger] r[j]) == k;
            assert(ks[j] == k);
        }
    }
}

/// A dependency rule's violations do not depend on how many observations
/// each samples: under two evidence limits they are the same violations in
/// the same order, with the same rule, kind, nodes, affected nodes, count
/// and message; only their evidence samples differ.
pub proof fn lemma_dependency_limits_agree(
    rule: RuleConfig,
    forbidden: Seq<ResolvedEdge>,
    l1: nat,
    l2: nat,
    r1: Seq<Violation>,
    r2: Seq<Violation>,
)
    requires
        dependency_violations_fit(rule, forbidden, l1, r1),
        dependency_violations_fit(rule, forbidden, l2, r2),
    ensures
        r1.len() == r2.len(),
        forall|i: int| 0 <= i < r1.len() ==> {
            &&& violation_key(#[trigger] r1[i]) == violation_key(r2[i])
            &&& r1[i].rule_id@ == r2[i].rule_id@
            &&& r1[i].kind@ == r2[i].kind@
            &&& views(r1[i].nodes@) == views(r2[i].nodes@)
            &&& views(r1[i].affected_nodes@) == views(r2[i].affected_nodes@)
            &&& r1[i].count == r2[i].count
            &&& r1[i].message@ == r2[i].message@
        },
{
    lemma_keys_of(rule, forbidden, l1, r1);
    lemma_keys_of(rule, forbidden, l2, r2);
    lemma_strict_keys_equal(violation_keys(r1), violation_keys(r2));
    assert forall|i: int| 0 <= i < r1.len() implies {
        &&& violation_key(#[trigger] r1[i]) == violation_key(r2[i])
        &&& r1[i].rule_id@ == r2[i].rule_id@
        &&& r1[i].kind@ == r2[i].kind@
        &&& views(r1[i].nodes@) == views(r2[i].nodes@)
        &&& views(r1[i].affected_nodes@) == views(r2[i].affected_nodes@)
        &&& r1[i].count == r2[i].count
        &&& r1[i].message@ == r2[i].message@
    } by {
        assert(violation_keys(r1)[i] == violation_key(r1[i]));
        assert(violation_keys(r2)[i] == violation_key(r2[i]));
        assert(dependency_violation_fits(rule, forbidden, l1, r1[i]));
        assert(dependency_violation_fits(rule, forbidden, l2, r2[i]));
        lemma_same_key_agree(rule, forbidden, l1, l2, r1[i], r2[i]);
    }
}


/// Which observations a dependency rule forbids, in plain terms. In exact
/// mode (`include_descendants: false`) a named node matches only itself; in
/// subtree mode it matches itself and every node below it. `deny_dependency`
/// forbids a checked kind from its `from` to its `to`; `allow_only`
/// forbids a checked kind from its `from` to anything outside `from`'s own
/// subtree that no listed target matches.
pub proof fn lemma_forbidden_plainly(rule: RuleConfig, e: ResolvedEdge)
    ensures
        match rule {
            RuleConfig::DenyDependency { from, to, edge_types, include_descendants, .. } => forbidden_by(rule, e) <==> {
                &&& exists|k: int| 0 <= k < edge_types@.len() && (#[trigger] edge_types@[k])@ == e.kind@
                &&& (e.from@ == from@ || (include_descendants && within(e.from@, from@)))
                &&& (e.to@ == to@ || (include_descendants && within(e.to@, to@)))
            },
            RuleConfig::AllowOnly { from, to, edge_types, include_descendants, .. } => forbidden_by(rule, e) <==> {
                &&& exists|k: int| 0 <= k < edge_types@.len() && (#[trigger] edge_types@[k])@ == e.kind@
                &&& (e.from@ == from@ || (include_descendants && within(e.from@, from@)))
                &&& !within(e.to@, from@)
                &&& forall|t: int| 0 <= t < to@.len() ==> e.to@ != (#[trigger] to@[t])@ && !(include_descendants && within(e.to@, to@[t]@))
            },
            RuleConfig::NoCycles { .. } => !forbidden_by(rule, e),
        },
{
    match rule {
        RuleConfig::DenyDependency { from, to, edge_types, include_descendants, .. } => {
            if seq_has(views(edge_types@), e.kind@) {
                let k = choose|k: int| 0 <= k < views(edge_types@).len() && views(edge_types@)[k] == e.kind@;
                assert(edge_types@[k]@ == e.kind@);
            }
            if exists|k: int| 0 <= k < edge_types@.len() && (#[trigger] edge_types@[k])@ == e.kind@ {
                let k = choose|k: int| 0 <= k < edge_types@.len() && (#[trigger] edge_types@[k])@ == e.kind@;
                assert(views(edge_types@)[k] == e.kind@);
            }
        },
        RuleConfig::AllowOnly { from, to, edge_types, include_descendants, .. } => {
            if seq_has(views(edge_types@), e.kind@) {
                let k = choose|k: int| 0 <= k < views(edge_types@).len() && views(edge_types@)[k] == e.kind@;
                assert(edge_types@[k]@ == e.kind@);
            }
            if exists|k: int| 0 <= k < edge_types@.len() && (#[trigger] edge_types@[k])@ == e.kind@ {
                let k = choose|k: int| 0 <= k < edge_types@.len() && (#[trigger] edge_types@[k])@ == e.kind@;
                assert(views(edge_types@)[k] == e.kind@);
            }
        },
        RuleConfig::NoCycles { .. } => {},
    }
}

} // verus!
