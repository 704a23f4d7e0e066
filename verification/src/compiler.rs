//! How the compiler places the provider's observations: each file-level
//! dependency whose files both map to architecture nodes becomes a resolved
//! dependency between those nodes; any other is an anomaly, counted by its
//! files and what is wrong with it. Both lists come out in a fixed order, so
//! the compiled architecture does not depend on the order the provider
//! reported in.
use vstd::prelude::*;
use vstd::multiset::Multiset;
use crate::config::{ArchitectureConfig, ValidatedConfig, copy_manuals, manual_view, manual_views, ManualEdgeConfig, blank, copy_interfaces, interface_views, is_blank, is_within, last_dot, parent_id, parent_of, within, NodeConfig};
use crate::evidence::{order_of_evidence, order_of_text, ev_order, ev_view, key_order, lemma_ev_le_total, lemma_ev_le_transitive, lemma_ev_order_basic, lemma_key_order, lemma_key_order_trans, EdgeEvidence, EvidenceView, ResolvedEdge, CompiledEdge, compiled_key};
use crate::model::{ArchitectureIr, CompileStats, Diagnostics, ProviderInfo, node_view, CompiledFile, CompiledNode, EdgeOrigin, NodeView, ProviderAnomaly};
use crate::strmap::StrMap;
use crate::mapping::Memberships;
use crate::paths::{debug_quoted, debug_text, below_root, below_root_chars, nonempty_path, normalize_chars, normalized, PathError};
use crate::snapshot::counts::{present, sum_all, tally, tally_of, total};
use crate::snapshot::EdgeKey;
use crate::projection::zoom::{group_order, lemma_group_order, lemma_group_order_trans};
use crate::text::{cat2, cat3, cat5, chars_of, copy_opt, opt_view, slice_chars, str_eq, string_of};

verus! {

/// One file-level dependency as the provider reports it; a confidence is
/// carried as the bits of its `f64`.
pub struct CodeEdge {
    pub from_file: String,
    pub to_file: String,
    pub kind: String,
    pub confidence: Option<u64>,
    pub reason: Option<String>,
}

/// The bits of an `f64` that is neither infinite nor NaN: its exponent is
/// not all ones.
pub open spec fn finite_bits(b: u64) -> bool {
    (b / 0x10_0000_0000_0000) % 0x800 != 0x7ff
}

/// An observation the compiler can take: a kind that is not blank and a
/// finite confidence, if any.
pub open spec fn acceptable(e: CodeEdge) -> bool {
    &&& !blank(e.kind@)
    &&& (e.confidence matches Some(b) ==> finite_bits(b))
}

pub open spec fn unacceptable_text(e: CodeEdge) -> Seq<char> {
    "provider returned an empty edge kind or non-finite confidence for `"@ + e.from_file@ + "` -> `"@ + e.to_file@
        + "`; fix provider compatibility"@
}

/// What a provider path that cannot be taken is told: the relative path it
/// came to, where the problem is in that path.
pub open spec fn provider_problem(relative: Seq<char>, e: PathError) -> Seq<char> {
    match e {
        PathError::Unsupported => "path contains an unsupported NUL/newline: "@ + debug_quoted(relative),
        PathError::Absolute => "path `"@ + relative + "` must be repository-relative, not absolute"@,
        PathError::Escapes => "path `"@ + relative + "` escapes the repository root"@,
        PathError::Outside => "file is outside the repository"@,
        PathError::Empty => "provider returned an empty file path"@,
    }
}

/// A provider path as a repository-relative path, or what is wrong with it.
pub open spec fn provider_place(root: Seq<char>, raw: Seq<char>) -> Result<Seq<char>, Seq<char>> {
    match nonempty_path(normalized(below_root(root, raw))) {
        Ok(p) => Ok(p),
        Err(e) => Err(provider_problem(below_root(root, raw), e)),
    }
}

pub fn place_provider_path(root: &str, raw: &str) -> (r: Result<String, String>)
    ensures
        match r {
            Ok(p) => provider_place(root@, raw@) == Ok::<Seq<char>, Seq<char>>(p@),
            Err(m) => provider_place(root@, raw@) == Err::<Seq<char>, Seq<char>>(m@),
        },
{
    let root_chars = chars_of(root);
    let raw_chars = chars_of(raw);
    let relative = below_root_chars(root_chars.as_slice(), raw_chars.as_slice());
    let rel = string_of(relative.as_slice());
    let e = match normalize_chars(relative.as_slice()) {
        Ok(v) => if v.len() == 0 {
            PathError::Empty
        } else {
            return Ok(string_of(v.as_slice()));
        },
        Err(e) => e,
    };
    let m = match e {
        PathError::Unsupported => cat2("path contains an unsupported NUL/newline: ", debug_text(rel.as_str()).as_str()),
        PathError::Absolute => cat3("path `", rel.as_str(), "` must be repository-relative, not absolute"),
        PathError::Escapes => cat3("path `", rel.as_str(), "` escapes the repository root"),
        PathError::Outside => String::from_str("file is outside the repository"),
        PathError::Empty => String::from_str("provider returned an empty file path"),
    };
    Err(m)
}

/// The membership of a file: `Some(node)` for the last file listed under
/// the path, `None` when no file is.
pub open spec fn member(files: Seq<CompiledFile>, path: Seq<char>) -> Option<Option<Seq<char>>>
    decreases files.len(),
{
    if files.len() == 0 {
        None
    } else if files.last().path@ == path {
        Some(opt_view(files.last().node))
    } else {
        member(files.drop_last(), path)
    }
}

fn member_of(files: &Vec<CompiledFile>, path: &str) -> (r: Option<Option<String>>)
    ensures
        match r {
            Some(n) => member(files@, path@) == Some(opt_view(n)),
            None => member(files@, path@) is None,
        },
{
    let mut found: Option<Option<String>> = None;
    let mut i: usize = 0;
    while i < files.len()
        invariant
            i <= files@.len(),
            match found {
                Some(n) => member(files@.take(i as int), path@) == Some(opt_view(n)),
                None => member(files@.take(i as int), path@) is None,
            },
        decreases files@.len() - i,
    {
        proof {
            assert(files@.take(i + 1).drop_last() =~= files@.take(i as int));
        }
        if str_eq(files[i].path.as_str(), path) {
            found = Some(copy_opt(&files[i].node));
        }
        i = i + 1;
    }
    proof {
        assert(files@.take(files@.len() as int) =~= files@);
    }
    found
}

pub open spec fn outside_text() -> Seq<char> {
    "endpoint is outside the discovered project file set; check source_roots, excludes and index freshness"@
}

pub open spec fn unassigned_text() -> Seq<char> {
    "endpoint is unassigned or ambiguously mapped; add unambiguous node maps"@
}

/// A resolved dependency as values: its nodes, its kind and its evidence.
pub open spec fn resolved_view(e: ResolvedEdge) -> (Seq<char>, Seq<char>, Seq<char>, EvidenceView) {
    (e.from@, e.to@, e.kind@, ev_view(e.evidence))
}

/// Where an acceptable observation goes: a resolved dependency, or the key
/// (files and message) of an anomaly.
pub open spec fn placement(root: Seq<char>, files: Seq<CompiledFile>, e: CodeEdge) -> Result<(Seq<char>, Seq<char>, Seq<char>, EvidenceView), (Seq<char>, Seq<char>, Seq<char>)> {
    let f = provider_place(root, e.from_file@);
    let t = provider_place(root, e.to_file@);
    if f is Err || t is Err {
        let detail = match (f, t) {
            (Err(a), Err(b)) => a + "; "@ + b,
            (Err(a), _) => a,
            (_, Err(b)) => b,
            _ => Seq::empty(),
        };
        Err((e.from_file@, e.to_file@, detail))
    } else {
        let fp = f->Ok_0;
        let tp = t->Ok_0;
        match (member(files, fp), member(files, tp)) {
            (Some(Some(a)), Some(Some(b))) => Ok((a, b, e.kind@, EvidenceView {
                from_file: fp,
                to_file: tp,
                kind: e.kind@,
                confidence: e.confidence,
                reason: opt_view(e.reason),
            })),
            (m, n) => Err((fp, tp, if m is None || n is None {
                outside_text()
            } else {
                unassigned_text()
            })),
        }
    }
}

fn place(root: &str, files: &Vec<CompiledFile>, e: &CodeEdge) -> (r: Result<ResolvedEdge, (String, String, String)>)
    ensures
        match r {
            Ok(x) => placement(root@, files@, *e) == Ok::<(Seq<char>, Seq<char>, Seq<char>, EvidenceView), (Seq<char>, Seq<char>, Seq<char>)>(resolved_view(x)),
            Err(k) => placement(root@, files@, *e) == Err::<(Seq<char>, Seq<char>, Seq<char>, EvidenceView), (Seq<char>, Seq<char>, Seq<char>)>((k.0@, k.1@, k.2@)),
        },
{
    let f = place_provider_path(root, e.from_file.as_str());
    let t = place_provider_path(root, e.to_file.as_str());
    let (fp, tp) = match (f, t) {
        (Ok(a), Ok(b)) => (a, b),
        (Err(a), Err(b)) => {
            let detail = cat3(a.as_str(), "; ", b.as_str());
            return Err((e.from_file.clone(), e.to_file.clone(), detail));
        },
        (Err(a), _) => {
            return Err((e.from_file.clone(), e.to_file.clone(), a));
        },
        (_, Err(b)) => {
            return Err((e.from_file.clone(), e.to_file.clone(), b));
        },
    };
    let mf = member_of(files, fp.as_str());
    let mt = member_of(files, tp.as_str());
    match (mf, mt) {
        (Some(Some(a)), Some(Some(b))) => {
            let evidence = EdgeEvidence {
                from_file: fp,
                to_file: tp,
                kind: e.kind.clone(),
                confidence: e.confidence,
                reason: copy_opt(&e.reason),
            };
            Ok(ResolvedEdge { from: a, to: b, kind: e.kind.clone(), evidence })
        },
        (m, n) => {
            let message = if m.is_none() || n.is_none() {
                String::from_str("endpoint is outside the discovered project file set; check source_roots, excludes and index freshness")
            } else {
                String::from_str("endpoint is unassigned or ambiguously mapped; add unambiguous node maps")
            };
            Err((fp, tp, message))
        },
    }
}

/// The order of resolved dependencies: by evidence, then by nodes and kind.
pub open spec fn resolved_le(a: (Seq<char>, Seq<char>, Seq<char>, EvidenceView), b: (Seq<char>, Seq<char>, Seq<char>, EvidenceView)) -> bool {
    ev_order(a.3, b.3) < 0 || (ev_order(a.3, b.3) == 0 && key_order((a.0, a.1, a.2), (b.0, b.1, b.2)) <= 0)
}

proof fn lemma_resolved_total(a: (Seq<char>, Seq<char>, Seq<char>, EvidenceView), b: (Seq<char>, Seq<char>, Seq<char>, EvidenceView))
    ensures
        resolved_le(a, b) || resolved_le(b, a),
{
    lemma_ev_order_basic(a.3, b.3);
    lemma_key_order((a.0, a.1, a.2), (b.0, b.1, b.2));
}

proof fn lemma_resolved_trans(
    a: (Seq<char>, Seq<char>, Seq<char>, EvidenceView),
    b: (Seq<char>, Seq<char>, Seq<char>, EvidenceView),
    c: (Seq<char>, Seq<char>, Seq<char>, EvidenceView),
)
    requires
        resolved_le(a, b),
        resolved_le(b, c),
    ensures
        resolved_le(a, c),
{
    lemma_ev_order_basic(a.3, b.3);
    lemma_ev_order_basic(b.3, c.3);
    lemma_ev_order_basic(a.3, c.3);
    lemma_ev_le_transitive(a.3, b.3, c.3);
    let ka = (a.0, a.1, a.2);
    let kb = (b.0, b.1, b.2);
    let kc = (c.0, c.1, c.2);
    lemma_key_order(ka, kb);
    lemma_key_order(kb, kc);
    lemma_key_order(ka, kc);
    if ev_order(a.3, c.3) == 0 {
        assert(a.3 == c.3);
        if ev_order(a.3, b.3) < 0 {
            assert(ev_order(c.3, b.3) < 0);
        } else {
            assert(a.3 == b.3);
            if key_order(ka, kb) < 0 && key_order(kb, kc) < 0 {
                lemma_key_order_trans(ka, kb, kc);
            }
        }
    }
}

pub open spec fn resolved_sorted(s: Seq<ResolvedEdge>) -> bool {
    forall|i: int, j: int| 0 <= i < j < s.len() ==> resolved_le(resolved_view(#[trigger] s[i]), resolved_view(#[trigger] s[j]))
}

pub open spec fn resolved_views(s: Seq<ResolvedEdge>) -> Seq<(Seq<char>, Seq<char>, Seq<char>, EvidenceView)> {
    s.map_values(|e: ResolvedEdge| resolved_view(e))
}

fn resolved_before(a: &ResolvedEdge, b: &ResolvedEdge) -> (r: bool)
    ensures
        r == resolved_le(resolved_view(*a), resolved_view(*b)),
{
    let c = order_of_evidence(&a.evidence, &b.evidence);
    if c != 0 {
        return c < 0;
    }
    let c = order_of_text(a.from.as_str(), b.from.as_str());
    if c != 0 {
        return c < 0;
    }
    let c = order_of_text(a.to.as_str(), b.to.as_str());
    if c != 0 {
        return c < 0;
    }
    order_of_text(a.kind.as_str(), b.kind.as_str()) <= 0
}

/// Inserts `x` after the dependencies that do not come after it.
fn insert_resolved(out: &mut Vec<ResolvedEdge>, x: ResolvedEdge)
    requires
        resolved_sorted(old(out)@),
    ensures
        resolved_sorted(final(out)@),
        final(out)@.len() == old(out)@.len() + 1,
        resolved_views(final(out)@).to_multiset() == resolved_views(old(out)@).to_multiset().insert(resolved_view(x)),
{
    let ghost o = out@;
    let ghost xv = resolved_view(x);
    let mut pos: usize = 0;
    let mut stop = false;
    while pos < out.len() && !stop
        invariant
            pos <= out@.len(),
            o == out@,
            xv == resolved_view(x),
            forall|i: int| 0 <= i < pos ==> resolved_le(resolved_view(#[trigger] o[i]), xv),
            stop ==> pos < o.len() && !resolved_le(resolved_view(o[pos as int]), xv),
        decreases out@.len() - pos + (if stop { 0int } else { 1int }),
    {
        if resolved_before(&out[pos], &x) {
            pos = pos + 1;
        } else {
            stop = true;
        }
    }
    proof {
        if stop {
            lemma_resolved_total(resolved_view(o[pos as int]), xv);
        }
    }
    out.insert(pos, x);
    proof {
        let n = out@;
        assert(n =~= o.insert(pos as int, x));
        assert forall|i: int, j: int| 0 <= i < j < n.len() implies resolved_le(resolved_view(#[trigger] n[i]), resolved_view(#[trigger] n[j])) by {
            if j < pos {
                assert(n[i] == o[i] && n[j] == o[j]);
            } else if j == pos {
                assert(n[i] == o[i]);
            } else if i < pos {
                assert(n[i] == o[i] && n[j] == o[j - 1]);
                if j - 1 > pos {
                    lemma_resolved_trans(xv, resolved_view(o[pos as int]), resolved_view(o[j - 1]));
                }
                lemma_resolved_trans(resolved_view(o[i]), xv, resolved_view(o[j - 1]));
            } else if i == pos {
                assert(n[j] == o[j - 1]);
                if j - 1 > pos {
                    lemma_resolved_trans(xv, resolved_view(o[pos as int]), resolved_view(o[j - 1]));
                }
            } else {
                assert(n[i] == o[i - 1] && n[j] == o[j - 1]);
            }
        }
        assert(resolved_views(n) =~= resolved_views(o).insert(pos as int, xv));
        vstd::seq_lib::to_multiset_insert(resolved_views(o), pos as int, xv);
    }
}

/// The resolved dependencies of the first `n` observations, in order.
pub open spec fn resolved_upto(root: Seq<char>, files: Seq<CompiledFile>, edges: Seq<CodeEdge>, n: nat) -> Seq<(Seq<char>, Seq<char>, Seq<char>, EvidenceView)>
    decreases n,
{
    if n == 0 {
        Seq::empty()
    } else {
        let prev = resolved_upto(root, files, edges, (n - 1) as nat);
        match placement(root, files, edges[n - 1]) {
            Ok(x) => prev.push(x),
            Err(_) => prev,
        }
    }
}

/// The anomalies of the first `n` observations, each counted once, keyed by
/// their files and message.
pub open spec fn anomaly_items(root: Seq<char>, files: Seq<CompiledFile>, edges: Seq<CodeEdge>, n: nat) -> Seq<((Seq<char>, Seq<char>, Seq<char>, EdgeOrigin), nat)>
    decreases n,
{
    if n == 0 {
        Seq::empty()
    } else {
        let prev = anomaly_items(root, files, edges, (n - 1) as nat);
        match placement(root, files, edges[n - 1]) {
            Ok(_) => prev,
            Err(k) => prev.push(((k.0, k.1, k.2, EdgeOrigin::Observed), 1nat)),
        }
    }
}

/// The anomalies by files and message, ascending, each with how many
/// observations have it.
pub open spec fn anomalies_fit(an: Seq<ProviderAnomaly>, items: Seq<((Seq<char>, Seq<char>, Seq<char>, EdgeOrigin), nat)>) -> bool {
    &&& forall|i: int, j: int| 0 <= i < j < an.len() ==> key_order(
        ((#[trigger] an[i]).from_file@, an[i].to_file@, an[i].message@), ((#[trigger] an[j]).from_file@, an[j].to_file@, an[j].message@)) < 0
    &&& forall|k: (Seq<char>, Seq<char>, Seq<char>)| #[trigger] has_anomaly(an, k) <==> present(items, (k.0, k.1, k.2, EdgeOrigin::Observed))
    &&& forall|i: int| 0 <= i < an.len() ==> (#[trigger] an[i]).count as nat == total(items, (an[i].from_file@, an[i].to_file@, an[i].message@, EdgeOrigin::Observed))
}

pub open spec fn has_anomaly(an: Seq<ProviderAnomaly>, k: (Seq<char>, Seq<char>, Seq<char>)) -> bool {
    exists|i: int| 0 <= i < an.len() && ((#[trigger] an[i]).from_file@, an[i].to_file@, an[i].message@) == k
}

proof fn lemma_sum_ones(s: Seq<((Seq<char>, Seq<char>, Seq<char>, EdgeOrigin), nat)>)
    requires
        forall|i: int| 0 <= i < s.len() ==> (#[trigger] s[i]).1 == 1,
    ensures
        sum_all(s) == s.len(),
    decreases s.len(),
{
    if s.len() > 0 {
        assert(s[s.len() - 1].1 == 1);
        lemma_sum_ones(s.drop_last());
    }
}

/// Places the provider's observations. An observation with a blank kind or
/// a confidence that is not finite refuses them all (the first such one is
/// named). Otherwise the resolved dependencies come out ordered by evidence,
/// then nodes and kind, and the anomalies by files and message, each with
/// how many observations have it.
pub fn resolve_observed(root: &str, files: &Vec<CompiledFile>, edges: &Vec<CodeEdge>) -> (r: Result<(Vec<ResolvedEdge>, Vec<ProviderAnomaly>), String>)
    requires
        edges@.len() < usize::MAX,
    ensures
        match r {
            Err(m) => exists|i: int| {
                &&& 0 <= i < edges@.len()
                &&& !acceptable(#[trigger] edges@[i])
                &&& (forall|j: int| 0 <= j < i ==> acceptable(#[trigger] edges@[j]))
                &&& m@ == unacceptable_text(edges@[i])
            },
            Ok((resolved, anomalies)) => {
                &&& forall|i: int| 0 <= i < edges@.len() ==> acceptable(#[trigger] edges@[i])
                &&& resolved@.len() <= edges@.len()
                &&& resolved_sorted(resolved@)
                &&& resolved_views(resolved@).to_multiset() == resolved_upto(root@, files@, edges@, edges@.len()).to_multiset()
                &&& anomalies_fit(anomalies@, anomaly_items(root@, files@, edges@, edges@.len()))
            },
        },
{
    let mut i: usize = 0;
    while i < edges.len()
        invariant
            i <= edges@.len(),
            forall|j: int| 0 <= j < i ==> acceptable(#[trigger] edges@[j]),
        decreases edges@.len() - i,
    {
        let e = &edges[i];
        let bad_confidence = match e.confidence {
            Some(b) => (b / 0x10_0000_0000_0000) % 0x800 == 0x7ff,
            None => false,
        };
        if is_blank(e.kind.as_str()) || bad_confidence {
            let m = cat5("provider returned an empty edge kind or non-finite confidence for `", e.from_file.as_str(), "` -> `", e.to_file.as_str(), "`; fix provider compatibility");
            proof {
                assert(!acceptable(edges@[i as int]));
            }
            return Err(m);
        }
        i = i + 1;
    }
    let mut resolved: Vec<ResolvedEdge> = Vec::new();
    let mut items: Vec<(EdgeKey, usize)> = Vec::new();
    let mut k: usize = 0;
    proof {
        broadcast use vstd::seq_lib::group_to_multiset_ensures;
        assert(resolved_views(resolved@) =~= Seq::empty());
        assert(resolved_upto(root@, files@, edges@, 0) =~= Seq::empty());
        assert(crate::snapshot::counts::item_views(items@) =~= Seq::empty());
    }
    while k < edges.len()
        invariant
            k <= edges@.len(),
            edges@.len() < usize::MAX,
            resolved_sorted(resolved@),
            resolved_views(resolved@).to_multiset() == resolved_upto(root@, files@, edges@, k as nat).to_multiset(),
            crate::snapshot::counts::item_views(items@) == anomaly_items(root@, files@, edges@, k as nat),
            items@.len() <= k,
            resolved@.len() <= k,
            forall|j: int| 0 <= j < items@.len() ==> (#[trigger] items@[j]).1 == 1 && items@[j].0.origin == EdgeOrigin::Observed,
        decreases edges@.len() - k,
    {
        let ghost iv = crate::snapshot::counts::item_views(items@);
        match place(root, files, &edges[k]) {
            Ok(x) => {
                let ghost xv = resolved_view(x);
                insert_resolved(&mut resolved, x);
                proof {
                    let u = resolved_upto(root@, files@, edges@, k as nat);
                    vstd::seq_lib::to_multiset_build(u, xv);
                    assert(resolved_upto(root@, files@, edges@, (k + 1) as nat) == u.push(xv));
                }
            },
            Err((from, to, message)) => {
                let ghost kv = (from@, to@, message@);
                items.push((EdgeKey { from, to, kind: message, origin: EdgeOrigin::Observed }, 1));
                proof {
                    assert(crate::snapshot::counts::item_views(items@) =~= iv.push(((kv.0, kv.1, kv.2, EdgeOrigin::Observed), 1nat)));
                }
            },
        }
        k = k + 1;
    }
    proof {
        let iv = crate::snapshot::counts::item_views(items@);
        assert forall|j: int| 0 <= j < iv.len() implies (#[trigger] iv[j]).1 == 1 by {
            assert(items@[j].1 == 1);
        }
        lemma_sum_ones(iv);
        assert forall|m: int| 0 <= m < iv.len() implies (#[trigger] iv[m]).0.3 == EdgeOrigin::Observed by {
            assert(items@[m].0.origin == EdgeOrigin::Observed);
        }
    }
    let (keys, counts) = tally(&items);
    let ghost st = anomaly_items(root@, files@, edges@, edges@.len() as nat);
    let mut anomalies: Vec<ProviderAnomaly> = Vec::new();
    let mut t: usize = 0;
    while t < keys.len()
        invariant
            t <= keys@.len(),
            tally_of(keys@, counts@, st),
            forall|m: int| 0 <= m < st.len() ==> (#[trigger] st[m]).0.3 == EdgeOrigin::Observed,
            anomalies@.len() == t,
            forall|m: int| 0 <= m < t ==> ((#[trigger] anomalies@[m]).from_file@, anomalies@[m].to_file@, anomalies@[m].message@, EdgeOrigin::Observed)
                == crate::snapshot::counts::ek(keys@[m]) && anomalies@[m].count == counts@[m],
        decreases keys@.len() - t,
    {
        proof {
            assert(crate::snapshot::counts::has_ek(keys@, crate::snapshot::counts::ek(keys@[t as int])));
            let e = crate::snapshot::counts::ek(keys@[t as int]);
            assert(present(st, e));
            let m = choose|m: int| 0 <= m < st.len() && (#[trigger] st[m]).0 == e;
            assert(st[m].0.3 == EdgeOrigin::Observed);
        }
        let key = &keys[t];
        anomalies.push(ProviderAnomaly { from_file: key.from.clone(), to_file: key.to.clone(), message: key.kind.clone(), count: counts[t] });
        t = t + 1;
    }
    proof {
        let an = anomalies@;
        assert forall|i: int, j: int| 0 <= i < j < an.len() implies key_order(
            ((#[trigger] an[i]).from_file@, an[i].to_file@, an[i].message@), ((#[trigger] an[j]).from_file@, an[j].to_file@, an[j].message@)) < 0 by {
            assert(crate::projection::zoom::group_order(crate::snapshot::counts::ek(keys@[i]), crate::snapshot::counts::ek(keys@[j])) < 0);
        }
        assert forall|q: (Seq<char>, Seq<char>, Seq<char>)| #[trigger] has_anomaly(an, q) <==> present(st, (q.0, q.1, q.2, EdgeOrigin::Observed)) by {
            let e = (q.0, q.1, q.2, EdgeOrigin::Observed);
            if has_anomaly(an, q) {
                let i = choose|i: int| 0 <= i < an.len() && ((#[trigger] an[i]).from_file@, an[i].to_file@, an[i].message@) == q;
                assert(crate::snapshot::counts::ek(keys@[i]) == e);
                assert(crate::snapshot::counts::has_ek(keys@, e));
            }
            if present(st, e) {
                assert(crate::snapshot::counts::has_ek(keys@, e));
                let i = choose|i: int| 0 <= i < keys@.len() && crate::snapshot::counts::ek(#[trigger] keys@[i]) == e;
                assert(((an[i]).from_file@, an[i].to_file@, an[i].message@) == q);
            }
        }
    }
    Ok((resolved, anomalies))
}

/// The last segment of a node ID: what follows its last `.`.
pub open spec fn id_segment(id: Seq<char>) -> Seq<char> {
    match last_dot(id) {
        Some(i) => id.skip(i + 1),
        None => id,
    }
}

fn id_segment_exec(id: &str) -> (r: String)
    ensures
        r@ == id_segment(id@),
{
    let chars = chars_of(id);
    let mut i = chars.len();
    proof {
        assert(id@.take(i as int) =~= id@);
    }
    while i > 0 && chars[i - 1] != '.'
        invariant
            i <= id@.len(),
            chars@ == id@,
            last_dot(id@) == last_dot(id@.take(i as int)),
        decreases i,
    {
        proof {
            assert(id@.take(i as int).drop_last() =~= id@.take(i - 1));
        }
        i = i - 1;
    }
    if i == 0 {
        proof {
            assert(id@.take(0) =~= Seq::<char>::empty());
        }
        string_of(chars.as_slice())
    } else {
        proof {
            assert(id@.take(i as int).last() == '.');
            assert(id@.subrange(i as int, id@.len() as int) =~= id@.skip(i as int));
        }
        string_of(slice_chars(chars.as_slice(), i, chars.len()).as_slice())
    }
}

/// The IDs among the first `n` that are children of `id`, in order.
pub open spec fn children_upto(keys: Seq<Seq<char>>, id: Seq<char>, n: nat) -> Seq<Seq<char>>
    decreases n,
{
    if n == 0 {
        Seq::empty()
    } else {
        let prev = children_upto(keys, id, (n - 1) as nat);
        if parent_of(keys[n - 1]) == Some(id) {
            prev.push(keys[n - 1])
        } else {
            prev
        }
    }
}

/// The paths of the first `n` files that `id` owns directly, in order.
pub open spec fn direct_upto(files: Seq<CompiledFile>, id: Seq<char>, n: nat) -> Seq<Seq<char>>
    decreases n,
{
    if n == 0 {
        Seq::empty()
    } else {
        let prev = direct_upto(files, id, (n - 1) as nat);
        if opt_view(files[n - 1].node) == Some(id) {
            prev.push(files[n - 1].path@)
        } else {
            prev
        }
    }
}

/// The file is mapped to `id` or below it.
pub open spec fn file_within(f: CompiledFile, id: Seq<char>) -> bool {
    f.node matches Some(o) && within(o@, id)
}

/// Some resolved dependency starts or ends at the file.
pub open spec fn observed(resolved: Seq<ResolvedEdge>, path: Seq<char>) -> bool {
    exists|k: int| 0 <= k < resolved.len() && ((#[trigger] resolved[k]).evidence.from_file@ == path || resolved[k].evidence.to_file@ == path)
}

/// How many of the first `n` files lie within `id`, and of those how many
/// a resolved dependency touches and how many the provider did not index.
pub open spec fn counts_upto(files: Seq<CompiledFile>, id: Seq<char>, resolved: Seq<ResolvedEdge>, unindexed: Seq<Seq<char>>, n: nat) -> (nat, nat, nat)
    decreases n,
{
    if n == 0 {
        (0, 0, 0)
    } else {
        let prev = counts_upto(files, id, resolved, unindexed, (n - 1) as nat);
        let f = files[n - 1];
        if file_within(f, id) {
            (prev.0 + 1, prev.1 + if observed(resolved, f.path@) { 1nat } else { 0nat },
                prev.2 + if crate::order::seq_has(unindexed, f.path@) { 1nat } else { 0nat })
        } else {
            prev
        }
    }
}

/// The compiled form of the configured node `keys[i]`: its title (the last
/// segment of its ID unless one is configured), its parent and children,
/// the files it owns directly, and how many files lie within it, are
/// touched by a resolved dependency and were not indexed.
pub open spec fn node_fits(nodes: StrMap<NodeConfig>, i: int, files: Seq<CompiledFile>, resolved: Seq<ResolvedEdge>, unindexed: Seq<Seq<char>>, n: NodeView) -> bool {
    let id = nodes.keys()[i];
    let c = nodes.values()[i];
    let counts = counts_upto(files, id, resolved, unindexed, files.len());
    &&& n.id == id
    &&& n.title == match c.title {
        Some(t) => t@,
        None => id_segment(id),
    }
    &&& n.kind == c.kind
    &&& n.description == opt_view(c.description)
    &&& n.parent == parent_of(id)
    &&& n.children == children_upto(nodes.keys(), id, nodes.keys().len())
    &&& n.direct_files == direct_upto(files, id, files.len())
    &&& n.descendant_file_count as nat == counts.0
    &&& n.observed_file_count as nat == counts.1
    &&& n.unindexed_file_count as nat == counts.2
    &&& n.interfaces == interface_views(c.interfaces@)
}

fn touched(resolved: &Vec<ResolvedEdge>, path: &str) -> (r: bool)
    ensures
        r == observed(resolved@, path@),
{
    let mut k: usize = 0;
    while k < resolved.len()
        invariant
            k <= resolved@.len(),
            forall|j: int| 0 <= j < k ==> !((#[trigger] resolved@[j]).evidence.from_file@ == path@ || resolved@[j].evidence.to_file@ == path@),
        decreases resolved@.len() - k,
    {
        if str_eq(resolved[k].evidence.from_file.as_str(), path) || str_eq(resolved[k].evidence.to_file.as_str(), path) {
            return true;
        }
        k = k + 1;
    }
    false
}

fn listed_path(paths: &Vec<String>, path: &str) -> (r: bool)
    ensures
        r == crate::order::seq_has(crate::text::views(paths@), path@),
{
    let mut k: usize = 0;
    while k < paths.len()
        invariant
            k <= paths@.len(),
            forall|j: int| 0 <= j < k ==> paths@[j]@ != path@,
        decreases paths@.len() - k,
    {
        if str_eq(paths[k].as_str(), path) {
            proof {
                assert(crate::text::views(paths@)[k as int] == path@);
            }
            return true;
        }
        k = k + 1;
    }
    proof {
        assert forall|j: int| 0 <= j < paths@.len() implies crate::text::views(paths@)[j] != path@ by {
            assert(crate::text::views(paths@)[j] == paths@[j]@);
        }
    }
    false
}

/// The configured node `keys[i]` as it is compiled.
fn compile_node(nodes: &StrMap<NodeConfig>, i: usize, files: &Vec<CompiledFile>, resolved: &Vec<ResolvedEdge>, unindexed: &Vec<String>) -> (r: CompiledNode)
    requires
        i < nodes.keys().len(),
    ensures
        node_fits(*nodes, i as int, files@, resolved@, crate::text::views(unindexed@), node_view(r)),
{
    let id = nodes.key(i);
    let c = nodes.value(i);
    let ghost uv = crate::text::views(unindexed@);
    let title = match &c.title {
        Some(t) => t.clone(),
        None => id_segment_exec(id.as_str()),
    };
    let mut children: Vec<String> = Vec::new();
    let mut k: usize = 0;
    while k < nodes.len()
        invariant
            k <= nodes.keys().len(),
            id@ == nodes.keys()[i as int],
            crate::text::views(children@) == children_upto(nodes.keys(), id@, k as nat),
        decreases nodes.keys().len() - k,
    {
        let other = nodes.key(k);
        let p = parent_id(other.as_str());
        let is_child = match &p {
            Some(pp) => str_eq(pp.as_str(), id.as_str()),
            None => false,
        };
        if is_child {
            let ghost before = children@;
            children.push(other.clone());
            proof {
                assert(crate::text::views(children@) =~= crate::text::views(before).push(other@));
            }
        }
        k = k + 1;
    }
    let mut direct: Vec<String> = Vec::new();
    let mut within_count: usize = 0;
    let mut observed_count: usize = 0;
    let mut unindexed_count: usize = 0;
    let mut f: usize = 0;
    while f < files.len()
        invariant
            f <= files@.len(),
            id@ == nodes.keys()[i as int],
            uv == crate::text::views(unindexed@),
            crate::text::views(direct@) == direct_upto(files@, id@, f as nat),
            (within_count as nat, observed_count as nat, unindexed_count as nat) == counts_upto(files@, id@, resolved@, uv, f as nat),
            within_count <= f,
            observed_count <= f,
            unindexed_count <= f,
        decreases files@.len() - f,
    {
        let file = &files[f];
        match &file.node {
            Some(o) => {
                if str_eq(o.as_str(), id.as_str()) {
                    let ghost before = direct@;
                    direct.push(file.path.clone());
                    proof {
                        assert(crate::text::views(direct@) =~= crate::text::views(before).push(file.path@));
                    }
                }
                if is_within(o.as_str(), id.as_str()) {
                    within_count = within_count + 1;
                    if touched(resolved, file.path.as_str()) {
                        observed_count = observed_count + 1;
                    }
                    if listed_path(unindexed, file.path.as_str()) {
                        unindexed_count = unindexed_count + 1;
                    }
                }
            },
            None => {},
        }
        f = f + 1;
    }
    CompiledNode {
        id: id.clone(),
        title,
        kind: c.kind,
        description: copy_opt(&c.description),
        parent: parent_id(id.as_str()),
        children,
        direct_files: direct,
        descendant_file_count: within_count,
        observed_file_count: observed_count,
        unindexed_file_count: unindexed_count,
        interfaces: copy_interfaces(&c.interfaces),
    }
}

/// The map holds the compiled form of the configured node `keys[j]`.
pub open spec fn compiled_at(r: StrMap<CompiledNode>, nodes: StrMap<NodeConfig>, j: int, files: Seq<CompiledFile>, resolved: Seq<ResolvedEdge>, unindexed: Seq<Seq<char>>) -> bool {
    match r.lookup(nodes.keys()[j]) {
        Some(n) => node_fits(nodes, j, files, resolved, unindexed, node_view(n)),
        None => false,
    }
}

/// The configured nodes as compiled, by ID.
pub fn compile_nodes(nodes: &StrMap<NodeConfig>, files: &Vec<CompiledFile>, resolved: &Vec<ResolvedEdge>, unindexed: &Vec<String>) -> (r: StrMap<CompiledNode>)
    ensures
        forall|x: Seq<char>| #[trigger] crate::order::seq_has(r.keys(), x) <==> crate::order::seq_has(nodes.keys(), x),
        forall|i: int| 0 <= i < nodes.keys().len() ==> #[trigger] compiled_at(r, *nodes, i, files@, resolved@, crate::text::views(unindexed@)),
{
    let mut out: StrMap<CompiledNode> = StrMap::new();
    let mut i: usize = 0;
    nodes.keys_sorted();
    while i < nodes.len()
        invariant
            i <= nodes.keys().len(),
            crate::order::strictly_sorted(nodes.keys()),
            forall|x: Seq<char>| #[trigger] crate::order::seq_has(out.keys(), x) <==> exists|j: int| 0 <= j < i && nodes.keys()[j] == x,
            forall|j: int| 0 <= j < i ==> #[trigger] compiled_at(out, *nodes, j, files@, resolved@, crate::text::views(unindexed@)),
        decreases nodes.keys().len() - i,
    {
        let node = compile_node(nodes, i, files, resolved, unindexed);
        let key = nodes.key(i).clone();
        let ghost o = out;
        let ghost kv = key@;
        out.insert(key, node);
        proof {
            assert forall|j: int| 0 <= j < i + 1 implies #[trigger] compiled_at(out, *nodes, j, files@, resolved@, crate::text::views(unindexed@)) by {
                if j < i {
                    assert(compiled_at(o, *nodes, j, files@, resolved@, crate::text::views(unindexed@)));
                    assert(crate::order::lex_lt(nodes.keys()[j], nodes.keys()[i as int]));
                    assert(nodes.keys()[j] != kv);
                    assert(out.lookup(nodes.keys()[j]) == o.lookup(nodes.keys()[j]));
                }
            }
            assert forall|x: Seq<char>| #[trigger] crate::order::seq_has(out.keys(), x) <==> exists|j: int| 0 <= j < i + 1 && nodes.keys()[j] == x by {
                if x == kv {
                    assert(nodes.keys()[i as int] == x);
                }
                if exists|j: int| 0 <= j < i + 1 && nodes.keys()[j] == x {
                    let j = choose|j: int| 0 <= j < i + 1 && nodes.keys()[j] == x;
                    if j < i {
                        assert(crate::order::seq_has(o.keys(), x));
                    }
                }
            }
        }
        i = i + 1;
    }
    proof {
        assert forall|x: Seq<char>| #[trigger] crate::order::seq_has(out.keys(), x) <==> crate::order::seq_has(nodes.keys(), x) by {
            if crate::order::seq_has(nodes.keys(), x) {
                let j = choose|j: int| 0 <= j < nodes.keys().len() && nodes.keys()[j] == x;
            }
        }
    }
    out
}

pub open spec fn mkey(m: ManualEdgeConfig) -> (Seq<char>, Seq<char>, Seq<char>) {
    (m.from@, m.to@, m.kind@)
}

/// The manual edges among the first `n` with key `k`, in order.
pub open spec fn with_mkey(ms: Seq<ManualEdgeConfig>, k: (Seq<char>, Seq<char>, Seq<char>), n: nat) -> Seq<(Seq<char>, Seq<char>, Seq<char>, Seq<char>, Option<Seq<char>>, Option<Seq<char>>)>
    decreases n,
{
    if n == 0 {
        Seq::empty()
    } else {
        let prev = with_mkey(ms, k, (n - 1) as nat);
        if mkey(ms[n - 1]) == k {
            prev.push(manual_view(ms[n - 1]))
        } else {
            prev
        }
    }
}

pub open spec fn has_mkey(ms: Seq<ManualEdgeConfig>, k: (Seq<char>, Seq<char>, Seq<char>), n: nat) -> bool {
    exists|i: int| 0 <= i < n && #[trigger] mkey(ms[i]) == k
}

pub open spec fn tkey(t: (String, String, String)) -> (Seq<char>, Seq<char>, Seq<char>) {
    (t.0@, t.1@, t.2@)
}

fn order_against(a: &(String, String, String), m: &ManualEdgeConfig) -> (r: i8)
    ensures
        r == key_order(tkey(*a), mkey(*m)),
{
    let c = order_of_text(a.0.as_str(), m.from.as_str());
    if c != 0 {
        return c;
    }
    let c = order_of_text(a.1.as_str(), m.to.as_str());
    if c != 0 {
        return c;
    }
    order_of_text(a.2.as_str(), m.kind.as_str())
}

/// The architecture's manual edges grouped by source, target and kind: one
/// manual dependency per group, in ascending order, counting and listing its
/// edges in configuration order.
pub fn manual_groups(ms: &Vec<ManualEdgeConfig>) -> (r: Vec<CompiledEdge>)
    ensures
        forall|i: int, j: int| 0 <= i < j < r@.len() ==> key_order(compiled_key(#[trigger] r@[i]), compiled_key(#[trigger] r@[j])) < 0,
        forall|k: (Seq<char>, Seq<char>, Seq<char>)| (exists|i: int| 0 <= i < r@.len() && compiled_key(#[trigger] r@[i]) == k)
            <==> #[trigger] has_mkey(ms@, k, ms@.len() as nat),
        forall|i: int| 0 <= i < r@.len() ==> {
            let e = #[trigger] r@[i];
            &&& e.origin == EdgeOrigin::Manual
            &&& e.evidence@.len() == 0
            &&& e.confidence_min is None
            &&& e.confidence_max is None
            &&& manual_views(e.manual_edges@) == with_mkey(ms@, compiled_key(e), ms@.len() as nat)
            &&& e.count == e.manual_edges@.len()
        },
{
    let mut keys: Vec<(String, String, String)> = Vec::new();
    let mut lists: Vec<Vec<ManualEdgeConfig>> = Vec::new();
    let mut n: usize = 0;
    while n < ms.len()
        invariant
            n <= ms@.len(),
            keys@.len() == lists@.len(),
            forall|i: int, j: int| 0 <= i < j < keys@.len() ==> key_order(tkey(#[trigger] keys@[i]), tkey(#[trigger] keys@[j])) < 0,
            forall|k: (Seq<char>, Seq<char>, Seq<char>)| (exists|i: int| 0 <= i < keys@.len() && tkey(#[trigger] keys@[i]) == k)
                <==> #[trigger] has_mkey(ms@, k, n as nat),
            forall|i: int| 0 <= i < keys@.len() ==> manual_views((#[trigger] lists@[i])@) == with_mkey(ms@, tkey(keys@[i]), n as nat),
        decreases ms@.len() - n,
    {
        let m = &ms[n];
        let ghost x = mkey(*m);
        let ghost ok = keys@;
        let ghost ol = lists@;
        let mut pos: usize = 0;
        let mut stop = false;
        while pos < keys.len() && !stop
            invariant
                pos <= keys@.len(),
                ok == keys@,
                x == mkey(*m),
                forall|i: int| 0 <= i < pos ==> key_order(tkey(#[trigger] ok[i]), x) < 0,
                stop ==> pos < ok.len() && key_order(tkey(ok[pos as int]), x) >= 0,
            decreases keys@.len() - pos + (if stop { 0int } else { 1int }),
        {
            if order_against(&keys[pos], m) < 0 {
                pos = pos + 1;
            } else {
                stop = true;
            }
        }
        proof {
            assert forall|k: (Seq<char>, Seq<char>, Seq<char>)| #[trigger] has_mkey(ms@, k, (n + 1) as nat) <==> (has_mkey(ms@, k, n as nat) || k == x) by {
                if has_mkey(ms@, k, (n + 1) as nat) {
                    let i = choose|i: int| 0 <= i < n + 1 && #[trigger] mkey(ms@[i]) == k;
                }
                if k == x {
                    assert(mkey(ms@[n as int]) == k);
                }
            }
        }
        if stop && order_against(&keys[pos], m) == 0 {
            proof {
                lemma_key_order(tkey(ok[pos as int]), x);
            }
            let mut l = lists.remove(pos);
            l.push(m.duplicate());
            lists.insert(pos, l);
            proof {
                assert(lists@ =~= ol.update(pos as int, lists@[pos as int]));
                assert(manual_views(lists@[pos as int]@) =~= manual_views(ol[pos as int]@).push(manual_view(*m)));
                assert forall|i: int| 0 <= i < keys@.len() implies manual_views((#[trigger] lists@[i])@) == with_mkey(ms@, tkey(keys@[i]), (n + 1) as nat) by {
                    if i != pos {
                        assert(lists@[i] == ol[i]);
                        if tkey(ok[i]) == x {
                            lemma_key_order(tkey(ok[i]), tkey(ok[pos as int]));
                            if i < pos {
                                assert(key_order(tkey(ok[i]), tkey(ok[pos as int])) < 0);
                            } else {
                                assert(key_order(tkey(ok[pos as int]), tkey(ok[i])) < 0);
                            }
                        }
                    }
                }
                assert forall|k: (Seq<char>, Seq<char>, Seq<char>)| (exists|i: int| 0 <= i < keys@.len() && tkey(#[trigger] keys@[i]) == k)
                    <==> #[trigger] has_mkey(ms@, k, (n + 1) as nat) by {
                    if k == x {
                        assert(tkey(keys@[pos as int]) == k);
                    }
                }
            }
        } else {
            proof {
                if stop {
                    lemma_key_order(tkey(ok[pos as int]), x);
                }
                assert forall|i: int| 0 <= i < ok.len() implies tkey(#[trigger] ok[i]) != x by {
                    if i >= pos {
                        assert(stop);
                        if i > pos {
                            assert(key_order(tkey(ok[pos as int]), tkey(ok[i])) < 0);
                            lemma_key_order(tkey(ok[pos as int]), x);
                            if tkey(ok[i]) == x {
                                assert(key_order(tkey(ok[pos as int]), x) < 0);
                            }
                        }
                    }
                }
            }
            let key = (m.from.clone(), m.to.clone(), m.kind.clone());
            let mut l: Vec<ManualEdgeConfig> = Vec::new();
            l.push(m.duplicate());
            keys.insert(pos, key);
            lists.insert(pos, l);
            proof {
                let nk = keys@;
                let nl = lists@;
                assert(nk =~= ok.insert(pos as int, nk[pos as int]));
                assert(nl =~= ol.insert(pos as int, nl[pos as int]));
                assert(tkey(nk[pos as int]) == x);
                assert forall|i: int, j: int| 0 <= i < j < nk.len() implies key_order(tkey(#[trigger] nk[i]), tkey(#[trigger] nk[j])) < 0 by {
                    if j < pos {
                        assert(nk[i] == ok[i] && nk[j] == ok[j]);
                    } else if j == pos {
                        assert(nk[i] == ok[i]);
                    } else if i < pos {
                        assert(nk[i] == ok[i] && nk[j] == ok[j - 1]);
                        lemma_key_order(tkey(ok[pos as int]), x);
                        if j - 1 > pos {
                            lemma_key_order_trans(x, tkey(ok[pos as int]), tkey(ok[j - 1]));
                        }
                        lemma_key_order_trans(tkey(ok[i]), x, tkey(ok[j - 1]));
                    } else if i == pos {
                        assert(nk[j] == ok[j - 1]);
                        lemma_key_order(tkey(ok[pos as int]), x);
                        if j - 1 > pos {
                            lemma_key_order_trans(x, tkey(ok[pos as int]), tkey(ok[j - 1]));
                        }
                    } else {
                        assert(nk[i] == ok[i - 1] && nk[j] == ok[j - 1]);
                    }
                }
                assert forall|i: int| 0 <= i < nk.len() implies manual_views((#[trigger] nl[i])@) == with_mkey(ms@, tkey(nk[i]), (n + 1) as nat) by {
                    if i < pos {
                        assert(nl[i] == ol[i] && nk[i] == ok[i]);
                    } else if i > pos {
                        assert(nl[i] == ol[i - 1] && nk[i] == ok[i - 1]);
                    } else {
                        assert(!has_mkey(ms@, x, n as nat));
                        lemma_with_mkey_absent(ms@, x, n as nat);
                        assert(manual_views(nl[i]@) =~= seq![manual_view(*m)]);
                    }
                }
                assert forall|k: (Seq<char>, Seq<char>, Seq<char>)| (exists|i: int| 0 <= i < nk.len() && tkey(#[trigger] nk[i]) == k)
                    <==> #[trigger] has_mkey(ms@, k, (n + 1) as nat) by {
                    if exists|i: int| 0 <= i < nk.len() && tkey(#[trigger] nk[i]) == k {
                        let i = choose|i: int| 0 <= i < nk.len() && tkey(#[trigger] nk[i]) == k;
                        if i < pos {
                            assert(nk[i] == ok[i]);
                        } else if i > pos {
                            assert(nk[i] == ok[i - 1]);
                        }
                    }
                    if has_mkey(ms@, k, n as nat) {
                        let i = choose|i: int| 0 <= i < ok.len() && tkey(#[trigger] ok[i]) == k;
                        if i < pos {
                            assert(nk[i] == ok[i]);
                        } else {
                            assert(nk[i + 1] == ok[i]);
                        }
                    }
                    if k == x {
                        assert(tkey(nk[pos as int]) == k);
                    }
                }
            }
        }
        n = n + 1;
    }
    let mut out: Vec<CompiledEdge> = Vec::new();
    let mut i: usize = 0;
    while i < keys.len()
        invariant
            i <= keys@.len(),
            keys@.len() == lists@.len(),
            out@.len() == i,
            forall|j: int| 0 <= j < i ==> compiled_key(#[trigger] out@[j]) == tkey(keys@[j]),
            forall|j: int| 0 <= j < i ==> {
                let e = #[trigger] out@[j];
                &&& e.origin == EdgeOrigin::Manual
                &&& e.evidence@.len() == 0
                &&& e.confidence_min is None
                &&& e.confidence_max is None
                &&& manual_views(e.manual_edges@) == manual_views(lists@[j]@)
                &&& e.count == e.manual_edges@.len()
            },
        decreases keys@.len() - i,
    {
        let edges = copy_manuals(&lists[i]);
        let count = edges.len();
        out.push(CompiledEdge {
            from: keys[i].0.clone(),
            to: keys[i].1.clone(),
            kind: keys[i].2.clone(),
            origin: EdgeOrigin::Manual,
            count,
            evidence: Vec::new(),
            confidence_min: None,
            confidence_max: None,
            manual_edges: edges,
        });
        i = i + 1;
    }
    proof {
        assert forall|k: (Seq<char>, Seq<char>, Seq<char>)| (exists|i: int| 0 <= i < out@.len() && compiled_key(#[trigger] out@[i]) == k)
            <==> #[trigger] has_mkey(ms@, k, ms@.len() as nat) by {
            if exists|i: int| 0 <= i < out@.len() && compiled_key(#[trigger] out@[i]) == k {
                let i = choose|i: int| 0 <= i < out@.len() && compiled_key(#[trigger] out@[i]) == k;
                assert(tkey(keys@[i]) == k);
            }
            if has_mkey(ms@, k, ms@.len() as nat) {
                let i = choose|i: int| 0 <= i < keys@.len() && tkey(#[trigger] keys@[i]) == k;
                assert(compiled_key(out@[i]) == k);
            }
        }
        assert forall|i: int, j: int| 0 <= i < j < out@.len() implies key_order(compiled_key(#[trigger] out@[i]), compiled_key(#[trigger] out@[j])) < 0 by {
            assert(key_order(tkey(keys@[i]), tkey(keys@[j])) < 0);
        }
        assert forall|i: int| 0 <= i < out@.len() implies manual_views((#[trigger] out@[i]).manual_edges@) == with_mkey(ms@, compiled_key(out@[i]), ms@.len() as nat) by {
            assert(manual_views(lists@[i]@) == with_mkey(ms@, tkey(keys@[i]), ms@.len() as nat));
        }
    }
    out
}

proof fn lemma_with_mkey_absent(ms: Seq<ManualEdgeConfig>, k: (Seq<char>, Seq<char>, Seq<char>), n: nat)
    requires
        n <= ms.len(),
        !has_mkey(ms, k, n),
    ensures
        with_mkey(ms, k, n) == Seq::<(Seq<char>, Seq<char>, Seq<char>, Seq<char>, Option<Seq<char>>, Option<Seq<char>>)>::empty(),
    decreases n,
{
    if n > 0 {
        assert(!has_mkey(ms, k, (n - 1) as nat)) by {
            if has_mkey(ms, k, (n - 1) as nat) {
                let i = choose|i: int| 0 <= i < n - 1 && #[trigger] mkey(ms[i]) == k;
                assert(mkey(ms[i]) == k);
            }
        }
        assert(mkey(ms[n - 1]) != k);
        lemma_with_mkey_absent(ms, k, (n - 1) as nat);
    }
}

pub open spec fn gk4(e: CompiledEdge) -> (Seq<char>, Seq<char>, Seq<char>, EdgeOrigin) {
    (e.from@, e.to@, e.kind@, e.origin)
}

pub open spec fn has_cv(s: Seq<CompiledEdge>, v: crate::evidence::CompiledView) -> bool {
    exists|i: int| 0 <= i < s.len() && crate::evidence::compiled_view(#[trigger] s[i]) == v
}

fn edge_order(a: &CompiledEdge, b: &CompiledEdge) -> (r: i8)
    ensures
        r == group_order(gk4(*a), gk4(*b)),
{
    let c = order_of_text(a.from.as_str(), b.from.as_str());
    if c != 0 {
        return c;
    }
    let c = order_of_text(a.to.as_str(), b.to.as_str());
    if c != 0 {
        return c;
    }
    let c = order_of_text(a.kind.as_str(), b.kind.as_str());
    if c != 0 {
        return c;
    }
    match (a.origin, b.origin) {
        (EdgeOrigin::Observed, EdgeOrigin::Manual) => -1,
        (EdgeOrigin::Manual, EdgeOrigin::Observed) => 1,
        _ => 0,
    }
}

/// The architecture-level dependencies: the observed ones and the manual
/// ones together, ordered by source, target and kind, observed before manual.
pub fn architecture_edges(observed: Vec<CompiledEdge>, manual: Vec<CompiledEdge>) -> (r: Vec<CompiledEdge>)
    requires
        forall|i: int| 0 <= i < observed@.len() ==> (#[trigger] observed@[i]).origin == EdgeOrigin::Observed,
        forall|i: int| 0 <= i < manual@.len() ==> (#[trigger] manual@[i]).origin == EdgeOrigin::Manual,
        forall|i: int, j: int| 0 <= i < j < observed@.len() ==> key_order(compiled_key(#[trigger] observed@[i]), compiled_key(#[trigger] observed@[j])) < 0,
        forall|i: int, j: int| 0 <= i < j < manual@.len() ==> key_order(compiled_key(#[trigger] manual@[i]), compiled_key(#[trigger] manual@[j])) < 0,
    ensures
        forall|i: int, j: int| 0 <= i < j < r@.len() ==> group_order(gk4(#[trigger] r@[i]), gk4(#[trigger] r@[j])) < 0,
        forall|v: crate::evidence::CompiledView| #[trigger] has_cv(r@, v) <==> (has_cv(observed@, v) || has_cv(manual@, v)),
{
    let ghost obs = observed@;
    let mut out = observed;
    proof {
        assert forall|i: int, j: int| 0 <= i < j < out@.len() implies group_order(gk4(#[trigger] out@[i]), gk4(#[trigger] out@[j])) < 0 by {
            assert(key_order(compiled_key(out@[i]), compiled_key(out@[j])) < 0);
        }
    }
    let mut j: usize = 0;
    while j < manual.len()
        invariant
            j <= manual@.len(),
            forall|i: int| 0 <= i < manual@.len() ==> (#[trigger] manual@[i]).origin == EdgeOrigin::Manual,
            forall|a: int, b: int| 0 <= a < b < manual@.len() ==> key_order(compiled_key(#[trigger] manual@[a]), compiled_key(#[trigger] manual@[b])) < 0,
            forall|a: int, b: int| 0 <= a < b < out@.len() ==> group_order(gk4(#[trigger] out@[a]), gk4(#[trigger] out@[b])) < 0,
            forall|i: int| 0 <= i < out@.len() ==> (#[trigger] out@[i]).origin == EdgeOrigin::Observed
                || exists|q: int| 0 <= q < j && compiled_key(manual@[q]) == compiled_key(out@[i]),
            forall|v: crate::evidence::CompiledView| #[trigger] has_cv(out@, v) <==> (has_cv(obs, v)
                || exists|q: int| 0 <= q < j && crate::evidence::compiled_view(#[trigger] manual@[q]) == v),
        decreases manual@.len() - j,
    {
        let ghost o = out@;
        let ghost x = gk4(manual@[j as int]);
        let mut pos: usize = 0;
        let mut stop = false;
        while pos < out.len() && !stop
            invariant
                pos <= out@.len(),
                o == out@,
                x == gk4(manual@[j as int]),
                j < manual@.len(),
                forall|i: int| 0 <= i < pos ==> group_order(gk4(#[trigger] o[i]), x) <= 0,
                stop ==> pos < o.len() && group_order(gk4(o[pos as int]), x) > 0,
            decreases out@.len() - pos + (if stop { 0int } else { 1int }),
        {
            if edge_order(&out[pos], &manual[j]) <= 0 {
                pos = pos + 1;
            } else {
                stop = true;
            }
        }
        proof {
            assert forall|i: int| 0 <= i < o.len() implies group_order(gk4(#[trigger] o[i]), x) != 0 by {
                lemma_group_order(gk4(o[i]), x);
                if gk4(o[i]) == x {
                    if o[i].origin != EdgeOrigin::Observed {
                        let q = choose|q: int| 0 <= q < j && compiled_key(manual@[q]) == compiled_key(o[i]);
                        assert(key_order(compiled_key(manual@[q]), compiled_key(manual@[j as int])) < 0);
                        lemma_key_order(compiled_key(manual@[q]), compiled_key(manual@[j as int]));
                    }
                }
            }
        }
        let m = manual[j].duplicate();
        let ghost mv = crate::evidence::compiled_view(m);
        out.insert(pos, m);
        proof {
            let n = out@;
            assert(n =~= o.insert(pos as int, n[pos as int]));
            assert(gk4(n[pos as int]) == x);
            if stop {
                lemma_group_order(gk4(o[pos as int]), x);
            }
            assert forall|a: int, b: int| 0 <= a < b < n.len() implies group_order(gk4(#[trigger] n[a]), gk4(#[trigger] n[b])) < 0 by {
                if b < pos {
                    assert(n[a] == o[a] && n[b] == o[b]);
                } else if b == pos {
                    assert(n[a] == o[a]);
                } else if a < pos {
                    assert(n[a] == o[a] && n[b] == o[b - 1]);
                    if b - 1 > pos {
                        lemma_group_order_trans(x, gk4(o[pos as int]), gk4(o[b - 1]));
                    }
                    lemma_group_order_trans(gk4(o[a]), x, gk4(o[b - 1]));
                } else if a == pos {
                    assert(n[b] == o[b - 1]);
                    if b - 1 > pos {
                        lemma_group_order_trans(x, gk4(o[pos as int]), gk4(o[b - 1]));
                    }
                } else {
                    assert(n[a] == o[a - 1] && n[b] == o[b - 1]);
                }
            }
            assert forall|i: int| 0 <= i < n.len() implies (#[trigger] n[i]).origin == EdgeOrigin::Observed
                || exists|q: int| 0 <= q < j + 1 && compiled_key(manual@[q]) == compiled_key(n[i]) by {
                if i < pos {
                    assert(n[i] == o[i]);
                } else if i > pos {
                    assert(n[i] == o[i - 1]);
                } else {
                    assert(compiled_key(manual@[j as int]) == compiled_key(n[i]));
                }
            }
            assert forall|v: crate::evidence::CompiledView| #[trigger] has_cv(n, v) <==> (has_cv(obs, v)
                || exists|q: int| 0 <= q < j + 1 && crate::evidence::compiled_view(#[trigger] manual@[q]) == v) by {
                if has_cv(n, v) {
                    let i = choose|i: int| 0 <= i < n.len() && crate::evidence::compiled_view(#[trigger] n[i]) == v;
                    if i < pos {
                        assert(n[i] == o[i]);
                        assert(has_cv(o, v));
                    } else if i > pos {
                        assert(n[i] == o[i - 1]);
                        assert(has_cv(o, v));
                    } else {
                        assert(crate::evidence::compiled_view(manual@[j as int]) == v);
                    }
                }
                if has_cv(o, v) {
                    let i = choose|i: int| 0 <= i < o.len() && crate::evidence::compiled_view(#[trigger] o[i]) == v;
                    if i < pos {
                        assert(n[i] == o[i]);
                    } else {
                        assert(n[i + 1] == o[i]);
                    }
                }
                if exists|q: int| 0 <= q < j + 1 && crate::evidence::compiled_view(#[trigger] manual@[q]) == v {
                    let q = choose|q: int| 0 <= q < j + 1 && crate::evidence::compiled_view(#[trigger] manual@[q]) == v;
                    if q < j {
                        assert(has_cv(o, v));
                        let i = choose|i: int| 0 <= i < o.len() && crate::evidence::compiled_view(#[trigger] o[i]) == v;
                        if i < pos {
                            assert(n[i] == o[i]);
                        } else {
                            assert(n[i + 1] == o[i]);
                        }
                    } else {
                        assert(crate::evidence::compiled_view(n[pos as int]) == v);
                    }
                }
            }
        }
        j = j + 1;
    }
    proof {
        assert forall|v: crate::evidence::CompiledView| #[trigger] has_cv(out@, v) <==> (has_cv(obs, v) || has_cv(manual@, v)) by {
            if has_cv(manual@, v) {
                let q = choose|q: int| 0 <= q < manual@.len() && crate::evidence::compiled_view(#[trigger] manual@[q]) == v;
            }
        }
    }
    out
}

impl crate::order::Identified for String {
    open spec fn ident(&self) -> Seq<char> {
        self@
    }

    fn ident_str(&self) -> (r: &str) {
        self.as_str()
    }
}

pub open spec fn evidence_notice() -> Seq<char> {
    "Only observed dependencies are checked. No observed edge is not proof that no runtime dependency exists."@
}

/// The warning of observations that could not be placed.
pub open spec fn anomaly_warning(count: nat) -> Seq<char> {
    crate::text::decimal_spec(count) + " provider edge(s) could not be mapped; inspect diagnostics.provider_anomalies in the IR"@
}

fn refs_of(v: &Vec<ResolvedEdge>) -> (r: Vec<&ResolvedEdge>)
    ensures
        crate::evidence::deref_all(r@) == v@,
{
    let mut out: Vec<&ResolvedEdge> = Vec::new();
    let mut i: usize = 0;
    while i < v.len()
        invariant
            i <= v@.len(),
            out@.len() == i,
            crate::evidence::deref_all(out@) == v@.take(i as int),
        decreases v@.len() - i,
    {
        let ghost prev = out@;
        out.push(&v[i]);
        proof {
            assert(out@ == prev.push(&v[i as int]));
            assert forall|j: int| 0 <= j < i + 1 implies crate::evidence::deref_all(out@)[j] == v@.take(i + 1)[j] by {
                if j < i {
                    assert(crate::evidence::deref_all(prev)[j] == v@.take(i as int)[j]);
                    assert(out@[j] == prev[j]);
                }
            }
            assert(crate::evidence::deref_all(out@) =~= v@.take(i + 1));
        }
        i = i + 1;
    }
    proof {
        assert(v@.take(v@.len() as int) =~= v@);
    }
    out
}

/// The compiled architecture of a configuration, from the files as mapped,
/// the provider and what it observed (`provider_rows` rows before
/// filtering, `filtered` of them left out) and the mapped files it did not
/// index. An unacceptable observation refuses the whole; otherwise the
/// resolved dependencies, the anomalies, the nodes, the architecture-level
/// dependencies and the violations are each what the functions that make
/// them state, and the counts are taken from them.
pub fn assemble(
    root: &str,
    validated: ValidatedConfig,
    memberships: Memberships,
    provider: ProviderInfo,
    observed: &Vec<CodeEdge>,
    provider_rows: usize,
    filtered: usize,
    unindexed: Vec<String>,
) -> (r: Result<ArchitectureIr, String>)
    requires
        observed@.len() < usize::MAX,
    ensures
        match r {
            Err(m) => exists|i: int| {
                &&& 0 <= i < observed@.len()
                &&& !acceptable(#[trigger] observed@[i])
                &&& (forall|j: int| 0 <= j < i ==> acceptable(#[trigger] observed@[j]))
                &&& m@ == unacceptable_text(observed@[i])
            },
            Ok(ir) => {
                let files = memberships.files@;
                let config = validated.config;
                &&& forall|i: int| 0 <= i < observed@.len() ==> acceptable(#[trigger] observed@[i])
                &&& ir.schema_version == 1
                &&& ir.project == config.project
                &&& ir.provider == provider
                &&& ir.files@ == files
                &&& resolved_sorted(ir.resolved_edges@)
                &&& resolved_views(ir.resolved_edges@).to_multiset() == resolved_upto(root@, files, observed@, observed@.len()).to_multiset()
                &&& anomalies_fit(ir.diagnostics.provider_anomalies@, anomaly_items(root@, files, observed@, observed@.len()))
                &&& forall|x: Seq<char>| #[trigger] crate::order::seq_has(ir.nodes.keys(), x) <==> crate::order::seq_has(config.nodes.keys(), x)
                &&& forall|i: int| 0 <= i < config.nodes.keys().len() ==> #[trigger] compiled_at(ir.nodes, config.nodes, i, files, ir.resolved_edges@, crate::text::views(unindexed@))
                &&& ir_edges_fit(ir.resolved_edges@, config.edges@, ir.edges@)
                &&& crate::rules::evaluation(config.rules@, ir.resolved_edges@, 20, ir.violations@)
                &&& ir.rules@ == config.rules@
                &&& ir.diagnostics.unassigned_files@ == memberships.diagnostics.unassigned_files@
                &&& ir.diagnostics.unindexed_files@ == unindexed@
                &&& texts_sorted(crate::text::views(ir.diagnostics.warnings@))
                &&& crate::text::views(ir.diagnostics.warnings@).to_multiset() == (if ir.diagnostics.provider_anomalies@.len() == 0 {
                        crate::text::views(memberships.diagnostics.warnings@)
                    } else {
                        crate::text::views(memberships.diagnostics.warnings@).push(anomaly_warning(anomaly_total(ir.diagnostics.provider_anomalies@)))
                    }).to_multiset()
                &&& ir.diagnostics.low_coverage@ == memberships.diagnostics.low_coverage@
                &&& ir.diagnostics.ambiguous_files == memberships.diagnostics.ambiguous_files
                &&& ir.stats.mapped_file_count as nat == mapped_count(files)
                &&& ir.stats.out_of_scope_edge_count == 0
                &&& ir.stats.architecture_node_count == config.nodes.keys().len()
                &&& ir.stats.unassigned_file_count == memberships.diagnostics.unassigned_files@.len()
                &&& ir.stats.ambiguous_file_count == memberships.diagnostics.ambiguous_files.keys().len()
                &&& ir.stats.provider_row_count == provider_rows
                &&& ir.stats.filtered_edge_count == filtered
                &&& ir.stats.observed_edge_count == observed@.len()
                &&& ir.stats.resolved_edge_count == ir.resolved_edges@.len()
                &&& ir.stats.unindexed_file_count == unindexed@.len()
                &&& ir.stats.aggregated_architecture_edge_count == ir.edges@.len()
                &&& ir.stats.violation_count == ir.violations@.len()
                &&& ir.evidence_notice@ == evidence_notice()
            },
        },
{
    let ValidatedConfig { config, mapping_globs: _, mapping_owners: _, exclude_globs: _ } = validated;
    let Memberships { files, diagnostics } = memberships;
    let (resolved, anomalies) = match resolve_observed(root, &files, observed) {
        Ok(p) => p,
        Err(e) => {
            return Err(e);
        },
    };
    let nodes = compile_nodes(&config.nodes, &files, &resolved, &unindexed);
    let edges = ir_edges(&resolved, &config.edges);
    let violations = crate::rules::evaluate(config.rules.as_slice(), resolved.as_slice(), 20);
    let Diagnostics { low_coverage, unassigned_files, ambiguous_files, provider_anomalies: _, unindexed_files: _, warnings } = diagnostics;
    let mut warnings = warnings;
    let ghost base = crate::text::views(warnings@);
    if anomalies.len() > 0 {
        let total = anomaly_total_exec(&anomalies);
        let count = crate::text::decimal(total);
        let text = cat2(count.as_str(), " provider edge(s) could not be mapped; inspect diagnostics.provider_anomalies in the IR");
        let ghost before = warnings@;
        warnings.push(text);
        proof {
            assert(crate::text::views(warnings@) =~= crate::text::views(before).push(anomaly_warning(anomaly_total(anomalies@))));
        }
    }
    let ghost unsorted = crate::text::views(warnings@);
    let warnings = sort_texts(warnings);
    let mapped = mapped_count_exec(&files);
    let unassigned_count = unassigned_files.len();
    let ambiguous_count = ambiguous_files.len();
    let unindexed_count = unindexed.len();
    let stats = CompileStats {
        architecture_node_count: config.nodes.len(),
        mapped_file_count: mapped,
        unassigned_file_count: unassigned_count,
        ambiguous_file_count: ambiguous_count,
        provider_row_count: provider_rows,
        filtered_edge_count: filtered,
        observed_edge_count: observed.len(),
        resolved_edge_count: resolved.len(),
        out_of_scope_edge_count: 0,
        unindexed_file_count: unindexed_count,
        aggregated_architecture_edge_count: edges.len(),
        violation_count: violations.len(),
    };
    let diagnostics = Diagnostics {
        low_coverage,
        unassigned_files,
        ambiguous_files,
        provider_anomalies: anomalies,
        unindexed_files: unindexed,
        warnings,
    };
    let ArchitectureConfig { version: _, project, provider: _, policies: _, nodes: _, edges: _, rules } = config;
    Ok(ArchitectureIr {
        schema_version: 1,
        project,
        provider,
        nodes,
        files,
        resolved_edges: resolved,
        edges,
        rules,
        violations,
        diagnostics,
        stats,
        evidence_notice: String::from_str("Only observed dependencies are checked. No observed edge is not proof that no runtime dependency exists."),
    })
}

/// What the anomalies count together.
pub open spec fn anomaly_total(an: Seq<ProviderAnomaly>) -> nat
    decreases an.len(),
{
    if an.len() == 0 {
        0
    } else {
        anomaly_total(an.drop_last()) + an.last().count as nat
    }
}

fn anomaly_total_exec(an: &Vec<ProviderAnomaly>) -> (r: u128)
    ensures
        r as nat == anomaly_total(an@),
{
    let mut t: u128 = 0;
    let mut i: usize = 0;
    while i < an.len()
        invariant
            i <= an@.len(),
            t as nat == anomaly_total(an@.take(i as int)),
            t <= i * 0xffff_ffff_ffff_ffff,
        decreases an@.len() - i,
    {
        proof {
            assert(an@.take(i + 1).drop_last() =~= an@.take(i as int));
            assert(i * 0xffff_ffff_ffff_ffff + 0xffff_ffff_ffff_ffff <= 0xffff_ffff_ffff_ffff * 0x1_0000_0000_0000_0000) by (nonlinear_arith)
                requires
                    i < 0x1_0000_0000_0000_0000,
            ;
        }
        t = t + an[i].count as u128;
        i = i + 1;
    }
    proof {
        assert(an@.take(an@.len() as int) =~= an@);
    }
    t
}

/// How many files map to a node.
pub open spec fn mapped_count(files: Seq<CompiledFile>) -> nat
    decreases files.len(),
{
    if files.len() == 0 {
        0
    } else {
        mapped_count(files.drop_last()) + if files.last().node is Some {
            1nat
        } else {
            0nat
        }
    }
}

fn mapped_count_exec(files: &Vec<CompiledFile>) -> (r: usize)
    ensures
        r as nat == mapped_count(files@),
{
    let mut t: usize = 0;
    let mut i: usize = 0;
    while i < files.len()
        invariant
            i <= files@.len(),
            t as nat == mapped_count(files@.take(i as int)),
            t <= i,
        decreases files@.len() - i,
    {
        proof {
            assert(files@.take(i + 1).drop_last() =~= files@.take(i as int));
        }
        if files[i].node.is_some() {
            t = t + 1;
        }
        i = i + 1;
    }
    proof {
        assert(files@.take(files@.len() as int) =~= files@);
    }
    t
}

pub open spec fn texts_sorted(s: Seq<Seq<char>>) -> bool {
    forall|i: int, j: int| 0 <= i < j < s.len() ==> crate::order::lex_le(#[trigger] s[i], #[trigger] s[j])
}

/// The texts in ascending order, repetitions kept.
fn sort_texts(v: Vec<String>) -> (r: Vec<String>)
    ensures
        texts_sorted(crate::text::views(r@)),
        crate::text::views(r@).to_multiset() == crate::text::views(v@).to_multiset(),
{
    broadcast use vstd::seq_lib::group_to_multiset_ensures;

    let ghost start = crate::text::views(v@);
    let mut rest = v;
    let mut out: Vec<String> = Vec::new();
    proof {
        assert(crate::text::views(out@) =~= Seq::<Seq<char>>::empty());
    }
    while rest.len() > 0
        invariant
            texts_sorted(crate::text::views(out@)),
            crate::text::views(out@).to_multiset().add(crate::text::views(rest@).to_multiset()) == start.to_multiset(),
        decreases rest@.len(),
    {
        let ghost before_rest = rest@;
        let x = rest.pop().unwrap();
        proof {
            assert(crate::text::views(before_rest) =~= crate::text::views(rest@).push(x@));
        }
        let mut pos: usize = 0;
        let mut stop = false;
        while pos < out.len() && !stop
            invariant
                pos <= out@.len(),
                texts_sorted(crate::text::views(out@)),
                forall|i: int| 0 <= i < pos ==> crate::order::lex_le(#[trigger] out@[i]@, x@),
                stop ==> pos < out@.len() && !crate::order::lex_le(out@[pos as int]@, x@),
            decreases out@.len() - pos + (if stop { 0int } else { 1int }),
        {
            if crate::order::str_le(out[pos].as_str(), x.as_str()) {
                pos = pos + 1;
            } else {
                stop = true;
            }
        }
        let ghost o = crate::text::views(out@);
        proof {
            if pos < o.len() {
                crate::order::lemma_lex_total(o[pos as int], x@);
            }
        }
        let ghost xv = x@;
        out.insert(pos, x);
        proof {
            let n = crate::text::views(out@);
            assert(n =~= o.insert(pos as int, xv));
            assert forall|i: int, j: int| 0 <= i < j < n.len() implies crate::order::lex_le(#[trigger] n[i], #[trigger] n[j]) by {
                if j < pos {
                    assert(n[i] == o[i] && n[j] == o[j]);
                } else if j == pos {
                    assert(n[i] == o[i]);
                    assert(o[i] == out@[i]@);
                } else if i < pos {
                    assert(n[i] == o[i] && n[j] == o[j - 1]);
                    if j - 1 > pos {
                        crate::order::lemma_lex_transitive(xv, o[pos as int], o[j - 1]);
                    }
                    crate::order::lemma_lex_transitive(o[i], xv, o[j - 1]);
                } else if i == pos {
                    assert(n[j] == o[j - 1]);
                    if j - 1 > pos {
                        crate::order::lemma_lex_transitive(xv, o[pos as int], o[j - 1]);
                    }
                } else {
                    assert(n[i] == o[i - 1] && n[j] == o[j - 1]);
                }
            }
            vstd::seq_lib::to_multiset_insert(o, pos as int, xv);
            vstd::seq_lib::to_multiset_build(crate::text::views(rest@), xv);
            assert(n.to_multiset().add(crate::text::views(rest@).to_multiset()) =~= o.to_multiset().add(
                crate::text::views(rest@).push(xv).to_multiset(),
            ));
        }
    }
    proof {
        assert(crate::text::views(rest@).to_multiset() =~= vstd::multiset::Multiset::<Seq<char>>::empty());
        assert(crate::text::views(out@).to_multiset().add(crate::text::views(rest@).to_multiset()) =~= crate::text::views(out@).to_multiset());
    }
    out
}

/// The architecture-level dependencies the compiler draws from the resolved
/// dependencies and the manual edges.
pub open spec fn ir_edges_fit(resolved: Seq<ResolvedEdge>, ms: Seq<ManualEdgeConfig>, es: Seq<CompiledEdge>) -> bool {
    &&& forall|i: int, j: int| 0 <= i < j < es.len() ==> group_order(gk4(#[trigger] es[i]), gk4(#[trigger] es[j])) < 0
    &&& forall|i: int| 0 <= i < es.len() ==> match (#[trigger] es[i]).origin {
                    EdgeOrigin::Observed => crate::evidence::has_key(resolved, compiled_key(es[i]))
                        && crate::evidence::compiled_acc(es[i]) == crate::evidence::acc_of(crate::evidence::with_key(resolved, compiled_key(es[i])), 20)
                        && es[i].manual_edges@.len() == 0,
                    EdgeOrigin::Manual => has_mkey(ms, compiled_key(es[i]), ms.len() as nat)
                        && manual_views(es[i].manual_edges@) == with_mkey(ms, compiled_key(es[i]), ms.len() as nat)
                        && es[i].count == es[i].manual_edges@.len()
                        && es[i].evidence@.len() == 0,
                }
    &&& forall|k: (Seq<char>, Seq<char>, Seq<char>)| crate::evidence::has_key(resolved, k) ==> exists|i: int|
                    0 <= i < es.len() && gk4(#[trigger] es[i]) == (k.0, k.1, k.2, EdgeOrigin::Observed)
    &&& forall|k: (Seq<char>, Seq<char>, Seq<char>)| #[trigger] has_mkey(ms, k, ms.len() as nat) ==> exists|i: int|
                    0 <= i < es.len() && gk4(#[trigger] es[i]) == (k.0, k.1, k.2, EdgeOrigin::Manual)
}

fn ir_edges(resolved: &Vec<ResolvedEdge>, ms: &Vec<ManualEdgeConfig>) -> (r: Vec<CompiledEdge>)
    requires
        resolved@.len() < usize::MAX,
    ensures
        ir_edges_fit(resolved@, ms@, r@),
{
    let refs = refs_of(resolved);
    let observed_edges = crate::evidence::aggregate_observed(refs.as_slice(), 20);
    let manual = manual_groups(ms);
    let ghost oe = observed_edges@;
    let ghost me = manual@;
    let edges = architecture_edges(observed_edges, manual);
    proof {
        assert forall|i: int| 0 <= i < edges@.len() implies match (#[trigger] edges@[i]).origin {
            EdgeOrigin::Observed => crate::evidence::has_key(resolved@, compiled_key(edges@[i]))
                && crate::evidence::compiled_acc(edges@[i]) == crate::evidence::acc_of(crate::evidence::with_key(resolved@, compiled_key(edges@[i])), 20)
                && edges@[i].manual_edges@.len() == 0,
            EdgeOrigin::Manual => has_mkey(ms@, compiled_key(edges@[i]), ms@.len() as nat)
                && manual_views(edges@[i].manual_edges@) == with_mkey(ms@, compiled_key(edges@[i]), ms@.len() as nat)
                && edges@[i].count == edges@[i].manual_edges@.len()
                && edges@[i].evidence@.len() == 0,
        } by {
            let v = crate::evidence::compiled_view(edges@[i]);
            assert(0 <= i < edges@.len() && crate::evidence::compiled_view(edges@[i]) == v);
            assert(has_cv(edges@, v));
            if has_cv(oe, v) {
                let q = choose|q: int| 0 <= q < oe.len() && crate::evidence::compiled_view(#[trigger] oe[q]) == v;
                assert(oe[q].origin == EdgeOrigin::Observed);
                assert(compiled_key(oe[q]) == compiled_key(edges@[i]));
                assert(crate::evidence::compiled_acc(oe[q]) == crate::evidence::compiled_acc(edges@[i]));
                assert(crate::evidence::has_key(crate::evidence::deref_all(refs@), compiled_key(oe[q])));
                assert(crate::config::manual_views(oe[q].manual_edges@).len() == oe[q].manual_edges@.len());
                assert(crate::config::manual_views(edges@[i].manual_edges@).len() == edges@[i].manual_edges@.len());
            } else {
                let q = choose|q: int| 0 <= q < me.len() && crate::evidence::compiled_view(#[trigger] me[q]) == v;
                assert(compiled_key(me[q]) == compiled_key(edges@[i]));
                assert(has_mkey(ms@, compiled_key(me[q]), ms@.len() as nat)) by {
                    assert(exists|j: int| 0 <= j < me.len() && compiled_key(#[trigger] me[j]) == compiled_key(me[q]));
                }
                assert(crate::evidence::ev_views(me[q].evidence@).len() == me[q].evidence@.len());
                assert(crate::evidence::ev_views(edges@[i].evidence@).len() == edges@[i].evidence@.len());
                assert(crate::config::manual_views(me[q].manual_edges@).len() == me[q].manual_edges@.len());
                assert(crate::config::manual_views(edges@[i].manual_edges@).len() == edges@[i].manual_edges@.len());
            }
        }
        assert forall|k: (Seq<char>, Seq<char>, Seq<char>)| crate::evidence::has_key(resolved@, k) implies exists|i: int|
            0 <= i < edges@.len() && gk4(#[trigger] edges@[i]) == (k.0, k.1, k.2, EdgeOrigin::Observed) by {
            assert(crate::evidence::has_key(crate::evidence::deref_all(refs@), k));
            let q = choose|q: int| 0 <= q < oe.len() && compiled_key(#[trigger] oe[q]) == k;
            assert(has_cv(oe, crate::evidence::compiled_view(oe[q])));
            assert(has_cv(edges@, crate::evidence::compiled_view(oe[q])));
            let i = choose|i: int| 0 <= i < edges@.len() && crate::evidence::compiled_view(#[trigger] edges@[i]) == crate::evidence::compiled_view(oe[q]);
            assert(oe[q].origin == EdgeOrigin::Observed);
            assert(gk4(edges@[i]) == (k.0, k.1, k.2, EdgeOrigin::Observed));
        }
        assert forall|k: (Seq<char>, Seq<char>, Seq<char>)| #[trigger] has_mkey(ms@, k, ms@.len() as nat) implies exists|i: int|
            0 <= i < edges@.len() && gk4(#[trigger] edges@[i]) == (k.0, k.1, k.2, EdgeOrigin::Manual) by {
            let q = choose|q: int| 0 <= q < me.len() && compiled_key(#[trigger] me[q]) == k;
            assert(has_cv(me, crate::evidence::compiled_view(me[q])));
            assert(has_cv(edges@, crate::evidence::compiled_view(me[q])));
            let i = choose|i: int| 0 <= i < edges@.len() && crate::evidence::compiled_view(#[trigger] edges@[i]) == crate::evidence::compiled_view(me[q]);
            assert(me[q].origin == EdgeOrigin::Manual);
            assert(gk4(edges@[i]) == (k.0, k.1, k.2, EdgeOrigin::Manual));
        }
    }
    edges
}


/// Where each observation of `s` goes among the resolved dependencies, in order.
pub open spec fn placed(root: Seq<char>, files: Seq<CompiledFile>, s: Seq<CodeEdge>) -> Seq<(Seq<char>, Seq<char>, Seq<char>, EvidenceView)>
    decreases s.len(),
{
    if s.len() == 0 {
        Seq::empty()
    } else {
        let prev = placed(root, files, s.drop_last());
        match placement(root, files, s.last()) {
            Ok(x) => prev.push(x),
            Err(_) => prev,
        }
    }
}

pub open spec fn placed_one(root: Seq<char>, files: Seq<CompiledFile>, x: CodeEdge) -> Multiset<(Seq<char>, Seq<char>, Seq<char>, EvidenceView)> {
    match placement(root, files, x) {
        Ok(v) => Multiset::singleton(v),
        Err(_) => Multiset::empty(),
    }
}

proof fn lemma_upto_placed(root: Seq<char>, files: Seq<CompiledFile>, s: Seq<CodeEdge>, n: nat)
    requires
        n <= s.len(),
    ensures
        resolved_upto(root, files, s, n) == placed(root, files, s.take(n as int)),
    decreases n,
{
    if n > 0 {
        lemma_upto_placed(root, files, s, (n - 1) as nat);
        assert(s.take(n as int).drop_last() =~= s.take(n - 1));
        assert(s.take(n as int).last() == s[n - 1]);
    } else {
        assert(s.take(0) =~= Seq::<CodeEdge>::empty());
    }
}

proof fn lemma_placed_step(root: Seq<char>, files: Seq<CompiledFile>, s: Seq<CodeEdge>)
    requires
        s.len() > 0,
    ensures
        placed(root, files, s).to_multiset() == placed(root, files, s.drop_last()).to_multiset().add(placed_one(root, files, s.last())),
{
    broadcast use vstd::seq_lib::group_to_multiset_ensures;
    broadcast use vstd::multiset::group_multiset_axioms;

    let prev = placed(root, files, s.drop_last());
    match placement(root, files, s.last()) {
        Ok(x) => {
            assert(prev.push(x).to_multiset() =~= prev.to_multiset().insert(x));
            assert(prev.to_multiset().insert(x) =~= prev.to_multiset().add(Multiset::singleton(x)));
        },
        Err(_) => {
            assert(prev.to_multiset().add(Multiset::empty()) =~= prev.to_multiset());
        },
    }
}

proof fn lemma_placed_remove(root: Seq<char>, files: Seq<CompiledFile>, t: Seq<CodeEdge>, k: int)
    requires
        0 <= k < t.len(),
    ensures
        placed(root, files, t).to_multiset() == placed(root, files, t.remove(k)).to_multiset().add(placed_one(root, files, t[k])),
    decreases t.len(),
{
    broadcast use vstd::multiset::group_multiset_axioms;

    lemma_placed_step(root, files, t);
    if k == t.len() - 1 {
        assert(t.remove(k) =~= t.drop_last());
    } else {
        let u = t.remove(k);
        assert(u.drop_last() =~= t.drop_last().remove(k));
        assert(u.last() == t.last());
        lemma_placed_remove(root, files, t.drop_last(), k);
        lemma_placed_step(root, files, u);
        assert(t.drop_last()[k] == t[k]);
        let a = placed(root, files, t.drop_last().remove(k)).to_multiset();
        assert(a.add(placed_one(root, files, t[k])).add(placed_one(root, files, t.last()))
            =~= a.add(placed_one(root, files, t.last())).add(placed_one(root, files, t[k])));
    }
}

proof fn lemma_placed_permuted(root: Seq<char>, files: Seq<CompiledFile>, s: Seq<CodeEdge>, t: Seq<CodeEdge>)
    requires
        s.to_multiset() == t.to_multiset(),
    ensures
        placed(root, files, s).to_multiset() == placed(root, files, t).to_multiset(),
    decreases s.len(),
{
    broadcast use vstd::seq_lib::group_to_multiset_ensures;
    broadcast use vstd::multiset::group_multiset_axioms;

    if s.len() == 0 {
        assert(t.to_multiset().len() == 0);
        assert(t.len() == 0);
    } else {
        let x = s.last();
        assert(s.contains(x)) by {
            assert(s[s.len() - 1] == x);
        }
        vstd::seq_lib::to_multiset_contains(s, x);
        vstd::seq_lib::to_multiset_contains(t, x);
        assert(t.contains(x));
        let k = choose|k: int| 0 <= k < t.len() && t[k] == x;
        assert(s.drop_last().to_multiset() == t.remove(k).to_multiset()) by {
            assert(s =~= s.drop_last().push(x));
            assert(s.drop_last().to_multiset() =~= s.to_multiset().remove(x));
            assert(t.remove(k).to_multiset() =~= t.to_multiset().remove(x));
        }
        lemma_placed_permuted(root, files, s.drop_last(), t.remove(k));
        lemma_placed_step(root, files, s);
        lemma_placed_remove(root, files, t, k);
    }
}

pub open spec fn resolved_leq() -> spec_fn((Seq<char>, Seq<char>, Seq<char>, EvidenceView), (Seq<char>, Seq<char>, Seq<char>, EvidenceView)) -> bool {
    |a: (Seq<char>, Seq<char>, Seq<char>, EvidenceView), b: (Seq<char>, Seq<char>, Seq<char>, EvidenceView)| resolved_le(a, b)
}

proof fn lemma_resolved_total_ordering()
    ensures
        vstd::relations::total_ordering(resolved_leq()),
{
    let r = resolved_leq();
    assert forall|a: (Seq<char>, Seq<char>, Seq<char>, EvidenceView)| #[trigger] r(a, a) by {
        lemma_ev_order_basic(a.3, a.3);
        lemma_key_order((a.0, a.1, a.2), (a.0, a.1, a.2));
    }
    assert forall|a: (Seq<char>, Seq<char>, Seq<char>, EvidenceView), b: (Seq<char>, Seq<char>, Seq<char>, EvidenceView)|
        #[trigger] r(a, b) && #[trigger] r(b, a) implies a == b by {
        lemma_ev_order_basic(a.3, b.3);
        lemma_key_order((a.0, a.1, a.2), (b.0, b.1, b.2));
    }
    assert forall|a: (Seq<char>, Seq<char>, Seq<char>, EvidenceView), b: (Seq<char>, Seq<char>, Seq<char>, EvidenceView),
        c: (Seq<char>, Seq<char>, Seq<char>, EvidenceView)| #[trigger] r(a, b) && #[trigger] r(b, c) implies r(a, c) by {
        lemma_resolved_trans(a, b, c);
    }
    assert forall|a: (Seq<char>, Seq<char>, Seq<char>, EvidenceView), b: (Seq<char>, Seq<char>, Seq<char>, EvidenceView)|
        #[trigger] r(a, b) || #[trigger] r(b, a) by {
        lemma_resolved_total(a, b);
    }
}

/// The resolved dependencies do not depend on the order the provider
/// reported its observations in: two results for the same observations in
/// any order list the same dependencies in the same order.
pub proof fn lemma_resolved_order_independent(
    root: Seq<char>,
    files: Seq<CompiledFile>,
    observed: Seq<CodeEdge>,
    shuffled: Seq<CodeEdge>,
    r1: Seq<ResolvedEdge>,
    r2: Seq<ResolvedEdge>,
)
    requires
        observed.to_multiset() == shuffled.to_multiset(),
        resolved_sorted(r1),
        resolved_views(r1).to_multiset() == resolved_upto(root, files, observed, observed.len()).to_multiset(),
        resolved_sorted(r2),
        resolved_views(r2).to_multiset() == resolved_upto(root, files, shuffled, shuffled.len()).to_multiset(),
    ensures
        resolved_views(r1) == resolved_views(r2),
{
    lemma_upto_placed(root, files, observed, observed.len());
    lemma_upto_placed(root, files, shuffled, shuffled.len());
    assert(observed.take(observed.len() as int) =~= observed);
    assert(shuffled.take(shuffled.len() as int) =~= shuffled);
    lemma_placed_permuted(root, files, observed, shuffled);
    lemma_resolved_total_ordering();
    let v1 = resolved_views(r1);
    let v2 = resolved_views(r2);
    assert(vstd::relations::sorted_by(v1, resolved_leq())) by {
        assert forall|i: int, j: int| 0 <= i < j < v1.len() implies (resolved_leq())(#[trigger] v1[i], #[trigger] v1[j]) by {
            assert(v1[i] == resolved_view(r1[i]) && v1[j] == resolved_view(r1[j]));
        }
    }
    assert(vstd::relations::sorted_by(v2, resolved_leq())) by {
        assert forall|i: int, j: int| 0 <= i < j < v2.len() implies (resolved_leq())(#[trigger] v2[i], #[trigger] v2[j]) by {
            assert(v2[i] == resolved_view(r2[i]) && v2[j] == resolved_view(r2[j]));
        }
    }
    vstd::seq_lib::lemma_sorted_unique(v1, v2, resolved_leq());
}


/// A resolved observation keeps what the provider said of it: its evidence
/// has the provider's kind, confidence and reason, and runs between the
/// provider's files as placed in the repository; the dependency has the
/// provider's kind too.
pub proof fn lemma_placement_keeps_evidence(root: Seq<char>, files: Seq<CompiledFile>, e: CodeEdge)
    requires
        placement(root, files, e) is Ok,
    ensures
        ({
            let x = placement(root, files, e)->Ok_0;
            &&& x.2 == e.kind@
            &&& x.3.kind == e.kind@
            &&& x.3.confidence == e.confidence
            &&& x.3.reason == opt_view(e.reason)
            &&& provider_place(root, e.from_file@) == Ok::<Seq<char>, Seq<char>>(x.3.from_file)
            &&& provider_place(root, e.to_file@) == Ok::<Seq<char>, Seq<char>>(x.3.to_file)
            &&& listed_last(files, x.3.from_file, x.0)
            &&& listed_last(files, x.3.to_file, x.1)
        }),
{
    let x = placement(root, files, e)->Ok_0;
    lemma_member_found(files, x.3.from_file);
    lemma_member_found(files, x.3.to_file);
}

/// The last listing of the file `path` maps it to the node `node`.
pub open spec fn listed_last(files: Seq<CompiledFile>, path: Seq<char>, node: Seq<char>) -> bool {
    exists|k: int| 0 <= k < files.len() && (#[trigger] files[k]).path@ == path && opt_view(files[k].node) == Some(node)
        && forall|q: int| k < q < files.len() ==> (#[trigger] files[q]).path@ != path
}

proof fn lemma_member_found(files: Seq<CompiledFile>, path: Seq<char>)
    ensures
        member(files, path) matches Some(Some(n)) ==> listed_last(files, path, n),
    decreases files.len(),
{
    if files.len() > 0 {
        lemma_member_found(files.drop_last(), path);
        if files.last().path@ == path {
            if let Some(n) = opt_view(files.last().node) {
                assert(files[files.len() - 1].path@ == path);
            }
        } else if member(files, path) is Some && member(files, path)->0 is Some {
            let n = member(files, path)->0->0;
            let k = choose|k: int| 0 <= k < files.drop_last().len() && (#[trigger] files.drop_last()[k]).path@ == path
                && opt_view(files.drop_last()[k].node) == Some(n)
                && forall|q: int| k < q < files.drop_last().len() ==> (#[trigger] files.drop_last()[q]).path@ != path;
            assert(files[k] == files.drop_last()[k]);
            assert forall|q: int| k < q < files.len() implies (#[trigger] files[q]).path@ != path by {
                if q < files.len() - 1 {
                    assert(files[q] == files.drop_last()[q]);
                }
            }
        }
    }
}

/// The resolved observation carries the provider observation's kind,
/// confidence and reason.
pub open spec fn carries(x: (Seq<char>, Seq<char>, Seq<char>, EvidenceView), e: CodeEdge) -> bool {
    &&& x.2 == e.kind@
    &&& x.3.kind == e.kind@
    &&& x.3.confidence == e.confidence
    &&& x.3.reason == opt_view(e.reason)
}

/// Every resolved observation among the first `n` comes from one of those
/// provider observations and carries its kind, confidence and reason.
pub proof fn lemma_resolved_keep_provider_evidence(root: Seq<char>, files: Seq<CompiledFile>, edges: Seq<CodeEdge>, n: nat)
    requires
        n <= edges.len(),
    ensures
        forall|i: int| #![trigger resolved_upto(root, files, edges, n)[i]] 0 <= i < resolved_upto(root, files, edges, n).len()
            ==> exists|j: int| 0 <= j < n && carries(resolved_upto(root, files, edges, n)[i], #[trigger] edges[j]),
    decreases n,
{
    if n > 0 {
        lemma_resolved_keep_provider_evidence(root, files, edges, (n - 1) as nat);
        let prev = resolved_upto(root, files, edges, (n - 1) as nat);
        let cur = resolved_upto(root, files, edges, n);
        if placement(root, files, edges[n - 1]) is Ok {
            lemma_placement_keeps_evidence(root, files, edges[n - 1]);
        }
        assert forall|i: int| #![trigger cur[i]] 0 <= i < cur.len() implies exists|j: int| 0 <= j < n && carries(cur[i], #[trigger] edges[j]) by {
            if i < prev.len() {
                assert(cur[i] == prev[i]);
                let j = choose|j: int| 0 <= j < n - 1 && carries(prev[i], #[trigger] edges[j]);
                assert(carries(cur[i], edges[j]));
            } else {
                assert(cur[i] == placement(root, files, edges[n - 1])->Ok_0);
                assert(carries(cur[i], edges[n - 1]));
            }
        }
    }
}

/// Each dependency `resolve_observed` gives comes from one of the provider's
/// observations and carries its kind, confidence and reason.
pub proof fn lemma_resolved_carry_provider_evidence(root: Seq<char>, files: Seq<CompiledFile>, edges: Seq<CodeEdge>, resolved: Seq<ResolvedEdge>)
    requires
        resolved_views(resolved).to_multiset() == resolved_upto(root, files, edges, edges.len()).to_multiset(),
    ensures
        forall|i: int| #![trigger resolved[i]] 0 <= i < resolved.len() ==> exists|j: int| 0 <= j < edges.len() && {
            let x = resolved[i];
            &&& x.kind@ == (#[trigger] edges[j]).kind@
            &&& x.evidence.kind@ == edges[j].kind@
            &&& x.evidence.confidence == edges[j].confidence
            &&& opt_view(x.evidence.reason) == opt_view(edges[j].reason)
        },
{
    broadcast use vstd::seq_lib::group_to_multiset_ensures;

    let up = resolved_upto(root, files, edges, edges.len());
    lemma_resolved_keep_provider_evidence(root, files, edges, edges.len());
    assert forall|i: int| #![trigger resolved[i]] 0 <= i < resolved.len() implies exists|j: int| 0 <= j < edges.len() && {
        let x = resolved[i];
        &&& x.kind@ == (#[trigger] edges[j]).kind@
        &&& x.evidence.kind@ == edges[j].kind@
        &&& x.evidence.confidence == edges[j].confidence
        &&& opt_view(x.evidence.reason) == opt_view(edges[j].reason)
    } by {
        let v = resolved_view(resolved[i]);
        assert(resolved_views(resolved)[i] == v);
        assert(resolved_views(resolved).contains(v));
        assert(resolved_views(resolved).to_multiset().count(v) > 0);
        assert(up.contains(v));
        let k = choose|k: int| 0 <= k < up.len() && up[k] == v;
        let j = choose|j: int| 0 <= j < edges.len() && carries(up[k], #[trigger] edges[j]);
        assert(carries(v, edges[j]));
    }
}

} // verus!
