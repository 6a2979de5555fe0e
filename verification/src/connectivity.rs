//! Connectivity tiles: clustering crates by dependency edges for DRY analysis.
use vstd::prelude::*;

use crate::compartments::{compartments_loc, lemma_loc_sum_nonneg, lemma_loc_sum_prefix, loc_sum};
use crate::overlap::edges_in_range;
use crate::text::{append_joined, join};
use crate::types::{compartments_view, strings_view, Compartment, CompartmentView};
use crate::unionfind::{find, lemma_root, lemma_root_set_finite, root_set, uf_labels, uf_wf, union_roots};
use crate::CrateInfo;

verus! {

/// Every label is a class representative: a node labelled with itself.
pub open spec fn labeling_wf(l: Seq<int>) -> bool {
    forall|i: int| 0 <= i < l.len() ==> 0 <= #[trigger] l[i] < l.len() && l[l[i]] == l[i]
}

/// Node `r` represents its class.
pub open spec fn is_rep(l: Seq<int>, r: int) -> bool {
    0 <= r < l.len() && l[r] == r
}

/// Every node in a class of its own.
pub open spec fn identity_labels(n: nat) -> Seq<int> {
    Seq::new(n, |i: int| i)
}

/// The representatives of the classes of `l`.
pub open spec fn class_reps(l: Seq<int>) -> Set<int> {
    Set::new(|r: int| is_rep(l, r))
}

/// The number of classes of `l`.
pub open spec fn class_count(l: Seq<int>) -> nat {
    class_reps(l).len()
}

/// The pair of classes (smaller representative first) that an edge joins, if they differ.
pub open spec fn class_pair(l: Seq<int>, e: (usize, usize)) -> Option<(int, int)> {
    let a = l[e.0 as int];
    let b = l[e.1 as int];
    if a < b {
        Some((a, b))
    } else if b < a {
        Some((b, a))
    } else {
        None
    }
}

/// Number of edges between classes `a` and `b` (`a < b`).
pub open spec fn class_edges(l: Seq<int>, edges: Seq<(usize, usize)>, a: int, b: int) -> int
    decreases edges.len(),
{
    if edges.len() == 0 {
        0
    } else {
        class_edges(l, edges.drop_last(), a, b) + if class_pair(l, edges.last()) == Some((a, b)) {
            1int
        } else {
            0int
        }
    }
}

/// No edge joins two different classes.
pub open spec fn no_cross_edges(l: Seq<int>, edges: Seq<(usize, usize)>) -> bool {
    forall|k: int| 0 <= k < edges.len() ==> l[(#[trigger] edges[k]).0 as int] == l[edges[k].1 as int]
}

/// The classes `a` and `b` joined into one, represented by `w`.
pub open spec fn merge_classes(l: Seq<int>, a: int, b: int, w: int) -> Seq<int> {
    Seq::new(l.len(), |i: int| if l[i] == a || l[i] == b { w } else { l[i] })
}

/// `l2` joins the two classes of `l` with the most edges between them (at least one).
pub open spec fn greedy_merge(l: Seq<int>, l2: Seq<int>, edges: Seq<(usize, usize)>) -> bool {
    exists|a: int, b: int|
        #![trigger class_edges(l, edges, a, b)]
        is_rep(l, a) && is_rep(l, b) && a < b && class_edges(l, edges, a, b) >= 1 && (forall|c: int, d: int|
            is_rep(l, c) && is_rep(l, d) && c < d ==> #[trigger] class_edges(l, edges, c, d) <= class_edges(
                l,
                edges,
                a,
                b,
            )) && (l2 == merge_classes(l, a, b, a) || l2 == merge_classes(l, a, b, b))
}

/// A run of the clustering: from singletons, greedy merges while more than
/// `target` classes remain, stopping at `target` classes or when no edge
/// crosses between classes.
pub open spec fn clustering_run(h: Seq<Seq<int>>, n: nat, edges: Seq<(usize, usize)>, target: int) -> bool {
    &&& h.len() >= 1
    &&& h[0] == identity_labels(n)
    &&& forall|k: int|
        0 <= k < h.len() - 1 ==> class_count(#[trigger] h[k]) > target && greedy_merge(h[k], h[k + 1], edges)
    &&& class_count(h.last()) <= target || no_cross_edges(h.last(), edges)
}

/// The number of tiles aimed for: `ceil(total / target_loc)`, at least one.
pub open spec fn target_tile_count(crates: Seq<CrateInfo>, target_loc: int) -> int {
    let total = loc_sum(crates);
    let c = if total % target_loc == 0 { total / target_loc } else { total / target_loc + 1 };
    if c < 1 { 1 } else { c }
}

/// The entries `(a, b, count)` list every pair of classes joined by an edge,
/// `a < b`, each once, with the number of edges between them.
pub open spec fn class_pair_table(
    entries: Seq<(usize, usize, usize)>,
    l: Seq<int>,
    edges: Seq<(usize, usize)>,
) -> bool {
    &&& forall|t: int|
        0 <= t < entries.len() ==> (#[trigger] entries[t]).0 < entries[t].1 && entries[t].2 as int
            == class_edges(l, edges, entries[t].0 as int, entries[t].1 as int) && entries[t].2 >= 1
    &&& forall|t1: int, t2: int|
        0 <= t1 < t2 < entries.len() ==> (#[trigger] entries[t1]).0 != (#[trigger] entries[t2]).0
            || entries[t1].1 != entries[t2].1
    &&& forall|a: int, b: int|
        #[trigger] class_edges(l, edges, a, b) >= 1 ==> exists|t: int|
            0 <= t < entries.len() && (#[trigger] entries[t]).0 == a && entries[t].1 == b
}

proof fn lemma_class_edges(l: Seq<int>, edges: Seq<(usize, usize)>, a: int, b: int)
    requires
        labeling_wf(l),
        edges_in_range(edges, l.len() as int),
    ensures
        class_edges(l, edges, a, b) >= 0,
        class_edges(l, edges, a, b) >= 1 ==> is_rep(l, a) && is_rep(l, b) && a < b,
        class_edges(l, edges, a, b) <= edges.len(),
    decreases edges.len(),
{
    if edges.len() > 0 {
        assert(edges.drop_last().len() == edges.len() - 1);
        assert forall|k: int| 0 <= k < edges.drop_last().len() implies (#[trigger] edges.drop_last()[k]).0 < l.len()
            && edges.drop_last()[k].1 < l.len() by {
            assert(edges.drop_last()[k] == edges[k]);
        }
        lemma_class_edges(l, edges.drop_last(), a, b);
        let e = edges.last();
        assert(e == edges[edges.len() - 1]);
    }
}

proof fn lemma_no_cross_edges(l: Seq<int>, edges: Seq<(usize, usize)>)
    requires
        forall|a: int, b: int| #[trigger] class_edges(l, edges, a, b) < 1,
    ensures
        no_cross_edges(l, edges),
    decreases edges.len(),
{
    if edges.len() > 0 {
        let pre = edges.drop_last();
        let e = edges.last();
        assert forall|a: int, b: int| #[trigger] class_edges(l, pre, a, b) < 1 by {
            assert(class_edges(l, edges, a, b) < 1);
            lemma_class_edges_nonneg(l, pre, a, b);
        }
        lemma_no_cross_edges(l, pre);
        match class_pair(l, e) {
            Some((a, b)) => {
                assert(class_edges(l, edges, a, b) < 1);
                lemma_class_edges_nonneg(l, pre, a, b);
            },
            None => {},
        }
        assert forall|k: int| 0 <= k < edges.len() implies l[(#[trigger] edges[k]).0 as int] == l[edges[k].1 as int] by {
            if k < pre.len() {
                assert(pre[k] == edges[k]);
            }
        }
    }
}

proof fn lemma_class_edges_nonneg(l: Seq<int>, edges: Seq<(usize, usize)>, a: int, b: int)
    ensures
        class_edges(l, edges, a, b) >= 0,
    decreases edges.len(),
{
    if edges.len() > 0 {
        lemma_class_edges_nonneg(l, edges.drop_last(), a, b);
    }
}

/// Index of the entry for pair `(a, b)`, if there is one.
fn lookup_entry(entries: &Vec<(usize, usize, usize)>, a: usize, b: usize) -> (r: Option<usize>)
    ensures
        match r {
            Some(t) => t < entries@.len() && entries@[t as int].0 == a && entries@[t as int].1 == b,
            None => forall|t: int| 0 <= t < entries@.len() ==> (#[trigger] entries@[t]).0 != a || entries@[t].1 != b,
        },
{
    let n = entries.len();
    for t in 0..n
        invariant
            n == entries@.len(),
            forall|q: int| 0 <= q < t ==> (#[trigger] entries@[q]).0 != a || entries@[q].1 != b,
    {
        if entries[t].0 == a && entries[t].1 == b {
            return Some(t);
        }
    }
    None
}

/// Count the edges between every pair of current clusters.
fn count_cluster_pairs(
    parent: &mut Vec<usize>,
    Ghost(rank): Ghost<Seq<usize>>,
    dep_edges: &[(usize, usize)],
) -> (entries: Vec<(usize, usize, usize)>)
    requires
        uf_wf(old(parent)@, rank),
        edges_in_range(dep_edges@, old(parent)@.len() as int),
    ensures
        uf_wf(final(parent)@, rank),
        final(parent)@.len() == old(parent)@.len(),
        uf_labels(final(parent)@, rank) == uf_labels(old(parent)@, rank),
        root_set(final(parent)@) == root_set(old(parent)@),
        class_pair_table(entries@, uf_labels(old(parent)@, rank), dep_edges@),
{
    let ghost l = uf_labels(parent@, rank);
    let ghost p0 = parent@;
    let mut entries: Vec<(usize, usize, usize)> = Vec::new();
    let m = dep_edges.len();
    for k in 0..m
        invariant
            m == dep_edges@.len(),
            uf_wf(parent@, rank),
            parent@.len() == p0.len(),
            uf_labels(parent@, rank) == l,
            root_set(parent@) == root_set(p0),
            edges_in_range(dep_edges@, p0.len() as int),
            class_pair_table(entries@, l, dep_edges@.take(k as int)),
            forall|t: int| 0 <= t < entries@.len() ==> (#[trigger] entries@[t]).2 <= k,
    {
        let (from, to) = dep_edges[k];
        let ghost e = dep_edges@[k as int];
        let ghost pre = dep_edges@.take(k as int);
        let ghost post = dep_edges@.take(k + 1);
        proof {
            assert(post.drop_last() =~= pre);
            assert(post.last() == e);
            assert(e.0 < p0.len() && e.1 < p0.len());
        }
        let cf = find(parent, Ghost(rank), from);
        let ct = find(parent, Ghost(rank), to);
        proof {
            assert(cf as int == l[from as int]);
            assert(ct as int == l[to as int]);
        }
        let ghost old_entries = entries@;
        if cf != ct {
            let (a, b) = if cf < ct { (cf, ct) } else { (ct, cf) };
            assert(class_pair(l, e) == Some((a as int, b as int)));
            match lookup_entry(&entries, a, b) {
                Some(t) => {
                    let c = entries[t].2;
                    entries.set(t, (a, b, c + 1));
                },
                None => {
                    entries.push((a, b, 1));
                },
            }
        } else {
            assert(class_pair(l, e) is None);
        }
        proof {
            let en = entries@;
            assert forall|t: int| 0 <= t < en.len() implies (#[trigger] en[t]).0 < en[t].1 && en[t].2 as int
                == class_edges(l, post, en[t].0 as int, en[t].1 as int) && en[t].2 >= 1 by {
                assert(class_edges(l, post, en[t].0 as int, en[t].1 as int)
                    == class_edges(l, pre, en[t].0 as int, en[t].1 as int)
                    + if class_pair(l, e) == Some((en[t].0 as int, en[t].1 as int)) { 1int } else { 0int });
                if t >= old_entries.len() {
                    lemma_class_edges_nonneg(l, pre, en[t].0 as int, en[t].1 as int);
                    if class_edges(l, pre, en[t].0 as int, en[t].1 as int) >= 1 {
                        let w = choose|w: int| 0 <= w < old_entries.len() && (#[trigger] old_entries[w]).0 == en[t].0 && old_entries[w].1 == en[t].1;
                    }
                }
            }
            assert forall|t1: int, t2: int|
                0 <= t1 < t2 < en.len() implies (#[trigger] en[t1]).0 != (#[trigger] en[t2]).0
                    || en[t1].1 != en[t2].1 by {
                if t2 < old_entries.len() {
                    assert(old_entries[t1].0 != old_entries[t2].0 || old_entries[t1].1 != old_entries[t2].1);
                }
            }
            assert forall|a: int, b: int|
                #[trigger] class_edges(l, post, a, b) >= 1 implies exists|t: int|
                    0 <= t < en.len() && (#[trigger] en[t]).0 == a && en[t].1 == b by {
                assert(class_edges(l, post, a, b) == class_edges(l, pre, a, b)
                    + if class_pair(l, e) == Some((a, b)) { 1int } else { 0int });
                if class_edges(l, pre, a, b) >= 1 {
                    let w = choose|w: int| 0 <= w < old_entries.len() && (#[trigger] old_entries[w]).0 == a && old_entries[w].1 == b;
                    assert(en[w].0 == a && en[w].1 == b);
                } else if old_entries.len() < en.len() {
                    assert(en[en.len() - 1].0 == a && en[en.len() - 1].1 == b);
                }
            }
        }
    }
    proof {
        assert(dep_edges@.take(m as int) =~= dep_edges@);
    }
    entries
}


/// The members of class `r` among the first `k` nodes, in index order.
pub open spec fn class_members(l: Seq<int>, r: int, k: int) -> Seq<int>
    decreases k,
{
    if k <= 0 {
        Seq::empty()
    } else if l[k - 1] == r {
        class_members(l, r, k - 1).push(k - 1)
    } else {
        class_members(l, r, k - 1)
    }
}

/// The LOC of the members of class `r` among the first `k` crates.
pub open spec fn class_loc(crates: Seq<CrateInfo>, l: Seq<int>, r: int, k: int) -> int
    decreases k,
{
    if k <= 0 {
        0
    } else if l[k - 1] == r {
        class_loc(crates, l, r, k - 1) + crates[k - 1].loc
    } else {
        class_loc(crates, l, r, k - 1)
    }
}

/// The tile of class `r`: its crates' names joined by `" + "`, their paths,
/// and their LOC summed, all in crate order.
pub open spec fn class_tile(crates: Seq<CrateInfo>, l: Seq<int>, r: int) -> CompartmentView {
    let m = class_members(l, r, crates.len() as int);
    CompartmentView {
        label: join(m.map_values(|i: int| crates[i].name@), " + "@),
        paths: m.map_values(|i: int| crates[i].path@),
        estimated_loc: class_loc(crates, l, r, crates.len() as int),
    }
}

/// Node `f` is the first (lowest-index) member of its class.
pub open spec fn is_first_member(l: Seq<int>, f: int) -> bool {
    &&& 0 <= f < l.len()
    &&& forall|j: int| 0 <= j < f ==> l[j] != l[f]
}

/// The class of first member `f1` is listed before that of `f2`: larger LOC
/// first, and on equal LOC the class whose first member comes first.
pub open spec fn cluster_before(crates: Seq<CrateInfo>, l: Seq<int>, f1: int, f2: int) -> bool {
    let a = class_loc(crates, l, l[f1], crates.len() as int);
    let b = class_loc(crates, l, l[f2], crates.len() as int);
    a > b || (a == b && f1 < f2)
}

/// Class `c` has its first member in `firsts`.
pub open spec fn class_listed(l: Seq<int>, firsts: Seq<int>, c: int) -> bool {
    exists|k: int| 0 <= k < firsts.len() && l[#[trigger] firsts[k]] == c
}

/// Class `c` has a member in `firsts`.
pub open spec fn class_seen(l: Seq<int>, firsts: Seq<usize>, c: int) -> bool {
    exists|k: int| 0 <= k < firsts.len() && l[#[trigger] firsts[k] as int] == c
}

/// `firsts` lists every class of `l` once, by its first member, in [`cluster_before`] order.
pub open spec fn tile_listing(crates: Seq<CrateInfo>, l: Seq<int>, firsts: Seq<int>) -> bool {
    &&& forall|k: int| 0 <= k < firsts.len() ==> is_first_member(l, #[trigger] firsts[k])
    &&& forall|i: int| 0 <= i < l.len() ==> #[trigger] class_listed(l, firsts, l[i])
    &&& forall|k1: int, k2: int|
        0 <= k1 < k2 < firsts.len() ==> cluster_before(crates, l, #[trigger] firsts[k1], #[trigger] firsts[k2])
}

/// The cluster of every node.
fn cluster_labels(parent: &mut Vec<usize>, Ghost(rank): Ghost<Seq<usize>>) -> (lab: Vec<usize>)
    requires
        uf_wf(old(parent)@, rank),
    ensures
        lab@.len() == old(parent)@.len(),
        forall|i: int| 0 <= i < lab@.len() ==> #[trigger] lab@[i] as int == uf_labels(old(parent)@, rank)[i],
{
    let ghost l = uf_labels(parent@, rank);
    let ghost p0 = parent@;
    let mut lab: Vec<usize> = Vec::new();
    let n = parent.len();
    for i in 0..n
        invariant
            n == p0.len(),
            uf_wf(parent@, rank),
            parent@.len() == n,
            uf_labels(parent@, rank) == l,
            lab@.len() == i,
            forall|q: int| 0 <= q < i ==> #[trigger] lab@[q] as int == l[q],
    {
        let r = find(parent, Ghost(rank), i);
        lab.push(r);
    }
    lab
}

/// The first member of every class, in index order.
fn first_members(lab: &Vec<usize>, Ghost(l): Ghost<Seq<int>>) -> (firsts: Vec<usize>)
    requires
        lab@.len() == l.len(),
        forall|i: int| 0 <= i < lab@.len() ==> #[trigger] lab@[i] as int == l[i],
    ensures
        forall|k: int| 0 <= k < firsts@.len() ==> is_first_member(l, #[trigger] firsts@[k] as int),
        forall|i: int| 0 <= i < l.len() ==> #[trigger] class_seen(l, firsts@, l[i]),
        forall|k1: int, k2: int| 0 <= k1 < k2 < firsts@.len() ==> #[trigger] firsts@[k1] < #[trigger] firsts@[k2],
{
    let mut firsts: Vec<usize> = Vec::new();
    let n = lab.len();
    for i in 0..n
        invariant
            n == lab@.len(),
            lab@.len() == l.len(),
            forall|q: int| 0 <= q < lab@.len() ==> #[trigger] lab@[q] as int == l[q],
            forall|k: int| 0 <= k < firsts@.len() ==> is_first_member(l, #[trigger] firsts@[k] as int) && firsts@[k] < i,
            forall|j: int| 0 <= j < i ==> #[trigger] class_seen(l, firsts@, l[j]),
            forall|k1: int, k2: int| 0 <= k1 < k2 < firsts@.len() ==> #[trigger] firsts@[k1] < #[trigger] firsts@[k2],
    {
        let mut seen = false;
        let m = firsts.len();
        for k in 0..m
            invariant
                m == firsts@.len(),
                i < n,
                n == lab@.len(),
                forall|q: int| 0 <= q < lab@.len() ==> #[trigger] lab@[q] as int == l[q],
                forall|k2: int| 0 <= k2 < firsts@.len() ==> #[trigger] firsts@[k2] < i,
                seen <==> exists|k2: int| 0 <= k2 < k && l[#[trigger] firsts@[k2] as int] == l[i as int],
        {
            if lab[firsts[k]] == lab[i] {
                seen = true;
            }
        }
        let ghost before = firsts@;
        if !seen {
            firsts.push(i);
            proof {
                assert forall|j: int| 0 <= j < i implies l[j] != l[i as int] by {
                    assert(class_seen(l, before, l[j]));
                }
                assert(firsts@[before.len() as int] == i);
            }
        }
        proof {
            assert forall|j: int| 0 <= j < i + 1 implies #[trigger] class_seen(l, firsts@, l[j]) by {
                if j < i {
                    assert(class_seen(l, before, l[j]));
                    let k = choose|k: int| 0 <= k < before.len() && l[#[trigger] before[k] as int] == l[j];
                    assert(firsts@[k] == before[k]);
                } else if seen {
                    let k = choose|k: int| 0 <= k < before.len() && l[#[trigger] before[k] as int] == l[i as int];
                    assert(firsts@[k] == before[k]);
                } else {
                    assert(firsts@[before.len() as int] == i);
                }
            }
        }
    }
    firsts
}

/// The tile of the class represented by `r`.
fn build_class_tile(crates: &Vec<CrateInfo>, lab: &Vec<usize>, r: usize, Ghost(l): Ghost<Seq<int>>) -> (c: Compartment)
    requires
        lab@.len() == l.len(),
        l.len() == crates@.len(),
        forall|i: int| 0 <= i < lab@.len() ==> #[trigger] lab@[i] as int == l[i],
        loc_sum(crates@) <= usize::MAX,
    ensures
        c@ == class_tile(crates@, l, r as int),
{
    let ghost cs = crates@;
    let mut label = String::new();
    let mut paths: Vec<String> = Vec::new();
    let mut loc: usize = 0;
    let mut count: usize = 0;
    let n = crates.len();
    for i in 0..n
        invariant
            n == cs.len(),
            cs == crates@,
            lab@.len() == l.len(),
            l.len() == cs.len(),
            forall|q: int| 0 <= q < lab@.len() ==> #[trigger] lab@[q] as int == l[q],
            loc_sum(cs) <= usize::MAX,
            count == class_members(l, r as int, i as int).len(),
            count <= i,
            label@ == join(class_members(l, r as int, i as int).map_values(|q: int| cs[q].name@), " + "@),
            strings_view(paths@) == class_members(l, r as int, i as int).map_values(|q: int| cs[q].path@),
            loc as int == class_loc(cs, l, r as int, i as int),
            class_loc(cs, l, r as int, i as int) <= loc_sum(cs.take(i as int)),
    {
        let ghost m = class_members(l, r as int, i as int);
        proof {
            lemma_loc_sum_prefix(cs, i + 1);
            assert(cs.take(i + 1).drop_last() =~= cs.take(i as int));
            assert(cs.take(i + 1).last() == cs[i as int]);
        }
        if lab[i] == r {
            let cr = &crates[i];
            proof {
                assert(class_members(l, r as int, i + 1) == m.push(i as int));
                assert(m.push(i as int).map_values(|q: int| cs[q].name@) =~= m.map_values(|q: int| cs[q].name@).push(cr.name@));
                assert(m.push(i as int).map_values(|q: int| cs[q].path@) =~= m.map_values(|q: int| cs[q].path@).push(cr.path@));
            }
            append_joined(&mut label, count, " + ", cr.name.as_str(), Ghost(m.map_values(|q: int| cs[q].name@)));
            let ghost prev = paths@;
            let p = cr.path.clone();
            paths.push(p);
            proof {
                assert(strings_view(paths@) =~= strings_view(prev).push(cr.path@));
            }
            loc = loc + cr.loc;
            count = count + 1;
        } else {
            proof {
                assert(class_members(l, r as int, i + 1) == m);
            }
        }
    }
    Compartment { label, paths, estimated_loc: loc }
}

/// `x` is among the first `k` entries of `s`.
pub open spec fn in_prefix(s: Seq<usize>, x: usize, k: int) -> bool {
    exists|u: int| 0 <= u < k && s[u] == x
}

/// `x` is an entry of `s`.
pub open spec fn in_keys(s: Seq<usize>, x: usize) -> bool {
    exists|q: int| 0 <= q < s.len() && s[q] == x
}

/// Larger LOC first; on equal LOC, the smaller first member first.
pub open spec fn size_before(loc1: int, f1: int, loc2: int, f2: int) -> bool {
    loc1 > loc2 || (loc1 == loc2 && f1 < f2)
}

/// Tiles with their first members, strictly in [`size_before`] order.
pub open spec fn sizes_sorted(tiles: Seq<Compartment>, keys: Seq<usize>) -> bool {
    forall|x: int, y: int|
        0 <= x < y < tiles.len() ==> size_before(
            (#[trigger] tiles[x]).estimated_loc as int,
            keys[x] as int,
            (#[trigger] tiles[y]).estimated_loc as int,
            keys[y] as int,
        )
}

/// Inserts tile `t`, with first member `f`, where it belongs.
fn insert_by_size(tiles: &mut Vec<Compartment>, keys: &mut Vec<usize>, t: Compartment, f: usize) -> (pos: usize)
    requires
        old(tiles)@.len() == old(keys)@.len(),
        sizes_sorted(old(tiles)@, old(keys)@),
        forall|q: int| 0 <= q < old(keys)@.len() ==> #[trigger] old(keys)@[q] != f,
    ensures
        pos <= old(tiles)@.len(),
        final(tiles)@ == old(tiles)@.insert(pos as int, t),
        final(keys)@ == old(keys)@.insert(pos as int, f),
        sizes_sorted(final(tiles)@, final(keys)@),
{
    let ghost s = tiles@;
    let ghost ks = keys@;
    let mut pos: usize = 0;
    while pos < tiles.len() && (tiles[pos].estimated_loc > t.estimated_loc
        || (tiles[pos].estimated_loc == t.estimated_loc && keys[pos] < f))
        invariant
            pos <= tiles@.len(),
            tiles@.len() == keys@.len(),
            s == tiles@,
            ks == keys@,
            forall|q: int| 0 <= q < pos ==> size_before(s[q].estimated_loc as int, ks[q] as int, t.estimated_loc as int, f as int),
        decreases tiles@.len() - pos,
    {
        pos = pos + 1;
    }
    tiles.insert(pos, t);
    keys.insert(pos, f);
    proof {
        let ft = tiles@;
        let fk = keys@;
        assert forall|x: int, y: int| 0 <= x < y < ft.len() implies size_before(
            (#[trigger] ft[x]).estimated_loc as int,
            fk[x] as int,
            (#[trigger] ft[y]).estimated_loc as int,
            fk[y] as int,
        ) by {
            if y < pos {
                assert(ft[x] == s[x] && ft[y] == s[y]);
            } else if y == pos {
                assert(ft[x] == s[x]);
            } else if x < pos {
                assert(ft[x] == s[x] && ft[y] == s[y - 1]);
                if pos < y - 1 {
                    assert(size_before(s[pos as int].estimated_loc as int, ks[pos as int] as int, s[y - 1].estimated_loc as int, ks[y - 1] as int));
                }
            } else if x == pos {
                assert(ft[y] == s[y - 1]);
                if pos < y - 1 {
                    assert(size_before(s[pos as int].estimated_loc as int, ks[pos as int] as int, s[y - 1].estimated_loc as int, ks[y - 1] as int));
                }
            } else {
                assert(ft[x] == s[x - 1] && ft[y] == s[y - 1]);
            }
        }
    }
    pos
}


proof fn lemma_uf_labels(parent: Seq<usize>, rank: Seq<usize>)
    requires
        uf_wf(parent, rank),
    ensures
        labeling_wf(uf_labels(parent, rank)),
        class_reps(uf_labels(parent, rank)) == root_set(parent),
        root_set(parent).finite(),
{
    let l = uf_labels(parent, rank);
    assert forall|i: int| 0 <= i < l.len() implies 0 <= #[trigger] l[i] < l.len() && l[l[i]] == l[i] by {
        lemma_root(parent, rank, i);
        lemma_root(parent, rank, l[i]);
    }
    assert forall|r: int| #[trigger] class_reps(l).contains(r) <==> root_set(parent).contains(r) by {
        if 0 <= r < l.len() {
            lemma_root(parent, rank, r);
        }
    }
    assert(class_reps(l) =~= root_set(parent));
    lemma_root_set_finite(parent);
}

/// Cluster crates into connectivity-based tiles using agglomerative merging.
///
/// Repeatedly merges the two clusters with the most inter-edges until the
/// cluster count reaches `ceil(total_loc / target_loc_per_tile)` (at least one)
/// or no cross-edges remain. Tiles come largest first; tiles of equal LOC
/// come in the order of their lowest-index crate.
pub fn connectivity_tiles(
    crates: Vec<CrateInfo>,
    dep_edges: &[(usize, usize)],
    target_loc_per_tile: usize,
) -> (tiles: Vec<Compartment>)
    requires
        crates@.len() > 0 ==> target_loc_per_tile > 0 && loc_sum(crates@) <= usize::MAX,
        crates@.len() > 0 && crates@.len() > target_tile_count(crates@, target_loc_per_tile as int)
            ==> edges_in_range(dep_edges@, crates@.len() as int),
    ensures
        crates@.len() == 0 ==> tiles@.len() == 0,
        crates@.len() > 0 ==> exists|h: Seq<Seq<int>>, firsts: Seq<int>|
            #![trigger clustering_run(h, crates@.len(), dep_edges@, target_tile_count(crates@, target_loc_per_tile as int)), tile_listing(crates@, h.last(), firsts)]
            clustering_run(h, crates@.len(), dep_edges@, target_tile_count(crates@, target_loc_per_tile as int))
                && tile_listing(crates@, h.last(), firsts)
                && compartments_view(tiles@) == firsts.map_values(|f: int| class_tile(crates@, h.last(), h.last()[f])),
        crates@.len() > 0 ==> tiles@.len() == crates@.len() || tiles@.len() * target_loc_per_tile >= loc_sum(crates@),
{
    if crates.len() == 0 {
        return Vec::new();
    }
    let n = crates.len();
    let ghost cs = crates@;
    let ghost edges = dep_edges@;
    let mut total_loc: usize = 0;
    for i in 0..n
        invariant
            n == cs.len(),
            cs == crates@,
            loc_sum(cs) <= usize::MAX,
            total_loc as int == loc_sum(cs.take(i as int)),
    {
        proof {
            assert(cs.take(i + 1).drop_last() =~= cs.take(i as int));
            lemma_loc_sum_prefix(cs, i + 1);
        }
        total_loc = total_loc + crates[i].loc;
    }
    proof {
        assert(cs.take(n as int) =~= cs);
    }
    let q = total_loc / target_loc_per_tile;
    let mut target_count = if total_loc % target_loc_per_tile == 0 {
        q
    } else {
        assert(q < total_loc) by (nonlinear_arith)
            requires
                q == total_loc / target_loc_per_tile,
                total_loc % target_loc_per_tile != 0,
                target_loc_per_tile > 0,
        {
            if target_loc_per_tile == 1 {
                assert(total_loc % 1 == 0);
            }
        }
        q + 1
    };
    if target_count < 1 {
        target_count = 1;
    }
    assert(target_count as int == target_tile_count(cs, target_loc_per_tile as int));
    // Union-find with path halving and union by rank.
    let mut parent: Vec<usize> = Vec::new();
    let mut rank: Vec<usize> = Vec::new();
    for i in 0..n
        invariant
            parent@.len() == i,
            rank@.len() == i,
            forall|j: int| 0 <= j < i ==> #[trigger] parent@[j] == j,
            forall|j: int| 0 <= j < i ==> #[trigger] rank@[j] == 0,
    {
        parent.push(i);
        rank.push(0);
    }
    proof {
        assert(uf_wf(parent@, rank@));
        assert(uf_labels(parent@, rank@) =~= identity_labels(n as nat));
        lemma_uf_labels(parent@, rank@);
        vstd::set_lib::lemma_int_range(0, n as int);
        assert(root_set(parent@) =~= vstd::set_lib::set_int_range(0, n as int));
    }
    let mut cluster_count = n;
    let mut stop = false;
    let ghost mut h: Seq<Seq<int>> = seq![identity_labels(n as nat)];
    while cluster_count > target_count && !stop
        invariant
            n == cs.len(),
            n > 0,
            cs == crates@,
            edges == dep_edges@,
            target_count as int == target_tile_count(cs, target_loc_per_tile as int),
            target_count >= 1,
            n > target_count ==> edges_in_range(edges, n as int),
            uf_wf(parent@, rank@),
            parent@.len() == n,
            1 <= cluster_count <= n,
            forall|i: int| 0 <= i < rank@.len() ==> #[trigger] rank@[i] <= n - cluster_count,
            cluster_count == root_set(parent@).len(),
            h.len() >= 1,
            h[0] == identity_labels(n as nat),
            h.last() == uf_labels(parent@, rank@),
            forall|k: int| 0 <= k < h.len() - 1 ==> class_count(#[trigger] h[k]) > target_count && greedy_merge(h[k], h[k + 1], edges),
            stop ==> no_cross_edges(h.last(), edges),
        decreases cluster_count + if stop { 0int } else { 1int },
    {
        let ghost l = uf_labels(parent@, rank@);
        proof {
            lemma_uf_labels(parent@, rank@);
        }
        // Count cross-cluster edges.
        let entries = count_cluster_pairs(&mut parent, Ghost(rank@), dep_edges);
        proof {
            lemma_uf_labels(parent@, rank@);
        }
        if entries.len() == 0 {
            proof {
                assert forall|a: int, b: int| #[trigger] class_edges(l, edges, a, b) < 1 by {
                    if class_edges(l, edges, a, b) >= 1 {
                        let t = choose|t: int| 0 <= t < entries@.len() && (#[trigger] entries@[t]).0 == a && entries@[t].1 == b;
                    }
                }
                lemma_no_cross_edges(l, edges);
            }
            stop = true;
        } else {
            // Merge the pair with the most cross-edges.
            let mut best: usize = 0;
            for t in 1..entries.len()
                invariant
                    best < entries@.len(),
                    forall|u: int| 0 <= u < t ==> (#[trigger] entries@[u]).2 <= entries@[best as int].2,
            {
                if entries[t].2 > entries[best].2 {
                    best = t;
                }
            }
            let (a, b, c) = entries[best];
            proof {
                assert(entries@[best as int] == (a, b, c));
                lemma_class_edges(l, edges, a as int, b as int);
            }
            let ra = find(&mut parent, Ghost(rank@), a);
            let rb = find(&mut parent, Ghost(rank@), b);
            proof {
                lemma_root(parent@, rank@, a as int);
                lemma_root(parent@, rank@, b as int);
                assert(ra == a && rb == b);
                lemma_uf_labels(parent@, rank@);
                assert(root_set(parent@).contains(a as int));
                assert(root_set(parent@).contains(b as int));
                assert(root_set(parent@).remove(a as int).contains(b as int));
                assert(root_set(parent@).len() >= 2) by {
                    vstd::set_lib::lemma_set_remove_finite_iff(root_set(parent@), a as int);
                }
            }
            let ghost p_mid = parent@;
            let ghost r_mid = rank@;
            let w = union_roots(&mut parent, &mut rank, ra, rb, Ghost(n - cluster_count));
            proof {
                let l2 = uf_labels(parent@, rank@);
                assert(uf_labels(p_mid, r_mid) == l);
                assert(l2 =~= merge_classes(l, a as int, b as int, w as int));
                assert forall|cc: int, d: int|
                    is_rep(l, cc) && is_rep(l, d) && cc < d implies #[trigger] class_edges(l, edges, cc, d) <= class_edges(l, edges, a as int, b as int) by {
                    if class_edges(l, edges, cc, d) >= 1 {
                        let t = choose|t: int| 0 <= t < entries@.len() && (#[trigger] entries@[t]).0 == cc && entries@[t].1 == d;
                    }
                }
                assert(class_edges(l, edges, a as int, b as int) >= 1);
                assert(greedy_merge(l, l2, edges));
                lemma_uf_labels(p_mid, r_mid);
                assert(class_count(l) == cluster_count);
                let ghost old_h = h;
                h = h.push(l2);
                assert forall|k: int| 0 <= k < h.len() - 1 implies class_count(#[trigger] h[k]) > target_count && greedy_merge(h[k], h[k + 1], edges) by {
                    if k < old_h.len() - 1 {
                        assert(h[k] == old_h[k] && h[k + 1] == old_h[k + 1]);
                    } else {
                        assert(h[k] == l);
                        assert(h[k + 1] == l2);
                    }
                }
            }
            cluster_count = cluster_count - 1;
        }
    }
    proof {
        lemma_uf_labels(parent@, rank@);
        assert(clustering_run(h, n as nat, edges, target_count as int));
    }
    let ghost l = uf_labels(parent@, rank@);
    let lab = cluster_labels(&mut parent, Ghost(rank@));
    let firsts = first_members(&lab, Ghost(l));
    // Build the tile of each cluster and order them by LOC.
    let mut tiles: Vec<Compartment> = Vec::new();
    let mut keys: Vec<usize> = Vec::new();
    let m = firsts.len();
    for k in 0..m
        invariant
            m == firsts@.len(),
            n == cs.len(),
            cs == crates@,
            loc_sum(cs) <= usize::MAX,
            lab@.len() == l.len(),
            l.len() == n,
            forall|i: int| 0 <= i < lab@.len() ==> #[trigger] lab@[i] as int == l[i],
            forall|q: int| 0 <= q < firsts@.len() ==> is_first_member(l, #[trigger] firsts@[q] as int),
            forall|k1: int, k2: int| 0 <= k1 < k2 < firsts@.len() ==> #[trigger] firsts@[k1] < #[trigger] firsts@[k2],
            tiles@.len() == keys@.len(),
            sizes_sorted(tiles@, keys@),
            forall|q: int| 0 <= q < keys@.len() ==> #[trigger] tiles@[q]@ == class_tile(cs, l, l[keys@[q] as int])
                && is_first_member(l, keys@[q] as int),
            forall|q: int| 0 <= q < keys@.len() ==> in_prefix(firsts@, #[trigger] keys@[q], k as int),
            forall|u: int| 0 <= u < k ==> in_keys(keys@, #[trigger] firsts@[u]),
    {
        let f = firsts[k];
        let r = lab[f];
        let t = build_class_tile(&crates, &lab, r, Ghost(l));
        let ghost old_keys = keys@;
        let ghost old_tiles = tiles@;
        proof {
            assert forall|q: int| 0 <= q < old_keys.len() implies #[trigger] old_keys[q] != f by {
                assert(in_prefix(firsts@, old_keys[q], k as int));
                let u = choose|u: int| 0 <= u < k && firsts@[u] == old_keys[q];
                assert(firsts@[u] < firsts@[k as int]);
            }
        }
        let pos = insert_by_size(&mut tiles, &mut keys, t, f);
        proof {
            assert forall|q: int| 0 <= q < keys@.len() implies #[trigger] tiles@[q]@ == class_tile(cs, l, l[keys@[q] as int])
                && is_first_member(l, keys@[q] as int) by {
                if q < pos {
                    assert(keys@[q] == old_keys[q] && tiles@[q] == old_tiles[q]);
                } else if q > pos {
                    assert(keys@[q] == old_keys[q - 1] && tiles@[q] == old_tiles[q - 1]);
                }
            }
            assert forall|q: int| 0 <= q < keys@.len() implies in_prefix(firsts@, #[trigger] keys@[q], k + 1) by {
                if q < pos {
                    assert(keys@[q] == old_keys[q]);
                    assert(in_prefix(firsts@, old_keys[q], k as int));
                } else if q > pos {
                    assert(keys@[q] == old_keys[q - 1]);
                    assert(in_prefix(firsts@, old_keys[q - 1], k as int));
                } else {
                    assert(keys@[q] == firsts@[k as int]);
                }
            }
            assert forall|u: int| 0 <= u < k + 1 implies in_keys(keys@, #[trigger] firsts@[u]) by {
                if u < k {
                    assert(in_keys(old_keys, firsts@[u]));
                    let q = choose|q: int| 0 <= q < old_keys.len() && old_keys[q] == firsts@[u];
                    if q < pos {
                        assert(keys@[q] == old_keys[q]);
                    } else {
                        assert(keys@[q + 1] == old_keys[q]);
                    }
                } else {
                    assert(keys@[pos as int] == f);
                }
            }
        }
    }
    proof {
        let fl = keys@.map_values(|f: usize| f as int);
        let fin = h.last();
        assert(fin == l);
        assert forall|k: int| 0 <= k < fl.len() implies is_first_member(l, #[trigger] fl[k]) by {
            assert(tiles@[k]@ == class_tile(cs, l, l[keys@[k] as int]));
        }
        assert forall|i: int| 0 <= i < l.len() implies #[trigger] class_listed(l, fl, l[i]) by {
            assert(class_seen(l, firsts@, l[i]));
            let u = choose|u: int| 0 <= u < firsts@.len() && l[#[trigger] firsts@[u] as int] == l[i];
            assert(in_keys(keys@, firsts@[u]));
            let q = choose|q: int| 0 <= q < keys@.len() && keys@[q] == firsts@[u];
            assert(fl[q] == firsts@[u] as int);
        }
        assert forall|k1: int, k2: int| 0 <= k1 < k2 < fl.len() implies cluster_before(cs, l, #[trigger] fl[k1], #[trigger] fl[k2]) by {
            assert(tiles@[k1]@ == class_tile(cs, l, l[keys@[k1] as int]));
            assert(tiles@[k2]@ == class_tile(cs, l, l[keys@[k2] as int]));
            assert(size_before(tiles@[k1].estimated_loc as int, keys@[k1] as int, tiles@[k2].estimated_loc as int, keys@[k2] as int));
        }
        assert(tile_listing(cs, fin, fl));
        assert(compartments_view(tiles@) =~= fl.map_values(|f: int| class_tile(cs, fin, fin[f]))) by {
            assert forall|k: int| 0 <= k < fl.len() implies compartments_view(tiles@)[k] == fl.map_values(|f: int| class_tile(cs, fin, fin[f]))[k] by {
                assert(tiles@[k]@ == class_tile(cs, l, l[keys@[k] as int]));
            }
        }
        assert(clustering_run(h, cs.len(), edges, target_tile_count(cs, target_loc_per_tile as int)));
        lemma_run_tiles_meet_target(h, fl, cs, edges, target_loc_per_tile as int);
        assert(tiles@.len() == fl.len());
    }
    tiles
}


/// The LOC of the listed classes among the first `k` crates, summed.
pub open spec fn listing_loc(crates: Seq<CrateInfo>, l: Seq<int>, firsts: Seq<int>, k: int) -> int
    decreases firsts.len(),
{
    if firsts.len() == 0 {
        0
    } else {
        listing_loc(crates, l, firsts.drop_last(), k) + class_loc(crates, l, l[firsts.last()], k)
    }
}

/// How many listed classes are class `c`.
pub open spec fn listed_count(l: Seq<int>, firsts: Seq<int>, c: int) -> int
    decreases firsts.len(),
{
    if firsts.len() == 0 {
        0
    } else {
        listed_count(l, firsts.drop_last(), c) + if l[firsts.last()] == c { 1int } else { 0int }
    }
}

proof fn lemma_listing_loc_step(crates: Seq<CrateInfo>, l: Seq<int>, firsts: Seq<int>, k: int)
    requires
        0 <= k,
    ensures
        listing_loc(crates, l, firsts, k + 1) == listing_loc(crates, l, firsts, k) + crates[k].loc
            * listed_count(l, firsts, l[k]),
    decreases firsts.len(),
{
    if firsts.len() > 0 {
        lemma_listing_loc_step(crates, l, firsts.drop_last(), k);
        assert(listing_loc(crates, l, firsts.drop_last(), k + 1) == listing_loc(crates, l, firsts.drop_last(), k)
            + crates[k].loc * listed_count(l, firsts.drop_last(), l[k]));
        if l[firsts.last()] == l[k] {
            assert(crates[k].loc * (listed_count(l, firsts.drop_last(), l[k]) + 1) == crates[k].loc
                * listed_count(l, firsts.drop_last(), l[k]) + crates[k].loc) by (nonlinear_arith);
        }
    }
}

proof fn lemma_listing_loc_zero(crates: Seq<CrateInfo>, l: Seq<int>, firsts: Seq<int>)
    ensures
        listing_loc(crates, l, firsts, 0) == 0,
    decreases firsts.len(),
{
    if firsts.len() > 0 {
        lemma_listing_loc_zero(crates, l, firsts.drop_last());
    }
}

proof fn lemma_listed_once(l: Seq<int>, firsts: Seq<int>, c: int)
    requires
        forall|k: int| 0 <= k < firsts.len() ==> is_first_member(l, #[trigger] firsts[k]),
        forall|k1: int, k2: int| 0 <= k1 < k2 < firsts.len() ==> #[trigger] firsts[k1] != #[trigger] firsts[k2],
    ensures
        listed_count(l, firsts, c) == if class_listed(l, firsts, c) { 1int } else { 0int },
    decreases firsts.len(),
{
    if firsts.len() > 0 {
        let pre = firsts.drop_last();
        assert forall|k: int| 0 <= k < pre.len() implies is_first_member(l, #[trigger] pre[k]) by {
            assert(pre[k] == firsts[k]);
        }
        assert forall|k1: int, k2: int| 0 <= k1 < k2 < pre.len() implies #[trigger] pre[k1] != #[trigger] pre[k2] by {
            assert(pre[k1] == firsts[k1] && pre[k2] == firsts[k2]);
        }
        lemma_listed_once(l, pre, c);
        let f = firsts.last();
        assert(firsts[firsts.len() - 1] == f);
        if class_listed(l, pre, c) && l[f] == c {
            let k = choose|k: int| 0 <= k < pre.len() && l[#[trigger] pre[k]] == c;
            assert(pre[k] == firsts[k]);
            assert(is_first_member(l, firsts[k]));
            assert(is_first_member(l, f));
            assert(firsts[k] != f);
            if firsts[k] < f {
                assert(l[firsts[k]] != l[f]);
            } else {
                assert(l[f] != l[firsts[k]]);
            }
        }
        if class_listed(l, firsts, c) && !class_listed(l, pre, c) {
            let k = choose|k: int| 0 <= k < firsts.len() && l[#[trigger] firsts[k]] == c;
            if k < pre.len() {
                assert(pre[k] == firsts[k]);
            }
        }
        if class_listed(l, pre, c) {
            let k = choose|k: int| 0 <= k < pre.len() && l[#[trigger] pre[k]] == c;
            assert(pre[k] == firsts[k]);
        }
    }
}

/// Clustering keeps every line: the tiles' estimated LOC adds up to the crates' LOC.
pub proof fn lemma_tiles_preserve_loc(crates: Seq<CrateInfo>, l: Seq<int>, firsts: Seq<int>)
    requires
        l.len() == crates.len(),
        tile_listing(crates, l, firsts),
    ensures
        compartments_loc(firsts.map_values(|f: int| class_tile(crates, l, l[f]))) == loc_sum(crates),
{
    let n = crates.len() as int;
    assert forall|k1: int, k2: int| 0 <= k1 < k2 < firsts.len() implies #[trigger] firsts[k1] != #[trigger] firsts[k2] by {
        assert(cluster_before(crates, l, firsts[k1], firsts[k2]));
        if firsts[k1] == firsts[k2] {
            assert(!cluster_before(crates, l, firsts[k1], firsts[k2]));
        }
    }
    lemma_listing_prefix(crates, l, firsts, n);
    assert(crates.take(n) =~= crates);
    lemma_compartments_of_listing(crates, l, firsts);
}

proof fn lemma_listing_prefix(crates: Seq<CrateInfo>, l: Seq<int>, firsts: Seq<int>, k: int)
    requires
        0 <= k <= crates.len(),
        l.len() == crates.len(),
        tile_listing(crates, l, firsts),
        forall|k1: int, k2: int| 0 <= k1 < k2 < firsts.len() ==> #[trigger] firsts[k1] != #[trigger] firsts[k2],
    ensures
        listing_loc(crates, l, firsts, k) == loc_sum(crates.take(k)),
    decreases k,
{
    if k == 0 {
        lemma_listing_loc_zero(crates, l, firsts);
        assert(crates.take(0) =~= Seq::<CrateInfo>::empty());
    } else {
        lemma_listing_prefix(crates, l, firsts, k - 1);
        lemma_listing_loc_step(crates, l, firsts, k - 1);
        assert(class_listed(l, firsts, l[k - 1]));
        lemma_listed_once(l, firsts, l[k - 1]);
        assert(crates.take(k).drop_last() =~= crates.take(k - 1));
    }
}

proof fn lemma_compartments_of_listing(crates: Seq<CrateInfo>, l: Seq<int>, firsts: Seq<int>)
    ensures
        compartments_loc(firsts.map_values(|f: int| class_tile(crates, l, l[f]))) == listing_loc(
            crates,
            l,
            firsts,
            crates.len() as int,
        ),
    decreases firsts.len(),
{
    if firsts.len() > 0 {
        lemma_compartments_of_listing(crates, l, firsts.drop_last());
        assert(firsts.map_values(|f: int| class_tile(crates, l, l[f])).drop_last() =~= firsts.drop_last().map_values(
            |f: int| class_tile(crates, l, l[f]),
        ));
    }
}

/// The DRY tiles of a workspace: none for fewer than two crates, otherwise
/// the connectivity tiles aiming at `dry_tile_target_loc` lines per tile.
pub fn dry_tiles_from_crates(
    crates: Vec<CrateInfo>,
    dep_edges: &[(usize, usize)],
    config: &crate::config::LayoutConfig,
) -> (tiles: Vec<Compartment>)
    requires
        crates@.len() >= 2 ==> config.dry_tile_target_loc > 0 && loc_sum(crates@) <= usize::MAX,
        crates@.len() >= 2 && crates@.len() > target_tile_count(crates@, config.dry_tile_target_loc as int)
            ==> edges_in_range(dep_edges@, crates@.len() as int),
    ensures
        crates@.len() < 2 ==> tiles@.len() == 0,
        crates@.len() >= 2 ==> exists|h: Seq<Seq<int>>, firsts: Seq<int>|
            #![trigger clustering_run(h, crates@.len(), dep_edges@, target_tile_count(crates@, config.dry_tile_target_loc as int)), tile_listing(crates@, h.last(), firsts)]
            clustering_run(h, crates@.len(), dep_edges@, target_tile_count(crates@, config.dry_tile_target_loc as int))
                && tile_listing(crates@, h.last(), firsts)
                && compartments_view(tiles@) == firsts.map_values(|f: int| class_tile(crates@, h.last(), h.last()[f])),
        crates@.len() >= 2 ==> tiles@.len() == crates@.len() || tiles@.len() * config.dry_tile_target_loc >= loc_sum(crates@),
{
    if crates.len() < 2 {
        return Vec::new();
    }
    connectivity_tiles(crates, dep_edges, config.dry_tile_target_loc)
}


proof fn lemma_class_reps_finite(l: Seq<int>)
    ensures
        class_reps(l).finite(),
{
    vstd::set_lib::lemma_int_range(0, l.len() as int);
    vstd::set_lib::lemma_len_subset(class_reps(l), vstd::set_lib::set_int_range(0, l.len() as int));
}

/// Joining two different classes leaves one class fewer.
pub proof fn lemma_merge_count(l: Seq<int>, a: int, b: int, w: int)
    requires
        is_rep(l, a),
        is_rep(l, b),
        a != b,
        w == a || w == b,
    ensures
        class_count(merge_classes(l, a, b, w)) == class_count(l) - 1,
        merge_classes(l, a, b, w).len() == l.len(),
{
    let m = merge_classes(l, a, b, w);
    let loser = if w == a { b } else { a };
    assert(class_reps(m) =~= class_reps(l).remove(loser)) by {
        assert forall|r: int| #[trigger] class_reps(m).contains(r) <==> class_reps(l).remove(loser).contains(r) by {
            if 0 <= r < l.len() {
                assert(m[r] == if l[r] == a || l[r] == b { w } else { l[r] });
            }
        }
    }
    lemma_class_reps_finite(l);
    assert(class_reps(l).contains(loser));
}

/// A clustering run loses exactly one cluster per merge, and it never merges
/// below the target: it ends with at least `min(n, target)` clusters.
pub proof fn lemma_run_cluster_counts(h: Seq<Seq<int>>, n: nat, edges: Seq<(usize, usize)>, target: int)
    requires
        clustering_run(h, n, edges, target),
    ensures
        forall|k: int| 0 <= k < h.len() ==> #[trigger] class_count(h[k]) == n - k && h[k].len() == n,
        class_count(h.last()) >= if n < target { n as int } else { target },
{
    assert(class_reps(identity_labels(n)) =~= vstd::set_lib::set_int_range(0, n as int));
    vstd::set_lib::lemma_int_range(0, n as int);
    lemma_run_prefix(h, n, edges, target, h.len() - 1);
    if h.len() > 1 {
        assert(class_count(h[h.len() - 2]) > target);
    }
}

proof fn lemma_run_prefix(h: Seq<Seq<int>>, n: nat, edges: Seq<(usize, usize)>, target: int, k: int)
    requires
        clustering_run(h, n, edges, target),
        class_count(identity_labels(n)) == n,
        0 <= k < h.len(),
    ensures
        forall|j: int| 0 <= j <= k ==> #[trigger] class_count(h[j]) == n - j && h[j].len() == n,
    decreases k,
{
    if k > 0 {
        lemma_run_prefix(h, n, edges, target, k - 1);
        assert(greedy_merge(h[k - 1], h[k], edges));
        let l = h[k - 1];
        let (a, b) = choose|a: int, b: int|
            #![trigger class_edges(l, edges, a, b)]
            is_rep(l, a) && is_rep(l, b) && a < b && class_edges(l, edges, a, b) >= 1 && (forall|c: int, d: int|
                is_rep(l, c) && is_rep(l, d) && c < d ==> #[trigger] class_edges(l, edges, c, d) <= class_edges(
                    l,
                    edges,
                    a,
                    b,
                )) && (h[k] == merge_classes(l, a, b, a) || h[k] == merge_classes(l, a, b, b));
        if h[k] == merge_classes(l, a, b, a) {
            lemma_merge_count(l, a, b, a);
        } else {
            lemma_merge_count(l, a, b, b);
        }
    }
}

/// The tile count aimed for is the least number of tiles of `target_loc`
/// lines that hold all the crates' lines, and at least one: that many tiles
/// reach the total, and one fewer would fall short of it whenever there is code.
pub proof fn lemma_target_tile_count(crates: Seq<CrateInfo>, target_loc: int)
    requires
        target_loc > 0,
    ensures
        target_tile_count(crates, target_loc) >= 1,
        target_tile_count(crates, target_loc) * target_loc >= loc_sum(crates),
        loc_sum(crates) > 0 ==> (target_tile_count(crates, target_loc) - 1) * target_loc < loc_sum(crates),
{
    let total = loc_sum(crates);
    lemma_loc_sum_nonneg(crates);
    let q = total / target_loc;
    let r = total % target_loc;
    vstd::arithmetic::div_mod::lemma_fundamental_div_mod(total, target_loc);
    vstd::arithmetic::div_mod::lemma_mod_pos_bound(total, target_loc);
    assert(total == target_loc * q + r);
    assert(q >= 0) by (nonlinear_arith)
        requires
            total == target_loc * q + r,
            0 <= r < target_loc,
            total >= 0,
    ;
    let c = if r == 0 { q } else { q + 1 };
    assert(c * target_loc >= total && (total > 0 ==> (c - 1) * target_loc < total)) by (nonlinear_arith)
        requires
            total == target_loc * q + r,
            0 <= r < target_loc,
            c == if r == 0 { q } else { q + 1 },
            q >= 0,
    ;
    if c < 1 {
        assert(q == 0 && r == 0);
        assert(total == 0) by (nonlinear_arith)
            requires
                total == target_loc * q + r,
                q == 0,
                r == 0,
        ;
    }
}

/// The clustering merges only while the clusters left after the merge can
/// still hold every line at `target_loc` lines per tile: before each merge
/// there are `c` clusters with `(c - 1) * target_loc` at least the total LOC.
/// So a run that merged at all ends with enough clusters for the target.
pub proof fn lemma_run_merges_only_above_target(
    h: Seq<Seq<int>>,
    crates: Seq<CrateInfo>,
    edges: Seq<(usize, usize)>,
    target_loc: int,
)
    requires
        target_loc > 0,
        clustering_run(h, crates.len(), edges, target_tile_count(crates, target_loc)),
    ensures
        forall|k: int| 0 <= k < h.len() - 1 ==> (#[trigger] class_count(h[k]) - 1) * target_loc >= loc_sum(crates),
        class_count(h.last()) == crates.len() || class_count(h.last()) * target_loc >= loc_sum(crates),
{
    let t = target_tile_count(crates, target_loc);
    lemma_target_tile_count(crates, target_loc);
    lemma_run_cluster_counts(h, crates.len(), edges, t);
    assert forall|k: int| 0 <= k < h.len() - 1 implies (#[trigger] class_count(h[k]) - 1) * target_loc >= loc_sum(crates) by {
        let c = class_count(h[k]) as int;
        assert(c > t);
        assert((c - 1) * target_loc >= t * target_loc) by (nonlinear_arith)
            requires
                c - 1 >= t,
                target_loc > 0,
        ;
    }
    if h.len() > 1 {
        let k = h.len() - 2;
        assert(class_count(h[k]) == crates.len() - k);
        assert(class_count(h[k + 1]) == crates.len() - (k + 1));
        assert(h[k + 1] == h.last());
        assert((class_count(h[k]) - 1) * target_loc >= loc_sum(crates));
    } else {
        assert(class_count(h[0]) == crates.len() - 0);
    }
}

/// Every labeling of a clustering run is well formed.
proof fn lemma_run_labeling_wf(h: Seq<Seq<int>>, n: nat, edges: Seq<(usize, usize)>, target: int, k: int)
    requires
        clustering_run(h, n, edges, target),
        0 <= k < h.len(),
    ensures
        labeling_wf(h[k]),
    decreases k,
{
    if k > 0 {
        lemma_run_labeling_wf(h, n, edges, target, k - 1);
        let l = h[k - 1];
        assert(greedy_merge(l, h[k], edges));
        let (a, b) = choose|a: int, b: int|
            #![trigger class_edges(l, edges, a, b)]
            is_rep(l, a) && is_rep(l, b) && a < b && class_edges(l, edges, a, b) >= 1 && (forall|c: int, d: int|
                is_rep(l, c) && is_rep(l, d) && c < d ==> #[trigger] class_edges(l, edges, c, d) <= class_edges(
                    l,
                    edges,
                    a,
                    b,
                )) && (h[k] == merge_classes(l, a, b, a) || h[k] == merge_classes(l, a, b, b));
        let m = h[k];
        assert forall|i: int| 0 <= i < m.len() implies 0 <= #[trigger] m[i] < m.len() && m[m[i]] == m[i] by {
            assert(0 <= l[i] < l.len() && l[l[i]] == l[i]);
        }
    }
}

/// A tile listing of a well-formed labeling has one entry per cluster.
pub proof fn lemma_listing_counts_classes(crates: Seq<CrateInfo>, l: Seq<int>, firsts: Seq<int>)
    requires
        l.len() == crates.len(),
        labeling_wf(l),
        tile_listing(crates, l, firsts),
    ensures
        firsts.len() == class_count(l),
{
    let img = firsts.map_values(|f: int| l[f]);
    assert forall|k1: int, k2: int| 0 <= k1 < img.len() && 0 <= k2 < img.len() && k1 != k2 implies img[k1] != img[k2] by {
        let (x, y) = if k1 < k2 { (k1, k2) } else { (k2, k1) };
        let f1 = firsts[x];
        let f2 = firsts[y];
        assert(cluster_before(crates, l, f1, f2));
        assert(is_first_member(l, f1) && is_first_member(l, f2));
        if l[f1] == l[f2] {
            if f1 < f2 {
                assert(l[f1] != l[f2]);
            } else if f2 < f1 {
                assert(l[f2] != l[f1]);
            }
        }
    }
    assert(img.no_duplicates());
    img.unique_seq_to_set();
    assert(img.to_set() =~= class_reps(l)) by {
        assert forall|r: int| img.to_set().contains(r) <==> #[trigger] class_reps(l).contains(r) by {
            if img.to_set().contains(r) {
                let k = choose|k: int| 0 <= k < img.len() && img[k] == r;
                assert(is_first_member(l, firsts[k]));
            }
            if class_reps(l).contains(r) {
                assert(class_listed(l, firsts, l[r]));
                let k = choose|k: int| 0 <= k < firsts.len() && l[#[trigger] firsts[k]] == l[r];
                assert(img[k] == r);
            }
        }
    }
}

/// A clustering run's tiles are as many as the crates, when nothing was
/// merged, or enough to hold every line at `target_loc` lines per tile.
pub proof fn lemma_run_tiles_meet_target(
    h: Seq<Seq<int>>,
    firsts: Seq<int>,
    crates: Seq<CrateInfo>,
    edges: Seq<(usize, usize)>,
    target_loc: int,
)
    requires
        target_loc > 0,
        clustering_run(h, crates.len(), edges, target_tile_count(crates, target_loc)),
        tile_listing(crates, h.last(), firsts),
    ensures
        firsts.len() == crates.len() || firsts.len() * target_loc >= loc_sum(crates),
{
    lemma_run_labeling_wf(h, crates.len(), edges, target_tile_count(crates, target_loc), h.len() - 1);
    lemma_run_cluster_counts(h, crates.len(), edges, target_tile_count(crates, target_loc));
    lemma_listing_counts_classes(crates, h.last(), firsts);
    lemma_run_merges_only_above_target(h, crates, edges, target_loc);
}

} // verus!
