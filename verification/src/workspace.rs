//! Workspace members: naming and ordering crates, and their dependency edges.
use vstd::prelude::*;

use crate::paths::{extension_of, file_name_of, path_extension, path_file_name, path_less, path_lt};
use crate::types::strings_view;
use crate::CrateInfo;

verus! {

/// The name a crate gets from its path: the path's final component, or
/// `"unknown"` when it has none.
pub open spec fn crate_name_of(path: Seq<char>) -> Seq<char> {
    match path_file_name(path) {
        Some(n) => n,
        None => "unknown"@,
    }
}

/// `order` lists every index `0..locs.len()` once, by LOC descending and, on
/// equal LOC, by index.
pub open spec fn loc_order(locs: Seq<usize>, order: Seq<int>) -> bool {
    &&& order.len() == locs.len()
    &&& forall|k: int| 0 <= k < order.len() ==> 0 <= #[trigger] order[k] < locs.len()
    &&& forall|x: int, y: int|
        0 <= x < y < order.len() ==> locs[#[trigger] order[x]] > locs[#[trigger] order[y]] || (locs[order[x]]
            == locs[order[y]] && order[x] < order[y])
}

/// The crate made of a member path and its LOC.
pub open spec fn member_crate(c: CrateInfo, path: Seq<char>, loc: usize) -> bool {
    c.path@ == path && c.name@ == crate_name_of(path) && c.loc == loc
}

/// Name each member crate by its directory and order the crates by LOC,
/// largest first; crates of equal LOC keep their order.
///
/// `paths[i]` is the path of a member (relative to the project root) and
/// `locs[i]` its lines of Rust code.
pub fn resolve_crate_infos(paths: Vec<String>, locs: Vec<usize>) -> (crates: Vec<CrateInfo>)
    requires
        paths@.len() == locs@.len(),
    ensures
        exists|order: Seq<int>|
            #[trigger] loc_order(locs@, order) && crates@.len() == order.len() && forall|k: int|
                0 <= k < crates@.len() ==> member_crate(#[trigger] crates@[k], paths@[order[k]]@, locs@[order[k]]),
{
    let mut crates: Vec<CrateInfo> = Vec::new();
    let mut keys: Vec<usize> = Vec::new();
    let n = paths.len();
    for i in 0..n
        invariant
            n == paths@.len(),
            paths@.len() == locs@.len(),
            crates@.len() == keys@.len(),
            keys@.len() == i,
            forall|k: int| 0 <= k < keys@.len() ==> #[trigger] keys@[k] < i,
            forall|x: int, y: int|
                0 <= x < y < keys@.len() ==> locs@[#[trigger] keys@[x] as int] > locs@[#[trigger] keys@[y] as int] || (
                locs@[keys@[x] as int] == locs@[keys@[y] as int] && keys@[x] < keys@[y]),
            forall|k: int| 0 <= k < keys@.len() ==> member_crate(#[trigger] crates@[k], paths@[keys@[k] as int]@, locs@[keys@[k] as int]),
            forall|j: int| 0 <= j < i ==> #[trigger] key_present(keys@, j),
    {
        let name = match file_name_of(&paths[i]) {
            Some(s) => s,
            None => String::from_str("unknown"),
        };
        let loc = locs[i];
        let c = CrateInfo { path: paths[i].clone(), name, loc };
        let mut pos: usize = 0;
        let ghost ks = keys@;
        let ghost cs = crates@;
        while pos < keys.len() && locs[keys[pos]] >= loc
            invariant
                pos <= keys@.len(),
                ks == keys@,
                cs == crates@,
                keys@.len() == crates@.len(),
                n == paths@.len(),
                paths@.len() == locs@.len(),
                i < n,
                forall|k: int| 0 <= k < keys@.len() ==> #[trigger] keys@[k] < i,
                forall|q: int| 0 <= q < pos ==> locs@[#[trigger] ks[q] as int] >= loc,
            decreases keys@.len() - pos,
        {
            pos = pos + 1;
        }
        crates.insert(pos, c);
        keys.insert(pos, i);
        proof {
            let nk = keys@;
            assert(nk == ks.insert(pos as int, i));
            assert forall|x: int, y: int|
                0 <= x < y < nk.len() implies locs@[#[trigger] nk[x] as int] > locs@[#[trigger] nk[y] as int] || (
                locs@[nk[x] as int] == locs@[nk[y] as int] && nk[x] < nk[y]) by {
                if y < pos {
                    assert(nk[x] == ks[x] && nk[y] == ks[y]);
                } else if y == pos {
                    assert(nk[x] == ks[x]);
                } else if x < pos {
                    assert(nk[x] == ks[x] && nk[y] == ks[y - 1]);
                    assert(locs@[ks[pos as int] as int] < loc);
                } else if x == pos {
                    assert(nk[y] == ks[y - 1]);
                    assert(locs@[ks[pos as int] as int] < loc);
                } else {
                    assert(nk[x] == ks[x - 1] && nk[y] == ks[y - 1]);
                }
            }
            assert forall|k: int| 0 <= k < nk.len() implies member_crate(#[trigger] crates@[k], paths@[nk[k] as int]@, locs@[nk[k] as int]) by {
                if k < pos {
                    assert(crates@[k] == cs[k]);
                } else if k > pos {
                    assert(crates@[k] == cs[k - 1]);
                }
            }
            assert forall|j: int| 0 <= j < i + 1 implies #[trigger] key_present(nk, j) by {
                if j < i {
                    assert(key_present(ks, j));
                    let q = choose|q: int| 0 <= q < ks.len() && ks[q] == j;
                    if q < pos {
                        assert(nk[q] == j);
                    } else {
                        assert(nk[q + 1] == j);
                    }
                } else {
                    assert(nk[pos as int] == i);
                }
            }
        }
    }
    proof {
        let order = keys@.map_values(|k: usize| k as int);
        assert(loc_order(locs@, order));
        assert forall|k: int| 0 <= k < crates@.len() implies member_crate(#[trigger] crates@[k], paths@[order[k]]@, locs@[order[k]]) by {}
    }
    crates
}

/// Index `j` is among the keys.
pub open spec fn key_present(keys: Seq<usize>, j: int) -> bool {
    exists|q: int| 0 <= q < keys.len() && keys[q] == j
}


/// Index of the last crate named `name`: the one that a name-to-index map,
/// filled in crate order, keeps.
pub open spec fn crate_index_of(crates: Seq<CrateInfo>, name: Seq<char>) -> Option<int>
    decreases crates.len(),
{
    if crates.len() == 0 {
        None
    } else if crates.last().name@ == name {
        Some(crates.len() - 1)
    } else {
        crate_index_of(crates.drop_last(), name)
    }
}

/// Crate `i` lists, among its dependency names, the name of crate `j`, another crate.
pub open spec fn is_dep_edge(crates: Seq<CrateInfo>, deps: Seq<Seq<Seq<char>>>, i: int, j: int) -> bool {
    &&& 0 <= i < deps.len()
    &&& i != j
    &&& exists|d: int| 0 <= d < deps[i].len() && crate_index_of(crates, #[trigger] deps[i][d]) == Some(j)
}

/// Edge `a` comes before edge `b`, comparing `from` first, then `to`.
pub open spec fn edge_lt(a: (usize, usize), b: (usize, usize)) -> bool {
    a.0 < b.0 || (a.0 == b.0 && a.1 < b.1)
}

/// Edges in strictly increasing order (so none twice).
pub open spec fn edges_sorted(s: Seq<(usize, usize)>) -> bool {
    forall|x: int, y: int| 0 <= x < y < s.len() ==> edge_lt(#[trigger] s[x], #[trigger] s[y])
}

/// The crate that `name` names, if any, is `i` itself or has its edge from `i` in `edges`.
pub open spec fn dep_recorded(crates: Seq<CrateInfo>, edges: Seq<(usize, usize)>, i: int, name: Seq<char>) -> bool {
    match crate_index_of(crates, name) {
        Some(b) => b == i || edges.contains((i as usize, b as usize)),
        None => true,
    }
}

proof fn lemma_crate_index_range(crates: Seq<CrateInfo>, name: Seq<char>)
    ensures
        crate_index_of(crates, name) matches Some(j) ==> 0 <= j < crates.len(),
    decreases crates.len(),
{
    if crates.len() > 0 {
        lemma_crate_index_range(crates.drop_last(), name);
    }
}

/// The dependency names of each crate.
pub open spec fn dep_names(deps: Seq<Vec<String>>) -> Seq<Seq<Seq<char>>> {
    deps.map_values(|v: Vec<String>| v@.map_values(|s: String| s@))
}

fn last_index_named(crates: &[CrateInfo], name: &String) -> (r: Option<usize>)
    ensures
        match r {
            Some(j) => crate_index_of(crates@, name@) == Some(j as int),
            None => crate_index_of(crates@, name@) is None,
        },
{
    let mut k = crates.len();
    proof {
        assert(crates@.take(k as int) =~= crates@);
    }
    while k > 0
        invariant
            k <= crates@.len(),
            crate_index_of(crates@, name@) == crate_index_of(crates@.take(k as int), name@),
        decreases k,
    {
        proof {
            assert(crates@.take(k as int).drop_last() =~= crates@.take(k - 1));
        }
        if crates[k - 1].name == *name {
            return Some(k - 1);
        }
        k = k - 1;
    }
    proof {
        assert(crates@.take(0) =~= Seq::<CrateInfo>::empty());
    }
    None
}

/// Adds `e` to the sorted `edges` unless it is there already.
fn insert_edge(edges: &mut Vec<(usize, usize)>, e: (usize, usize))
    requires
        edges_sorted(old(edges)@),
    ensures
        edges_sorted(final(edges)@),
        forall|x: (usize, usize)| #[trigger] final(edges)@.contains(x) <==> old(edges)@.contains(x) || x == e,
{
    let ghost s = edges@;
    let mut pos: usize = 0;
    while pos < edges.len() && (edges[pos].0 < e.0 || (edges[pos].0 == e.0 && edges[pos].1 < e.1))
        invariant
            pos <= edges@.len(),
            s == edges@,
            forall|q: int| 0 <= q < pos ==> edge_lt(#[trigger] s[q], e),
        decreases edges@.len() - pos,
    {
        pos = pos + 1;
    }
    if pos < edges.len() && edges[pos].0 == e.0 && edges[pos].1 == e.1 {
        proof {
            assert(s[pos as int] == e);
        }
        return;
    }
    edges.insert(pos, e);
    proof {
        let f = edges@;
        assert(f == s.insert(pos as int, e));
        assert forall|x: int, y: int| 0 <= x < y < f.len() implies edge_lt(#[trigger] f[x], #[trigger] f[y]) by {
            if y < pos {
                assert(f[x] == s[x] && f[y] == s[y]);
            } else if y == pos {
                assert(f[x] == s[x]);
            } else if x < pos {
                assert(f[x] == s[x] && f[y] == s[y - 1]);
            } else if x == pos {
                assert(f[y] == s[y - 1]);
            } else {
                assert(f[x] == s[x - 1] && f[y] == s[y - 1]);
            }
        }
        assert forall|x: (usize, usize)| #[trigger] f.contains(x) <==> s.contains(x) || x == e by {
            if f.contains(x) {
                let q = choose|q: int| 0 <= q < f.len() && f[q] == x;
                if q < pos {
                    assert(s[q] == x);
                } else if q > pos {
                    assert(s[q - 1] == x);
                }
            }
            if s.contains(x) {
                let q = choose|q: int| 0 <= q < s.len() && s[q] == x;
                if q < pos {
                    assert(f[q] == x);
                } else {
                    assert(f[q + 1] == x);
                }
            }
            if x == e {
                assert(f[pos as int] == e);
            }
        }
    }
}

/// Dependency edges between workspace members.
///
/// `deps[i]` holds the dependency names that crate `i` lists (its
/// `[dependencies]` and `[dev-dependencies]` together). Returns the directed
/// edges `(i, j)` where crate `i` lists the name of crate `j` (the last crate
/// of that name), leaving out self-edges, sorted and without repeats.
pub fn workspace_dep_edges(crates: &[CrateInfo], deps: &Vec<Vec<String>>) -> (edges: Vec<(usize, usize)>)
    ensures
        edges_sorted(edges@),
        forall|k: int| 0 <= k < edges@.len() ==> is_dep_edge(crates@, dep_names(deps@), (#[trigger] edges@[k]).0 as int, edges@[k].1 as int),
        forall|i: int, j: int| #[trigger] is_dep_edge(crates@, dep_names(deps@), i, j) ==> edges@.contains((i as usize, j as usize)),
{
    let ghost dn = dep_names(deps@);
    let mut edges: Vec<(usize, usize)> = Vec::new();
    let n = deps.len();
    for i in 0..n
        invariant
            n == deps@.len(),
            dn == dep_names(deps@),
            edges_sorted(edges@),
            forall|x: (usize, usize)| #[trigger] edges@.contains(x) ==> is_dep_edge(crates@, dn, x.0 as int, x.1 as int) && x.0 < i,
            forall|a: int, b: int| 0 <= a < i && #[trigger] is_dep_edge(crates@, dn, a, b) ==> edges@.contains((a as usize, b as usize)),
    {
        let names = &deps[i];
        let m = names.len();
        proof {
            assert(dn[i as int] == names@.map_values(|s: String| s@));
        }
        for d in 0..m
            invariant
                m == names@.len(),
                i < n,
                n == deps@.len(),
                names == deps@[i as int],
                dn == dep_names(deps@),
                dn[i as int] == names@.map_values(|s: String| s@),
                edges_sorted(edges@),
                forall|x: (usize, usize)| #[trigger] edges@.contains(x) ==> is_dep_edge(crates@, dn, x.0 as int, x.1 as int) && x.0 <= i,
                forall|a: int, b: int| 0 <= a < i && #[trigger] is_dep_edge(crates@, dn, a, b) ==> edges@.contains((a as usize, b as usize)),
                forall|d2: int| 0 <= d2 < d ==> dep_recorded(crates@, edges@, i as int, #[trigger] dn[i as int][d2]),
        {
            let ghost old_edges = edges@;
            match last_index_named(crates, &names[d]) {
                Some(j) => {
                    if j != i {
                        proof {
                            assert(dn[i as int][d as int] == names@[d as int]@);
                            assert(is_dep_edge(crates@, dn, i as int, j as int));
                        }
                        insert_edge(&mut edges, (i, j));
                    }
                },
                None => {},
            }
            proof {
                assert(dn[i as int][d as int] == names@[d as int]@);
                assert forall|a: int, b: int| 0 <= a < i && #[trigger] is_dep_edge(crates@, dn, a, b) implies edges@.contains((a as usize, b as usize)) by {
                    assert(old_edges.contains((a as usize, b as usize)));
                }
                assert forall|d2: int| 0 <= d2 < d + 1 implies dep_recorded(crates@, edges@, i as int, #[trigger] dn[i as int][d2]) by {
                    if d2 < d {
                        assert(dep_recorded(crates@, old_edges, i as int, dn[i as int][d2]));
                        match crate_index_of(crates@, dn[i as int][d2]) {
                            Some(b) => {
                                if b != i {
                                    assert(old_edges.contains((i, b as usize)));
                                }
                            },
                            None => {},
                        }
                    }
                }
            }
        }
        proof {
            assert forall|a: int, b: int| 0 <= a < i + 1 && #[trigger] is_dep_edge(crates@, dn, a, b) implies edges@.contains((a as usize, b as usize)) by {
                if a == i {
                    let d2 = choose|d2: int| 0 <= d2 < dn[a].len() && crate_index_of(crates@, #[trigger] dn[a][d2]) == Some(b);
                    assert(dep_recorded(crates@, edges@, i as int, dn[i as int][d2]));
                    lemma_crate_index_range(crates@, dn[a][d2]);
                }
            }
            assert forall|x: (usize, usize)| #[trigger] edges@.contains(x) implies is_dep_edge(crates@, dn, x.0 as int, x.1 as int) && x.0 < i + 1 by {}
        }
    }
    proof {
        assert forall|k: int| 0 <= k < edges@.len() implies is_dep_edge(crates@, dn, (#[trigger] edges@[k]).0 as int, edges@[k].1 as int) by {
            assert(edges@.contains(edges@[k]));
        }
        assert forall|i: int, j: int| #[trigger] is_dep_edge(crates@, dn, i, j) implies edges@.contains((i as usize, j as usize)) by {}
    }
    edges
}


/// The directory part of a member pattern `dir/*`, or `None` for a literal path.
pub open spec fn glob_prefix(p: Seq<char>) -> Option<Seq<char>> {
    if p.len() >= 2 && p[p.len() - 2] == '/' && p[p.len() - 1] == '*' {
        Some(p.take(p.len() - 2))
    } else {
        None
    }
}

/// Splits a workspace member pattern: `crates/*` names every subdirectory of
/// `crates` (giving `Some("crates")`); any other pattern is a literal path (`None`).
pub fn member_glob_prefix(pattern: &str) -> (r: Option<String>)
    ensures
        match r {
            Some(s) => glob_prefix(pattern@) == Some(s@),
            None => glob_prefix(pattern@) is None,
        },
{
    let len = pattern.unicode_len();
    if len >= 2 && pattern.get_char(len - 2) == '/' && pattern.get_char(len - 1) == '*' {
        let prefix = pattern.substring_char(0, len - 2);
        Some(String::from_str(prefix))
    } else {
        None
    }
}

/// A directory of build outputs, skipped when counting lines: one named `target`.
pub fn is_build_output_dir(path: &String) -> (r: bool)
    ensures
        r == (path_file_name(path@) == Some("target"@)),
{
    let target = String::from_str("target");
    match file_name_of(path) {
        Some(name) => name == target,
        None => false,
    }
}

/// A Rust source file: one with the extension `rs`.
pub fn is_rust_source(path: &String) -> (r: bool)
    ensures
        r == (path_extension(path@) == Some("rs"@)),
{
    let rs = String::from_str("rs");
    match extension_of(path) {
        Some(ext) => ext == rs,
        None => false,
    }
}


/// Paths in order: no path orders before the one just ahead of it.
pub open spec fn paths_ordered(s: Seq<Seq<char>>) -> bool {
    forall|k: int| 0 <= k < s.len() - 1 ==> !path_lt(#[trigger] s[k + 1], s[k])
}

/// `order` lists each index `0..n` at most once (and has `n` entries, so every index once).
pub open spec fn index_permutation(order: Seq<int>, n: int) -> bool {
    &&& order.len() == n
    &&& forall|k: int| 0 <= k < order.len() ==> 0 <= #[trigger] order[k] < n
    &&& forall|k1: int, k2: int| 0 <= k1 < k2 < order.len() ==> #[trigger] order[k1] != #[trigger] order[k2]
}

/// `sorted` holds `paths` rearranged by `order`, and whenever a path moved
/// ahead of one that came before it in `paths`, it orders strictly before it:
/// paths that compare equal keep their input order.
pub open spec fn stable_arrangement(sorted: Seq<Seq<char>>, paths: Seq<Seq<char>>, order: Seq<int>) -> bool {
    &&& index_permutation(order, paths.len() as int)
    &&& sorted.len() == order.len()
    &&& forall|k: int| 0 <= k < sorted.len() ==> #[trigger] sorted[k] == paths[order[k]]
    &&& forall|k1: int, k2: int|
        0 <= k1 < k2 < sorted.len() && #[trigger] order[k1] > #[trigger] order[k2] ==> path_lt(sorted[k1], sorted[k2])
}

/// Sort the member paths that a `dir/*` pattern lists, in `Path` order;
/// paths that compare equal keep their order.
pub fn sort_member_paths(paths: Vec<String>) -> (sorted: Vec<String>)
    ensures
        exists|order: Seq<int>| #[trigger] stable_arrangement(strings_view(sorted@), strings_view(paths@), order),
        paths_ordered(strings_view(sorted@)),
{
    let ghost pv = strings_view(paths@);
    let mut sorted: Vec<String> = Vec::new();
    let ghost mut order: Seq<int> = Seq::empty();
    let n = paths.len();
    for i in 0..n
        invariant
            n == paths@.len(),
            pv == strings_view(paths@),
            order.len() == i,
            sorted@.len() == i,
            forall|k: int| 0 <= k < order.len() ==> 0 <= #[trigger] order[k] < i,
            forall|k1: int, k2: int| 0 <= k1 < k2 < order.len() ==> #[trigger] order[k1] != #[trigger] order[k2],
            forall|k: int| 0 <= k < sorted@.len() ==> #[trigger] strings_view(sorted@)[k] == pv[order[k]],
            forall|k1: int, k2: int|
                0 <= k1 < k2 < sorted@.len() && #[trigger] order[k1] > #[trigger] order[k2] ==> path_lt(
                    strings_view(sorted@)[k1],
                    strings_view(sorted@)[k2],
                ),
            paths_ordered(strings_view(sorted@)),
    {
        let x = paths[i].clone();
        let ghost s = strings_view(sorted@);
        proof {
            assert(x@ == pv[i as int]);
        }
        // Walk back over the paths that `x` orders before.
        let mut pos: usize = sorted.len();
        while pos > 0 && path_less(&x, &sorted[pos - 1])
            invariant
                pos <= sorted@.len(),
                s == strings_view(sorted@),
                forall|q: int| pos <= q < s.len() ==> path_lt(x@, #[trigger] s[q]),
                pos < s.len() ==> !path_lt(s[pos as int], x@),
                paths_ordered(s),
            decreases pos,
        {
            proof {
                assert(s[pos - 1] == sorted@[pos - 1]@);
            }
            pos = pos - 1;
        }
        proof {
            if pos > 0 {
                assert(s[pos - 1] == sorted@[pos - 1]@);
                assert(!path_lt(x@, s[pos - 1]));
            }
            if pos < s.len() {
                assert(path_lt(x@, s[pos as int]));
                assert(!path_lt(s[pos as int], x@));
            }
        }
        let ghost xv = x@;
        sorted.insert(pos, x);
        proof {
            let old_order = order;
            order = order.insert(pos as int, i as int);
            let f = strings_view(sorted@);
            assert(f =~= s.insert(pos as int, xv));
            assert forall|k: int| 0 <= k < order.len() implies 0 <= #[trigger] order[k] < i + 1 by {
                if k < pos {
                    assert(order[k] == old_order[k]);
                } else if k > pos {
                    assert(order[k] == old_order[k - 1]);
                }
            }
            assert forall|k1: int, k2: int| 0 <= k1 < k2 < order.len() implies #[trigger] order[k1] != #[trigger] order[k2] by {
                let a = if k1 < pos { k1 } else { k1 - 1 };
                let b = if k2 < pos { k2 } else { k2 - 1 };
                if k1 != pos && k2 != pos {
                    assert(order[k1] == old_order[a] && order[k2] == old_order[b]);
                } else if k1 == pos {
                    assert(order[k2] == old_order[b]);
                } else {
                    assert(order[k1] == old_order[a]);
                }
            }
            assert forall|k: int| 0 <= k < sorted@.len() implies #[trigger] strings_view(sorted@)[k] == pv[order[k]] by {
                if k < pos {
                    assert(f[k] == s[k] && order[k] == old_order[k]);
                } else if k > pos {
                    assert(f[k] == s[k - 1] && order[k] == old_order[k - 1]);
                }
            }
            assert forall|k1: int, k2: int|
                0 <= k1 < k2 < sorted@.len() && #[trigger] order[k1] > #[trigger] order[k2] implies path_lt(
                    strings_view(sorted@)[k1],
                    strings_view(sorted@)[k2],
                ) by {
                let a = if k1 < pos { k1 } else { k1 - 1 };
                let b = if k2 < pos { k2 } else { k2 - 1 };
                if k1 != pos && k2 != pos {
                    assert(order[k1] == old_order[a] && order[k2] == old_order[b]);
                    assert(f[k1] == s[a] && f[k2] == s[b]);
                } else if k1 == pos {
                    assert(f[k1] == xv && f[k2] == s[b]);
                } else {
                    assert(order[k1] == old_order[a]);
                }
            }
            assert forall|k: int| 0 <= k < f.len() - 1 implies !path_lt(#[trigger] f[k + 1], f[k]) by {
                if k + 1 < pos {
                    assert(f[k + 1] == s[k + 1] && f[k] == s[k]);
                    assert(!path_lt(s[k + 1], s[k]));
                } else if k + 1 == pos {
                    assert(f[k] == s[k]);
                    assert(f[k + 1] == xv);
                } else if k == pos {
                    assert(f[k + 1] == s[k]);
                    assert(f[k] == xv);
                } else {
                    let j = k - 1;
                    assert(f[k + 1] == s[j + 1] && f[k] == s[j]);
                    assert(!path_lt(s[j + 1], s[j]));
                }
            }
        }
    }
    proof {
        assert(stable_arrangement(strings_view(sorted@), pv, order));
    }
    sorted
}

} // verus!
