//! Overlap tiles: cross-boundary analysis units between compartments.
use std::collections::HashSet;

use vstd::prelude::*;
use vstd::std_specs::iter::IteratorSpec;

use crate::config::LayoutConfig;
use crate::paths::{file_name_of, path_file_name};
use crate::types::{
    compartments_view, priority_rank, priority_rank_of, strings_view, tiles_view, Compartment,
    CompartmentView, OverlapPriority, OverlapTile, OverlapTileView,
};

verus! {

broadcast use vstd::std_specs::hash::group_hash_axioms;

/// Whether one of the compartment's paths ends in a directory named `name`.
pub open spec fn names_directory(c: CompartmentView, name: Seq<char>) -> bool {
    exists|k: int| 0 <= k < c.paths.len() && path_file_name(#[trigger] c.paths[k]) == Some(name)
}

/// A crate named `name` belongs to compartment `c`: the compartment is
/// labelled `name`, or one of its paths ends in a directory named `name`.
pub open spec fn holds_crate(c: CompartmentView, name: Seq<char>) -> bool {
    c.label == name || names_directory(c, name)
}

/// The first compartment labelled `name` or holding a path whose final component is `name`.
pub open spec fn compartment_of(name: Seq<char>, comps: Seq<CompartmentView>) -> Option<int>
    decreases comps.len(),
{
    if comps.len() == 0 {
        None
    } else {
        match compartment_of(name, comps.drop_last()) {
            Some(i) => Some(i),
            None => if holds_crate(comps.last(), name) {
                Some(comps.len() - 1)
            } else {
                None
            },
        }
    }
}

proof fn lemma_compartment_of_range(name: Seq<char>, comps: Seq<CompartmentView>)
    ensures
        compartment_of(name, comps) matches Some(i) ==> 0 <= i < comps.len()
            && holds_crate(comps[i], name),
        compartment_of(name, comps) is None ==> forall|i: int|
            0 <= i < comps.len() ==> !holds_crate(#[trigger] comps[i], name),
    decreases comps.len(),
{
    if comps.len() > 0 {
        lemma_compartment_of_range(name, comps.drop_last());
        assert forall|i: int| 0 <= i < comps.len() - 1 implies comps.drop_last()[i] == comps[i] by {}
    }
}

/// Find which compartment a crate belongs to, by matching its name against
/// compartment labels or the final component of the compartments' paths.
pub fn crate_compartment_idx(crate_name: &str, compartments: &[Compartment]) -> (r: Option<usize>)
    ensures
        r matches Some(i) ==> compartment_of(crate_name@, compartments_view(compartments@)) == Some(i as int),
        r is None ==> compartment_of(crate_name@, compartments_view(compartments@)) is None,
{
    let name = String::from_str(crate_name);
    let ghost cv = compartments_view(compartments@);
    let n = compartments.len();
    for i in 0..n
        invariant
            n == compartments@.len(),
            cv == compartments_view(compartments@),
            name@ == crate_name@,
            compartment_of(crate_name@, cv.take(i as int)) is None,
    {
        let comp = &compartments[i];
        if comp.label == name {
            proof {
                assert(cv.take(i + 1).drop_last() =~= cv.take(i as int));
                assert(cv[i as int].label == comp.label@);
                assert(holds_crate(cv[i as int], crate_name@));
                assert(compartment_of(crate_name@, cv.take(i + 1)) == Some(i as int));
                lemma_compartment_of_prefix(crate_name@, cv, i + 1);
            }
            return Some(i);
        }
        let m = comp.paths.len();
        for k in 0..m
            invariant
                m == comp.paths@.len(),
                i < n,
                n == compartments@.len(),
                cv == compartments_view(compartments@),
                compartment_of(crate_name@, cv.take(i as int)) is None,
                comp == compartments@[i as int],
                comp.label@ != crate_name@,
                name@ == crate_name@,
                forall|q: int| 0 <= q < k ==> path_file_name(#[trigger] strings_view(comp.paths@)[q]) != Some(crate_name@),
        {
            let f = file_name_of(&comp.paths[k]);
            match f {
                Some(s) => {
                    if s == name {
                        proof {
                            assert(cv.take(i + 1).drop_last() =~= cv.take(i as int));
                            assert(names_directory(cv[i as int], crate_name@)) by {
                                assert(strings_view(comp.paths@)[k as int] == comp.paths@[k as int]@);
                            }
                            assert(holds_crate(cv[i as int], crate_name@));
                            assert(compartment_of(crate_name@, cv.take(i + 1)) == Some(i as int));
                            lemma_compartment_of_prefix(crate_name@, cv, i + 1);
                        }
                        return Some(i);
                    }
                },
                None => {},
            }
        }
        proof {
            assert(cv.take(i + 1).drop_last() =~= cv.take(i as int));
            assert(!names_directory(cv[i as int], crate_name@));
            assert(!holds_crate(cv[i as int], crate_name@));
        }
    }
    proof {
        assert(cv.take(n as int) =~= cv);
    }
    None
}

/// Once found in a prefix, the first matching compartment is the same for the whole sequence.
proof fn lemma_compartment_of_prefix(name: Seq<char>, comps: Seq<CompartmentView>, k: int)
    requires
        0 <= k <= comps.len(),
        compartment_of(name, comps.take(k)) is Some,
    ensures
        compartment_of(name, comps) == compartment_of(name, comps.take(k)),
    decreases comps.len() - k,
{
    if k < comps.len() {
        assert(comps.take(k + 1).drop_last() =~= comps.take(k));
        lemma_compartment_of_prefix(name, comps, k + 1);
    } else {
        assert(comps.take(k) =~= comps);
    }
}

/// The sets of a sequence of hash sets.
pub open spec fn sets_view(s: Seq<HashSet<usize>>) -> Seq<Set<usize>> {
    s.map_values(|h: HashSet<usize>| h@)
}

/// Two compartments are coupled indirectly when they both depend on a common compartment.
pub open spec fn shares_dependency(deps: Seq<Set<usize>>, i: int, j: int) -> bool {
    exists|d: usize| deps[i].contains(d) && deps[j].contains(d)
}

/// The priority of an overlap tile with `edges` direct dependency edges
/// between compartments `i` and `j`.
pub open spec fn priority_for(edges: int, i: int, j: int, deps: Seq<Set<usize>>) -> OverlapPriority {
    if edges == 0 {
        if shares_dependency(deps, i, j) {
            OverlapPriority::Low
        } else {
            OverlapPriority::Skip
        }
    } else if edges <= 2 {
        OverlapPriority::Medium
    } else {
        OverlapPriority::High
    }
}

/// Compute overlap priority from edge count and indirect coupling.
pub fn compute_priority(edges: usize, i: usize, j: usize, comp_deps: &[HashSet<usize>]) -> (p: OverlapPriority)
    requires
        edges == 0 ==> i < comp_deps@.len() && j < comp_deps@.len(),
    ensures
        p == priority_for(edges as int, i as int, j as int, sets_view(comp_deps@)),
{
    if edges == 0 {
        let di = &comp_deps[i];
        let dj = &comp_deps[j];
        let mut has_indirect = false;
        let ghost all = vstd::std_specs::hash::spec_hash_keys_iter(di).remaining();
        let ghost mut count: int = 0;
        for dep in it: di.iter()
            invariant
                it.seq() == all,
                count == it.index(),
                has_indirect <==> exists|k: int| 0 <= k < count && dj@.contains(*all[k]),
        {
            if dj.contains(dep) {
                has_indirect = true;
            }
            proof {
                count = count + 1;
            }
        }
        proof {
            let keys = all.map_values(|r: &usize| *r);
            assert(all.unref() == keys);
            assert(keys.to_set() == di@);
            assert(count == all.len());
            assert(sets_view(comp_deps@)[i as int] == di@);
            assert(sets_view(comp_deps@)[j as int] == dj@);
            if has_indirect {
                let k = choose|k: int| 0 <= k < count && dj@.contains(*all[k]);
                assert(keys[k] == *all[k]);
                assert(keys.contains(keys[k]));
                assert(di@.contains(keys[k]));
            } else {
                assert forall|d: usize| !(di@.contains(d) && dj@.contains(d)) by {
                    if di@.contains(d) && dj@.contains(d) {
                        assert(keys.to_set().contains(d));
                        let k = choose|k: int| 0 <= k < keys.len() && keys[k] == d;
                        assert(*all[k] == d);
                    }
                }
            }
        }
        if has_indirect {
            OverlapPriority::Low
        } else {
            OverlapPriority::Skip
        }
    } else if edges <= 2 {
        OverlapPriority::Medium
    } else {
        OverlapPriority::High
    }
}


/// The compartment that an edge endpoint (a crate index) belongs to.
pub open spec fn endpoint_compartment(
    comps: Seq<CompartmentView>,
    names: Seq<Seq<char>>,
    k: usize,
) -> Option<int> {
    compartment_of(names[k as int], comps)
}

/// The (from, to) compartments of an edge whose two crates lie in different compartments.
pub open spec fn edge_link(
    comps: Seq<CompartmentView>,
    names: Seq<Seq<char>>,
    e: (usize, usize),
) -> Option<(int, int)> {
    match (endpoint_compartment(comps, names, e.0), endpoint_compartment(comps, names, e.1)) {
        (Some(a), Some(b)) => if a != b {
            Some((a, b))
        } else {
            None
        },
        _ => None,
    }
}

/// The compartment pair, smaller index first, that an edge crosses.
pub open spec fn edge_pair(
    comps: Seq<CompartmentView>,
    names: Seq<Seq<char>>,
    e: (usize, usize),
) -> Option<(int, int)> {
    match edge_link(comps, names, e) {
        Some((a, b)) => if a < b {
            Some((a, b))
        } else {
            Some((b, a))
        },
        None => None,
    }
}

/// Number of dependency edges crossing between compartments `a` and `b` (`a < b`).
pub open spec fn pair_edge_count(
    comps: Seq<CompartmentView>,
    names: Seq<Seq<char>>,
    edges: Seq<(usize, usize)>,
    a: int,
    b: int,
) -> int
    decreases edges.len(),
{
    if edges.len() == 0 {
        0
    } else {
        pair_edge_count(comps, names, edges.drop_last(), a, b) + if edge_pair(
            comps,
            names,
            edges.last(),
        ) == Some((a, b)) {
            1int
        } else {
            0int
        }
    }
}

/// The compartments that compartment `i` depends on through some edge.
pub open spec fn compartment_deps(
    comps: Seq<CompartmentView>,
    names: Seq<Seq<char>>,
    edges: Seq<(usize, usize)>,
    i: int,
) -> Set<usize> {
    Set::new(
        |d: usize|
            exists|k: int| 0 <= k < edges.len() && edge_link(comps, names, #[trigger] edges[k]) == Some((i, d as int)),
    )
}

/// The direct dependencies of every compartment.
pub open spec fn all_compartment_deps(
    comps: Seq<CompartmentView>,
    names: Seq<Seq<char>>,
    edges: Seq<(usize, usize)>,
) -> Seq<Set<usize>> {
    Seq::new(comps.len(), |i: int| compartment_deps(comps, names, edges, i))
}

/// Whether an overlap tile is made for compartments `i` and `j`: every
/// adjacent pair gets one, and a non-adjacent pair gets one when its direct
/// edges reach the threshold.
pub open spec fn is_tile_pair(
    comps: Seq<CompartmentView>,
    names: Seq<Seq<char>>,
    edges: Seq<(usize, usize)>,
    threshold: int,
    i: int,
    j: int,
) -> bool {
    ||| (0 <= i && j == i + 1 && j < comps.len())
    ||| (0 <= i && i + 1 < j && j < comps.len() && pair_edge_count(comps, names, edges, i, j) >= 1
        && pair_edge_count(comps, names, edges, i, j) >= threshold)
}

/// The overlap tile spanning compartments `i` and `j`.
pub open spec fn tile_for(
    comps: Seq<CompartmentView>,
    names: Seq<Seq<char>>,
    edges: Seq<(usize, usize)>,
    i: int,
    j: int,
) -> OverlapTileView {
    let e = pair_edge_count(comps, names, edges, i, j);
    OverlapTileView {
        label: comps[i].label + " <> "@ + comps[j].label,
        left_idx: i,
        right_idx: j,
        paths: comps[i].paths + comps[j].paths,
        estimated_loc: comps[i].estimated_loc + comps[j].estimated_loc,
        dependency_edges: e,
        priority: priority_for(e, i, j, all_compartment_deps(comps, names, edges)),
    }
}

/// 0 for a tile between adjacent compartments, 1 otherwise.
pub open spec fn adjacency_rank(t: OverlapTileView) -> int {
    if t.right_idx == t.left_idx + 1 {
        0
    } else {
        1
    }
}

/// The order of overlap tiles: higher priority first, then more dependency
/// edges, then adjacent pairs before non-adjacent ones, then by compartment indices.
pub open spec fn tile_before(a: OverlapTileView, b: OverlapTileView) -> bool {
    let ra = priority_rank(a.priority);
    let rb = priority_rank(b.priority);
    ||| ra > rb
    ||| ra == rb && a.dependency_edges > b.dependency_edges
    ||| ra == rb && a.dependency_edges == b.dependency_edges && adjacency_rank(a) < adjacency_rank(b)
    ||| ra == rb && a.dependency_edges == b.dependency_edges && adjacency_rank(a) == adjacency_rank(b)
        && a.left_idx < b.left_idx
    ||| ra == rb && a.dependency_edges == b.dependency_edges && adjacency_rank(a) == adjacency_rank(b)
        && a.left_idx == b.left_idx && a.right_idx < b.right_idx
}

/// Tiles in strictly increasing [`tile_before`] order.
pub open spec fn tiles_sorted(s: Seq<OverlapTileView>) -> bool {
    forall|x: int, y: int| 0 <= x < y < s.len() ==> tile_before(#[trigger] s[x], #[trigger] s[y])
}

/// Executable [`tile_before`].
fn tile_precedes(a: &OverlapTile, b: &OverlapTile) -> (r: bool)
    ensures
        r == tile_before(a@, b@),
{
    let ra = priority_rank_of(a.priority);
    let rb = priority_rank_of(b.priority);
    let adj_a: u8 = if a.right_idx >= 1 && a.right_idx - 1 == a.left_idx { 0 } else { 1 };
    let adj_b: u8 = if b.right_idx >= 1 && b.right_idx - 1 == b.left_idx { 0 } else { 1 };
    if ra != rb {
        ra > rb
    } else if a.dependency_edges != b.dependency_edges {
        a.dependency_edges > b.dependency_edges
    } else if adj_a != adj_b {
        adj_a < adj_b
    } else if a.left_idx != b.left_idx {
        a.left_idx < b.left_idx
    } else {
        a.right_idx < b.right_idx
    }
}

proof fn lemma_tile_before_order(a: OverlapTileView, b: OverlapTileView, c: OverlapTileView)
    ensures
        tile_before(a, b) && tile_before(b, c) ==> tile_before(a, c),
        !tile_before(a, b) && (a.left_idx != b.left_idx || a.right_idx != b.right_idx) ==> tile_before(b, a),
        tile_before(a, b) ==> !tile_before(b, a),
{
}

/// Inserts `t` where it belongs in the sorted `tiles`, whose pairs all differ from `t`'s.
fn insert_sorted(tiles: &mut Vec<OverlapTile>, t: OverlapTile) -> (pos: usize)
    requires
        tiles_sorted(tiles_view(old(tiles)@)),
        forall|q: int|
            0 <= q < old(tiles)@.len() ==> (#[trigger] old(tiles)@[q]).left_idx != t.left_idx
                || old(tiles)@[q].right_idx != t.right_idx,
    ensures
        pos <= old(tiles)@.len(),
        final(tiles)@ == old(tiles)@.insert(pos as int, t),
        tiles_sorted(tiles_view(final(tiles)@)),
{
    let ghost s = tiles_view(tiles@);
    let mut pos: usize = 0;
    while pos < tiles.len() && tile_precedes(&tiles[pos], &t)
        invariant
            pos <= tiles@.len(),
            s == tiles_view(tiles@),
            forall|q: int| 0 <= q < pos ==> tile_before(#[trigger] s[q], t@),
        decreases tiles@.len() - pos,
    {
        pos = pos + 1;
    }
    proof {
        if pos < tiles@.len() {
            assert(!tile_before(s[pos as int], t@));
            assert(old(tiles)@[pos as int].left_idx != t.left_idx || old(tiles)@[pos as int].right_idx != t.right_idx);
            lemma_tile_before_order(s[pos as int], t@, t@);
        }
    }
    tiles.insert(pos, t);
    proof {
        let f = tiles_view(tiles@);
        assert(f =~= s.insert(pos as int, t@));
        assert forall|x: int, y: int| 0 <= x < y < f.len() implies tile_before(#[trigger] f[x], #[trigger] f[y]) by {
            if y < pos {
                assert(f[x] == s[x] && f[y] == s[y]);
            } else if y == pos {
                assert(f[x] == s[x]);
            } else if x < pos {
                assert(f[x] == s[x] && f[y] == s[y - 1]);
                lemma_tile_before_order(s[x], t@, s[y - 1]);
                if pos < y - 1 {
                    lemma_tile_before_order(t@, s[pos as int], s[y - 1]);
                }
            } else if x == pos {
                assert(f[y] == s[y - 1]);
                if pos < y - 1 {
                    lemma_tile_before_order(t@, s[pos as int], s[y - 1]);
                }
            } else {
                assert(f[x] == s[x - 1] && f[y] == s[y - 1]);
            }
        }
    }
    pos
}


/// Appends clones of `src` to `dst`.
pub(crate) fn extend_cloned(dst: &mut Vec<String>, src: &Vec<String>)
    ensures
        strings_view(final(dst)@) == strings_view(old(dst)@) + strings_view(src@),
{
    let ghost start = strings_view(dst@);
    let n = src.len();
    for i in 0..n
        invariant
            n == src@.len(),
            strings_view(dst@) == start + strings_view(src@.take(i as int)),
    {
        let ghost prev = dst@;
        let c = src[i].clone();
        dst.push(c);
        proof {
            assert(dst@ == prev.push(c));
            assert(strings_view(dst@) =~= strings_view(prev).push(src@[i as int]@));
            assert(strings_view(src@.take(i + 1)) =~= strings_view(src@.take(i as int)).push(src@[i as int]@));
            assert(strings_view(dst@) =~= start + strings_view(src@.take(i + 1)));
        }
    }
    proof {
        assert(src@.take(n as int) =~= src@);
    }
}

/// Build an `OverlapTile` from two compartment indices.
pub fn build_overlap_tile(
    compartments: &[Compartment],
    left_idx: usize,
    right_idx: usize,
    dependency_edges: usize,
    priority: OverlapPriority,
) -> (t: OverlapTile)
    requires
        left_idx < compartments@.len(),
        right_idx < compartments@.len(),
        compartments@[left_idx as int].estimated_loc + compartments@[right_idx as int].estimated_loc
            <= usize::MAX,
    ensures
        t@ == (OverlapTileView {
            label: compartments@[left_idx as int].label@ + " <> "@
                + compartments@[right_idx as int].label@,
            left_idx: left_idx as int,
            right_idx: right_idx as int,
            paths: strings_view(compartments@[left_idx as int].paths@) + strings_view(
                compartments@[right_idx as int].paths@,
            ),
            estimated_loc: compartments@[left_idx as int].estimated_loc
                + compartments@[right_idx as int].estimated_loc,
            dependency_edges: dependency_edges as int,
            priority,
        }),
{
    let left = &compartments[left_idx];
    let right = &compartments[right_idx];
    let mut paths: Vec<String> = Vec::new();
    extend_cloned(&mut paths, &left.paths);
    extend_cloned(&mut paths, &right.paths);
    proof {
        assert(strings_view(Seq::<String>::empty()) =~= Seq::<Seq<char>>::empty());
    }
    let mut label = left.label.clone();
    label.append(" <> ");
    label.append(right.label.as_str());
    OverlapTile {
        label,
        left_idx,
        right_idx,
        paths,
        estimated_loc: left.estimated_loc + right.estimated_loc,
        dependency_edges,
        priority,
    }
}

/// Combined LOC ceiling for overlap tiles above which the prompt switches to
/// interface-only scanning.
pub const OVERLAP_LOC_CEILING: usize = 20_000;

/// Returns `true` if the overlap tile's combined LOC exceeds the ceiling
/// for full scanning.
pub fn exceeds_overlap_loc_ceiling(tile: &OverlapTile) -> (r: bool)
    ensures
        r == (tile.estimated_loc > 20_000),
{
    tile.estimated_loc > OVERLAP_LOC_CEILING
}


/// Whether some tile of `s` spans compartments `a` and `b`.
pub open spec fn has_pair(s: Seq<OverlapTile>, a: int, b: int) -> bool {
    exists|q: int| 0 <= q < s.len() && (#[trigger] s[q]).left_idx == a && s[q].right_idx == b
}

proof fn lemma_has_pair_insert(s: Seq<OverlapTile>, pos: int, t: OverlapTile, a: int, b: int)
    requires
        0 <= pos <= s.len(),
    ensures
        has_pair(s, a, b) ==> has_pair(s.insert(pos, t), a, b),
        has_pair(s.insert(pos, t), t.left_idx as int, t.right_idx as int),
{
    let f = s.insert(pos, t);
    assert(f[pos] == t);
    if has_pair(s, a, b) {
        let q = choose|q: int| 0 <= q < s.len() && (#[trigger] s[q]).left_idx == a && s[q].right_idx == b;
        if q < pos {
            assert(f[q] == s[q]);
        } else {
            assert(f[q + 1] == s[q]);
        }
    }
}

/// `ctc` gives the compartment of each crate name.
pub open spec fn compartment_table(
    ctc: Seq<Option<usize>>,
    comps: Seq<CompartmentView>,
    names: Seq<Seq<char>>,
) -> bool {
    &&& ctc.len() == names.len()
    &&& forall|k: int|
        0 <= k < ctc.len() ==> match #[trigger] ctc[k] {
            Some(i) => compartment_of(names[k], comps) == Some(i as int),
            None => compartment_of(names[k], comps) is None,
        }
}

/// The compartment of every crate name.
fn compartment_indices(crate_names: &[String], compartments: &[Compartment]) -> (ctc: Vec<Option<usize>>)
    ensures
        compartment_table(ctc@, compartments_view(compartments@), strings_view(crate_names@)),
{
    let mut ctc: Vec<Option<usize>> = Vec::new();
    let n = crate_names.len();
    for k in 0..n
        invariant
            n == crate_names@.len(),
            ctc@.len() == k,
            forall|q: int|
                0 <= q < k ==> match #[trigger] ctc@[q] {
                    Some(i) => compartment_of(crate_names@[q]@, compartments_view(compartments@)) == Some(i as int),
                    None => compartment_of(crate_names@[q]@, compartments_view(compartments@)) is None,
                },
    {
        let c = crate_compartment_idx(crate_names[k].as_str(), compartments);
        ctc.push(c);
    }
    ctc
}

/// Executable [`edge_link`].
fn link_of(ctc: &Vec<Option<usize>>, e: (usize, usize), Ghost(comps): Ghost<Seq<CompartmentView>>, Ghost(names): Ghost<Seq<Seq<char>>>) -> (r: Option<(usize, usize)>)
    requires
        compartment_table(ctc@, comps, names),
        e.0 < ctc@.len(),
        e.1 < ctc@.len(),
    ensures
        match r {
            Some((a, b)) => edge_link(comps, names, e) == Some((a as int, b as int)),
            None => edge_link(comps, names, e) is None,
        },
{
    let cf = ctc[e.0];
    let ct = ctc[e.1];
    proof {
        assert(ctc@[e.0 as int] == cf);
        assert(ctc@[e.1 as int] == ct);
    }
    match (cf, ct) {
        (Some(a), Some(b)) => if a != b {
            Some((a, b))
        } else {
            None
        },
        _ => None,
    }
}

/// The direct edge counts of every crossed compartment pair: each entry is
/// `(a, b, count)` with `a < b`, no pair twice, and every crossed pair present.
pub open spec fn pair_table(
    entries: Seq<(usize, usize, usize)>,
    comps: Seq<CompartmentView>,
    names: Seq<Seq<char>>,
    edges: Seq<(usize, usize)>,
) -> bool {
    &&& forall|t: int|
        0 <= t < entries.len() ==> (#[trigger] entries[t]).0 < entries[t].1 && entries[t].2 as int
            == pair_edge_count(comps, names, edges, entries[t].0 as int, entries[t].1 as int)
            && entries[t].2 >= 1
    &&& forall|t1: int, t2: int|
        0 <= t1 < t2 < entries.len() ==> (#[trigger] entries[t1]).0 != (#[trigger] entries[t2]).0
            || entries[t1].1 != entries[t2].1
    &&& forall|a: int, b: int|
        #[trigger] pair_edge_count(comps, names, edges, a, b) >= 1 ==> exists|t: int|
            0 <= t < entries.len() && (#[trigger] entries[t]).0 == a && entries[t].1 == b
}

proof fn lemma_pair_count_nonneg(
    comps: Seq<CompartmentView>,
    names: Seq<Seq<char>>,
    edges: Seq<(usize, usize)>,
    a: int,
    b: int,
)
    ensures
        pair_edge_count(comps, names, edges, a, b) >= 0,
        pair_edge_count(comps, names, edges, a, b) >= 1 ==> 0 <= a < b < comps.len(),
    decreases edges.len(),
{
    if edges.len() > 0 {
        lemma_pair_count_nonneg(comps, names, edges.drop_last(), a, b);
        let e = edges.last();
        lemma_compartment_of_range(names[e.0 as int], comps);
        lemma_compartment_of_range(names[e.1 as int], comps);
    }
}

/// Index of the entry for pair `(a, b)`, if there is one.
fn lookup_pair(entries: &Vec<(usize, usize, usize)>, a: usize, b: usize) -> (r: Option<usize>)
    ensures
        match r {
            Some(t) => t < entries@.len() && entries@[t as int].0 == a && entries@[t as int].1 == b,
            None => forall|t: int| 0 <= t < entries@.len() ==> (#[trigger] entries@[t]).0 != a || entries@[t].1 != b,
        },
{
    let n = entries.len();
    for t in 0..n
        invariant
            n == entries@.len(),
            forall|q: int| 0 <= q < t ==> (#[trigger] entries@[q]).0 != a || entries@[q].1 != b,
    {
        if entries[t].0 == a && entries[t].1 == b {
            return Some(t);
        }
    }
    None
}

/// Count cross-compartment edges for each compartment pair.
fn count_pairs(
    ctc: &Vec<Option<usize>>,
    dep_edges: &[(usize, usize)],
    Ghost(comps): Ghost<Seq<CompartmentView>>,
    Ghost(names): Ghost<Seq<Seq<char>>>,
) -> (entries: Vec<(usize, usize, usize)>)
    requires
        compartment_table(ctc@, comps, names),
        forall|k: int| 0 <= k < dep_edges@.len() ==> (#[trigger] dep_edges@[k]).0 < names.len() && dep_edges@[k].1 < names.len(),
    ensures
        pair_table(entries@, comps, names, dep_edges@),
{
    let mut entries: Vec<(usize, usize, usize)> = Vec::new();
    let m = dep_edges.len();
    for k in 0..m
        invariant
            m == dep_edges@.len(),
            compartment_table(ctc@, comps, names),
            forall|q: int| 0 <= q < dep_edges@.len() ==> (#[trigger] dep_edges@[q]).0 < names.len() && dep_edges@[q].1 < names.len(),
            pair_table(entries@, comps, names, dep_edges@.take(k as int)),
            forall|t: int| 0 <= t < entries@.len() ==> (#[trigger] entries@[t]).2 <= k,
    {
        let e = dep_edges[k];
        let ghost pre = dep_edges@.take(k as int);
        let ghost post = dep_edges@.take(k + 1);
        proof {
            assert(post.drop_last() =~= pre);
            assert(post.last() == e);
            assert(dep_edges@[k as int] == e);
        }
        let ghost old_entries = entries@;
        match link_of(ctc, e, Ghost(comps), Ghost(names)) {
            Some((cf, ct)) => {
                let (a, b) = if cf < ct { (cf, ct) } else { (ct, cf) };
                assert(edge_pair(comps, names, e) == Some((a as int, b as int)));
                match lookup_pair(&entries, a, b) {
                    Some(t) => {
                        let c = entries[t].2;
                        entries.set(t, (a, b, c + 1));
                    },
                    None => {
                        entries.push((a, b, 1));
                    },
                }
            },
            None => {
                assert(edge_pair(comps, names, e) is None);
            },
        }
        proof {
            let en = entries@;
            assert forall|x: int, y: int| #![all_triggers]
                pair_edge_count(comps, names, post, x, y) == pair_edge_count(comps, names, pre, x, y)
                    + if edge_pair(comps, names, e) == Some((x, y)) { 1int } else { 0int } by {}
            assert forall|t: int| 0 <= t < en.len() implies (#[trigger] en[t]).0 < en[t].1 && en[t].2 as int
                == pair_edge_count(comps, names, post, en[t].0 as int, en[t].1 as int) && en[t].2 >= 1 by {
                if t < old_entries.len() {
                    assert(pair_edge_count(comps, names, post, en[t].0 as int, en[t].1 as int)
                        == pair_edge_count(comps, names, pre, en[t].0 as int, en[t].1 as int)
                        + if edge_pair(comps, names, e) == Some((en[t].0 as int, en[t].1 as int)) { 1int } else { 0int });
                } else {
                    assert(pair_edge_count(comps, names, post, en[t].0 as int, en[t].1 as int)
                        == pair_edge_count(comps, names, pre, en[t].0 as int, en[t].1 as int)
                        + if edge_pair(comps, names, e) == Some((en[t].0 as int, en[t].1 as int)) { 1int } else { 0int });
                    lemma_pair_count_nonneg(comps, names, pre, en[t].0 as int, en[t].1 as int);
                    if pair_edge_count(comps, names, pre, en[t].0 as int, en[t].1 as int) >= 1 {
                        let w = choose|w: int| 0 <= w < old_entries.len() && (#[trigger] old_entries[w]).0 == en[t].0 && old_entries[w].1 == en[t].1;
                    }
                }
            }
            assert forall|t1: int, t2: int|
                0 <= t1 < t2 < en.len() implies (#[trigger] en[t1]).0 != (#[trigger] en[t2]).0
                    || en[t1].1 != en[t2].1 by {
                if t2 < old_entries.len() {
                    assert(old_entries[t1].0 != old_entries[t2].0 || old_entries[t1].1 != old_entries[t2].1);
                }
            }
            assert forall|a: int, b: int|
                #[trigger] pair_edge_count(comps, names, post, a, b) >= 1 implies exists|t: int|
                    0 <= t < en.len() && (#[trigger] en[t]).0 == a && en[t].1 == b by {
                assert(pair_edge_count(comps, names, post, a, b) == pair_edge_count(comps, names, pre, a, b)
                    + if edge_pair(comps, names, e) == Some((a, b)) { 1int } else { 0int });
                if pair_edge_count(comps, names, pre, a, b) >= 1 {
                    let w = choose|w: int| 0 <= w < old_entries.len() && (#[trigger] old_entries[w]).0 == a && old_entries[w].1 == b;
                    assert(en[w].0 == a && en[w].1 == b);
                } else {
                    let w = en.len() - 1;
                    if old_entries.len() < en.len() {
                        assert(en[w].0 == a && en[w].1 == b);
                    }
                }
            }
        }
    }
    proof {
        assert(dep_edges@.take(m as int) =~= dep_edges@);
    }
    entries
}


/// The compartments that compartment `cf` depends on through the edges.
fn deps_of(
    ctc: &Vec<Option<usize>>,
    dep_edges: &[(usize, usize)],
    cf: usize,
    Ghost(comps): Ghost<Seq<CompartmentView>>,
    Ghost(names): Ghost<Seq<Seq<char>>>,
) -> (deps: HashSet<usize>)
    requires
        compartment_table(ctc@, comps, names),
        forall|k: int| 0 <= k < dep_edges@.len() ==> (#[trigger] dep_edges@[k]).0 < names.len() && dep_edges@[k].1 < names.len(),
    ensures
        deps@ == compartment_deps(comps, names, dep_edges@, cf as int),
{
    let mut deps: HashSet<usize> = HashSet::new();
    let m = dep_edges.len();
    for k in 0..m
        invariant
            m == dep_edges@.len(),
            compartment_table(ctc@, comps, names),
            forall|q: int| 0 <= q < dep_edges@.len() ==> (#[trigger] dep_edges@[q]).0 < names.len() && dep_edges@[q].1 < names.len(),
            deps@ == Set::new(|d: usize| exists|q: int| 0 <= q < k && edge_link(comps, names, #[trigger] dep_edges@[q]) == Some((cf as int, d as int))),
    {
        let e = dep_edges[k];
        let ghost before = deps@;
        match link_of(ctc, e, Ghost(comps), Ghost(names)) {
            Some((a, b)) => {
                if a == cf {
                    deps.insert(b);
                }
            },
            None => {},
        }
        proof {
            assert(dep_edges@[k as int] == e);
            assert(deps@ =~= Set::new(|d: usize| exists|q: int| 0 <= q < k + 1 && edge_link(comps, names, #[trigger] dep_edges@[q]) == Some((cf as int, d as int)))) by {
                assert forall|d: usize| #[trigger] deps@.contains(d) <==> exists|q: int| 0 <= q < k + 1 && edge_link(comps, names, #[trigger] dep_edges@[q]) == Some((cf as int, d as int)) by {
                    if exists|q: int| 0 <= q < k + 1 && edge_link(comps, names, #[trigger] dep_edges@[q]) == Some((cf as int, d as int)) {
                        let q = choose|q: int| 0 <= q < k + 1 && edge_link(comps, names, #[trigger] dep_edges@[q]) == Some((cf as int, d as int));
                        if q < k {
                            assert(before.contains(d));
                        }
                    }
                }
            }
        }
    }
    proof {
        assert(deps@ =~= compartment_deps(comps, names, dep_edges@, cf as int));
    }
    deps
}

/// Every tile pair has its compartment LOC sum within `usize`.
pub open spec fn tile_locs_fit(
    comps: Seq<CompartmentView>,
    names: Seq<Seq<char>>,
    edges: Seq<(usize, usize)>,
    threshold: int,
) -> bool {
    forall|i: int, j: int|
        #[trigger] is_tile_pair(comps, names, edges, threshold, i, j) ==> comps[i].estimated_loc
            + comps[j].estimated_loc <= usize::MAX
}

/// Every edge joins two crates that have names.
pub open spec fn edges_in_range(edges: Seq<(usize, usize)>, n: int) -> bool {
    forall|k: int| 0 <= k < edges.len() ==> (#[trigger] edges[k]).0 < n && edges[k].1 < n
}

/// A tile of the result: made for one of the tile pairs, with the values that pair gives.
pub open spec fn tile_is_expected(
    t: OverlapTile,
    comps: Seq<CompartmentView>,
    names: Seq<Seq<char>>,
    edges: Seq<(usize, usize)>,
    threshold: int,
) -> bool {
    &&& is_tile_pair(comps, names, edges, threshold, t.left_idx as int, t.right_idx as int)
    &&& t@ == tile_for(comps, names, edges, t.left_idx as int, t.right_idx as int)
}

/// Generate overlap tiles for cross-boundary analysis.
///
/// Produces tiles for:
/// 1. All adjacent compartment pairs (priority based on dep edge count).
/// 2. Non-adjacent pairs with at least the configured edge threshold of direct dep edges.
///
/// Tiles come ordered by priority (highest first), then by dependency edges
/// (most first); equal ones keep adjacent pairs first, in compartment order.
pub fn generate_overlap_tiles(
    compartments: &[Compartment],
    crate_names: &[String],
    dep_edges: &[(usize, usize)],
    config: &LayoutConfig,
) -> (tiles: Vec<OverlapTile>)
    requires
        compartments@.len() > 1 ==> edges_in_range(dep_edges@, crate_names@.len() as int),
        compartments@.len() > 1 ==> tile_locs_fit(
            compartments_view(compartments@),
            strings_view(crate_names@),
            dep_edges@,
            config.non_adjacent_edge_threshold as int,
        ),
    ensures
        tiles_sorted(tiles_view(tiles@)),
        forall|q: int|
            0 <= q < tiles@.len() ==> tile_is_expected(
                #[trigger] tiles@[q],
                compartments_view(compartments@),
                strings_view(crate_names@),
                dep_edges@,
                config.non_adjacent_edge_threshold as int,
            ),
        forall|i: int, j: int|
            #[trigger] is_tile_pair(
                compartments_view(compartments@),
                strings_view(crate_names@),
                dep_edges@,
                config.non_adjacent_edge_threshold as int,
                i,
                j,
            ) ==> has_pair(tiles@, i, j),
{
    let ghost comps = compartments_view(compartments@);
    let ghost names = strings_view(crate_names@);
    let ghost edges = dep_edges@;
    let threshold = config.non_adjacent_edge_threshold;
    let n = compartments.len();
    if n <= 1 {
        let tiles: Vec<OverlapTile> = Vec::new();
        proof {
            assert forall|i: int, j: int|
                #[trigger] is_tile_pair(comps, names, edges, threshold as int, i, j) implies has_pair(tiles@, i, j) by {
                lemma_pair_count_nonneg(comps, names, edges, i, j);
            }
        }
        return tiles;
    }
    // Map each crate to its compartment index.
    let ctc = compartment_indices(crate_names, compartments);
    // Count cross-compartment edges for each compartment pair.
    let entries = count_pairs(&ctc, dep_edges, Ghost(comps), Ghost(names));
    // Direct dependencies of each compartment, for indirect coupling.
    let mut comp_deps: Vec<HashSet<usize>> = Vec::new();
    for cf in 0..n
        invariant
            n == compartments@.len(),
            comps == compartments_view(compartments@),
            names == strings_view(crate_names@),
            edges == dep_edges@,
            compartment_table(ctc@, comps, names),
            edges_in_range(dep_edges@, crate_names@.len() as int),
            comp_deps@.len() == cf,
            forall|q: int| 0 <= q < cf ==> (#[trigger] comp_deps@[q])@ == compartment_deps(comps, names, edges, q),
    {
        let d = deps_of(&ctc, dep_edges, cf, Ghost(comps), Ghost(names));
        comp_deps.push(d);
    }
    proof {
        assert(sets_view(comp_deps@) =~= all_compartment_deps(comps, names, edges));
    }
    let mut tiles: Vec<OverlapTile> = Vec::new();
    // Tiles for adjacent pairs.
    for i in 0..n - 1
        invariant
            n == compartments@.len(),
            n > 1,
            comps == compartments_view(compartments@),
            names == strings_view(crate_names@),
            edges == dep_edges@,
            threshold == config.non_adjacent_edge_threshold,
            tile_locs_fit(comps, names, edges, threshold as int),
            pair_table(entries@, comps, names, edges),
            sets_view(comp_deps@) == all_compartment_deps(comps, names, edges),
            comp_deps@.len() == n,
            tiles_sorted(tiles_view(tiles@)),
            forall|q: int|
                0 <= q < tiles@.len() ==> tile_is_expected(#[trigger] tiles@[q], comps, names, edges, threshold as int)
                    && tiles@[q].right_idx == tiles@[q].left_idx + 1 && tiles@[q].left_idx < i,
            forall|a: int| 0 <= a < i ==> #[trigger] has_pair(tiles@, a, a + 1),
    {
        let edges_ij = match lookup_pair(&entries, i, i + 1) {
            Some(t) => entries[t].2,
            None => {
                proof {
                    lemma_pair_count_nonneg(comps, names, edges, i as int, i + 1);
                }
                0
            },
        };
        assert(edges_ij as int == pair_edge_count(comps, names, edges, i as int, i + 1));
        let priority = compute_priority(edges_ij, i, i + 1, comp_deps.as_slice());
        assert(is_tile_pair(comps, names, edges, threshold as int, i as int, i + 1));
        let tile = build_overlap_tile(compartments, i, i + 1, edges_ij, priority);
        assert(tile@ == tile_for(comps, names, edges, i as int, i + 1));
        let ghost before = tiles@;
        let pos = insert_sorted(&mut tiles, tile);
        proof {
            assert forall|a: int| 0 <= a < i + 1 implies #[trigger] has_pair(tiles@, a, a + 1) by {
                lemma_has_pair_insert(before, pos as int, tile, a, a + 1);
            }
            assert forall|q: int| 0 <= q < tiles@.len() implies tile_is_expected(#[trigger] tiles@[q], comps, names, edges, threshold as int)
                && tiles@[q].right_idx == tiles@[q].left_idx + 1 && tiles@[q].left_idx < i + 1 by {
                if q < pos {
                    assert(tiles@[q] == before[q]);
                } else if q > pos {
                    assert(tiles@[q] == before[q - 1]);
                }
            }
        }
    }
    // Tiles for non-adjacent strongly coupled pairs.
    let m = entries.len();
    for t in 0..m
        invariant
            n == compartments@.len(),
            n > 1,
            m == entries@.len(),
            comps == compartments_view(compartments@),
            names == strings_view(crate_names@),
            edges == dep_edges@,
            threshold == config.non_adjacent_edge_threshold,
            tile_locs_fit(comps, names, edges, threshold as int),
            pair_table(entries@, comps, names, edges),
            sets_view(comp_deps@) == all_compartment_deps(comps, names, edges),
            comp_deps@.len() == n,
            tiles_sorted(tiles_view(tiles@)),
            forall|q: int|
                0 <= q < tiles@.len() ==> tile_is_expected(#[trigger] tiles@[q], comps, names, edges, threshold as int)
                    && (tiles@[q].right_idx == tiles@[q].left_idx + 1 || exists|w: int|
                    0 <= w < t && (#[trigger] entries@[w]).0 == tiles@[q].left_idx && entries@[w].1 == tiles@[q].right_idx),
            forall|a: int| 0 <= a < n - 1 ==> #[trigger] has_pair(tiles@, a, a + 1),
            forall|w: int|
                0 <= w < t && (#[trigger] entries@[w]).1 != entries@[w].0 + 1 && entries@[w].2 >= threshold
                    ==> has_pair(tiles@, entries@[w].0 as int, entries@[w].1 as int),
    {
        let (a, b, c) = entries[t];
        proof {
            assert(entries@[t as int] == (a, b, c));
            lemma_pair_count_nonneg(comps, names, edges, a as int, b as int);
        }
        if b != a + 1 && c >= threshold {
            let priority = compute_priority(c, a, b, comp_deps.as_slice());
            assert(is_tile_pair(comps, names, edges, threshold as int, a as int, b as int));
            let tile = build_overlap_tile(compartments, a, b, c, priority);
            assert(tile@ == tile_for(comps, names, edges, a as int, b as int));
            let ghost before = tiles@;
            proof {
                assert forall|q: int| 0 <= q < before.len() implies (#[trigger] before[q]).left_idx != tile.left_idx
                    || before[q].right_idx != tile.right_idx by {
                    if before[q].right_idx != before[q].left_idx + 1 {
                        let w = choose|w: int| 0 <= w < t && (#[trigger] entries@[w]).0 == before[q].left_idx && entries@[w].1 == before[q].right_idx;
                        assert(entries@[w].0 != entries@[t as int].0 || entries@[w].1 != entries@[t as int].1);
                    }
                }
            }
            let pos = insert_sorted(&mut tiles, tile);
            proof {
                assert forall|x: int| 0 <= x < n - 1 implies #[trigger] has_pair(tiles@, x, x + 1) by {
                    lemma_has_pair_insert(before, pos as int, tile, x, x + 1);
                }
                assert forall|w: int|
                    0 <= w < t + 1 && (#[trigger] entries@[w]).1 != entries@[w].0 + 1 && entries@[w].2 >= threshold
                        implies has_pair(tiles@, entries@[w].0 as int, entries@[w].1 as int) by {
                    lemma_has_pair_insert(before, pos as int, tile, entries@[w].0 as int, entries@[w].1 as int);
                }
                assert forall|q: int| 0 <= q < tiles@.len() implies tile_is_expected(#[trigger] tiles@[q], comps, names, edges, threshold as int)
                    && (tiles@[q].right_idx == tiles@[q].left_idx + 1 || exists|w: int|
                    0 <= w < t + 1 && (#[trigger] entries@[w]).0 == tiles@[q].left_idx && entries@[w].1 == tiles@[q].right_idx) by {
                    if q < pos {
                        assert(tiles@[q] == before[q]);
                    } else if q > pos {
                        assert(tiles@[q] == before[q - 1]);
                    } else {
                        assert(entries@[t as int].0 == tiles@[q].left_idx);
                    }
                }
            }
        }
    }
    proof {
        assert forall|i: int, j: int|
            #[trigger] is_tile_pair(comps, names, edges, threshold as int, i, j) implies has_pair(tiles@, i, j) by {
            if !(0 <= i && j == i + 1 && j < comps.len()) {
                let w = choose|w: int| 0 <= w < entries@.len() && (#[trigger] entries@[w]).0 == i && entries@[w].1 == j;
            }
        }
    }
    tiles
}


/// The tiles that `generate_overlap_tiles` returns span pairwise different
/// compartment pairs, so no pair gets two tiles.
pub proof fn lemma_tile_pairs_distinct(
    tiles: Seq<OverlapTile>,
    comps: Seq<CompartmentView>,
    names: Seq<Seq<char>>,
    edges: Seq<(usize, usize)>,
    threshold: int,
)
    requires
        tiles_sorted(tiles_view(tiles)),
        forall|q: int| 0 <= q < tiles.len() ==> tile_is_expected(#[trigger] tiles[q], comps, names, edges, threshold),
    ensures
        forall|x: int, y: int|
            0 <= x < y < tiles.len() ==> (#[trigger] tiles[x]).left_idx != (#[trigger] tiles[y]).left_idx
                || tiles[x].right_idx != tiles[y].right_idx,
{
    assert forall|x: int, y: int| 0 <= x < y < tiles.len() implies (#[trigger] tiles[x]).left_idx != (
    #[trigger] tiles[y]).left_idx || tiles[x].right_idx != tiles[y].right_idx by {
        let v = tiles_view(tiles);
        assert(tile_before(v[x], v[y]));
        assert(v[x] == tiles[x]@ && v[y] == tiles[y]@);
        assert(tile_is_expected(tiles[x], comps, names, edges, threshold));
        assert(tile_is_expected(tiles[y], comps, names, edges, threshold));
        lemma_tile_before_order(v[x], v[y], v[x]);
    }
}

/// With no direct edges, two compartments that share a dependency are
/// coupled (priority Low), whatever else either of them depends on.
pub proof fn lemma_common_dependency_couples(deps: Seq<Set<usize>>, i: int, j: int, d: usize)
    requires
        deps[i].contains(d),
        deps[j].contains(d),
    ensures
        priority_for(0, i, j, deps) == OverlapPriority::Low,
{
}

/// With no direct edges, two compartments that share no dependency are skipped.
pub proof fn lemma_no_common_dependency_skips(deps: Seq<Set<usize>>, i: int, j: int)
    requires
        forall|x: usize| #[trigger] deps[i].contains(x) ==> !deps[j].contains(x),
    ensures
        priority_for(0, i, j, deps) == OverlapPriority::Skip,
{
}

/// A pair's priority does not depend on which compartment is named first.
pub proof fn lemma_priority_symmetric(edges: int, i: int, j: int, deps: Seq<Set<usize>>)
    ensures
        priority_for(edges, i, j, deps) == priority_for(edges, j, i, deps),
{
    if edges == 0 && shares_dependency(deps, i, j) {
        let d = choose|d: usize| deps[i].contains(d) && deps[j].contains(d);
        assert(deps[j].contains(d) && deps[i].contains(d));
    }
    if edges == 0 && shares_dependency(deps, j, i) {
        let d = choose|d: usize| deps[j].contains(d) && deps[i].contains(d);
        assert(deps[i].contains(d) && deps[j].contains(d));
    }
}

/// A compartment's dependencies come from its outgoing edges alone: with no
/// edges it has none; an edge whose source crate lies outside compartment
/// `i` leaves `i`'s dependencies as they were, even when it points into `i`;
/// an edge from a crate of `i` to a crate of another compartment `d` adds `d`.
pub proof fn lemma_deps_follow_outgoing_edges(
    comps: Seq<CompartmentView>,
    names: Seq<Seq<char>>,
    edges: Seq<(usize, usize)>,
    e: (usize, usize),
    i: int,
    d: usize,
)
    ensures
        compartment_deps(comps, names, Seq::empty(), i) == Set::<usize>::empty(),
        endpoint_compartment(comps, names, e.0) != Some(i) ==> compartment_deps(comps, names, edges.push(e), i)
            == compartment_deps(comps, names, edges, i),
        endpoint_compartment(comps, names, e.0) == Some(i) && endpoint_compartment(comps, names, e.1) == Some(d as int)
            && d != i ==> compartment_deps(comps, names, edges.push(e), i) == compartment_deps(comps, names, edges, i).insert(d),
{
    assert(compartment_deps(comps, names, Seq::empty(), i) =~= Set::<usize>::empty());
    let pe = edges.push(e);
    assert forall|x: usize| #[trigger] compartment_deps(comps, names, pe, i).contains(x) <==> (
        compartment_deps(comps, names, edges, i).contains(x) || edge_link(comps, names, e) == Some((i, x as int))) by {
        if compartment_deps(comps, names, pe, i).contains(x) {
            let k = choose|k: int| 0 <= k < pe.len() && edge_link(comps, names, #[trigger] pe[k]) == Some((i, x as int));
            if k < edges.len() {
                assert(pe[k] == edges[k]);
            }
        }
        if compartment_deps(comps, names, edges, i).contains(x) {
            let k = choose|k: int| 0 <= k < edges.len() && edge_link(comps, names, #[trigger] edges[k]) == Some((i, x as int));
            assert(pe[k] == edges[k]);
        }
        if edge_link(comps, names, e) == Some((i, x as int)) {
            assert(pe[edges.len() as int] == e);
        }
    }
    if endpoint_compartment(comps, names, e.0) != Some(i) {
        assert(compartment_deps(comps, names, pe, i) =~= compartment_deps(comps, names, edges, i));
    }
    if endpoint_compartment(comps, names, e.0) == Some(i) && endpoint_compartment(comps, names, e.1) == Some(d as int) && d != i {
        assert(compartment_deps(comps, names, pe, i) =~= compartment_deps(comps, names, edges, i).insert(d));
    }
}

proof fn lemma_no_edges_from_pair(
    comps: Seq<CompartmentView>,
    names: Seq<Seq<char>>,
    edges: Seq<(usize, usize)>,
    i: int,
    j: int,
)
    requires
        forall|k: int| 0 <= k < edges.len() ==> endpoint_compartment(comps, names, (#[trigger] edges[k]).0) != Some(i)
            && endpoint_compartment(comps, names, edges[k].0) != Some(j),
    ensures
        pair_edge_count(comps, names, edges, i, j) == 0,
    decreases edges.len(),
{
    if edges.len() > 0 {
        let pre = edges.drop_last();
        assert forall|k: int| 0 <= k < pre.len() implies endpoint_compartment(comps, names, (#[trigger] pre[k]).0) != Some(i)
            && endpoint_compartment(comps, names, pre[k].0) != Some(j) by {
            assert(pre[k] == edges[k]);
        }
        lemma_no_edges_from_pair(comps, names, pre, i, j);
        assert(edges.last() == edges[edges.len() - 1]);
    }
}

/// Two compartments from which no edge leaves share no direct edge and get
/// priority Skip, even when other compartments depend on both of them.
pub proof fn lemma_no_outgoing_edges_skip(
    comps: Seq<CompartmentView>,
    names: Seq<Seq<char>>,
    edges: Seq<(usize, usize)>,
    i: int,
    j: int,
)
    requires
        0 <= i < comps.len(),
        0 <= j < comps.len(),
        forall|k: int| 0 <= k < edges.len() ==> endpoint_compartment(comps, names, (#[trigger] edges[k]).0) != Some(i)
            && endpoint_compartment(comps, names, edges[k].0) != Some(j),
    ensures
        tile_for(comps, names, edges, i, j).dependency_edges == 0,
        tile_for(comps, names, edges, i, j).priority == OverlapPriority::Skip,
{
    lemma_no_edges_from_pair(comps, names, edges, i, j);
    let deps = all_compartment_deps(comps, names, edges);
    assert(deps[i] == compartment_deps(comps, names, edges, i));
    assert forall|x: usize| !deps[i].contains(x) by {
        if deps[i].contains(x) {
            let k = choose|k: int| 0 <= k < edges.len() && edge_link(comps, names, #[trigger] edges[k]) == Some((i, x as int));
            assert(endpoint_compartment(comps, names, edges[k].0) != Some(i));
        }
    }
    assert(!shares_dependency(deps, i, j));
}

/// Direct edges set the priority in bands: one or two edges give Medium,
/// three or more give High.
pub proof fn lemma_priority_bands(edges: int, i: int, j: int, deps: Seq<Set<usize>>)
    ensures
        1 <= edges <= 2 ==> priority_for(edges, i, j, deps) == OverlapPriority::Medium,
        edges >= 3 ==> priority_for(edges, i, j, deps) == OverlapPriority::High,
{
}

/// The direct edges between two compartments are counted whichever way
/// they point: reversing an edge leaves every pair's count unchanged.
pub proof fn lemma_edge_direction_irrelevant(
    comps: Seq<CompartmentView>,
    names: Seq<Seq<char>>,
    edges: Seq<(usize, usize)>,
    e: (usize, usize),
    a: int,
    b: int,
)
    ensures
        pair_edge_count(comps, names, edges.push(e), a, b) == pair_edge_count(comps, names, edges.push((e.1, e.0)), a, b),
{
    assert(edges.push(e).drop_last() =~= edges);
    assert(edges.push((e.1, e.0)).drop_last() =~= edges);
    assert(edge_pair(comps, names, e) == edge_pair(comps, names, (e.1, e.0)));
}

} // verus!
