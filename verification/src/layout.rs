//! Deciding a project's layout from its crates and their dependency edges.
use vstd::prelude::*;

use crate::compartments::{
    compartments_loc, crate_names, group_into_compartments, grouping, lemma_grouping_fits,
    lemma_grouping_preserves_loc, lemma_loc_sum_prefix, lemma_two_compartments_loc, loc_sum,
};
use crate::config::LayoutConfig;
use crate::overlap::{
    edges_in_range, generate_overlap_tiles, has_pair, is_tile_pair, tile_is_expected,
    tile_locs_fit, tiles_sorted,
};
use crate::types::{compartments_view, strings_view, tiles_view, ConnectomeEdge, ProjectLayout};
use crate::CrateInfo;

verus! {

/// The project stays whole: it has few members or little code.
pub open spec fn stays_whole(crates: Seq<CrateInfo>, config: LayoutConfig) -> bool {
    crates.len() <= config.member_count_threshold || loc_sum(crates) < config.loc_threshold
}

/// Whether a workspace with these crates is analyzed as a single unit.
pub fn is_whole(crates: &[CrateInfo], config: &LayoutConfig) -> (r: bool)
    requires
        crates@.len() > config.member_count_threshold ==> loc_sum(crates@) <= usize::MAX,
    ensures
        r == stays_whole(crates@, *config),
        !r <==> crates@.len() > config.member_count_threshold && loc_sum(crates@) >= config.loc_threshold,
{
    if crates.len() <= config.member_count_threshold {
        return true;
    }
    let total = total_loc(crates);
    total < config.loc_threshold
}

/// Total LOC of the crates.
pub fn total_loc(crates: &[CrateInfo]) -> (total: usize)
    requires
        loc_sum(crates@) <= usize::MAX,
    ensures
        total as int == loc_sum(crates@),
{
    let mut total: usize = 0;
    let n = crates.len();
    for i in 0..n
        invariant
            n == crates@.len(),
            loc_sum(crates@) <= usize::MAX,
            total as int == loc_sum(crates@.take(i as int)),
    {
        proof {
            assert(crates@.take(i + 1).drop_last() =~= crates@.take(i as int));
            lemma_loc_sum_prefix(crates@, i + 1);
        }
        total = total + crates[i].loc;
    }
    proof {
        assert(crates@.take(n as int) =~= crates@);
    }
    total
}

/// The connectome holds, edge for edge, the names of the crates each edge joins.
pub open spec fn connectome_of(
    connectome: Seq<ConnectomeEdge>,
    crates: Seq<CrateInfo>,
    edges: Seq<(usize, usize)>,
) -> bool {
    &&& connectome.len() == edges.len()
    &&& forall|k: int|
        0 <= k < edges.len() ==> (#[trigger] connectome[k]).from@ == crates[edges[k].0 as int].name@
            && connectome[k].to@ == crates[edges[k].1 as int].name@
}

/// What the layout of a project that does not stay whole holds.
pub open spec fn compartment_layout(
    layout: ProjectLayout,
    crates: Seq<CrateInfo>,
    edges: Seq<(usize, usize)>,
    config: LayoutConfig,
) -> bool {
    match layout {
        ProjectLayout::Whole => false,
        ProjectLayout::Compartmentalized { compartments, overlap_tiles, connectome, total_loc } => {
            let comps = grouping(crates, config);
            let names = crate_names(crates);
            let th = config.non_adjacent_edge_threshold as int;
            &&& total_loc as int == loc_sum(crates)
            &&& compartments_view(compartments@) == comps
            &&& connectome_of(connectome@, crates, edges)
            &&& tiles_sorted(tiles_view(overlap_tiles@))
            &&& forall|q: int|
                0 <= q < overlap_tiles@.len() ==> tile_is_expected(#[trigger] overlap_tiles@[q], comps, names, edges, th)
            &&& forall|i: int, j: int| #[trigger] is_tile_pair(comps, names, edges, th, i, j) ==> has_pair(overlap_tiles@, i, j)
        },
    }
}

/// Lay out a workspace from its crates (largest first) and their dependency edges.
///
/// A workspace with at most `member_count_threshold` crates, or under
/// `loc_threshold` lines in all, stays whole. Otherwise its crates are grouped
/// into compartments, overlap tiles are generated between them, and the
/// dependency edges are listed by crate name.
pub fn layout_from_crates(
    crates: Vec<CrateInfo>,
    dep_edges: &[(usize, usize)],
    config: &LayoutConfig,
) -> (layout: ProjectLayout)
    requires
        crates@.len() > config.member_count_threshold ==> loc_sum(crates@) <= usize::MAX,
        !stays_whole(crates@, *config) ==> edges_in_range(dep_edges@, crates@.len() as int),
    ensures
        stays_whole(crates@, *config) ==> layout is Whole,
        !stays_whole(crates@, *config) ==> compartment_layout(layout, crates@, dep_edges@, *config),
{
    if is_whole(&crates, config) {
        return ProjectLayout::Whole;
    }
    let total = total_loc(&crates);
    let ghost cs = crates@;
    let n = crates.len();
    let mut names: Vec<String> = Vec::new();
    for i in 0..n
        invariant
            n == cs.len(),
            cs == crates@,
            strings_view(names@) == crate_names(cs.take(i as int)),
            names@.len() == i,
    {
        let ghost prev = names@;
        names.push(crates[i].name.clone());
        proof {
            assert(strings_view(names@) =~= strings_view(prev).push(cs[i as int].name@));
            assert(crate_names(cs.take(i + 1)) =~= crate_names(cs.take(i as int)).push(cs[i as int].name@));
        }
    }
    proof {
        assert(cs.take(n as int) =~= cs);
    }
    // Build the connectome (named edge list).
    let mut connectome: Vec<ConnectomeEdge> = Vec::new();
    let m = dep_edges.len();
    for k in 0..m
        invariant
            m == dep_edges@.len(),
            n == cs.len(),
            cs == crates@,
            strings_view(names@) == crate_names(cs),
            names@.len() == n,
            edges_in_range(dep_edges@, n as int),
            connectome@.len() == k,
            forall|q: int|
                0 <= q < k ==> (#[trigger] connectome@[q]).from@ == cs[dep_edges@[q].0 as int].name@
                    && connectome@[q].to@ == cs[dep_edges@[q].1 as int].name@,
    {
        let (from, to) = dep_edges[k];
        proof {
            assert(from < n && to < n);
            assert(dep_edges@[k as int] == (from, to));
            assert(strings_view(names@)[from as int] == names@[from as int]@);
            assert(strings_view(names@)[to as int] == names@[to as int]@);
        }
        connectome.push(ConnectomeEdge { from: names[from].clone(), to: names[to].clone() });
    }
    proof {
        lemma_grouping_fits(cs, *config);
    }
    let compartments = group_into_compartments(crates, config);
    proof {
        let comps = compartments_view(compartments@);
        lemma_grouping_preserves_loc(cs, *config);
        assert forall|k: int| 0 <= k < comps.len() implies (#[trigger] comps[k]).estimated_loc >= 0 by {
            assert(comps[k] == compartments@[k]@);
        }
        assert forall|i: int, j: int|
            #[trigger] is_tile_pair(comps, crate_names(cs), dep_edges@, config.non_adjacent_edge_threshold as int, i, j)
                implies comps[i].estimated_loc + comps[j].estimated_loc <= usize::MAX by {
            lemma_two_compartments_loc(comps, i, j);
        }
        assert(tile_locs_fit(comps, crate_names(cs), dep_edges@, config.non_adjacent_edge_threshold as int));
        assert(names@.len() == n);
    }
    let overlap_tiles = generate_overlap_tiles(compartments.as_slice(), names.as_slice(), dep_edges, config);
    ProjectLayout::Compartmentalized { compartments, overlap_tiles, connectome, total_loc: total }
}


/// A compartmentalized layout accounts for every line: its compartments'
/// estimated LOC adds up to its `total_loc`.
pub proof fn lemma_layout_total_loc(
    layout: ProjectLayout,
    crates: Seq<CrateInfo>,
    edges: Seq<(usize, usize)>,
    config: LayoutConfig,
)
    requires
        compartment_layout(layout, crates, edges, config),
    ensures
        layout matches ProjectLayout::Compartmentalized { compartments, total_loc, .. }
            && compartments_loc(compartments_view(compartments@)) == total_loc as int,
{
    lemma_grouping_preserves_loc(crates, config);
}

/// A workspace stays whole exactly when it has at most
/// `member_count_threshold` crates or the LOC of all its crates together
/// stays under `loc_threshold`; in particular one with more crates whose
/// total LOC reaches the threshold is split into compartments.
pub proof fn lemma_whole_iff_small(crates: Seq<CrateInfo>, config: LayoutConfig)
    ensures
        crates.len() > config.member_count_threshold && loc_sum(crates) >= config.loc_threshold
            ==> !stays_whole(crates, config),
        crates.len() <= config.member_count_threshold ==> stays_whole(crates, config),
        loc_sum(crates) < config.loc_threshold ==> stays_whole(crates, config),
{
}

/// A workspace that is split into compartments reports a total LOC, the
/// sum over all its crates, that reaches `loc_threshold`, and it has more
/// than `member_count_threshold` crates.
pub proof fn lemma_split_layout_is_large(
    layout: ProjectLayout,
    crates: Seq<CrateInfo>,
    edges: Seq<(usize, usize)>,
    config: LayoutConfig,
)
    requires
        !stays_whole(crates, config),
        compartment_layout(layout, crates, edges, config),
    ensures
        crates.len() > config.member_count_threshold,
        layout matches ProjectLayout::Compartmentalized { total_loc, .. } && total_loc >= config.loc_threshold
            && total_loc as int == loc_sum(crates),
{
}

} // verus!
