//! Grouping crates into LOC-bounded compartments.
use vstd::prelude::*;

use crate::config::LayoutConfig;
use crate::text::{append_joined, join};
use crate::types::{compartments_view, strings_view, Compartment, CompartmentView};
use crate::CrateInfo;

verus! {

/// The names of a sequence of crates.
pub open spec fn crate_names(s: Seq<CrateInfo>) -> Seq<Seq<char>> {
    s.map_values(|c: CrateInfo| c.name@)
}

/// The paths of a sequence of crates.
pub open spec fn crate_paths(s: Seq<CrateInfo>) -> Seq<Seq<char>> {
    s.map_values(|c: CrateInfo| c.path@)
}

/// Sum of the LOC of a sequence of crates.
pub open spec fn loc_sum(s: Seq<CrateInfo>) -> int
    decreases s.len(),
{
    if s.len() == 0 {
        0
    } else {
        loc_sum(s.drop_last()) + s.last().loc
    }
}

/// The compartment made of a group of small crates with the given LOC total.
pub open spec fn group_compartment(group: Seq<CrateInfo>, loc: int) -> CompartmentView {
    CompartmentView {
        label: join(crate_names(group), " + "@),
        paths: crate_paths(group),
        estimated_loc: loc,
    }
}

/// The compartment of a crate on its own.
pub open spec fn own_compartment(c: CrateInfo) -> CompartmentView {
    CompartmentView { label: c.name@, paths: seq![c.path@], estimated_loc: c.loc as int }
}

/// Where the grouping stands after some prefix of the crates: the finished
/// compartments, the small crates gathered since the last flush, and their LOC.
pub struct GroupState {
    pub comps: Seq<CompartmentView>,
    pub group: Seq<CrateInfo>,
    pub group_loc: int,
}

/// One crate taken into the grouping: a large crate gets its own compartment;
/// a small one joins the current group, which is flushed first when the crate
/// would lift it over the ceiling.
pub open spec fn group_step(s: GroupState, c: CrateInfo, config: LayoutConfig) -> GroupState {
    if c.loc >= config.small_crate_loc {
        GroupState { comps: s.comps.push(own_compartment(c)), group: s.group, group_loc: s.group_loc }
    } else if s.group_loc + c.loc > config.group_loc_ceiling && s.group.len() > 0 {
        GroupState {
            comps: s.comps.push(group_compartment(s.group, s.group_loc)),
            group: seq![c],
            group_loc: c.loc as int,
        }
    } else {
        GroupState { comps: s.comps, group: s.group.push(c), group_loc: s.group_loc + c.loc }
    }
}

/// The grouping state after all of `crates`, taken in order.
pub open spec fn group_fold(crates: Seq<CrateInfo>, config: LayoutConfig) -> GroupState
    decreases crates.len(),
{
    if crates.len() == 0 {
        GroupState { comps: Seq::empty(), group: Seq::empty(), group_loc: 0 }
    } else {
        group_step(group_fold(crates.drop_last(), config), crates.last(), config)
    }
}

/// The compartments that grouping `crates` gives.
pub open spec fn grouping(crates: Seq<CrateInfo>, config: LayoutConfig) -> Seq<CompartmentView> {
    let s = group_fold(crates, config);
    if s.group.len() > 0 {
        s.comps.push(group_compartment(s.group, s.group_loc))
    } else {
        s.comps
    }
}

/// The running LOC of every group stays within `usize` as each small crate is added.
pub open spec fn grouping_fits(crates: Seq<CrateInfo>, config: LayoutConfig) -> bool {
    forall|k: int|
        0 <= k < crates.len() && #[trigger] crates[k].loc < config.small_crate_loc
            ==> group_fold(crates.take(k), config).group_loc + crates[k].loc <= usize::MAX
}

/// Flush accumulated small crates into a single compartment.
pub fn flush_small_group(group: &mut Vec<CrateInfo>, loc: &mut usize) -> (c: Compartment)
    ensures
        c@ == group_compartment(old(group)@, *old(loc) as int),
        final(group)@ == Seq::<CrateInfo>::empty(),
        *final(loc) == 0,
{
    let mut label = String::new();
    let mut paths: Vec<String> = Vec::new();
    let n = group.len();
    for i in 0..n
        invariant
            n == group.len(),
            label@ == join(crate_names(group@.take(i as int)), " + "@),
            strings_view(paths@) == crate_paths(group@.take(i as int)),
    {
        proof {
            assert(crate_names(group@.take(i as int)).push(group@[i as int].name@)
                =~= crate_names(group@.take(i + 1)));
            assert(crate_paths(group@.take(i as int)).push(group@[i as int].path@)
                =~= crate_paths(group@.take(i + 1)));
        }
        append_joined(&mut label, i, " + ", group[i].name.as_str(), Ghost(crate_names(group@.take(i as int))));
        paths.push(group[i].path.clone());
        proof {
            assert(strings_view(paths@) =~= crate_paths(group@.take(i + 1)));
        }
    }
    proof {
        assert(group@.take(n as int) =~= group@);
    }
    let estimated_loc = *loc;
    group.clear();
    *loc = 0;
    Compartment { label, paths, estimated_loc }
}

/// Group crates into compartments: large crates get their own, small crates
/// are batched together up to the group LOC ceiling.
pub fn group_into_compartments(crates: Vec<CrateInfo>, config: &LayoutConfig) -> (comps: Vec<Compartment>)
    requires
        grouping_fits(crates@, *config),
    ensures
        compartments_view(comps@) == grouping(crates@, *config),
{
    let mut compartments: Vec<Compartment> = Vec::new();
    let mut small_group: Vec<CrateInfo> = Vec::new();
    let mut small_group_loc: usize = 0;
    let n = crates.len();
    for i in 0..n
        invariant
            n == crates.len(),
            grouping_fits(crates@, *config),
            compartments_view(compartments@) == group_fold(crates@.take(i as int), *config).comps,
            small_group@ == group_fold(crates@.take(i as int), *config).group,
            small_group_loc as int == group_fold(crates@.take(i as int), *config).group_loc,
    {
        proof {
            assert(crates@.take(i + 1).drop_last() =~= crates@.take(i as int));
        }
        let cr = &crates[i];
        if cr.loc >= config.small_crate_loc {
            let c = Compartment { label: cr.name.clone(), paths: vec![cr.path.clone()], estimated_loc: cr.loc };
            compartments.push(c);
            proof {
                assert(strings_view(c.paths@) =~= seq![cr.path@]);
            }
        } else {
            if small_group_loc + cr.loc > config.group_loc_ceiling && small_group.len() > 0 {
                let c = flush_small_group(&mut small_group, &mut small_group_loc);
                compartments.push(c);
            }
            small_group_loc = small_group_loc + cr.loc;
            small_group.push(CrateInfo { path: cr.path.clone(), name: cr.name.clone(), loc: cr.loc });
        }
        proof {
            assert(compartments_view(compartments@) =~= group_fold(crates@.take(i + 1), *config).comps);
            assert(small_group@ =~= group_fold(crates@.take(i + 1), *config).group);
        }
    }
    proof {
        assert(crates@.take(n as int) =~= crates@);
    }
    if small_group.len() > 0 {
        let c = flush_small_group(&mut small_group, &mut small_group_loc);
        compartments.push(c);
        proof {
            assert(compartments_view(compartments@) =~= grouping(crates@, *config));
        }
    }
    compartments
}

} // verus!

verus! {

/// Sum of the estimated LOC of a sequence of compartments.
pub open spec fn compartments_loc(s: Seq<CompartmentView>) -> int
    decreases s.len(),
{
    if s.len() == 0 {
        0
    } else {
        compartments_loc(s.drop_last()) + s.last().estimated_loc
    }
}

/// All paths of a sequence of compartments, one compartment after the other.
pub open spec fn compartments_paths(s: Seq<CompartmentView>) -> Seq<Seq<char>>
    decreases s.len(),
{
    if s.len() == 0 {
        Seq::empty()
    } else {
        compartments_paths(s.drop_last()) + s.last().paths
    }
}

/// A compartment of more than one crate is within the ceiling.
pub open spec fn within_ceiling(c: CompartmentView, config: LayoutConfig) -> bool {
    c.paths.len() == 1 || c.estimated_loc <= config.group_loc_ceiling
}

/// What holds of the grouping state after any prefix of the crates.
pub open spec fn group_state_inv(crates: Seq<CrateInfo>, s: GroupState, config: LayoutConfig) -> bool {
    &&& s.group_loc == loc_sum(s.group)
    &&& s.group_loc >= 0
    &&& forall|k: int| 0 <= k < s.comps.len() ==> (#[trigger] s.comps[k]).estimated_loc >= 0
    &&& s.group.len() >= 2 ==> s.group_loc <= config.group_loc_ceiling
    &&& forall|k: int| 0 <= k < s.comps.len() ==> within_ceiling(#[trigger] s.comps[k], config)
    &&& compartments_loc(s.comps) + s.group_loc == loc_sum(crates)
    &&& (compartments_paths(s.comps) + crate_paths(s.group)).to_multiset() == crate_paths(crates).to_multiset()
}

proof fn lemma_paths_push(a: Seq<Seq<char>>, b: Seq<Seq<char>>, x: Seq<char>)
    ensures
        (a + b.push(x)).to_multiset() == (a + b).to_multiset().insert(x),
{
    assert(a + b.push(x) =~= (a + b).push(x));
    (a + b).to_multiset_ensures();
}

proof fn lemma_group_fold_inv(crates: Seq<CrateInfo>, config: LayoutConfig)
    ensures
        group_state_inv(crates, group_fold(crates, config), config),
    decreases crates.len(),
{
    if crates.len() == 0 {
        assert(crate_paths(crates) =~= Seq::<Seq<char>>::empty());
        assert(compartments_paths(Seq::empty()) + crate_paths(Seq::empty()) =~= Seq::<Seq<char>>::empty());
    } else {
        let pre = crates.drop_last();
        let c = crates.last();
        lemma_group_fold_inv(pre, config);
        let s = group_fold(pre, config);
        let t = group_step(s, c, config);
        lemma_loc_sum_nonneg(s.group);
        assert forall|k: int| 0 <= k < t.comps.len() implies (#[trigger] t.comps[k]).estimated_loc >= 0 by {
            if k < s.comps.len() {
                assert(t.comps[k] == s.comps[k]);
            }
        }
        assert(crate_paths(crates) =~= crate_paths(pre).push(c.path@));
        crate_paths(pre).to_multiset_ensures();
        if c.loc >= config.small_crate_loc {
            let x = own_compartment(c);
            assert(t.comps.drop_last() =~= s.comps);
            assert(compartments_paths(t.comps) == compartments_paths(s.comps) + seq![c.path@]);
            assert(compartments_paths(t.comps) + crate_paths(t.group)
                =~= (compartments_paths(s.comps) + crate_paths(s.group)).insert(
                    compartments_paths(s.comps).len() as int, c.path@));
            lemma_insert_multiset(compartments_paths(s.comps) + crate_paths(s.group), compartments_paths(s.comps).len() as int, c.path@);
            assert forall|k: int| 0 <= k < t.comps.len() implies within_ceiling(#[trigger] t.comps[k], config) by {
                if k < s.comps.len() {
                    assert(t.comps[k] == s.comps[k]);
                }
            }
        } else if s.group_loc + c.loc > config.group_loc_ceiling && s.group.len() > 0 {
            let x = group_compartment(s.group, s.group_loc);
            assert(t.comps.drop_last() =~= s.comps);
            assert(compartments_paths(t.comps) == compartments_paths(s.comps) + crate_paths(s.group));
            assert(crate_paths(t.group) =~= seq![c.path@]);
            assert(compartments_paths(t.comps) + crate_paths(t.group)
                =~= (compartments_paths(s.comps) + crate_paths(s.group)).push(c.path@));
            assert(t.group.drop_last() =~= Seq::<CrateInfo>::empty());
            assert(loc_sum(t.group.drop_last()) == 0);
            assert(loc_sum(t.group) == c.loc);
            (compartments_paths(s.comps) + crate_paths(s.group)).to_multiset_ensures();
            assert forall|k: int| 0 <= k < t.comps.len() implies within_ceiling(#[trigger] t.comps[k], config) by {
                if k < s.comps.len() {
                    assert(t.comps[k] == s.comps[k]);
                } else {
                    assert(t.comps[k] == x);
                    assert(crate_paths(s.group).len() == s.group.len());
                }
            }
        } else {
            assert(t.group.drop_last() =~= s.group);
            assert(crate_paths(t.group) =~= crate_paths(s.group).push(c.path@));
            lemma_paths_push(compartments_paths(s.comps), crate_paths(s.group), c.path@);
            assert(loc_sum(t.group) == loc_sum(s.group) + c.loc);
        }
    }
}

pub(crate) proof fn lemma_insert_multiset(s: Seq<Seq<char>>, i: int, x: Seq<char>)
    requires
        0 <= i <= s.len(),
    ensures
        s.insert(i, x).to_multiset() == s.to_multiset().insert(x),
{
    let left = s.take(i);
    let right = s.skip(i);
    assert(s =~= left + right);
    assert(s.insert(i, x) =~= left.push(x) + right);
    vstd::seq_lib::lemma_multiset_commutative(left.push(x), right);
    vstd::seq_lib::lemma_multiset_commutative(left, right);
    left.to_multiset_ensures();
}

/// Grouping never lets a compartment of several crates exceed the group LOC
/// ceiling: every compartment either covers a single crate or stays within it.
pub proof fn lemma_grouping_respects_ceiling(crates: Seq<CrateInfo>, config: LayoutConfig)
    ensures
        forall|k: int|
            0 <= k < grouping(crates, config).len() ==> within_ceiling(
                #[trigger] grouping(crates, config)[k],
                config,
            ),
{
    lemma_group_fold_inv(crates, config);
    let s = group_fold(crates, config);
    let g = grouping(crates, config);
    assert forall|k: int| 0 <= k < g.len() implies within_ceiling(#[trigger] g[k], config) by {
        if k < s.comps.len() {
            assert(g[k] == s.comps[k]);
        } else {
            assert(crate_paths(s.group).len() == s.group.len());
        }
    }
}

/// Grouping keeps every line: the compartments' estimated LOC add up to the
/// crates' LOC.
pub proof fn lemma_grouping_preserves_loc(crates: Seq<CrateInfo>, config: LayoutConfig)
    ensures
        compartments_loc(grouping(crates, config)) == loc_sum(crates),
{
    lemma_group_fold_inv(crates, config);
    let s = group_fold(crates, config);
    if s.group.len() > 0 {
        assert(grouping(crates, config).drop_last() =~= s.comps);
    }
}

/// Grouping places every crate's path in exactly one compartment: the
/// compartments' paths, taken together, are the crates' paths.
pub proof fn lemma_grouping_preserves_paths(crates: Seq<CrateInfo>, config: LayoutConfig)
    ensures
        compartments_paths(grouping(crates, config)).to_multiset() == crate_paths(crates).to_multiset(),
{
    lemma_group_fold_inv(crates, config);
    let s = group_fold(crates, config);
    if s.group.len() > 0 {
        assert(grouping(crates, config).drop_last() =~= s.comps);
    } else {
        assert(crate_paths(s.group) =~= Seq::<Seq<char>>::empty());
        assert(compartments_paths(s.comps) + crate_paths(s.group) =~= compartments_paths(s.comps));
    }
}

/// A prefix of the crates has no more LOC than all of them.
pub proof fn lemma_loc_sum_prefix(s: Seq<CrateInfo>, i: int)
    requires
        0 <= i <= s.len(),
    ensures
        loc_sum(s.take(i)) <= loc_sum(s),
        loc_sum(s.take(i)) >= 0,
    decreases s.len(),
{
    if i == s.len() {
        assert(s.take(i) =~= s);
        lemma_loc_sum_nonneg(s);
    } else {
        assert(s.drop_last().take(i) =~= s.take(i));
        lemma_loc_sum_prefix(s.drop_last(), i);
    }
}

/// LOC sums are never negative.
pub proof fn lemma_loc_sum_nonneg(s: Seq<CrateInfo>)
    ensures
        loc_sum(s) >= 0,
    decreases s.len(),
{
    if s.len() > 0 {
        lemma_loc_sum_nonneg(s.drop_last());
    }
}

} // verus!

verus! {

proof fn lemma_compartments_loc_nonneg(s: Seq<CompartmentView>)
    requires
        forall|k: int| 0 <= k < s.len() ==> (#[trigger] s[k]).estimated_loc >= 0,
    ensures
        compartments_loc(s) >= 0,
    decreases s.len(),
{
    if s.len() > 0 {
        assert forall|k: int| 0 <= k < s.len() - 1 implies (#[trigger] s.drop_last()[k]).estimated_loc >= 0 by {
            assert(s.drop_last()[k] == s[k]);
        }
        lemma_compartments_loc_nonneg(s.drop_last());
    }
}

/// Grouping crates whose LOC adds up within `usize` never overflows a group's running LOC.
pub proof fn lemma_grouping_fits(crates: Seq<CrateInfo>, config: LayoutConfig)
    requires
        loc_sum(crates) <= usize::MAX,
    ensures
        grouping_fits(crates, config),
{
    assert forall|k: int| 0 <= k < crates.len() && #[trigger] crates[k].loc < config.small_crate_loc
        implies group_fold(crates.take(k), config).group_loc + crates[k].loc <= usize::MAX by {
        let pre = crates.take(k);
        lemma_group_fold_inv(pre, config);
        let s = group_fold(pre, config);
        lemma_compartments_loc_nonneg(s.comps);
        lemma_loc_sum_prefix(crates, k + 1);
        assert(crates.take(k + 1).drop_last() =~= pre);
    }
}

/// Two different compartments together hold no more LOC than all of them.
pub proof fn lemma_two_compartments_loc(s: Seq<CompartmentView>, i: int, j: int)
    requires
        0 <= i < s.len(),
        0 <= j < s.len(),
        i != j,
        forall|k: int| 0 <= k < s.len() ==> (#[trigger] s[k]).estimated_loc >= 0,
    ensures
        s[i].estimated_loc + s[j].estimated_loc <= compartments_loc(s),
    decreases s.len(),
{
    let pre = s.drop_last();
    assert forall|k: int| 0 <= k < pre.len() implies (#[trigger] pre[k]).estimated_loc >= 0 by {
        assert(pre[k] == s[k]);
    }
    lemma_compartments_loc_nonneg(pre);
    if i < s.len() - 1 && j < s.len() - 1 {
        lemma_two_compartments_loc(pre, i, j);
        assert(pre[i] == s[i] && pre[j] == s[j]);
    } else if i < s.len() - 1 {
        lemma_one_compartment_loc(pre, i);
        assert(pre[i] == s[i]);
    } else {
        lemma_one_compartment_loc(pre, j);
        assert(pre[j] == s[j]);
    }
}

proof fn lemma_one_compartment_loc(s: Seq<CompartmentView>, i: int)
    requires
        0 <= i < s.len(),
        forall|k: int| 0 <= k < s.len() ==> (#[trigger] s[k]).estimated_loc >= 0,
    ensures
        s[i].estimated_loc <= compartments_loc(s),
    decreases s.len(),
{
    let pre = s.drop_last();
    assert forall|k: int| 0 <= k < pre.len() implies (#[trigger] pre[k]).estimated_loc >= 0 by {
        assert(pre[k] == s[k]);
    }
    lemma_compartments_loc_nonneg(pre);
    if i < s.len() - 1 {
        lemma_one_compartment_loc(pre, i);
        assert(pre[i] == s[i]);
    }
}

/// Some crate below the small-crate size has path `p`.
pub open spec fn is_small_crate_path(crates: Seq<CrateInfo>, p: Seq<char>, config: LayoutConfig) -> bool {
    exists|k: int| 0 <= k < crates.len() && (#[trigger] crates[k]).path@ == p && crates[k].loc < config.small_crate_loc
}

/// Where large crates and grouped small crates stand after some prefix of the crates.
spec fn sizes_inv(crates: Seq<CrateInfo>, s: GroupState, config: LayoutConfig) -> bool {
    &&& forall|m: int|
        0 <= m < s.group.len() ==> (#[trigger] s.group[m]).loc < config.small_crate_loc && crates.contains(s.group[m])
    &&& forall|j: int, x: int|
        0 <= j < s.comps.len() && s.comps[j].paths.len() >= 2 && 0 <= x < s.comps[j].paths.len()
            ==> is_small_crate_path(crates, #[trigger] s.comps[j].paths[x], config)
    &&& forall|k: int|
        0 <= k < crates.len() && (#[trigger] crates[k]).loc >= config.small_crate_loc ==> s.comps.contains(
            own_compartment(crates[k]),
        )
}

proof fn lemma_small_path_grows(pre: Seq<CrateInfo>, c: CrateInfo, p: Seq<char>, config: LayoutConfig)
    requires
        is_small_crate_path(pre, p, config),
    ensures
        is_small_crate_path(pre.push(c), p, config),
{
    let k = choose|k: int| 0 <= k < pre.len() && (#[trigger] pre[k]).path@ == p && pre[k].loc < config.small_crate_loc;
    assert(pre.push(c)[k] == pre[k]);
}

proof fn lemma_group_paths_small(crates: Seq<CrateInfo>, group: Seq<CrateInfo>, loc: int, x: int, config: LayoutConfig)
    requires
        forall|m: int| 0 <= m < group.len() ==> (#[trigger] group[m]).loc < config.small_crate_loc && crates.contains(group[m]),
        0 <= x < group.len(),
    ensures
        is_small_crate_path(crates, group_compartment(group, loc).paths[x], config),
{
    assert(group_compartment(group, loc).paths[x] == group[x].path@);
    assert(group[x].loc < config.small_crate_loc && crates.contains(group[x]));
    let k = choose|k: int| 0 <= k < crates.len() && crates[k] == group[x];
    assert(crates[k].path@ == group[x].path@);
}

proof fn lemma_sizes_inv(crates: Seq<CrateInfo>, config: LayoutConfig)
    ensures
        sizes_inv(crates, group_fold(crates, config), config),
    decreases crates.len(),
{
    if crates.len() > 0 {
        let pre = crates.drop_last();
        let c = crates.last();
        lemma_sizes_inv(pre, config);
        let s = group_fold(pre, config);
        let t = group_step(s, c, config);
        assert(crates =~= pre.push(c));
        assert forall|m: int| 0 <= m < t.group.len() implies (#[trigger] t.group[m]).loc < config.small_crate_loc
            && crates.contains(t.group[m]) by {
            assert(crates[crates.len() - 1] == c);
            if c.loc >= config.small_crate_loc {
                assert(s.group[m].loc < config.small_crate_loc && pre.contains(s.group[m]));
                let k = choose|k: int| 0 <= k < pre.len() && pre[k] == s.group[m];
                assert(crates[k] == pre[k]);
            } else if s.group_loc + c.loc > config.group_loc_ceiling && s.group.len() > 0 {
                assert(t.group[m] == c);
            } else if m < s.group.len() {
                assert(t.group[m] == s.group[m]);
                assert(s.group[m].loc < config.small_crate_loc && pre.contains(s.group[m]));
                let k = choose|k: int| 0 <= k < pre.len() && pre[k] == s.group[m];
                assert(crates[k] == pre[k]);
            } else {
                assert(t.group[m] == c);
            }
        }
        assert forall|j: int, x: int|
            0 <= j < t.comps.len() && t.comps[j].paths.len() >= 2 && 0 <= x < t.comps[j].paths.len()
                implies is_small_crate_path(crates, #[trigger] t.comps[j].paths[x], config) by {
            if j < s.comps.len() {
                assert(t.comps[j] == s.comps[j]);
                lemma_small_path_grows(pre, c, s.comps[j].paths[x], config);
            } else if c.loc >= config.small_crate_loc {
                assert(t.comps[j] == own_compartment(c));
            } else {
                assert(t.comps[j] == group_compartment(s.group, s.group_loc));
                assert(crate_paths(s.group).len() == s.group.len());
                assert forall|m: int| 0 <= m < s.group.len() implies (#[trigger] s.group[m]).loc < config.small_crate_loc
                    && crates.contains(s.group[m]) by {
                    assert(pre.contains(s.group[m]));
                    let k = choose|k: int| 0 <= k < pre.len() && pre[k] == s.group[m];
                    assert(crates[k] == pre[k]);
                }
                lemma_group_paths_small(crates, s.group, s.group_loc, x, config);
            }
        }
        assert forall|k: int| 0 <= k < crates.len() && (#[trigger] crates[k]).loc >= config.small_crate_loc
            implies t.comps.contains(own_compartment(crates[k])) by {
            if k < pre.len() {
                assert(crates[k] == pre[k]);
                assert(s.comps.contains(own_compartment(pre[k])));
                let j = choose|j: int| 0 <= j < s.comps.len() && s.comps[j] == own_compartment(pre[k]);
                assert(t.comps[j] == s.comps[j]);
            } else {
                assert(crates[k] == c);
                assert(t.comps[t.comps.len() - 1] == own_compartment(c));
            }
        }
    }
}

/// Every crate of at least the small-crate size gets a compartment of its
/// own: labelled with its name, holding just its path and its LOC. A
/// compartment of several paths holds only paths of crates below that size.
pub proof fn lemma_large_crates_stand_alone(crates: Seq<CrateInfo>, config: LayoutConfig)
    ensures
        forall|k: int|
            0 <= k < crates.len() && (#[trigger] crates[k]).loc >= config.small_crate_loc ==> exists|j: int|
                0 <= j < grouping(crates, config).len() && (#[trigger] grouping(crates, config)[j]).label
                    == crates[k].name@ && grouping(crates, config)[j].paths == seq![crates[k].path@]
                    && grouping(crates, config)[j].estimated_loc == crates[k].loc,
        forall|j: int, x: int|
            0 <= j < grouping(crates, config).len() && grouping(crates, config)[j].paths.len() >= 2
                && 0 <= x < grouping(crates, config)[j].paths.len() ==> exists|k: int|
                0 <= k < crates.len() && (#[trigger] crates[k]).path@ == #[trigger] grouping(crates, config)[j].paths[x]
                    && crates[k].loc < config.small_crate_loc,
{
    lemma_sizes_inv(crates, config);
    let s = group_fold(crates, config);
    let g = grouping(crates, config);
    assert forall|k: int| 0 <= k < crates.len() && (#[trigger] crates[k]).loc >= config.small_crate_loc implies exists|j: int|
        0 <= j < g.len() && (#[trigger] g[j]).label == crates[k].name@ && g[j].paths == seq![crates[k].path@]
            && g[j].estimated_loc == crates[k].loc by {
        assert(s.comps.contains(own_compartment(crates[k])));
        let j = choose|j: int| 0 <= j < s.comps.len() && s.comps[j] == own_compartment(crates[k]);
        assert(g[j] == s.comps[j]);
    }
    assert forall|j: int, x: int|
        0 <= j < g.len() && g[j].paths.len() >= 2 && 0 <= x < g[j].paths.len() implies exists|k: int|
            0 <= k < crates.len() && (#[trigger] crates[k]).path@ == #[trigger] g[j].paths[x] && crates[k].loc < config.small_crate_loc by {
        if j < s.comps.len() {
            assert(g[j] == s.comps[j]);
            assert(is_small_crate_path(crates, s.comps[j].paths[x], config));
        } else {
            assert(g[j] == group_compartment(s.group, s.group_loc));
            assert(crate_paths(s.group).len() == s.group.len());
            lemma_group_paths_small(crates, s.group, s.group_loc, x, config);
        }
    }
}

} // verus!
