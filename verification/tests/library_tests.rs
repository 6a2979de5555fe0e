use std::collections::HashSet;

use cargo_crosscut::compartments::group_into_compartments;
use cargo_crosscut::connectivity::dry_tiles_from_crates;
use cargo_crosscut::text::count_lines;
use cargo_crosscut::workspace::{
    is_build_output_dir, is_rust_source, member_glob_prefix, sort_member_paths,
};
use cargo_crosscut::{
    batch_by_disjointness, compute_priority, connectivity_tiles, crate_compartment_idx,
    generate_overlap_tiles, is_whole, layout_from_crates, resolve_crate_infos,
    workspace_dep_edges, Compartment, CrateInfo, LayoutConfig, OverlapPriority, ProjectLayout,
};

fn comp(label: &str, paths: &[&str], loc: usize) -> Compartment {
    Compartment {
        label: label.to_string(),
        paths: paths.iter().map(|p| p.to_string()).collect(),
        estimated_loc: loc,
    }
}

fn krate(path: &str, name: &str, loc: usize) -> CrateInfo {
    CrateInfo {
        path: path.to_string(),
        name: name.to_string(),
        loc,
    }
}

fn strings(v: &[&str]) -> Vec<String> {
    v.iter().map(|s| s.to_string()).collect()
}

#[test]
fn default_config_values() {
    let c = LayoutConfig::default();
    assert_eq!(c.loc_threshold, 15_000);
    assert_eq!(c.member_count_threshold, 3);
    assert_eq!(c.small_crate_loc, 1_000);
    assert_eq!(c.group_loc_ceiling, 5_000);
    assert_eq!(c.non_adjacent_edge_threshold, 3);
    assert_eq!(c.dry_tile_target_loc, 30_000);
}

#[test]
fn grouping_keeps_order_and_labels() {
    let config = LayoutConfig::default();
    let crates = vec![
        krate("crates/big-a", "big-a", 10000),
        krate("crates/small-c", "small-c", 500),
        krate("crates/big-b", "big-b", 5000),
        krate("crates/small-d", "small-d", 400),
        krate("crates/small-e", "small-e", 300),
    ];
    let comps = group_into_compartments(crates, &config);
    assert_eq!(comps.len(), 3);
    assert_eq!(comps[0].label, "big-a");
    assert_eq!(comps[1].label, "big-b");
    assert_eq!(comps[2].label, "small-c + small-d + small-e");
    assert_eq!(comps[2].paths, strings(&["crates/small-c", "crates/small-d", "crates/small-e"]));
    assert_eq!(comps[2].estimated_loc, 1200);
}

#[test]
fn grouping_flushes_before_exceeding_ceiling() {
    let config = LayoutConfig::default();
    let crates: Vec<CrateInfo> = (0..7)
        .map(|i| krate(&format!("crates/t{i}"), &format!("t{i}"), 900))
        .collect();
    let comps = group_into_compartments(crates, &config);
    // 5 * 900 = 4500 <= 5000; the sixth would reach 5400, so it starts a new group.
    assert_eq!(comps.len(), 2);
    assert_eq!(comps[0].label, "t0 + t1 + t2 + t3 + t4");
    assert_eq!(comps[0].estimated_loc, 4500);
    assert_eq!(comps[1].label, "t5 + t6");
    assert_eq!(comps[1].estimated_loc, 1800);
}

#[test]
fn grouping_preserves_loc_and_paths() {
    let config = LayoutConfig::default();
    let locs = [3000usize, 700, 999, 1000, 10, 4500, 2];
    let crates: Vec<CrateInfo> = locs
        .iter()
        .enumerate()
        .map(|(i, &l)| krate(&format!("p{i}"), &format!("n{i}"), l))
        .collect();
    let comps = group_into_compartments(crates, &config);
    let total: usize = comps.iter().map(|c| c.estimated_loc).sum();
    assert_eq!(total, locs.iter().sum::<usize>());
    let mut paths: Vec<String> = comps.iter().flat_map(|c| c.paths.clone()).collect();
    paths.sort();
    let mut expected: Vec<String> = (0..locs.len()).map(|i| format!("p{i}")).collect();
    expected.sort();
    assert_eq!(paths, expected);
    for c in &comps {
        assert!(c.paths.len() == 1 || c.estimated_loc <= config.group_loc_ceiling);
    }
}

#[test]
fn single_small_crate_over_ceiling_alone() {
    let mut config = LayoutConfig::default();
    config.small_crate_loc = 10_000;
    config.group_loc_ceiling = 100;
    let crates = vec![krate("a", "a", 500), krate("b", "b", 600)];
    let comps = group_into_compartments(crates, &config);
    assert_eq!(comps.len(), 2);
    assert_eq!(comps[0].estimated_loc, 500);
    assert_eq!(comps[1].estimated_loc, 600);
}

#[test]
fn compartment_idx_reads_final_component() {
    let comps = vec![comp("core", &["crates/core/"], 10), comp("x", &["deep/nested/cli"], 10)];
    assert_eq!(crate_compartment_idx("core", &comps), Some(0));
    assert_eq!(crate_compartment_idx("cli", &comps), Some(1));
    assert_eq!(crate_compartment_idx("nested", &comps), None);
    assert_eq!(crate_compartment_idx("crates/core", &comps), None);
}

#[test]
fn compartment_idx_first_match_wins() {
    let comps = vec![comp("a", &["x/dup"], 10), comp("b", &["y/dup"], 10)];
    assert_eq!(crate_compartment_idx("dup", &comps), Some(0));
}

#[test]
fn priority_indirect_coupling_needs_common_dependency() {
    let mut d0 = HashSet::new();
    d0.insert(2usize);
    let mut d1 = HashSet::new();
    d1.insert(3usize);
    let deps = vec![d0, d1, HashSet::new(), HashSet::new()];
    assert_eq!(compute_priority(0, 0, 1, &deps), OverlapPriority::Skip);
}

#[test]
fn overlap_tiles_ordered_by_priority_then_edges() {
    let config = LayoutConfig::default();
    let comps = vec![
        comp("a", &["c/a"], 100),
        comp("b", &["c/b"], 100),
        comp("c", &["c/c"], 100),
        comp("d", &["c/d"], 100),
    ];
    let names = strings(&["a", "b", "c", "d"]);
    // a-b: 1 edge (Medium); b-c: 0 edges, both depend on d? no; c-d: 4 edges (High).
    let edges = vec![(0, 1), (2, 3), (3, 2), (2, 3), (3, 2)];
    let tiles = generate_overlap_tiles(&comps, &names, &edges, &config);
    assert_eq!(tiles.len(), 3);
    assert_eq!(tiles[0].label, "c <> d");
    assert_eq!(tiles[0].priority, OverlapPriority::High);
    assert_eq!(tiles[0].dependency_edges, 4);
    assert_eq!(tiles[1].label, "a <> b");
    assert_eq!(tiles[1].priority, OverlapPriority::Medium);
    assert_eq!(tiles[2].label, "b <> c");
    assert_eq!(tiles[2].priority, OverlapPriority::Skip);
    assert_eq!(tiles[2].paths, strings(&["c/b", "c/c"]));
}

#[test]
fn overlap_tiles_low_priority_for_shared_dependency() {
    let config = LayoutConfig::default();
    let comps = vec![comp("a", &["c/a"], 1), comp("b", &["c/b"], 1), comp("c", &["c/c"], 1)];
    let names = strings(&["a", "b", "c"]);
    // a -> c and b -> c: a and b both depend on c.
    let edges = vec![(0, 2), (1, 2)];
    let tiles = generate_overlap_tiles(&comps, &names, &edges, &config);
    // a<>b (Low, indirect), b<>c (Medium, 1 edge); a<>c has 1 edge < 3: no tile.
    assert_eq!(tiles.len(), 2);
    assert_eq!(tiles[0].label, "b <> c");
    assert_eq!(tiles[0].priority, OverlapPriority::Medium);
    assert_eq!(tiles[1].label, "a <> b");
    assert_eq!(tiles[1].priority, OverlapPriority::Low);
}

#[test]
fn overlap_tiles_ignore_unknown_crates_and_inner_edges() {
    let config = LayoutConfig::default();
    let comps = vec![comp("a", &["c/a1", "c/a2"], 1), comp("b", &["c/b"], 1)];
    let names = strings(&["a1", "a2", "b", "ghost"]);
    let edges = vec![(0, 1), (3, 2), (2, 3)];
    let tiles = generate_overlap_tiles(&comps, &names, &edges, &config);
    assert_eq!(tiles.len(), 1);
    assert_eq!(tiles[0].dependency_edges, 0);
    assert_eq!(tiles[0].priority, OverlapPriority::Skip);
}

#[test]
fn non_adjacent_threshold_zero_needs_an_edge() {
    let mut config = LayoutConfig::default();
    config.non_adjacent_edge_threshold = 0;
    let comps = vec![comp("a", &["c/a"], 1), comp("b", &["c/b"], 1), comp("c", &["c/c"], 1)];
    let names = strings(&["a", "b", "c"]);
    let tiles = generate_overlap_tiles(&comps, &names, &[], &config);
    assert_eq!(tiles.len(), 2);
    let tiles = generate_overlap_tiles(&comps, &names, &[(0, 2)], &config);
    assert_eq!(tiles.len(), 3);
    assert_eq!(tiles[0].label, "a <> c");
}

#[test]
fn connectivity_merges_heaviest_pair_first() {
    // a-b joined by 2 edges, b-c by 1: target 2 tiles => a and b merge.
    let crates = vec![krate("p/a", "a", 10), krate("p/b", "b", 10), krate("p/c", "c", 10)];
    let edges = vec![(0, 1), (1, 0), (1, 2)];
    let tiles = connectivity_tiles(crates, &edges, 20);
    assert_eq!(tiles.len(), 2);
    assert_eq!(tiles[0].label, "a + b");
    assert_eq!(tiles[0].paths, strings(&["p/a", "p/b"]));
    assert_eq!(tiles[0].estimated_loc, 20);
    assert_eq!(tiles[1].label, "c");
}

#[test]
fn connectivity_orders_equal_tiles_by_first_crate() {
    let crates = vec![krate("p/x", "x", 5), krate("p/y", "y", 5), krate("p/z", "z", 7)];
    let tiles = connectivity_tiles(crates, &[], 1);
    assert_eq!(tiles.len(), 3);
    assert_eq!(tiles[0].label, "z");
    assert_eq!(tiles[1].label, "x");
    assert_eq!(tiles[2].label, "y");
}

#[test]
fn connectivity_chain_merges_to_one() {
    let crates: Vec<CrateInfo> = (0..6).map(|i| krate(&format!("p/c{i}"), &format!("c{i}"), 1)).collect();
    let edges = vec![(0, 1), (1, 2), (2, 3), (3, 4), (4, 5)];
    let tiles = connectivity_tiles(crates, &edges, 100);
    assert_eq!(tiles.len(), 1);
    assert_eq!(tiles[0].label, "c0 + c1 + c2 + c3 + c4 + c5");
    assert_eq!(tiles[0].estimated_loc, 6);
}

#[test]
fn connectivity_zero_loc_targets_one_tile() {
    let crates = vec![krate("p/a", "a", 0), krate("p/b", "b", 0)];
    let tiles = connectivity_tiles(crates, &[(0, 1)], 10);
    assert_eq!(tiles.len(), 1);
}

#[test]
fn dry_tiles_need_two_crates() {
    let config = LayoutConfig::default();
    assert!(dry_tiles_from_crates(vec![krate("p/a", "a", 10)], &[], &config).is_empty());
    let tiles = dry_tiles_from_crates(vec![krate("p/a", "a", 10), krate("p/b", "b", 10)], &[(0, 1)], &config);
    assert_eq!(tiles.len(), 1);
    assert_eq!(tiles[0].estimated_loc, 20);
}

#[test]
fn batch_treats_equal_paths_as_shared() {
    let tiles = [comp("a", &["crates/a/"], 1), comp("b", &["crates/a"], 1)];
    let batches = batch_by_disjointness(&tiles);
    assert_eq!(batches.len(), 2);
}

#[test]
fn batch_first_fit_fills_earlier_batches() {
    let tiles = [
        comp("ab", &["a", "b"], 1),
        comp("bc", &["b", "c"], 1),
        comp("cd", &["c", "d"], 1),
        comp("e", &["e"], 1),
    ];
    let batches = batch_by_disjointness(&tiles);
    assert_eq!(batches.len(), 2);
    let labels: Vec<Vec<&str>> = batches
        .iter()
        .map(|b| b.iter().map(|c| c.label.as_str()).collect())
        .collect();
    assert_eq!(labels, vec![vec!["ab", "cd", "e"], vec!["bc"]]);
}

#[test]
fn dep_edges_no_deps() {
    let crates = vec![krate("crates/alpha", "alpha", 2000), krate("crates/beta", "beta", 2000)];
    let deps: Vec<Vec<String>> = vec![vec![], vec![]];
    assert!(workspace_dep_edges(&crates, &deps).is_empty());
}

#[test]
fn dep_edges_mutual_and_sorted() {
    let crates = vec![krate("crates/alpha", "alpha", 2000), krate("crates/beta", "beta", 2000)];
    let deps = vec![strings(&["beta"]), strings(&["alpha", "serde"])];
    assert_eq!(workspace_dep_edges(&crates, &deps), vec![(0, 1), (1, 0)]);
}

#[test]
fn dep_edges_deduplicated_and_no_self_edges() {
    let crates = vec![krate("crates/app", "app", 2000), krate("crates/core", "core", 5000)];
    let deps = vec![strings(&["core", "app", "core"]), vec![]];
    assert_eq!(workspace_dep_edges(&crates, &deps), vec![(0, 1)]);
}

#[test]
fn dep_edges_name_shared_by_two_crates_picks_last() {
    let crates = vec![krate("x/dup", "dup", 1), krate("y/user", "user", 1), krate("z/dup", "dup", 1)];
    let deps = vec![vec![], strings(&["dup"]), vec![]];
    assert_eq!(workspace_dep_edges(&crates, &deps), vec![(1, 2)]);
}

#[test]
fn resolve_orders_by_loc_and_names_by_directory() {
    let crates = resolve_crate_infos(
        strings(&["crates/small", "crates/big", "crates/mid", "crates/also-big"]),
        vec![10, 500, 100, 500],
    );
    let got: Vec<(&str, &str, usize)> = crates.iter().map(|c| (c.path.as_str(), c.name.as_str(), c.loc)).collect();
    assert_eq!(
        got,
        vec![
            ("crates/big", "big", 500),
            ("crates/also-big", "also-big", 500),
            ("crates/mid", "mid", 100),
            ("crates/small", "small", 10),
        ]
    );
}

#[test]
fn resolve_names_unknown_without_final_component() {
    let crates = resolve_crate_infos(strings(&["crates/.."]), vec![1]);
    assert_eq!(crates[0].name, "unknown");
}

#[test]
fn count_lines_like_str_lines() {
    assert_eq!(count_lines(""), 0);
    assert_eq!(count_lines("a"), 1);
    assert_eq!(count_lines("a\n"), 1);
    assert_eq!(count_lines("a\nb"), 2);
    assert_eq!(count_lines("a\r\nb\n"), 2);
    assert_eq!(count_lines("\n\n"), 2);
    for text in ["x\ny\n\nz", "// line 0\n// line 1\n", "é\nü"] {
        assert_eq!(count_lines(text), text.lines().count());
    }
}

#[test]
fn glob_prefix_of_member_patterns() {
    assert_eq!(member_glob_prefix("crates/*"), Some("crates".to_string()));
    assert_eq!(member_glob_prefix("crates/my-crate"), None);
    assert_eq!(member_glob_prefix("*"), None);
    assert_eq!(member_glob_prefix("a/b/*"), Some("a/b".to_string()));
}

#[test]
fn source_and_output_paths() {
    assert!(is_rust_source(&"src/lib.rs".to_string()));
    assert!(!is_rust_source(&"README.md".to_string()));
    assert!(!is_rust_source(&"rs".to_string()));
    assert!(is_build_output_dir(&"proj/target".to_string()));
    assert!(!is_build_output_dir(&"proj/targets".to_string()));
}

fn sample_crates() -> Vec<CrateInfo> {
    vec![
        krate("crates/big-a", "big-a", 10000),
        krate("crates/big-b", "big-b", 5000),
        krate("crates/small-c", "small-c", 500),
        krate("crates/small-d", "small-d", 400),
        krate("crates/small-e", "small-e", 300),
    ]
}

#[test]
fn layout_below_threshold_is_whole() {
    let config = LayoutConfig::default();
    let crates: Vec<CrateInfo> = (0..4).map(|i| krate(&format!("crates/crate-{i}"), &format!("crate-{i}"), 1000)).collect();
    assert!(is_whole(&crates, &config));
    assert!(matches!(layout_from_crates(crates, &[], &config), ProjectLayout::Whole));
}

#[test]
fn layout_few_members_is_whole() {
    let config = LayoutConfig::default();
    let crates: Vec<CrateInfo> = (0..3).map(|i| krate(&format!("crates/crate-{i}"), &format!("crate-{i}"), 10000)).collect();
    assert!(is_whole(&crates, &config));
    assert!(matches!(layout_from_crates(crates, &[], &config), ProjectLayout::Whole));
}

#[test]
fn layout_compartmentalizes_large_workspace() {
    let config = LayoutConfig::default();
    let crates = sample_crates();
    assert!(!is_whole(&crates, &config));
    // big-b depends on big-a
    match layout_from_crates(crates, &[(1, 0)], &config) {
        ProjectLayout::Compartmentalized {
            compartments,
            overlap_tiles,
            connectome,
            total_loc,
        } => {
            assert_eq!(total_loc, 16200);
            assert_eq!(compartments.len(), 3);
            assert_eq!(compartments[0].label, "big-a");
            assert_eq!(compartments[1].label, "big-b");
            assert_eq!(compartments[2].label, "small-c + small-d + small-e");
            assert_eq!(compartments.iter().map(|c| c.estimated_loc).sum::<usize>(), total_loc);
            assert_eq!(overlap_tiles.len(), 2);
            assert_eq!(overlap_tiles[0].label, "big-a <> big-b");
            assert_eq!(overlap_tiles[0].priority, OverlapPriority::Medium);
            assert_eq!(overlap_tiles[0].dependency_edges, 1);
            assert_eq!(connectome.len(), 1);
            assert_eq!(connectome[0].from, "big-b");
            assert_eq!(connectome[0].to, "big-a");
        }
        ProjectLayout::Whole => panic!("expected Compartmentalized"),
    }
}

#[test]
fn layout_connectome_names_edges() {
    let config = LayoutConfig::default();
    let crates = vec![
        krate("crates/core", "core", 10000),
        krate("crates/cli", "cli", 5000),
        krate("crates/mcp", "mcp", 3000),
        krate("crates/extra", "extra", 2000),
    ];
    let deps = vec![vec![], strings(&["core"]), strings(&["core"]), vec![]];
    let edges = workspace_dep_edges(&crates, &deps);
    match layout_from_crates(crates, &edges, &config) {
        ProjectLayout::Compartmentalized { connectome, .. } => {
            assert!(connectome.iter().any(|e| e.from == "cli" && e.to == "core"));
            assert!(connectome.iter().any(|e| e.from == "mcp" && e.to == "core"));
        }
        ProjectLayout::Whole => panic!("expected Compartmentalized"),
    }
}

#[test]
fn compartment_idx_matches_label() {
    let comps = vec![comp("core", &["crates/core-lib"], 1000)];
    assert_eq!(crate_compartment_idx("core", &comps), Some(0));
    assert_eq!(crate_compartment_idx("core-lib", &comps), Some(0));
}

#[test]
fn label_match_counts_edges_for_overlap_tiles() {
    let config = LayoutConfig::default();
    let comps = vec![comp("core", &["crates/core-lib"], 10), comp("cli", &["crates/cli"], 10)];
    let names = strings(&["core", "cli"]);
    let tiles = generate_overlap_tiles(&comps, &names, &[(1, 0)], &config);
    assert_eq!(tiles[0].dependency_edges, 1);
    assert_eq!(tiles[0].priority, OverlapPriority::Medium);
}

#[test]
fn member_paths_sort_by_components() {
    let sorted = sort_member_paths(strings(&["crates/beta", "crates/alpha-2", "crates/alpha"]));
    assert_eq!(sorted, strings(&["crates/alpha", "crates/alpha-2", "crates/beta"]));
    // Component order, not text order: "a" < "a-b", though '/' > '-'.
    assert_eq!(sort_member_paths(strings(&["a-b", "a/b"])), strings(&["a/b", "a-b"]));
    assert!(sort_member_paths(vec![]).is_empty());
}

#[test]
fn member_paths_that_compare_equal_keep_their_order() {
    // "x/b" and "x//b" have the same components, so they compare equal.
    assert_eq!(
        sort_member_paths(strings(&["x/b", "x//b", "x/a"])),
        strings(&["x/a", "x/b", "x//b"])
    );
    assert_eq!(
        sort_member_paths(strings(&["x//b", "x/b", "x/a"])),
        strings(&["x/a", "x//b", "x/b"])
    );
}

#[test]
fn hidden_file_has_no_extension() {
    assert!(!is_rust_source(&".rs".to_string()));
    assert!(is_rust_source(&"x/.hidden.rs".to_string()));
    assert!(!is_rust_source(&"x/lib.rs.bak".to_string()));
}
