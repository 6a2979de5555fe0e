use std::collections::HashSet;

use cargo_crosscut::batch_by_disjointness;
use cargo_crosscut::compartments::group_into_compartments;
use cargo_crosscut::connectivity_tiles;
use cargo_crosscut::overlap::exceeds_overlap_loc_ceiling;
use cargo_crosscut::{
    compute_priority, crate_compartment_idx, generate_overlap_tiles, Compartment, CrateInfo,
    LayoutConfig, OverlapPriority, OverlapTile,
};

fn make_compartment(label: &str, paths: &[&str], loc: usize) -> Compartment {
    Compartment {
        label: label.to_string(),
        paths: paths.iter().map(|p| p.to_string()).collect(),
        estimated_loc: loc,
    }
}

fn crate_info(path: &str, name: &str, loc: usize) -> CrateInfo {
    CrateInfo {
        path: path.to_string(),
        name: name.to_string(),
        loc,
    }
}

#[test]
fn grouping_respects_ceiling() {
    let config = LayoutConfig::default();
    // Build crates that individually are small but exceed group_loc_ceiling together
    let crates: Vec<CrateInfo> = (0..10)
        .map(|i| crate_info(&format!("crates/tiny-{i}"), &format!("tiny-{i}"), 800))
        .collect();

    let compartments = group_into_compartments(crates, &config);
    // 10 * 800 = 8000 LOC, ceiling = 5000: at least 2 groups.
    assert!(compartments.len() >= 2);
    for c in &compartments {
        assert!(c.estimated_loc <= config.group_loc_ceiling + config.small_crate_loc);
    }
}

#[test]
fn no_overlap_tiles_for_single_compartment() {
    let config = LayoutConfig::default();
    let compartments = vec![make_compartment("core", &["crates/core"], 10000)];
    let tiles = generate_overlap_tiles(&compartments, &[], &[], &config);
    assert!(tiles.is_empty());
}

#[test]
fn adjacent_tiles_generated_for_two_compartments() {
    let config = LayoutConfig::default();
    let compartments = vec![
        make_compartment("core", &["crates/core"], 8000),
        make_compartment("cli", &["crates/cli"], 3000),
    ];
    let crate_names = vec!["core".to_string(), "cli".to_string()];
    // cli depends on core
    let dep_edges = vec![(1, 0)];

    let tiles = generate_overlap_tiles(&compartments, &crate_names, &dep_edges, &config);
    assert_eq!(tiles.len(), 1);
    assert_eq!(tiles[0].label, "core <> cli");
    assert_eq!(tiles[0].left_idx, 0);
    assert_eq!(tiles[0].right_idx, 1);
    assert_eq!(tiles[0].dependency_edges, 1);
    assert_eq!(tiles[0].priority, OverlapPriority::Medium);
    assert_eq!(tiles[0].estimated_loc, 11000);
    assert_eq!(tiles[0].paths.len(), 2);
}

#[test]
fn priority_scoring_by_edge_count() {
    let config = LayoutConfig::default();
    let compartments = vec![
        make_compartment("a", &["crates/a"], 5000),
        make_compartment("b", &["crates/b"], 5000),
    ];
    let crate_names = vec!["a".to_string(), "b".to_string()];

    // 0 edges -> Skip
    let tiles = generate_overlap_tiles(&compartments, &crate_names, &[], &config);
    assert_eq!(tiles[0].priority, OverlapPriority::Skip);

    // 1 edge -> Medium
    let tiles = generate_overlap_tiles(&compartments, &crate_names, &[(0, 1)], &config);
    assert_eq!(tiles[0].priority, OverlapPriority::Medium);

    // 2 edges -> Medium
    let tiles = generate_overlap_tiles(&compartments, &crate_names, &[(0, 1), (1, 0)], &config);
    assert_eq!(tiles[0].priority, OverlapPriority::Medium);

    // 3 edges -> High (need a multi-crate compartment to get 3 edges)
    let compartments = vec![
        make_compartment("left", &["crates/a1", "crates/a2"], 5000),
        make_compartment("right", &["crates/b1", "crates/b2"], 5000),
    ];
    let crate_names = vec![
        "a1".to_string(),
        "a2".to_string(),
        "b1".to_string(),
        "b2".to_string(),
    ];
    let dep_edges = vec![(2, 0), (2, 1), (3, 0)]; // 3 cross-boundary edges
    let tiles = generate_overlap_tiles(&compartments, &crate_names, &dep_edges, &config);
    assert_eq!(tiles[0].priority, OverlapPriority::High);
    assert_eq!(tiles[0].dependency_edges, 3);
}

#[test]
fn three_compartments_produce_two_adjacent_tiles() {
    let config = LayoutConfig::default();
    let compartments = vec![
        make_compartment("a", &["crates/a"], 6000),
        make_compartment("b", &["crates/b"], 5000),
        make_compartment("c", &["crates/c"], 5000),
    ];
    let crate_names = vec!["a".to_string(), "b".to_string(), "c".to_string()];
    let dep_edges = vec![(1, 0), (2, 1)]; // b->a, c->b

    let tiles = generate_overlap_tiles(&compartments, &crate_names, &dep_edges, &config);
    assert_eq!(tiles.len(), 2);
    // Both are Medium (1 edge each): a<>b first, b<>c second
    assert_eq!(tiles[0].label, "a <> b");
    assert_eq!(tiles[1].label, "b <> c");
}

#[test]
fn non_adjacent_strongly_coupled_gets_tile() {
    let config = LayoutConfig::default();
    let compartments = vec![
        make_compartment("a", &["crates/a1", "crates/a2"], 5000),
        make_compartment("b", &["crates/b"], 5000),
        make_compartment("c", &["crates/c1", "crates/c2"], 5000),
    ];
    let crate_names = vec![
        "a1".to_string(),
        "a2".to_string(),
        "b".to_string(),
        "c1".to_string(),
        "c2".to_string(),
    ];
    // a1->c1, a2->c1, a1->c2 = 3 edges between compartments 0 and 2 (non-adjacent)
    let dep_edges = vec![(0, 3), (1, 3), (0, 4)];

    let tiles = generate_overlap_tiles(&compartments, &crate_names, &dep_edges, &config);
    // a<>b, b<>c (adjacent, 0 edges) plus a<>c (non-adjacent, 3 edges, High)
    assert_eq!(tiles.len(), 3);
    assert_eq!(tiles[0].priority, OverlapPriority::High);
    assert_eq!(tiles[0].label, "a <> c");
    assert_eq!(tiles[0].dependency_edges, 3);
}

#[test]
fn overlap_tile_loc_ceiling() {
    let tile = OverlapTile {
        label: "test".into(),
        left_idx: 0,
        right_idx: 1,
        paths: vec![],
        estimated_loc: 20_000,
        dependency_edges: 0,
        priority: OverlapPriority::Skip,
    };
    assert!(!exceeds_overlap_loc_ceiling(&tile));

    let large_tile = OverlapTile {
        estimated_loc: 20_001,
        ..tile
    };
    assert!(exceeds_overlap_loc_ceiling(&large_tile));
}

#[test]
fn crate_compartment_idx_finds_by_name() {
    let compartments = vec![
        make_compartment("core", &["crates/core"], 8000),
        make_compartment("cli + mcp", &["crates/cli", "crates/mcp"], 3000),
    ];

    assert_eq!(crate_compartment_idx("core", &compartments), Some(0));
    assert_eq!(crate_compartment_idx("cli", &compartments), Some(1));
    assert_eq!(crate_compartment_idx("mcp", &compartments), Some(1));
}

#[test]
fn crate_compartment_idx_not_found() {
    let compartments = vec![make_compartment("core", &["crates/core"], 8000)];
    assert_eq!(crate_compartment_idx("nonexistent", &compartments), None);
}

#[test]
fn crate_compartment_idx_empty_compartments() {
    assert_eq!(crate_compartment_idx("anything", &[]), None);
}

#[test]
fn generate_overlap_tiles_empty_compartments() {
    let config = LayoutConfig::default();
    let tiles = generate_overlap_tiles(&[], &[], &[], &config);
    assert!(tiles.is_empty());
}

#[test]
fn compute_priority_zero_edges_no_indirect() {
    let comp_deps = vec![HashSet::new(), HashSet::new()];
    assert_eq!(compute_priority(0, 0, 1, &comp_deps), OverlapPriority::Skip);
}

#[test]
fn compute_priority_zero_edges_with_indirect() {
    // Both compartments 0 and 1 depend on compartment 2
    let mut deps0 = HashSet::new();
    deps0.insert(2usize);
    let mut deps1 = HashSet::new();
    deps1.insert(2usize);
    let comp_deps = vec![deps0, deps1, HashSet::new()];
    assert_eq!(compute_priority(0, 0, 1, &comp_deps), OverlapPriority::Low);
}

#[test]
fn compute_priority_one_edge() {
    let comp_deps = vec![HashSet::new(), HashSet::new()];
    assert_eq!(compute_priority(1, 0, 1, &comp_deps), OverlapPriority::Medium);
}

#[test]
fn compute_priority_two_edges() {
    let comp_deps = vec![HashSet::new(), HashSet::new()];
    assert_eq!(compute_priority(2, 0, 1, &comp_deps), OverlapPriority::Medium);
}

#[test]
fn compute_priority_three_edges() {
    let comp_deps = vec![HashSet::new(), HashSet::new()];
    assert_eq!(compute_priority(3, 0, 1, &comp_deps), OverlapPriority::High);
}

#[test]
fn compute_priority_many_edges() {
    let comp_deps = vec![HashSet::new(), HashSet::new()];
    assert_eq!(compute_priority(10, 0, 1, &comp_deps), OverlapPriority::High);
}

fn ceiling_tile(loc: usize) -> OverlapTile {
    OverlapTile {
        label: "test".into(),
        left_idx: 0,
        right_idx: 1,
        paths: vec![],
        estimated_loc: loc,
        dependency_edges: 0,
        priority: OverlapPriority::Skip,
    }
}

#[test]
fn exceeds_overlap_loc_ceiling_below() {
    assert!(!exceeds_overlap_loc_ceiling(&ceiling_tile(19_999)));
}

#[test]
fn exceeds_overlap_loc_ceiling_at_boundary() {
    assert!(!exceeds_overlap_loc_ceiling(&ceiling_tile(20_000)));
}

#[test]
fn exceeds_overlap_loc_ceiling_one_above() {
    assert!(exceeds_overlap_loc_ceiling(&ceiling_tile(20_001)));
}

#[test]
fn connectivity_tiles_empty() {
    let tiles = connectivity_tiles(vec![], &[], 30_000);
    assert!(tiles.is_empty());
}

#[test]
fn connectivity_tiles_single_crate() {
    let crates = vec![crate_info("crates/core", "core", 50_000)];
    let tiles = connectivity_tiles(crates, &[], 30_000);
    // Single crate -> single tile (can't split further).
    assert_eq!(tiles.len(), 1);
    assert_eq!(tiles[0].label, "core");
}

#[test]
fn connectivity_tiles_merges_connected_crates() {
    // core (40k), cli (3k), mcp (3k); cli->core, mcp->core.
    // Target: ceil(46k/30k) = 2 tiles.
    let crates = vec![
        crate_info("crates/core", "core", 40_000),
        crate_info("crates/cli", "cli", 3_000),
        crate_info("crates/mcp", "mcp", 3_000),
    ];
    let dep_edges = vec![(1, 0), (2, 0)];

    let tiles = connectivity_tiles(crates, &dep_edges, 30_000);
    assert_eq!(tiles.len(), 2);
    // Total LOC should be preserved.
    let total: usize = tiles.iter().map(|t| t.estimated_loc).sum();
    assert_eq!(total, 46_000);
}

#[test]
fn connectivity_tiles_disconnected_stay_separate() {
    // Two crates with no deps: can't merge.
    let crates = vec![
        crate_info("crates/a", "a", 20_000),
        crate_info("crates/b", "b", 20_000),
    ];
    let tiles = connectivity_tiles(crates, &[], 30_000);
    assert_eq!(tiles.len(), 2);
}

#[test]
fn connectivity_tiles_strongly_connected_merge_fully() {
    // Four crates all connected, target = 1 tile.
    let crates: Vec<CrateInfo> = (0..4)
        .map(|i| crate_info(&format!("crates/c{i}"), &format!("c{i}"), 5_000))
        .collect();
    let dep_edges = vec![
        (0, 1),
        (1, 0),
        (0, 2),
        (2, 0),
        (0, 3),
        (1, 2),
        (2, 3),
        (3, 1),
    ];
    // 20k total, target 30k -> ceil = 1 tile.
    let tiles = connectivity_tiles(crates, &dep_edges, 30_000);
    assert_eq!(tiles.len(), 1);
    assert_eq!(tiles[0].paths.len(), 4);
    assert_eq!(tiles[0].estimated_loc, 20_000);
}

#[test]
fn batch_disjoint_tiles() {
    let tiles = [
        make_compartment("a", &["crates/a"], 10_000),
        make_compartment("b", &["crates/b"], 10_000),
        make_compartment("c", &["crates/c"], 10_000),
    ];
    let batches = batch_by_disjointness(&tiles);
    // All disjoint -> single batch.
    assert_eq!(batches.len(), 1);
    assert_eq!(batches[0].len(), 3);
}

#[test]
fn batch_overlapping_tiles() {
    let tiles = [
        make_compartment("a+b", &["crates/a", "crates/b"], 15_000),
        make_compartment("b+c", &["crates/b", "crates/c"], 15_000),
        make_compartment("d", &["crates/d"], 5_000),
    ];
    let batches = batch_by_disjointness(&tiles);
    // a+b and b+c overlap on crates/b -> separate batches; d joins a+b.
    assert_eq!(batches.len(), 2);
    assert_eq!(batches[0].len(), 2);
    assert_eq!(batches[1].len(), 1);
}

#[test]
fn batch_empty_tiles() {
    let tiles: [Compartment; 0] = [];
    let batches = batch_by_disjointness(&tiles);
    assert!(batches.is_empty());
}
