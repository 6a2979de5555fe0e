use vstd::prelude::*;

verus! {

/// A logical subunit of a project for compartmentalized analysis.
///
/// Large projects are split into compartments so that each analysis pass
/// operates on a bounded slice of the source tree.
#[derive(Debug, Clone)]
pub struct Compartment {
    /// Human-readable label (e.g. `"yh-core"`, `"yh-cli + yh-mcp"`).
    pub label: String,
    /// Relative paths from project root to the directories this compartment covers.
    pub paths: Vec<String>,
    /// Estimated lines of source code.
    pub estimated_loc: usize,
}

/// The mathematical value of a [`Compartment`].
pub struct CompartmentView {
    pub label: Seq<char>,
    pub paths: Seq<Seq<char>>,
    pub estimated_loc: int,
}

/// The views of a sequence of strings.
pub open spec fn strings_view(s: Seq<String>) -> Seq<Seq<char>> {
    s.map_values(|x: String| x@)
}

impl View for Compartment {
    type V = CompartmentView;

    open spec fn view(&self) -> CompartmentView {
        CompartmentView {
            label: self.label@,
            paths: strings_view(self.paths@),
            estimated_loc: self.estimated_loc as int,
        }
    }
}

/// The views of a sequence of compartments.
pub open spec fn compartments_view(s: Seq<Compartment>) -> Seq<CompartmentView> {
    s.map_values(|c: Compartment| c@)
}

/// Priority classification for overlap tile scheduling.
#[derive(Debug, Clone, Copy, PartialEq, Eq, Structural, PartialOrd, Ord)]
pub enum OverlapPriority {
    /// No dependency edges and no indirect coupling — skip by default.
    Skip,
    /// Indirect coupling only (shared transitive workspace deps).
    Low,
    /// 1–2 direct dependency edges between compartments.
    Medium,
    /// 3+ direct dependency edges — strong coupling, analyze first.
    High,
}

/// The position of a priority in the order `Skip < Low < Medium < High`.
pub open spec fn priority_rank(p: OverlapPriority) -> int {
    match p {
        OverlapPriority::Skip => 0,
        OverlapPriority::Low => 1,
        OverlapPriority::Medium => 2,
        OverlapPriority::High => 3,
    }
}

/// Executable [`priority_rank`].
pub fn priority_rank_of(p: OverlapPriority) -> (r: u8)
    ensures
        r as int == priority_rank(p),
{
    match p {
        OverlapPriority::Skip => 0,
        OverlapPriority::Low => 1,
        OverlapPriority::Medium => 2,
        OverlapPriority::High => 3,
    }
}

/// Cross-boundary analysis tile spanning two compartments.
///
/// Overlap tiles are read-only analysis units: they produce findings
/// but never modify code directly.
#[derive(Debug, Clone)]
pub struct OverlapTile {
    /// Human-readable label (e.g. `"yh-core <> yh-cli"`).
    pub label: String,
    /// Index of the left compartment in the `compartments` vec.
    pub left_idx: usize,
    /// Index of the right compartment in the `compartments` vec.
    pub right_idx: usize,
    /// Union of both compartments' relative paths.
    pub paths: Vec<String>,
    /// Combined estimated LOC.
    pub estimated_loc: usize,
    /// Number of direct dependency edges crossing this boundary.
    pub dependency_edges: usize,
    /// Scheduling priority derived from coupling strength.
    pub priority: OverlapPriority,
}

/// The mathematical value of an [`OverlapTile`].
pub struct OverlapTileView {
    pub label: Seq<char>,
    pub left_idx: int,
    pub right_idx: int,
    pub paths: Seq<Seq<char>>,
    pub estimated_loc: int,
    pub dependency_edges: int,
    pub priority: OverlapPriority,
}

impl View for OverlapTile {
    type V = OverlapTileView;

    open spec fn view(&self) -> OverlapTileView {
        OverlapTileView {
            label: self.label@,
            left_idx: self.left_idx as int,
            right_idx: self.right_idx as int,
            paths: strings_view(self.paths@),
            estimated_loc: self.estimated_loc as int,
            dependency_edges: self.dependency_edges as int,
            priority: self.priority,
        }
    }
}

/// The views of a sequence of overlap tiles.
pub open spec fn tiles_view(s: Seq<OverlapTile>) -> Seq<OverlapTileView> {
    s.map_values(|t: OverlapTile| t@)
}

/// A directed dependency edge between two crates: `from` depends on `to`.
/// Names are crate directory names (e.g. `"yh-core"`, `"yh-cli"`).
#[derive(Debug, Clone)]
pub struct ConnectomeEdge {
    pub from: String,
    pub to: String,
}

/// Result of analyzing a project's structure for compartmentalization.
#[derive(Debug, Clone)]
pub enum ProjectLayout {
    /// Project is small enough to handle as a single unit.
    Whole,
    /// Project should be split into compartments for analysis.
    Compartmentalized {
        compartments: Vec<Compartment>,
        /// Overlap tiles for cross-boundary analysis (empty if at most one compartment).
        overlap_tiles: Vec<OverlapTile>,
        /// Workspace dependency graph (crate-level directed edges).
        connectome: Vec<ConnectomeEdge>,
        /// Total estimated LOC across all compartments.
        total_loc: usize,
    },
}

} // verus!
