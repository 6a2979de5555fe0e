//! Workspace layout analysis for Rust projects.
//!
//! Groups crates into compartments that fit within model context limits,
//! builds cross-boundary overlap tiles, and clusters crates by dependency
//! connectivity. Reading the file system is left to the caller: the
//! functions here compute on crate names, paths, line counts and edges.

pub mod batching;
pub mod compartments;
pub mod config;
pub mod connectivity;
pub mod layout;
pub mod overlap;
pub mod paths;
pub mod text;
pub mod types;
pub mod unionfind;
pub mod workspace;

pub use batching::batch_by_disjointness;
pub use config::LayoutConfig;
pub use connectivity::connectivity_tiles;
pub use overlap::{compute_priority, crate_compartment_idx, generate_overlap_tiles};
pub use layout::{is_whole, layout_from_crates};
pub use types::{Compartment, ConnectomeEdge, OverlapPriority, OverlapTile, ProjectLayout};
pub use workspace::{resolve_crate_infos, workspace_dep_edges};

use vstd::prelude::*;

verus! {

/// A workspace member with its estimated LOC.
#[derive(Debug, Clone)]
pub struct CrateInfo {
    /// Relative path from project root (e.g. `crates/yh-core`).
    pub path: String,
    /// Crate name derived from directory name.
    pub name: String,
    /// Lines of `.rs` source code.
    pub loc: usize,
}

} // verus!
