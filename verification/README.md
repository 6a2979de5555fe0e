# cargo_crosscut

Workspace layout analysis for Rust projects, verified with Verus.

Large workspaces are split into bounded analysis units:

- **Compartments**: crates grouped into LOC-bounded partitions; large crates
  stand alone, small ones are grouped up to a ceiling.
- **Overlap tiles**: cross-boundary units between adjacent compartments, and
  between strongly coupled non-adjacent ones, ordered by priority.
- **Connectivity tiles**: agglomerative clustering of crates along their
  dependency edges (union-find with path halving and union by rank).
- **Batches**: tiles partitioned so that tiles in one batch touch disjoint paths.

## Layout

- `src/` is the verified library. Each public function states its result
  in its `ensures`; where a choice is left open (which of two equally
  heavy pairs merges first, which crate stands for a merged cluster),
  the contract says what holds for every choice. Laws that span
  functions are public proof functions (`lemma_*`). Path questions
  (final component, extension, equality and order of paths) go to
  `std::path::Path` through the wrappers in `src/paths.rs`, whose
  contracts are trusted.
- `app/` is the command-line program: it reads `Cargo.toml` files and
  source trees, hands plain values to the library, and prints text or JSON.
- `tests/` exercises the library on concrete workspaces.
