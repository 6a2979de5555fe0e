//! Batching compartments that touch disjoint paths.
use vstd::prelude::*;

use crate::paths::{path_eq, same_path};
use crate::types::{compartments_view, strings_view, Compartment, CompartmentView};

verus! {

/// Some path of `a` and some path of `b` name the same location.
pub open spec fn paths_overlap(a: Seq<Seq<char>>, b: Seq<Seq<char>>) -> bool {
    exists|x: int, y: int| 0 <= x < a.len() && 0 <= y < b.len() && #[trigger] path_eq(a[x], b[y])
}

/// Tile `t` shares a path with some tile of `batch` (a list of tile indices).
pub open spec fn batch_conflicts(tiles: Seq<CompartmentView>, batch: Seq<int>, t: int) -> bool {
    exists|k: int| 0 <= k < batch.len() && paths_overlap(tiles[#[trigger] batch[k]].paths, tiles[t].paths)
}

/// The first batch, from index `i` on, that tile `t` shares no path with
/// (`batches.len()` when there is none).
pub open spec fn first_free_batch(tiles: Seq<CompartmentView>, batches: Seq<Seq<int>>, t: int, i: int) -> int
    decreases batches.len() - i,
{
    if i >= batches.len() || i < 0 {
        batches.len() as int
    } else if !batch_conflicts(tiles, batches[i], t) {
        i
    } else {
        first_free_batch(tiles, batches, t, i + 1)
    }
}

/// The batches, as lists of tile indices, after placing the first `k` tiles:
/// each tile joins the first batch it shares no path with, or opens a new one.
pub open spec fn batch_fold(tiles: Seq<CompartmentView>, k: int) -> Seq<Seq<int>>
    decreases k,
{
    if k <= 0 {
        Seq::empty()
    } else {
        let b = batch_fold(tiles, k - 1);
        let i = first_free_batch(tiles, b, k - 1, 0);
        if i < b.len() {
            b.update(i, b[i].push(k - 1))
        } else {
            b.push(seq![k - 1])
        }
    }
}

/// The batches that `batch_by_disjointness` gives, as lists of tile indices.
pub open spec fn batching(tiles: Seq<CompartmentView>) -> Seq<Seq<int>> {
    batch_fold(tiles, tiles.len() as int)
}

/// The batch vectors hold, batch by batch, the tiles whose indices `bf` lists.
pub open spec fn batches_match(batches: Seq<Vec<&Compartment>>, bf: Seq<Seq<int>>, tv: Seq<CompartmentView>) -> bool {
    &&& batches.len() == bf.len()
    &&& forall|b: int| 0 <= b < batches.len() ==> (#[trigger] batches[b])@.len() == bf[b].len()
    &&& forall|b: int, x: int|
        0 <= b < batches.len() && 0 <= x < batches[b]@.len() ==> (#[trigger] batches[b]@[x])@ == tv[bf[b][x]]
}

/// Every index in `bf` is below `t`.
pub open spec fn indices_below(bf: Seq<Seq<int>>, t: int) -> bool {
    forall|b: int, x: int| 0 <= b < bf.len() && 0 <= x < bf[b].len() ==> 0 <= #[trigger] bf[b][x] < t
}

/// Whether some path of `tile` equals some path of a compartment of `batch`.
fn conflicts_with(batch: &Vec<&Compartment>, tile: &Compartment, Ghost(tiles): Ghost<Seq<CompartmentView>>, Ghost(idx): Ghost<Seq<int>>, Ghost(t): Ghost<int>) -> (r: bool)
    requires
        batch@.len() == idx.len(),
        0 <= t < tiles.len(),
        tiles[t] == tile@,
        forall|k: int| 0 <= k < idx.len() ==> 0 <= #[trigger] idx[k] < tiles.len() && tiles[idx[k]] == batch@[k]@,
    ensures
        r == batch_conflicts(tiles, idx, t),
{
    let nb = batch.len();
    for k in 0..nb
        invariant
            nb == batch@.len(),
            batch@.len() == idx.len(),
            0 <= t < tiles.len(),
            tiles[t] == tile@,
            forall|q: int| 0 <= q < idx.len() ==> 0 <= #[trigger] idx[q] < tiles.len() && tiles[idx[q]] == batch@[q]@,
            forall|q: int| 0 <= q < k ==> !paths_overlap(tiles[#[trigger] idx[q]].paths, tiles[t].paths),
    {
        let existing = batch[k];
        let ghost a = strings_view(existing.paths@);
        assert(batch@[k as int] == existing);
        let ghost b = strings_view(tile.paths@);
        proof {
            assert(tiles[idx[k as int]] == existing@);
        }
        let np = existing.paths.len();
        for x in 0..np
            invariant
                np == existing.paths@.len(),
                k < nb,
                nb == batch@.len(),
                batch@.len() == idx.len(),
                0 <= t < tiles.len(),
                tiles[t] == tile@,
                tiles[idx[k as int]] == existing@,
                forall|q: int| 0 <= q < idx.len() ==> 0 <= #[trigger] idx[q] < tiles.len() && tiles[idx[q]] == batch@[q]@,
                forall|q: int| 0 <= q < k ==> !paths_overlap(tiles[#[trigger] idx[q]].paths, tiles[t].paths),
                a == strings_view(existing.paths@),
                b == strings_view(tile.paths@),
                forall|x2: int, y2: int| 0 <= x2 < x && 0 <= y2 < b.len() ==> !#[trigger] path_eq(a[x2], b[y2]),
        {
            let nt = tile.paths.len();
            for y in 0..nt
                invariant
                    nt == tile.paths@.len(),
                    x < np,
                    tiles[t] == tile@,
                    tiles[idx[k as int]] == existing@,
                    0 <= t < tiles.len(),
                    0 <= idx[k as int] < tiles.len(),
                    k < nb,
                    nb == batch@.len(),
                    batch@.len() == idx.len(),
                    np == existing.paths@.len(),
                    a == strings_view(existing.paths@),
                    b == strings_view(tile.paths@),
                    forall|x2: int, y2: int| 0 <= x2 < x && 0 <= y2 < b.len() ==> !#[trigger] path_eq(a[x2], b[y2]),
                    forall|y2: int| 0 <= y2 < y ==> !#[trigger] path_eq(a[x as int], b[y2]),
            {
                if same_path(&existing.paths[x], &tile.paths[y]) {
                    proof {
                        assert(path_eq(a[x as int], b[y as int]));
                        assert(paths_overlap(tiles[idx[k as int]].paths, tiles[t].paths));
                        assert(batch_conflicts(tiles, idx, t));
                    }
                    return true;
                }
            }
        }
        proof {
            assert(a == tiles[idx[k as int]].paths);
            assert(b == tiles[t].paths);
        }
    }
    false
}

/// Partition tiles into batches where tiles within a batch have disjoint file
/// paths and can safely run in parallel.
///
/// Each tile goes into the first batch where no tile shares a path with it,
/// or into a new batch at the end.
pub fn batch_by_disjointness(tiles: &[Compartment]) -> (batches: Vec<Vec<&Compartment>>)
    ensures
        batches@.len() == batching(compartments_view(tiles@)).len(),
        forall|b: int|
            0 <= b < batches@.len() ==> (#[trigger] batches@[b])@.len() == batching(compartments_view(tiles@))[b].len(),
        forall|b: int, x: int|
            0 <= b < batches@.len() && 0 <= x < batches@[b]@.len() ==> (#[trigger] batches@[b]@[x])@
                == compartments_view(tiles@)[batching(compartments_view(tiles@))[b][x]],
{
    let ghost tv = compartments_view(tiles@);
    let mut batches: Vec<Vec<&Compartment>> = Vec::new();
    let n = tiles.len();
    for t in 0..n
        invariant
            n == tiles@.len(),
            tv == compartments_view(tiles@),
            batches_match(batches@, batch_fold(tv, t as int), tv),
            indices_below(batch_fold(tv, t as int), t as int),
    {
        let tile = &tiles[t];
        let ghost bf = batch_fold(tv, t as int);
        assert(tv[t as int] == tiles@[t as int]@);
        // Find the first batch where no existing tile shares a path.
        let nb = batches.len();
        let mut slot = nb;
        let mut i: usize = 0;
        while i < nb && slot == nb
            invariant
                nb == batches@.len(),
                i <= nb,
                slot == nb || slot < i,
                slot == nb ==> first_free_batch(tv, bf, t as int, 0) == first_free_batch(tv, bf, t as int, i as int),
                slot < nb ==> first_free_batch(tv, bf, t as int, 0) == slot,
                bf == batch_fold(tv, t as int),
                tv[t as int] == tile@,
                batches_match(batches@, bf, tv),
                indices_below(bf, t as int),
                t < n,
                n == tiles@.len(),
                tv == compartments_view(tiles@),
            decreases nb - i,
        {
            proof {
                assert forall|k: int| 0 <= k < bf[i as int].len() implies 0 <= #[trigger] bf[i as int][k] < tv.len()
                    && tv[bf[i as int][k]] == batches@[i as int]@[k]@ by {
                    assert(batches@[i as int]@[k]@ == tv[bf[i as int][k]]);
                    assert(0 <= bf[i as int][k] < t);
                }
                assert(tv[t as int] == tile@);
            }
            if !conflicts_with(&batches[i], tile, Ghost(tv), Ghost(bf[i as int]), Ghost(t as int)) {
                slot = i;
            }
            i = i + 1;
        }
        let ghost pre = batches@;
        if slot < nb {
            batches[slot].push(tile);
            assert(batches@[slot as int]@ == pre[slot as int]@.push(tile));
            assert(batches@.len() == pre.len());
            assert(forall|b: int| 0 <= b < pre.len() && b != slot ==> batches@[b] == pre[b]);
        } else {
            let fresh = vec![tile];
            batches.push(fresh);
            assert(batches@ == pre.push(fresh));
        }
        proof {
            assert(batch_fold(tv, t + 1) == if slot < nb { bf.update(slot as int, bf[slot as int].push(t as int)) } else { bf.push(seq![t as int]) });
            let nf = batch_fold(tv, t + 1);
            assert forall|b: int| 0 <= b < batches@.len() implies (#[trigger] batches@[b])@.len() == nf[b].len() by {
                if b != slot {
                    assert(batches@[b] == pre[b]);
                }
            }
            assert forall|b: int, x: int|
                0 <= b < batches@.len() && 0 <= x < batches@[b]@.len() implies (#[trigger] batches@[b]@[x])@ == tv[nf[b][x]] by {
                if b != slot {
                    assert(batches@[b] == pre[b]);
                } else if slot < nb {
                    if x < pre[b]@.len() {
                        assert(batches@[b]@[x] == pre[b]@[x]);
                    }
                }
            }
            assert forall|b: int, x: int| 0 <= b < nf.len() && 0 <= x < nf[b].len() implies 0 <= #[trigger] nf[b][x] < t + 1 by {
                if b != slot {
                    assert(nf[b] == bf[b]);
                } else if slot < nb {
                    if x < bf[b].len() {
                        assert(nf[b][x] == bf[b][x]);
                    }
                }
            }
            assert(batches_match(batches@, nf, tv));
            assert(indices_below(nf, t + 1));
        }
    }
    batches
}


/// Tiles placed in one batch share no path: each tile's paths differ from
/// those of every tile placed in that batch before it.
pub open spec fn batches_disjoint(tv: Seq<CompartmentView>, bf: Seq<Seq<int>>) -> bool {
    forall|b: int, x: int, y: int|
        0 <= b < bf.len() && 0 <= x < y < bf[b].len() ==> !paths_overlap(
            tv[#[trigger] bf[b][x]].paths,
            tv[#[trigger] bf[b][y]].paths,
        )
}

/// The batches hold each of the tiles `0..n` exactly once, each batch in tile order.
pub open spec fn batches_partition(bf: Seq<Seq<int>>, n: int) -> bool {
    &&& forall|b: int| 0 <= b < bf.len() ==> (#[trigger] bf[b]).len() > 0
    &&& forall|b: int, x: int| 0 <= b < bf.len() && 0 <= x < bf[b].len() ==> 0 <= #[trigger] bf[b][x] < n
    &&& forall|b: int, x: int, y: int| 0 <= b < bf.len() && 0 <= x < y < bf[b].len() ==> #[trigger] bf[b][x] < #[trigger] bf[b][y]
    &&& forall|t: int| 0 <= t < n ==> #[trigger] placed(bf, t)
    &&& forall|b1: int, x1: int, b2: int, x2: int|
        0 <= b1 < bf.len() && 0 <= x1 < bf[b1].len() && 0 <= b2 < bf.len() && 0 <= x2 < bf[b2].len()
            && #[trigger] bf[b1][x1] == #[trigger] bf[b2][x2] ==> b1 == b2 && x1 == x2
}

/// Tile `t` is in some batch.
pub open spec fn placed(bf: Seq<Seq<int>>, t: int) -> bool {
    exists|b: int, x: int| 0 <= b < bf.len() && 0 <= x < bf[b].len() && #[trigger] bf[b][x] == t
}

/// Each tile went to the first batch it could: every earlier batch holds an
/// earlier tile that shares a path with it.
pub open spec fn batches_first_fit(tv: Seq<CompartmentView>, bf: Seq<Seq<int>>) -> bool {
    forall|b: int, x: int, b2: int|
        0 <= b2 < b < bf.len() && 0 <= x < bf[b].len() ==> #[trigger] blocked_by(tv, bf[b2], #[trigger] bf[b][x])
}

/// Some tile of `batch` placed before tile `t` shares a path with it.
pub open spec fn blocked_by(tv: Seq<CompartmentView>, batch: Seq<int>, t: int) -> bool {
    exists|y: int| 0 <= y < batch.len() && #[trigger] batch[y] < t && paths_overlap(tv[batch[y]].paths, tv[t].paths)
}

proof fn lemma_first_free(tv: Seq<CompartmentView>, bf: Seq<Seq<int>>, t: int, i: int)
    requires
        0 <= i <= bf.len(),
    ensures
        i <= first_free_batch(tv, bf, t, i) <= bf.len(),
        first_free_batch(tv, bf, t, i) < bf.len() ==> !batch_conflicts(tv, bf[first_free_batch(tv, bf, t, i)], t),
        forall|j: int| i <= j < first_free_batch(tv, bf, t, i) ==> #[trigger] batch_conflicts(tv, bf[j], t),
    decreases bf.len() - i,
{
    if i < bf.len() && batch_conflicts(tv, bf[i], t) {
        lemma_first_free(tv, bf, t, i + 1);
    }
}

proof fn lemma_batch_fold(tv: Seq<CompartmentView>, k: int)
    requires
        0 <= k,
    ensures
        batches_disjoint(tv, batch_fold(tv, k)),
        batches_partition(batch_fold(tv, k), k),
        batches_first_fit(tv, batch_fold(tv, k)),
    decreases k,
{
    if k > 0 {
        lemma_batch_fold(tv, k - 1);
        let bf = batch_fold(tv, k - 1);
        let t = k - 1;
        let i = first_free_batch(tv, bf, t, 0);
        lemma_first_free(tv, bf, t, 0);
        let nf = batch_fold(tv, k);
        if i < bf.len() {
            assert(nf == bf.update(i, bf[i].push(t)));
            assert forall|b: int, x: int| 0 <= b < nf.len() && 0 <= x < nf[b].len() implies
                #[trigger] nf[b][x] == if b == i && x == bf[i].len() { t } else { bf[b][x] } by {}
        } else {
            assert(nf == bf.push(seq![t]));
            assert forall|b: int, x: int| 0 <= b < nf.len() && 0 <= x < nf[b].len() implies
                #[trigger] nf[b][x] == if b == bf.len() { t } else { bf[b][x] } by {}
        }
        assert(batches_disjoint(tv, nf)) by {
            assert forall|b: int, x: int, y: int| 0 <= b < nf.len() && 0 <= x < y < nf[b].len() implies !paths_overlap(
                tv[#[trigger] nf[b][x]].paths, tv[#[trigger] nf[b][y]].paths) by {
                if b < bf.len() && y < bf[b].len() {
                    assert(nf[b][x] == bf[b][x] && nf[b][y] == bf[b][y]);
                } else if b == i {
                    assert(nf[b][y] == t);
                    assert(nf[b][x] == bf[b][x]);
                    assert(!batch_conflicts(tv, bf[i], t));
                    assert(!paths_overlap(tv[bf[i][x]].paths, tv[t].paths));
                }
            }
        }
        assert(batches_partition(nf, k)) by {
            assert forall|t2: int| 0 <= t2 < k implies #[trigger] placed(nf, t2) by {
                if t2 < t {
                    assert(placed(bf, t2));
                    let (b, x) = choose|b: int, x: int| 0 <= b < bf.len() && 0 <= x < bf[b].len() && #[trigger] bf[b][x] == t2;
                    assert(nf[b][x] == t2);
                } else if i < bf.len() {
                    assert(nf[i][bf[i].len() as int] == t);
                } else {
                    assert(nf[bf.len() as int][0] == t);
                }
            }
            assert forall|b1: int, x1: int, b2: int, x2: int|
                0 <= b1 < nf.len() && 0 <= x1 < nf[b1].len() && 0 <= b2 < nf.len() && 0 <= x2 < nf[b2].len()
                    && #[trigger] nf[b1][x1] == #[trigger] nf[b2][x2] implies b1 == b2 && x1 == x2 by {
                if nf[b1][x1] != t {
                    assert(nf[b1][x1] == bf[b1][x1]);
                    assert(nf[b2][x2] == bf[b2][x2]);
                }
            }
            assert forall|b: int, x: int, y: int| 0 <= b < nf.len() && 0 <= x < y < nf[b].len() implies #[trigger] nf[b][x] < #[trigger] nf[b][y] by {
                if b < bf.len() && y < bf[b].len() {
                    assert(nf[b][x] == bf[b][x] && nf[b][y] == bf[b][y]);
                } else {
                    assert(nf[b][x] == bf[b][x]);
                }
            }
            assert forall|b: int| 0 <= b < nf.len() implies (#[trigger] nf[b]).len() > 0 by {
                if b < bf.len() {
                    assert(bf[b].len() > 0);
                }
            }
        }
        assert(batches_first_fit(tv, nf)) by {
            assert forall|b: int, x: int, b2: int| 0 <= b2 < b < nf.len() && 0 <= x < nf[b].len() implies
                #[trigger] blocked_by(tv, nf[b2], #[trigger] nf[b][x]) by {
                if nf[b][x] == t {
                    assert(b == i);
                    assert(batch_conflicts(tv, bf[b2], t));
                    let y = choose|y: int| 0 <= y < bf[b2].len() && paths_overlap(tv[#[trigger] bf[b2][y]].paths, tv[t].paths);
                    assert(nf[b2][y] == bf[b2][y]);
                    assert(bf[b2][y] < t);
                } else {
                    assert(nf[b][x] == bf[b][x]);
                    assert(b < bf.len());
                    assert(blocked_by(tv, bf[b2], bf[b][x]));
                    let y = choose|y: int| 0 <= y < bf[b2].len() && #[trigger] bf[b2][y] < bf[b][x] && paths_overlap(tv[bf[b2][y]].paths, tv[bf[b][x]].paths);
                    assert(nf[b2][y] == bf[b2][y]);
                }
            }
        }
    }
}

/// No two tiles of a batch share a path: every tile's paths differ from those
/// of each tile placed in its batch before it.
pub proof fn lemma_batches_disjoint(tv: Seq<CompartmentView>)
    ensures
        batches_disjoint(tv, batching(tv)),
{
    lemma_batch_fold(tv, tv.len() as int);
}

/// Batching places every tile exactly once and keeps the tiles' order inside each batch.
pub proof fn lemma_batches_partition(tv: Seq<CompartmentView>)
    ensures
        batches_partition(batching(tv), tv.len() as int),
{
    lemma_batch_fold(tv, tv.len() as int);
}

/// Each tile lands in the first batch it can: every earlier batch holds an
/// earlier tile that shares a path with it.
pub proof fn lemma_batches_first_fit(tv: Seq<CompartmentView>)
    ensures
        batches_first_fit(tv, batching(tv)),
{
    lemma_batch_fold(tv, tv.len() as int);
}

} // verus!
