//! A union-find forest with path halving and union by rank.
use vstd::prelude::*;

verus! {

/// Well-formed forest: parents in range, ranks grow strictly towards the
/// root, and every rank is below the number of nodes.
pub open spec fn uf_wf(parent: Seq<usize>, rank: Seq<usize>) -> bool {
    &&& parent.len() == rank.len()
    &&& forall|i: int| 0 <= i < parent.len() ==> (#[trigger] parent[i]) < parent.len()
    &&& forall|i: int|
        0 <= i < parent.len() && #[trigger] parent[i] != i ==> rank[i] < rank[parent[i] as int]
    &&& forall|i: int| 0 <= i < parent.len() ==> (#[trigger] rank[i]) < parent.len()
}

/// The root of node `i`: follow parents until a node is its own parent.
pub open spec fn root_of(parent: Seq<usize>, rank: Seq<usize>, i: int) -> int
    decreases parent.len() - rank[i],
    when uf_wf(parent, rank) && 0 <= i < parent.len()
{
    if parent[i] == i {
        i
    } else {
        proof {
            assert(rank[i] < rank[parent[i] as int]);
            assert(rank[parent[i] as int] < parent.len());
        }
        root_of(parent, rank, parent[i] as int)
    }
}

/// The root of every node.
pub open spec fn uf_labels(parent: Seq<usize>, rank: Seq<usize>) -> Seq<int> {
    Seq::new(parent.len(), |i: int| root_of(parent, rank, i))
}

/// A root is reached from `i`, it is its own parent, and its rank is no lower than `i`'s.
pub proof fn lemma_root(parent: Seq<usize>, rank: Seq<usize>, i: int)
    requires
        uf_wf(parent, rank),
        0 <= i < parent.len(),
    ensures
        0 <= root_of(parent, rank, i) < parent.len(),
        parent[root_of(parent, rank, i)] == root_of(parent, rank, i),
        rank[root_of(parent, rank, i)] >= rank[i],
        root_of(parent, rank, i) == i <==> parent[i] == i,
    decreases parent.len() - rank[i],
{
    if parent[i] != i {
        assert(rank[i] < rank[parent[i] as int]);
        lemma_root(parent, rank, parent[i] as int);
    }
}

/// Setting `x`'s parent to its grandparent keeps the forest well formed and every root.
proof fn lemma_halving(parent: Seq<usize>, rank: Seq<usize>, x: int, j: int)
    requires
        uf_wf(parent, rank),
        0 <= x < parent.len(),
        0 <= j < parent.len(),
    ensures
        uf_wf(parent.update(x, parent[parent[x] as int]), rank),
        root_of(parent.update(x, parent[parent[x] as int]), rank, j) == root_of(parent, rank, j),
    decreases parent.len() - rank[j],
{
    let p2 = parent.update(x, parent[parent[x] as int]);
    let p = parent[x] as int;
    assert(uf_wf(p2, rank)) by {
        assert forall|i: int| 0 <= i < p2.len() && #[trigger] p2[i] != i implies rank[i] < rank[p2[i] as int] by {
            if i == x {
                assert(parent[p] != p ==> rank[p] < rank[parent[p] as int]);
            }
        }
    }
    if j == x {
        if parent[x] != x {
            if parent[p] != p {
                assert(rank[x] < rank[p] && rank[p] < rank[parent[p] as int]);
            }
            lemma_halving(parent, rank, x, parent[p] as int);
            assert(root_of(parent, rank, p) == root_of(parent, rank, parent[p] as int));
        }
    } else if parent[j] != j {
        assert(rank[j] < rank[parent[j] as int]);
        lemma_halving(parent, rank, x, parent[j] as int);
    }
}

/// Making root `loser` a child of root `winner` sends every node of `loser`'s
/// tree to `winner` and keeps every other root.
proof fn lemma_link(
    parent: Seq<usize>,
    rank: Seq<usize>,
    rank2: Seq<usize>,
    loser: int,
    winner: int,
    j: int,
)
    requires
        uf_wf(parent, rank),
        uf_wf(parent.update(loser, winner as usize), rank2),
        0 <= loser < parent.len(),
        0 <= winner < parent.len(),
        loser != winner,
        parent[loser] == loser,
        parent[winner] == winner,
        0 <= j < parent.len(),
    ensures
        root_of(parent.update(loser, winner as usize), rank2, j) == if root_of(parent, rank, j) == loser {
            winner
        } else {
            root_of(parent, rank, j)
        },
    decreases parent.len() - rank[j],
{
    let p2 = parent.update(loser, winner as usize);
    if parent[j] == j {
        if j == loser {
            assert(p2[winner] == winner);
            assert(root_of(p2, rank2, winner) == winner);
        }
    } else {
        assert(rank[j] < rank[parent[j] as int]);
        lemma_link(parent, rank, rank2, loser, winner, parent[j] as int);
    }
}

/// The roots of a forest.
pub open spec fn root_set(parent: Seq<usize>) -> Set<int> {
    Set::new(|i: int| 0 <= i < parent.len() && parent[i] == i)
}

/// The roots of a forest are finitely many.
pub proof fn lemma_root_set_finite(parent: Seq<usize>)
    ensures
        root_set(parent).finite(),
{
    vstd::set_lib::lemma_int_range(0, parent.len() as int);
    vstd::set_lib::lemma_len_subset(root_set(parent), vstd::set_lib::set_int_range(0, parent.len() as int));
}

/// Find the root of `x`, halving the path on the way.
pub fn find(parent: &mut Vec<usize>, Ghost(rank): Ghost<Seq<usize>>, x: usize) -> (r: usize)
    requires
        uf_wf(old(parent)@, rank),
        x < old(parent)@.len(),
    ensures
        uf_wf(final(parent)@, rank),
        final(parent)@.len() == old(parent)@.len(),
        uf_labels(final(parent)@, rank) == uf_labels(old(parent)@, rank),
        root_set(final(parent)@) == root_set(old(parent)@),
        r as int == root_of(old(parent)@, rank, x as int),
        forall|j: int|
            0 <= j < old(parent)@.len() ==> #[trigger] final(parent)@[j] == old(parent)@[j] || final(parent)@[j]
                == old(parent)@[old(parent)@[j] as int],
{
    let ghost orig = parent@;
    let ghost x0 = x as int;
    let mut x = x;
    while parent[x] != x
        invariant
            uf_wf(parent@, rank),
            parent@.len() == orig.len(),
            x < parent@.len(),
            uf_labels(parent@, rank) == uf_labels(orig, rank),
            root_set(parent@) == root_set(orig),
            root_of(parent@, rank, x as int) == root_of(orig, rank, x0),
            uf_wf(orig, rank),
            forall|j: int| 0 <= j < orig.len() && rank[j] >= rank[x as int] ==> #[trigger] parent@[j] == orig[j],
            forall|j: int|
                0 <= j < orig.len() ==> #[trigger] parent@[j] == orig[j] || parent@[j] == orig[orig[j] as int],
        decreases parent@.len() - rank[x as int],
    {
        let ghost before = parent@;
        let p = parent[x];
        let pp = parent[p];
        proof {
            assert forall|j: int| 0 <= j < before.len() implies root_of(before.update(x as int, pp), rank, j)
                == root_of(before, rank, j) by {
                lemma_halving(before, rank, x as int, j);
            }
            lemma_halving(before, rank, x as int, x as int);
            assert(uf_labels(before.update(x as int, pp), rank) =~= uf_labels(before, rank));
            assert(root_of(before, rank, x as int) == root_of(before, rank, p as int));
            if before[p as int] != p {
                assert(rank[p as int] < rank[pp as int]);
            }
            assert(rank[x as int] < rank[p as int]);
            assert(root_set(before.update(x as int, pp)) =~= root_set(before));
            assert(before[x as int] == orig[x as int]);
            assert(before[p as int] == orig[p as int]);
        }
        parent.set(x, pp);
        x = pp;
    }
    x
}

/// Join the trees of distinct roots `ra` and `rb`, hanging the lower-ranked
/// root under the other (`rb` under `ra` on a tie, which raises `ra`'s rank).
/// Returns the root of the joined tree.
pub fn union_roots(parent: &mut Vec<usize>, rank: &mut Vec<usize>, ra: usize, rb: usize, Ghost(bound): Ghost<int>) -> (w: usize)
    requires
        uf_wf(old(parent)@, old(rank)@),
        ra < old(parent)@.len(),
        rb < old(parent)@.len(),
        ra != rb,
        old(parent)@[ra as int] == ra,
        old(parent)@[rb as int] == rb,
        forall|i: int| 0 <= i < old(rank)@.len() ==> #[trigger] old(rank)@[i] <= bound,
        bound + 1 < old(parent)@.len(),
    ensures
        uf_wf(final(parent)@, final(rank)@),
        final(parent)@.len() == old(parent)@.len(),
        w == ra || w == rb,
        old(rank)@[ra as int] < old(rank)@[rb as int] ==> w == rb && final(parent)@ == old(parent)@.update(
            ra as int,
            rb,
        ) && final(rank)@ == old(rank)@,
        old(rank)@[ra as int] >= old(rank)@[rb as int] ==> w == ra && final(parent)@ == old(parent)@.update(
            rb as int,
            ra,
        ) && final(rank)@ == if old(rank)@[ra as int] == old(rank)@[rb as int] {
            old(rank)@.update(ra as int, (old(rank)@[ra as int] + 1) as usize)
        } else {
            old(rank)@
        },
        forall|i: int| 0 <= i < final(rank)@.len() ==> #[trigger] final(rank)@[i] <= bound + 1,
        forall|j: int|
            0 <= j < old(parent)@.len() ==> #[trigger] uf_labels(final(parent)@, final(rank)@)[j] == if uf_labels(
                old(parent)@,
                old(rank)@,
            )[j] == ra || uf_labels(old(parent)@, old(rank)@)[j] == rb {
                w as int
            } else {
                uf_labels(old(parent)@, old(rank)@)[j]
            },
        root_set(final(parent)@) == root_set(old(parent)@).remove(if w == ra { rb as int } else { ra as int }),
{
    let ghost p0 = parent@;
    let ghost r0 = rank@;
    proof {
        lemma_root(p0, r0, ra as int);
        lemma_root(p0, r0, rb as int);
    }
    let w;
    if rank[ra] < rank[rb] {
        parent.set(ra, rb);
        w = rb;
    } else {
        parent.set(rb, ra);
        if rank[ra] == rank[rb] {
            let r = rank[ra];
            assert(r0[ra as int] <= bound);
            let n = parent.len();
            assert(r + 1 < n);
            rank.set(ra, r + 1);
        }
        w = ra;
    }
    proof {
        let loser: int = if w == ra { rb as int } else { ra as int };
        assert(parent@ == p0.update(loser, w));
        assert(uf_wf(parent@, rank@)) by {
            assert forall|i: int| 0 <= i < parent@.len() && #[trigger] parent@[i] != i implies rank@[i] < rank@[parent@[i] as int] by {
                if i != loser && p0[i] != i {
                    assert(r0[i] < r0[p0[i] as int]);
                }
            }
        }
        assert forall|j: int| 0 <= j < p0.len() implies #[trigger] uf_labels(parent@, rank@)[j] == if uf_labels(p0, r0)[j] == ra
            || uf_labels(p0, r0)[j] == rb {
            w as int
        } else {
            uf_labels(p0, r0)[j]
        } by {
            lemma_link(p0, r0, rank@, loser, w as int, j);
            lemma_root(p0, r0, j);
            if root_of(p0, r0, j) == w as int {
                assert(root_of(p0, r0, j) != loser);
            }
        }
        assert(root_set(parent@) =~= root_set(p0).remove(loser));
    }
    w
}

} // verus!
