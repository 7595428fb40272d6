//! Breadth-first flood over a set of grid cells, from one or more seeds at
//! once: each reached cell learns its step distance from the nearest seed
//! and which seed's front got to it.
use crate::elevation::{lemma_injective_bound, lemma_injective_range_bound};
use crate::grid::{
    adjacent, cell_index, coords_as_int, lemma_adjacent_symmetric, lemma_cell_index_range,
    lemma_coords_of_index, lemma_neighbor_coords_has, lemma_neighbor_coords_shape, nbr_offset,
    neighbor_coords, offset_ok, offset_target, Grid,
};
use vstd::prelude::*;

verus! {

/// Result of a flood. `order` lists the reached cells (storage indices) in
/// the order they were taken off the queue; `dist`, `root` and `reached`
/// are indexed by storage index.
pub struct Flood {
    pub order: Vec<usize>,
    pub dist: Vec<usize>,
    pub root: Vec<usize>,
    pub reached: Vec<bool>,
}

impl Flood {
    /// `self` is a breadth-first flood of the cells marked in `inside`
    /// (a `w` by `h` grid) from `seeds`:
    /// - the seeds come first in `order`, at distance 0, each its own root;
    /// - `order` lists every reached cell exactly once, by nondecreasing
    ///   distance;
    /// - every other reached cell has a reached neighbor one step closer
    ///   with the same root (so its distance is the length of a path from
    ///   its root), and takes its root from the first cell in `order` next
    ///   to it, the one whose expansion found it;
    /// - every inside neighbor of a reached cell is reached, at most one
    ///   step farther (so no path from any seed is shorter);
    /// - unreached cells keep distance 0.
    #[verifier::opaque]
    pub open spec fn labels(self, w: int, h: int, inside: Seq<bool>, seeds: Seq<usize>) -> bool {
        let n = w * h;
        let o = self.order@;
        let d = self.dist@;
        let rt = self.root@;
        let rc = self.reached@;
        &&& d.len() == n
        &&& rt.len() == n
        &&& rc.len() == n
        &&& seeds.len() <= o.len()
        &&& forall|i: int| 0 <= i < seeds.len() ==> o[i] == #[trigger] seeds[i]
        &&& forall|i: int| 0 <= i < o.len() ==> #[trigger] o[i] < n && rc[o[i] as int]
        &&& forall|i: int, j: int|
            0 <= i < o.len() && 0 <= j < o.len() && i != j ==> #[trigger] o[i] != #[trigger] o[j]
        &&& forall|c: int|
            0 <= c < n && #[trigger] rc[c] ==> inside[c] && exists|i: int|
                0 <= i < o.len() && #[trigger] o[i] == c
        &&& forall|c: int| 0 <= c < n && !(#[trigger] rc[c]) ==> d[c] == 0
        &&& forall|i: int, j: int|
            0 <= i <= j < o.len() ==> d[#[trigger] o[i] as int] <= d[#[trigger] o[j] as int]
        &&& forall|i: int|
            0 <= i < seeds.len() ==> d[#[trigger] seeds[i] as int] == 0 && rt[seeds[i] as int]
                == seeds[i]
        &&& forall|c: int|
            0 <= c < n && #[trigger] rc[c] && (forall|i: int|
                0 <= i < seeds.len() ==> #[trigger] seeds[i] != c) ==> exists|p: int|
                0 <= p < n && rc[p] && #[trigger] adjacent(w, h, p, c) && d[p] + 1 == d[c]
                    && rt[p] == rt[c]
        &&& forall|c: int|
            0 <= c < n && #[trigger] rc[c] && (forall|i: int|
                0 <= i < seeds.len() ==> #[trigger] seeds[i] != c) ==> exists|i: int|
                0 <= i < o.len() && #[trigger] adjacent(w, h, o[i] as int, c) && rt[o[i] as int]
                    == rt[c] && (forall|i2: int|
                    0 <= i2 < i ==> !#[trigger] adjacent(w, h, o[i2] as int, c))
        &&& forall|c: int, j: int|
            0 <= c < n && #[trigger] rc[c] && #[trigger] adjacent(w, h, c, j) && inside[j] ==> rc[j]
                && d[j] <= d[c] + 1
        &&& forall|c: int|
            0 <= c < n && #[trigger] rc[c] ==> exists|i: int|
                0 <= i < seeds.len() && #[trigger] seeds[i] == rt[c]
    }
}

/// The storage index of the `t`-th listed neighbor of cell `c` (see
/// `Grid::neighbors`).
pub open spec fn listed_neighbor(w: int, h: int, c: int, t: int) -> int {
    cell_index(
        w,
        h,
        neighbor_coords(c % w, c / w, h, 8)[t].0,
        neighbor_coords(c % w, c / w, h, 8)[t].1,
    )
}

/// `order` after expanding cell `c` over its first `t` listed neighbors:
/// each inside neighbor not yet listed is appended.
pub open spec fn expand_cell(
    w: int,
    h: int,
    inside: Seq<bool>,
    order: Seq<usize>,
    c: int,
    t: int,
) -> Seq<usize>
    decreases t,
{
    if t <= 0 {
        order
    } else {
        let prev = expand_cell(w, h, inside, order, c, t - 1);
        let j = listed_neighbor(w, h, c, t - 1);
        if inside[j] && !prev.contains(j as usize) {
            prev.push(j as usize)
        } else {
            prev
        }
    }
}

/// The breadth-first queue after its first `k` cells are expanded, starting
/// from the seeds.
pub open spec fn bfs_upto(w: int, h: int, inside: Seq<bool>, seeds: Seq<usize>, k: nat) -> Seq<
    usize,
>
    decreases k,
{
    if k == 0 {
        seeds
    } else {
        let prev = bfs_upto(w, h, inside, seeds, (k - 1) as nat);
        if k - 1 < prev.len() {
            let c = prev[k - 1] as int;
            expand_cell(w, h, inside, prev, c, neighbor_coords(c % w, c / w, h, 8).len() as int)
        } else {
            prev
        }
    }
}

/// The order in which a breadth-first search from `seeds` over the cells
/// of `inside` takes cells off its queue (every cell is expanded after at
/// most `w * h` steps).
pub open spec fn bfs_order(w: int, h: int, inside: Seq<bool>, seeds: Seq<usize>) -> Seq<usize> {
    bfs_upto(w, h, inside, seeds, (w * h) as nat)
}

/// Once the queue is exhausted it stays as it is.
proof fn lemma_bfs_settled(w: int, h: int, inside: Seq<bool>, seeds: Seq<usize>, k: nat, m: nat)
    requires
        bfs_upto(w, h, inside, seeds, k).len() <= k,
        k <= m,
    ensures
        bfs_upto(w, h, inside, seeds, m) == bfs_upto(w, h, inside, seeds, k),
    decreases m,
{
    if m > k {
        lemma_bfs_settled(w, h, inside, seeds, k, (m - 1) as nat);
    }
}

/// Bookkeeping of `flood`: `order` lists the reached cells without repeats
/// (`qpos[c]` is the place of reached cell `c` in it), seeds first; each
/// non-seed reached cell was discovered from `par[c]`, an earlier neighbor
/// one step closer with the same root.
#[verifier::opaque]
spec fn flood_shape(
    w: int,
    h: int,
    inside: Seq<bool>,
    seeds: Seq<usize>,
    order: Seq<usize>,
    dist: Seq<usize>,
    root: Seq<usize>,
    reached: Seq<bool>,
    qpos: Seq<int>,
    par: Seq<int>,
) -> bool {
    let n = w * h;
    let ns = seeds.len() as int;
    &&& inside.len() == n
    &&& dist.len() == n
    &&& root.len() == n
    &&& reached.len() == n
    &&& qpos.len() == n
    &&& par.len() == n
    &&& ns <= order.len() <= n
    &&& forall|i: int| 0 <= i < ns ==> order[i] == #[trigger] seeds[i]
    &&& forall|i: int|
        0 <= i < order.len() ==> #[trigger] order[i] < n && reached[order[i] as int] && qpos[order[i]
            as int] == i && dist[order[i] as int] <= i
    &&& forall|c: int|
        0 <= c < n && #[trigger] reached[c] ==> inside[c] && 0 <= qpos[c] < order.len() && order[qpos[
            c]] == c
    &&& forall|c: int| 0 <= c < n && !(#[trigger] reached[c]) ==> dist[c] == 0
    &&& forall|i: int|
        0 <= i < ns ==> dist[#[trigger] seeds[i] as int] == 0 && root[seeds[i] as int] == seeds[i]
    &&& forall|c: int|
        0 <= c < n && #[trigger] reached[c] && qpos[c] >= ns ==> {
            &&& 0 <= par[c] < n
            &&& reached[par[c]]
            &&& qpos[par[c]] < qpos[c]
            &&& adjacent(w, h, par[c], c)
            &&& dist[par[c]] + 1 == dist[c]
            &&& root[par[c]] == root[c]
            &&& forall|i2: int| 0 <= i2 < qpos[par[c]] ==> !#[trigger] adjacent(w, h, order[i2] as int, c)
        }
    &&& forall|c: int|
        0 <= c < n && #[trigger] reached[c] ==> root[c] < n && reached[root[c] as int] && qpos[root[
            c] as int] < ns
}

/// Distances never decrease along `order`.
#[verifier::opaque]
spec fn flood_sorted(order: Seq<usize>, dist: Seq<usize>) -> bool {
    forall|i: int, j: int|
        0 <= i <= j < order.len() ==> dist[#[trigger] order[i] as int] <= dist[#[trigger] order[j]
            as int]
}

/// The queue `order[head..]` spans at most two consecutive distances.
#[verifier::opaque]
spec fn flood_front(order: Seq<usize>, head: int, dist: Seq<usize>) -> bool {
    &&& 0 <= head <= order.len()
    &&& head < order.len() ==> dist[order[order.len() - 1] as int] <= dist[order[head] as int] + 1
}

/// Every expanded cell `order[..head]` has all its inside neighbors
/// reached, at most one step farther.
#[verifier::opaque]
spec fn flood_closed(
    w: int,
    h: int,
    inside: Seq<bool>,
    order: Seq<usize>,
    head: int,
    dist: Seq<usize>,
    reached: Seq<bool>,
) -> bool {
    forall|i: int, j: int|
        0 <= i < head && #[trigger] adjacent(w, h, order[i] as int, j) && #[trigger] inside[j]
            ==> reached[j] && dist[j] <= dist[order[i] as int] + 1
}

/// State of `flood` with `order[..head]` expanded.
spec fn flood_inv(
    w: int,
    h: int,
    inside: Seq<bool>,
    seeds: Seq<usize>,
    order: Seq<usize>,
    head: int,
    dist: Seq<usize>,
    root: Seq<usize>,
    reached: Seq<bool>,
    qpos: Seq<int>,
    par: Seq<int>,
) -> bool {
    &&& flood_shape(w, h, inside, seeds, order, dist, root, reached, qpos, par)
    &&& flood_sorted(order, dist)
    &&& flood_front(order, head, dist)
    &&& flood_closed(w, h, inside, order, head, dist, reached)
}

/// The plain facts of `flood_inv` that the search loop reads directly.
proof fn lemma_flood_basics(
    w: int,
    h: int,
    inside: Seq<bool>,
    seeds: Seq<usize>,
    order: Seq<usize>,
    head: int,
    dist: Seq<usize>,
    root: Seq<usize>,
    reached: Seq<bool>,
    qpos: Seq<int>,
    par: Seq<int>,
)
    requires
        flood_inv(w, h, inside, seeds, order, head, dist, root, reached, qpos, par),
    ensures
        inside.len() == w * h,
        dist.len() == w * h,
        root.len() == w * h,
        reached.len() == w * h,
        order.len() <= w * h,
        0 <= head <= order.len(),
        head < order.len() ==> order[head] < w * h && dist[order[head] as int] <= head
            && reached[order[head] as int],
{
    reveal(flood_shape);
    reveal(flood_front);
}

/// An already reached cell next to `order[head]` is at most one step
/// farther out.
proof fn lemma_flood_seen(
    w: int,
    h: int,
    inside: Seq<bool>,
    seeds: Seq<usize>,
    order: Seq<usize>,
    head: int,
    dist: Seq<usize>,
    root: Seq<usize>,
    reached: Seq<bool>,
    qpos: Seq<int>,
    par: Seq<int>,
    j: int,
)
    requires
        flood_inv(w, h, inside, seeds, order, head, dist, root, reached, qpos, par),
        head < order.len(),
        0 <= j < w * h,
        reached[j],
    ensures
        dist[j] <= dist[order[head] as int] + 1,
{
    reveal(flood_shape);
    reveal(flood_sorted);
    reveal(flood_front);
    let i = qpos[j];
    assert(order[i] == j);
    assert(dist[order[i] as int] <= dist[order[order.len() - 1] as int]);
}

/// A cell is reached exactly when it is listed in `order`.
proof fn lemma_flood_listed(
    w: int,
    h: int,
    inside: Seq<bool>,
    seeds: Seq<usize>,
    order: Seq<usize>,
    head: int,
    dist: Seq<usize>,
    root: Seq<usize>,
    reached: Seq<bool>,
    qpos: Seq<int>,
    par: Seq<int>,
    j: int,
)
    requires
        flood_inv(w, h, inside, seeds, order, head, dist, root, reached, qpos, par),
        0 <= j < w * h,
        w * h <= usize::MAX,
    ensures
        reached[j] == order.contains(j as usize),
{
    reveal(flood_shape);
    if order.contains(j as usize) {
        let i = choose|i: int| 0 <= i < order.len() && order[i] == j as usize;
        assert(reached[order[i] as int]);
    }
    if reached[j] {
        assert(order[qpos[j]] == j);
    }
}

/// A vector of `n` copies of `v`.
fn repeat<T: Copy>(n: usize, v: T) -> (r: Vec<T>)
    ensures
        r@.len() == n,
        forall|i: int| 0 <= i < n ==> r@[i] == v,
{
    let mut r: Vec<T> = Vec::with_capacity(n);
    let mut i: usize = 0;
    while i < n
        invariant
            i <= n,
            r@.len() == i,
            forall|j: int| 0 <= j < i ==> r@[j] == v,
        decreases n - i,
    {
        r.push(v);
        i = i + 1;
    }
    r
}

/// Reaching `j` from the cell being expanded, `order[head]`.
#[verifier::rlimit(80)]
#[verifier::spinoff_prover]
proof fn lemma_flood_push(
    w: int,
    h: int,
    inside: Seq<bool>,
    seeds: Seq<usize>,
    order: Seq<usize>,
    head: int,
    dist: Seq<usize>,
    root: Seq<usize>,
    reached: Seq<bool>,
    qpos: Seq<int>,
    par: Seq<int>,
    j: int,
) -> (r: (Seq<int>, Seq<int>))
    requires
        flood_inv(w, h, inside, seeds, order, head, dist, root, reached, qpos, par),
        0 < w,
        0 < h,
        head < order.len(),
        0 <= j < w * h,
        w * h <= usize::MAX,
        inside[j],
        !reached[j],
        adjacent(w, h, order[head] as int, j),
    ensures
        order.len() + 1 <= w * h,
        dist[order[head] as int] + 1 <= order.len(),
        ({
            let u = order[head] as int;
            flood_inv(
                w,
                h,
                inside,
                seeds,
                order.push(j as usize),
                head,
                dist.update(j, (dist[u] + 1) as usize),
                root.update(j, root[u]),
                reached.update(j, true),
                r.0,
                r.1,
            )
        }),
{
    let n = w * h;
    let ns = seeds.len() as int;
    let u = order[head] as int;
    let len = order.len() as int;
    let order2 = order.push(j as usize);
    let dist2 = dist.update(j, (dist[u] + 1) as usize);
    let root2 = root.update(j, root[u]);
    let reached2 = reached.update(j, true);
    let qpos2 = qpos.update(j, len);
    let par2 = par.update(j, u);
    assert(order2[len] == j as usize && (j as usize) as int == j);
    assert(dist[u] <= head && head < len && len <= n && dist.len() == n && root.len() == n
        && reached.len() == n && qpos.len() == n && par.len() == n && inside.len() == n && forall|
        i: int|
        0 <= i < len ==> #[trigger] order[i] < n) by {
        reveal(flood_shape);
        reveal(flood_front);
    }
    assert(dist2[j] == dist[u] + 1);
    assert(len + 1 <= n && dist[u] <= head && reached[u] && u != j && ns <= len && forall|i: int|
        0 <= i < len ==> #[trigger] order[i] != j) by {
        reveal(flood_shape);
        reveal(flood_front);
        let f = |i: int| order[i] as int;
        assert forall|i: int| 0 <= i < len implies 0 <= #[trigger] f(i) < n && f(i) != j by {
            assert(reached[order[i] as int]);
        }
        assert forall|i1: int, i2: int|
            0 <= i1 < len && 0 <= i2 < len && i1 != i2 implies #[trigger] f(i1) != #[trigger] f(
            i2,
        ) by {
            assert(qpos[order[i1] as int] == i1);
            assert(qpos[order[i2] as int] == i2);
        }
        lemma_injective_range_bound(f, len, n, j);
        assert forall|i: int| 0 <= i < len implies #[trigger] order[i] != j by {
            assert(reached[order[i] as int]);
        }
    }
    assert forall|i2: int| 0 <= i2 < head implies !#[trigger] adjacent(w, h, order[i2] as int, j) by {
        reveal(flood_closed);
        if adjacent(w, h, order[i2] as int, j) {
            assert(reached[j]);
        }
    }
    assert(flood_shape(w, h, inside, seeds, order2, dist2, root2, reached2, qpos2, par2)) by {
        reveal(flood_shape);
        assert forall|i: int| 0 <= i < order2.len() implies #[trigger] order2[i] < n
            && reached2[order2[i] as int] && qpos2[order2[i] as int] == i && dist2[order2[
            i] as int] <= i by {
            if i < len {
                assert(order2[i] == order[i]);
            }
        }
        assert forall|c: int| 0 <= c < n && #[trigger] reached2[c] implies inside[c] && 0
            <= qpos2[c] < order2.len() && order2[qpos2[c]] == c by {
            if c != j {
                assert(order2[qpos[c]] == order[qpos[c]]);
            }
        }
        assert forall|i: int| 0 <= i < ns implies order2[i] == #[trigger] seeds[i] by {
            assert(order2[i] == order[i]);
        }
        assert forall|i: int| 0 <= i < ns implies dist2[#[trigger] seeds[i] as int] == 0
            && root2[seeds[i] as int] == seeds[i] by {
            assert(order[i] == seeds[i]);
            assert(reached[seeds[i] as int]);
        }
        assert forall|c: int| 0 <= c < n && #[trigger] reached2[c] && qpos2[c] >= ns implies {
            &&& 0 <= par2[c] < n
            &&& reached2[par2[c]]
            &&& qpos2[par2[c]] < qpos2[c]
            &&& adjacent(w, h, par2[c], c)
            &&& dist2[par2[c]] + 1 == dist2[c]
            &&& root2[par2[c]] == root2[c]
            &&& forall|i2: int| 0 <= i2 < qpos2[par2[c]] ==> !#[trigger] adjacent(w, h, order2[i2] as int, c)
        } by {
            if c != j {
                assert(reached[par[c]]);
                assert forall|i2: int| 0 <= i2 < qpos2[par2[c]] implies !#[trigger] adjacent(
                    w,
                    h,
                    order2[i2] as int,
                    c,
                ) by {
                    assert(order2[i2] == order[i2]);
                }
            } else {
                assert forall|i2: int| 0 <= i2 < qpos2[par2[c]] implies !#[trigger] adjacent(
                    w,
                    h,
                    order2[i2] as int,
                    c,
                ) by {
                    assert(order2[i2] == order[i2]);
                    assert(!adjacent(w, h, order[i2] as int, j));
                }
            }
        }
        assert forall|c: int| 0 <= c < n && #[trigger] reached2[c] implies root2[c] < n
            && reached2[root2[c] as int] && qpos2[root2[c] as int] < ns by {
            if c == j {
                assert(reached[root[u] as int]);
            } else {
                assert(reached[root[c] as int]);
            }
        }
    }
    assert(flood_sorted(order2, dist2) && flood_front(order2, head, dist2)) by {
        reveal(flood_sorted);
        reveal(flood_front);
        assert(order2[order2.len() - 1] == j as usize);
        assert(order2[head] == order[head]);
        assert forall|i: int, k: int| 0 <= i <= k < order2.len() implies dist2[#[trigger] order2[
            i] as int] <= dist2[#[trigger] order2[k] as int] by {
            if k < len {
                assert(order2[i] == order[i] && order2[k] == order[k]);
                assert(dist2[order[i] as int] == dist[order[i] as int]);
                assert(dist2[order[k] as int] == dist[order[k] as int]);
            } else if i < len {
                assert(order2[i] == order[i]);
                assert(dist2[order[i] as int] == dist[order[i] as int]);
                assert(dist[order[i] as int] <= dist[order[len - 1] as int]);
                assert(dist[order[len - 1] as int] <= dist[u] + 1);
            }
        }
    }
    assert(flood_closed(w, h, inside, order2, head, dist2, reached2)) by {
        reveal(flood_closed);
        assert forall|i: int, k: int|
            0 <= i < head && #[trigger] adjacent(w, h, order2[i] as int, k)
                && #[trigger] inside[k] implies reached2[k] && dist2[k] <= dist2[order2[i] as int]
            + 1 by {
            assert(order2[i] == order[i]);
            assert(adjacent(w, h, order[i] as int, k));
            lemma_adjacent_symmetric(w, h, order[i] as int, k);
            assert(reached[k]);
            assert(k != j);
            assert(dist2[order[i] as int] == dist[order[i] as int]);
        }
    }
    (qpos2, par2)
}

/// Breadth-first flood of the cells marked in `inside`, starting from all
/// of `seeds` at once (a multi-source search: each cell is claimed by the
/// front of whichever seed reaches it first).
pub fn flood(inside: &Grid<bool>, seeds: &Vec<usize>) -> (f: Flood)
    requires
        inside.usable(),
        forall|i: int|
            0 <= i < seeds@.len() ==> #[trigger] seeds@[i] < inside@.len() && inside@[seeds@[
                i] as int],
        forall|i: int, j: int|
            0 <= i < seeds@.len() && 0 <= j < seeds@.len() && i != j ==> #[trigger] seeds@[i]
                != #[trigger] seeds@[j],
    ensures
        f.labels(inside.width as int, inside.height as int, inside@, seeds@),
        f.order@ == bfs_order(inside.width as int, inside.height as int, inside@, seeds@),
        f.dist@.len() == inside@.len(),
        f.root@.len() == inside@.len(),
        f.reached@.len() == inside@.len(),
{
    let n = inside.cells.len();
    let width = inside.width;
    let ghost w = inside.width as int;
    let ghost h = inside.height as int;
    let ghost ins = inside@;
    let mut reached: Vec<bool> = repeat(n, false);
    let mut dist: Vec<usize> = repeat(n, 0usize);
    let mut root: Vec<usize> = repeat(n, 0usize);
    let mut order: Vec<usize> = Vec::new();
    let ghost mut qpos: Seq<int> = Seq::new(n as nat, |c: int| 0int);
    let ghost mut par: Seq<int> = Seq::new(n as nat, |c: int| 0int);
    let ns = seeds.len();
    let mut k: usize = 0;
    while k < ns
        invariant
            n == w * h,
            ins == inside@,
            ins.len() == n,
            ns == seeds@.len(),
            k <= ns,
            forall|i: int|
                0 <= i < seeds@.len() ==> #[trigger] seeds@[i] < n && ins[seeds@[i] as int],
            forall|i: int, j: int|
                0 <= i < seeds@.len() && 0 <= j < seeds@.len() && i != j ==> #[trigger] seeds@[i]
                    != #[trigger] seeds@[j],
            reached@.len() == n,
            dist@.len() == n,
            root@.len() == n,
            qpos.len() == n,
            par.len() == n,
            order@ == seeds@.take(k as int),
            forall|c: int| 0 <= c < n ==> dist@[c] == 0,
            forall|c: int|
                0 <= c < n ==> (#[trigger] reached@[c] <==> 0 <= qpos[c] < k && seeds@[qpos[c]]
                    == c),
            forall|i: int| 0 <= i < k ==> qpos[#[trigger] seeds@[i] as int] == i,
            forall|i: int| 0 <= i < k ==> root@[#[trigger] seeds@[i] as int] == seeds@[i],
        decreases ns - k,
    {
        let s = seeds[k];
        proof {
            assert forall|i: int| 0 <= i < k implies #[trigger] seeds@[i] != s by {}
            assert(!reached@[s as int]) by {
                if reached@[s as int] {
                    assert(seeds@[qpos[s as int]] == s);
                }
            }
        }
        reached.set(s, true);
        root.set(s, s);
        order.push(s);
        proof {
            qpos = qpos.update(s as int, k as int);
            assert(order@ =~= seeds@.take(k as int + 1));
        }
        k = k + 1;
    }
    proof {
        assert(ns <= n) by {
            let f = |i: int| seeds@[i] as int;
            assert forall|i1: int, i2: int|
                0 <= i1 < ns && 0 <= i2 < ns && i1 != i2 implies #[trigger] f(i1) != #[trigger] f(
                i2,
            ) by {}
            lemma_injective_bound(f, ns as int, n as int);
        }
        assert(seeds@.take(ns as int) =~= seeds@);
        assert forall|c: int| 0 <= c < n && #[trigger] reached@[c] implies root@[c] == c by {
            assert(seeds@[qpos[c]] == c);
        }
        assert(flood_inv(w, h, ins, seeds@, order@, 0, dist@, root@, reached@, qpos, par)) by {
            reveal(flood_shape);
            reveal(flood_sorted);
            reveal(flood_front);
            reveal(flood_closed);
            assert forall|i: int| 0 <= i < order@.len() implies #[trigger] order@[i] < n
                && reached@[order@[i] as int] && qpos[order@[i] as int] == i && dist@[order@[
                i] as int] <= i by {
                assert(order@[i] == seeds@[i]);
            }
            assert forall|c: int| 0 <= c < n && #[trigger] reached@[c] implies ins[c] && 0
                <= qpos[c] < order@.len() && order@[qpos[c]] == c by {
                assert(order@[qpos[c]] == seeds@[qpos[c]]);
            }
        }
    }
    let mut head: usize = 0;
    while head < order.len()
        invariant
            n == w * h,
            0 < w,
            0 < h,
            w == inside.width,
            h == inside.height,
            width == inside.width,
            inside.usable(),
            ins == inside@,
            ins.len() == n,
            flood_inv(w, h, ins, seeds@, order@, head as int, dist@, root@, reached@, qpos, par),
            order@ == bfs_upto(w, h, ins, seeds@, head as nat),
        decreases n - head,
    {
        proof {
            lemma_flood_basics(
                w,
                h,
                ins,
                seeds@,
                order@,
                head as int,
                dist@,
                root@,
                reached@,
                qpos,
                par,
            );
        }
        let u = order[head];
        proof {
            lemma_coords_of_index(w, h, u as int);
        }
        let ux = (u % width) as i64;
        let uy = (u / width) as i64;
        let nbrs = inside.neighbors(ux, uy);
        let du = dist[u];
        let ru = root[u];
        let ghost start = order@;
        proof {
            assert(nbrs@.len() == neighbor_coords(ux as int, uy as int, h, 8).len()) by {
                assert(coords_as_int(nbrs@).len() == nbrs@.len());
            }
        }
        let mut t: usize = 0;
        while t < nbrs.len()
            invariant
                start == bfs_upto(w, h, ins, seeds@, head as nat),
                order@ == expand_cell(w, h, ins, start, u as int, t as int),
                nbrs@.len() == neighbor_coords(ux as int, uy as int, h, 8).len(),
                n == w * h,
                0 < w,
                0 < h,
                w == inside.width,
                h == inside.height,
                width == inside.width,
                inside.usable(),
                ins == inside@,
                ins.len() == n,
                head < order@.len(),
                u == order@[head as int],
                u < n,
                reached@.len() == n,
                dist@.len() == n,
                root@.len() == n,
                ux == u as int % w,
                uy == u as int / w,
                du == dist@[u as int],
                ru == root@[u as int],
                reached@[u as int],
                coords_as_int(nbrs@) == neighbor_coords(ux as int, uy as int, h, 8),
                t <= nbrs@.len(),
                flood_inv(w, h, ins, seeds@, order@, head as int, dist@, root@, reached@, qpos, par),
                forall|t2: int|
                    0 <= t2 < t ==> 0 <= #[trigger] cell_index(
                        w,
                        h,
                        nbrs@[t2].0 as int,
                        nbrs@[t2].1 as int,
                    ) < n && (ins[cell_index(w, h, nbrs@[t2].0 as int, nbrs@[t2].1 as int)]
                        ==> reached@[cell_index(w, h, nbrs@[t2].0 as int, nbrs@[t2].1 as int)]
                        && dist@[cell_index(w, h, nbrs@[t2].0 as int, nbrs@[t2].1 as int)] <= du
                        + 1),
            decreases nbrs@.len() - t,
        {
            let (nx, ny) = nbrs[t];
            let ghost j = cell_index(w, h, nx as int, ny as int);
            proof {
                assert(coords_as_int(nbrs@)[t as int] == (nx as int, ny as int));
                lemma_neighbor_coords_shape(ux as int, uy as int, h, 8, t as int);
                lemma_cell_index_range(w, h, nx as int, ny as int);
            }
            let c = inside.index(nx, ny);
            let inside_c = inside.cells[c];
            let ghost prev = order@;
            proof {
                lemma_flood_listed(
                    w,
                    h,
                    ins,
                    seeds@,
                    order@,
                    head as int,
                    dist@,
                    root@,
                    reached@,
                    qpos,
                    par,
                    j,
                );
                assert(listed_neighbor(w, h, u as int, t as int) == j);
                assert(c as int == j);
            }
            if inside_c && !reached[c] {
                proof {
                    let kk = choose|kk: int|
                        0 <= kk < 8 && 0 <= kk < 8 && neighbor_coords(ux as int, uy as int, h, 8)[
                            t as int] == (ux + #[trigger] nbr_offset(kk).0, uy + nbr_offset(kk).1);
                    assert(offset_ok(w, h, u as int, kk));
                    assert(offset_target(w, h, u as int, kk) == j);
                    let r = lemma_flood_push(
                        w,
                        h,
                        ins,
                        seeds@,
                        order@,
                        head as int,
                        dist@,
                        root@,
                        reached@,
                        qpos,
                        par,
                        j,
                    );
                    qpos = r.0;
                    par = r.1;
                }
                reached.set(c, true);
                dist.set(c, du + 1);
                root.set(c, ru);
                order.push(c);
            } else {
                proof {
                    if inside_c {
                        lemma_flood_seen(
                            w,
                            h,
                            ins,
                            seeds@,
                            order@,
                            head as int,
                            dist@,
                            root@,
                            reached@,
                            qpos,
                            par,
                            j,
                        );
                    }
                }
            }
            proof {
                assert forall|t2: int| 0 <= t2 < t + 1 implies 0 <= #[trigger] cell_index(
                    w,
                    h,
                    nbrs@[t2].0 as int,
                    nbrs@[t2].1 as int,
                ) < n && (ins[cell_index(w, h, nbrs@[t2].0 as int, nbrs@[t2].1 as int)]
                    ==> reached@[cell_index(w, h, nbrs@[t2].0 as int, nbrs@[t2].1 as int)]
                    && dist@[cell_index(w, h, nbrs@[t2].0 as int, nbrs@[t2].1 as int)] <= du
                    + 1) by {
                    if t2 < t {
                    } else {
                        assert(nbrs@[t2] == (nx, ny));
                    }
                }
                assert(order@ == expand_cell(w, h, ins, start, u as int, t + 1));
            }
            t = t + 1;
        }
        proof {
            lemma_flood_advance(
                w,
                h,
                ins,
                seeds@,
                order@,
                head as int,
                dist@,
                root@,
                reached@,
                qpos,
                par,
                nbrs@,
            );
            assert(start[head as int] == u);
            assert(bfs_upto(w, h, ins, seeds@, (head + 1) as nat) == expand_cell(
                w,
                h,
                ins,
                start,
                u as int,
                nbrs@.len() as int,
            ));
        }
        head = head + 1;
    }
    proof {
        lemma_flood_basics(
            w,
            h,
            ins,
            seeds@,
            order@,
            head as int,
            dist@,
            root@,
            reached@,
            qpos,
            par,
        );
        lemma_bfs_settled(w, h, ins, seeds@, head as nat, n as nat);
    }
    let f = Flood { order, dist, root, reached };
    proof {
        lemma_flood_done(w, h, ins, seeds@, f, qpos, par);
    }
    f
}

/// Once every neighbor of `order[head]` has been looked at, it counts as
/// expanded.
proof fn lemma_flood_advance(
    w: int,
    h: int,
    inside: Seq<bool>,
    seeds: Seq<usize>,
    order: Seq<usize>,
    head: int,
    dist: Seq<usize>,
    root: Seq<usize>,
    reached: Seq<bool>,
    qpos: Seq<int>,
    par: Seq<int>,
    nbrs: Seq<(i64, i64)>,
)
    requires
        flood_inv(w, h, inside, seeds, order, head, dist, root, reached, qpos, par),
        0 < w,
        0 < h,
        head < order.len(),
        order[head] < w * h,
        coords_as_int(nbrs) == neighbor_coords(
            order[head] as int % w,
            order[head] as int / w,
            h,
            8,
        ),
        forall|t2: int|
            0 <= t2 < nbrs.len() ==> 0 <= #[trigger] cell_index(
                w,
                h,
                nbrs[t2].0 as int,
                nbrs[t2].1 as int,
            ) < w * h && (inside[cell_index(w, h, nbrs[t2].0 as int, nbrs[t2].1 as int)]
                ==> reached[cell_index(w, h, nbrs[t2].0 as int, nbrs[t2].1 as int)] && dist[cell_index(
                w,
                h,
                nbrs[t2].0 as int,
                nbrs[t2].1 as int,
            )] <= dist[order[head] as int] + 1),
    ensures
        flood_inv(w, h, inside, seeds, order, head + 1, dist, root, reached, qpos, par),
{
    reveal(flood_closed);
    reveal(flood_front);
    reveal(flood_sorted);
    let u = order[head] as int;
    let ux = u % w;
    let uy = u / w;
    lemma_coords_of_index(w, h, u);
    assert forall|i: int, j: int|
        0 <= i < head + 1 && #[trigger] adjacent(w, h, order[i] as int, j)
            && #[trigger] inside[j] implies reached[j] && dist[j] <= dist[order[i] as int] + 1 by {
        if i == head {
            let kk = choose|kk: int| offset_ok(w, h, u, kk) && #[trigger] offset_target(w, h, u, kk) == j;
            lemma_neighbor_coords_has(ux, uy, h, 8, kk);
            let nc = neighbor_coords(ux, uy, h, 8);
            let p = (ux + nbr_offset(kk).0, uy + nbr_offset(kk).1);
            let t2 = choose|t2: int| 0 <= t2 < nc.len() && nc[t2] == p;
            assert(coords_as_int(nbrs)[t2] == nc[t2]);
            assert(cell_index(w, h, nbrs[t2].0 as int, nbrs[t2].1 as int) == j);
        }
    }
    if head + 1 < order.len() {
        assert(dist[order[head] as int] <= dist[order[head + 1] as int]);
    }
}

/// The finished search state is a flood with the promised labels.
proof fn lemma_flood_done(
    w: int,
    h: int,
    inside: Seq<bool>,
    seeds: Seq<usize>,
    f: Flood,
    qpos: Seq<int>,
    par: Seq<int>,
)
    requires
        flood_inv(
            w,
            h,
            inside,
            seeds,
            f.order@,
            f.order@.len() as int,
            f.dist@,
            f.root@,
            f.reached@,
            qpos,
            par,
        ),
    ensures
        f.labels(w, h, inside, seeds),
{
    reveal(Flood::labels);
    reveal(flood_shape);
    reveal(flood_sorted);
    reveal(flood_front);
    reveal(flood_closed);
    let n = w * h;
    let o = f.order@;
    let d = f.dist@;
    let rt = f.root@;
    let rc = f.reached@;
    let ns = seeds.len() as int;
    assert forall|i: int, j: int|
        0 <= i < o.len() && 0 <= j < o.len() && i != j implies #[trigger] o[i] != #[trigger] o[j] by {
        assert(qpos[o[i] as int] == i);
        assert(qpos[o[j] as int] == j);
    }
    assert forall|c: int| 0 <= c < n && #[trigger] rc[c] implies inside[c] && exists|i: int|
        0 <= i < o.len() && #[trigger] o[i] == c by {
        assert(o[qpos[c]] == c);
    }
    assert forall|c: int|
        0 <= c < n && #[trigger] rc[c] && (forall|i: int|
            0 <= i < seeds.len() ==> #[trigger] seeds[i] != c) implies exists|p: int|
        0 <= p < n && rc[p] && #[trigger] adjacent(w, h, p, c) && d[p] + 1 == d[c] && rt[p]
            == rt[c] by {
        if qpos[c] < ns {
            assert(o[qpos[c]] == seeds[qpos[c]]);
        }
        let p = par[c];
        assert(adjacent(w, h, p, c));
    }
    assert forall|c: int|
        0 <= c < n && #[trigger] rc[c] && (forall|i: int|
            0 <= i < seeds.len() ==> #[trigger] seeds[i] != c) implies exists|i: int|
        0 <= i < o.len() && #[trigger] adjacent(w, h, o[i] as int, c) && rt[o[i] as int] == rt[c]
            && (forall|i2: int| 0 <= i2 < i ==> !#[trigger] adjacent(w, h, o[i2] as int, c)) by {
        if qpos[c] < ns {
            assert(o[qpos[c]] == seeds[qpos[c]]);
        }
        let p = par[c];
        let i = qpos[p];
        assert(o[i] == p);
    }
    assert forall|c: int, j: int|
        0 <= c < n && #[trigger] rc[c] && #[trigger] adjacent(w, h, c, j) && inside[j] implies rc[j]
        && d[j] <= d[c] + 1 by {
        let i = qpos[c];
        assert(o[i] == c);
        assert(adjacent(w, h, o[i] as int, j));
    }
    assert forall|c: int| 0 <= c < n && #[trigger] rc[c] implies exists|i: int|
        0 <= i < seeds.len() && #[trigger] seeds[i] == rt[c] by {
        let r = rt[c] as int;
        let i = qpos[r];
        assert(o[i] == r);
        assert(o[i] == seeds[i]);
    }
}

/// `path` walks from cell to adjacent cell through cells of `inside`.
pub open spec fn inside_path(w: int, h: int, inside: Seq<bool>, path: Seq<int>) -> bool {
    &&& path.len() > 0
    &&& forall|i: int| 0 <= i < path.len() ==> 0 <= #[trigger] path[i] < w * h && inside[path[i]]
    &&& forall|i: int| 0 < i < path.len() ==> #[trigger] adjacent(w, h, path[i - 1], path[i])
}

/// A flood finds shortest paths: every cell reachable from a seed along a
/// path through inside cells is reached, at most as many steps out as the
/// path is long (and `labels` gives each reached cell a path from its own
/// root exactly as long as its distance).
pub proof fn lemma_flood_shortest(
    f: Flood,
    w: int,
    h: int,
    inside: Seq<bool>,
    seeds: Seq<usize>,
    path: Seq<int>,
    k: int,
)
    requires
        f.labels(w, h, inside, seeds),
        inside_path(w, h, inside, path),
        w * h <= usize::MAX,
        seeds.contains(path[0] as usize),
        0 <= k < path.len(),
    ensures
        f.reached@[path[k]],
        f.dist@[path[k]] <= k,
    decreases k,
{
    reveal(Flood::labels);
    if k == 0 {
        let i = choose|i: int| 0 <= i < seeds.len() && seeds[i] == path[0] as usize;
        assert(f.order@[i] == seeds[i]);
        assert(seeds[i] as int == path[0]);
    } else {
        lemma_flood_shortest(f, w, h, inside, seeds, path, k - 1);
        assert(adjacent(w, h, path[k - 1], path[k]));
        assert(0 <= path[k - 1] < w * h);
    }
}

} // verus!
