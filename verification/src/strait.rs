//! Cutting one landmass into two: a geodesic split along the landmass's own
//! connectivity, so that it separates the landmass however concave it is.
//!
//! Seeds go at the two ends of the landmass's approximate diameter (the
//! farthest cell from a start cell, then the farthest cell from that one),
//! a two-seed flood assigns every cell to the seed whose front reaches it
//! first, and the cells where the two sides touch form a seam. A strait is
//! then every cell within some distance of the seam.
use crate::elevation::{chained, lemma_adjacent_listed, pidx, touches_earlier};
use crate::flood::{bfs_order, flood, Flood};
use crate::grid::{
    adjacent, cell_index, coords_as_int, lemma_adjacent_symmetric, lemma_cell_index_range,
    lemma_index_coords, lemma_listed_adjacent, neighbor_coords, Grid,
};
use vstd::prelude::*;

verus! {

/// `s` is closed under adjacency within the cells marked in `inside`.
pub open spec fn closed_in(w: int, h: int, inside: Seq<bool>, s: Set<int>) -> bool {
    forall|c: int, j: int|
        #![trigger s.contains(c), adjacent(w, h, c, j)]
        s.contains(c) && 0 <= c < w * h && inside[c] && adjacent(w, h, c, j) && inside[j]
            ==> s.contains(j)
}

/// The cells marked in `inside` form one 8-connected piece: every set that
/// holds one of them and is closed under adjacency holds them all.
pub open spec fn connected(w: int, h: int, inside: Seq<bool>) -> bool {
    forall|s: Set<int>|
        #[trigger] closed_in(w, h, inside, s) && (exists|c: int|
            0 <= c < w * h && inside[c] && s.contains(c)) ==> forall|c: int|
            0 <= c < w * h && inside[c] ==> s.contains(c)
}

/// The cells of `comp`, marked on a `w` by `h` grid.
pub open spec fn mask_of(w: int, h: int, comp: Seq<(usize, usize)>) -> Seq<bool> {
    Seq::new(
        (w * h) as nat,
        |c: int| exists|m: int| 0 <= m < comp.len() && #[trigger] pidx(w, comp[m]) == c,
    )
}

/// `comp` lists distinct cells of a `w` by `h` grid.
pub open spec fn cells_ok(w: int, h: int, comp: Seq<(usize, usize)>) -> bool {
    &&& forall|m: int| 0 <= m < comp.len() ==> (#[trigger] comp[m]).0 < w && comp[m].1 < h
    &&& forall|m1: int, m2: int|
        0 <= m1 < comp.len() && 0 <= m2 < comp.len() && m1 != m2 ==> #[trigger] pidx(w, comp[m1])
            != #[trigger] pidx(w, comp[m2])
}

/// Dimensions that a grid of cells can be built with.
pub open spec fn dims_ok(width: usize, height: usize) -> bool {
    &&& 0 < width
    &&& 0 < height
    &&& width * height <= usize::MAX
    &&& width <= i64::MAX
    &&& height <= i64::MAX
}

/// Every cell of `comp` lies on a `w` by `h` grid.
pub open spec fn cells_in_range(w: int, h: int, comp: Seq<(usize, usize)>) -> bool {
    forall|m: int| 0 <= m < comp.len() ==> (#[trigger] comp[m]).0 < w && comp[m].1 < h
}

/// The first `k` cells of `comp` with repeats dropped: each cell kept where
/// it first appears.
pub open spec fn distinct_of(comp: Seq<(usize, usize)>, k: int) -> Seq<(usize, usize)>
    decreases k,
{
    if k <= 0 {
        Seq::empty()
    } else {
        let prev = distinct_of(comp, k - 1);
        if prev.contains(comp[k - 1]) {
            prev
        } else {
            prev.push(comp[k - 1])
        }
    }
}

/// Storage index `c` is one of the first `k` cells of `comp`.
spec fn listed_in(w: int, comp: Seq<(usize, usize)>, k: int, c: int) -> bool {
    exists|i: int| 0 <= i < k && #[trigger] pidx(w, comp[i]) == c
}

/// Two cells of a grid `w` wide with the same storage index are the same.
proof fn lemma_pidx_injective(w: int, h: int, p: (usize, usize), q: (usize, usize))
    requires
        0 < w,
        p.0 < w,
        p.1 < h,
        q.0 < w,
        q.1 < h,
        pidx(w, p) == pidx(w, q),
    ensures
        p == q,
{
    lemma_index_coords(w, h, p.0 as int, p.1 as int);
    lemma_index_coords(w, h, q.0 as int, q.1 as int);
}

/// The cells of `component` with repeats dropped, each where it first
/// appears: distinct cells that mark the same grid cells.
pub fn distinct_cells(width: usize, height: usize, component: &Vec<(usize, usize)>) -> (r: Vec<
    (usize, usize),
>)
    requires
        dims_ok(width, height),
        cells_in_range(width as int, height as int, component@),
    ensures
        r@ == distinct_of(component@, component@.len() as int),
        cells_ok(width as int, height as int, r@),
        mask_of(width as int, height as int, r@) == mask_of(width as int, height as int, component@),
{
    let ghost w = width as int;
    let ghost h = height as int;
    let ghost comp = component@;
    let mut r: Vec<(usize, usize)> = Vec::new();
    let mut seen: Grid<bool> = Grid::filled(width, height, false);
    let mut m: usize = 0;
    while m < component.len()
        invariant
            dims_ok(width, height),
            comp == component@,
            cells_in_range(w, h, comp),
            w == width,
            h == height,
            seen.wf(),
            seen.width == width,
            seen.height == height,
            m <= comp.len(),
            r@ == distinct_of(comp, m as int),
            cells_ok(w, h, r@),
            forall|c: int|
                0 <= c < w * h ==> (#[trigger] seen@[c] <==> exists|i: int|
                    0 <= i < r@.len() && #[trigger] pidx(w, r@[i]) == c),
            forall|c: int|
                #![trigger listed_in(w, r@, r@.len() as int, c)]
                #![trigger listed_in(w, comp, m as int, c)]
                listed_in(w, r@, r@.len() as int, c) <==> listed_in(w, comp, m as int, c),
        decreases comp.len() - m,
    {
        let (x, y) = component[m];
        proof {
            assert(comp[m as int] == (x, y));
            lemma_index_coords(w, h, x as int, y as int);
        }
        let c0: Ghost<int> = Ghost(pidx(w, (x, y)));
        let hit = *seen.get(x as i64, y as i64);
        let ghost before = r@;
        proof {
            if hit {
                let i = choose|i: int| 0 <= i < before.len() && #[trigger] pidx(w, before[i]) == c0@;
                lemma_pidx_injective(w, h, before[i], (x, y));
                assert(before.contains(comp[m as int]));
            } else {
                if before.contains(comp[m as int]) {
                    let i = choose|i: int| 0 <= i < before.len() && before[i] == comp[m as int];
                    assert(pidx(w, before[i]) == c0@);
                }
            }
        }
        if !hit {
            let ghost seen0 = seen@;
            seen.set(x as i64, y as i64, true);
            r.push((x, y));
            proof {
                assert(seen@ == seen0.update(c0@, true));
                assert(r@ == before.push((x, y)));
                assert forall|i1: int, i2: int|
                    0 <= i1 < r@.len() && 0 <= i2 < r@.len() && i1 != i2 implies #[trigger] pidx(
                    w,
                    r@[i1],
                ) != #[trigger] pidx(w, r@[i2]) by {
                    if i1 < before.len() && i2 < before.len() {
                        assert(r@[i1] == before[i1] && r@[i2] == before[i2]);
                    } else if i1 < before.len() {
                        assert(r@[i1] == before[i1]);
                        lemma_index_coords(w, h, before[i1].0 as int, before[i1].1 as int);
                        assert(seen0[pidx(w, before[i1])]);
                    } else {
                        assert(r@[i2] == before[i2]);
                        lemma_index_coords(w, h, before[i2].0 as int, before[i2].1 as int);
                        assert(seen0[pidx(w, before[i2])]);
                    }
                }
                assert forall|c: int| 0 <= c < w * h implies (#[trigger] seen@[c] <==> exists|i: int|
                    0 <= i < r@.len() && #[trigger] pidx(w, r@[i]) == c) by {
                    if c == c0@ {
                        assert(pidx(w, r@[before.len() as int]) == c);
                    } else if seen@[c] {
                        let i = choose|i: int| 0 <= i < before.len() && #[trigger] pidx(w, before[i]) == c;
                        assert(r@[i] == before[i]);
                    } else if exists|i: int| 0 <= i < r@.len() && #[trigger] pidx(w, r@[i]) == c {
                        let i = choose|i: int| 0 <= i < r@.len() && #[trigger] pidx(w, r@[i]) == c;
                        if i < before.len() {
                            assert(r@[i] == before[i]);
                        }
                    }
                }
            }
        }
        proof {
            assert forall|c: int|
                #![trigger listed_in(w, r@, r@.len() as int, c)]
                #![trigger listed_in(w, comp, m + 1, c)]
                listed_in(w, r@, r@.len() as int, c) <==> listed_in(w, comp, m + 1, c) by {
                if listed_in(w, r@, r@.len() as int, c) {
                    let i = choose|i: int| 0 <= i < r@.len() && #[trigger] pidx(w, r@[i]) == c;
                    if i < before.len() {
                        assert(r@[i] == before[i]);
                        assert(listed_in(w, before, before.len() as int, c));
                        let m2 = choose|m2: int| 0 <= m2 < m && #[trigger] pidx(w, comp[m2]) == c;
                    } else {
                        assert(pidx(w, comp[m as int]) == c);
                    }
                }
                if listed_in(w, comp, m + 1, c) {
                    let m2 = choose|m2: int| 0 <= m2 < m + 1 && #[trigger] pidx(w, comp[m2]) == c;
                    if m2 < m {
                        assert(listed_in(w, comp, m as int, c));
                        assert(listed_in(w, before, before.len() as int, c));
                        let i = choose|i: int| 0 <= i < before.len() && #[trigger] pidx(w, before[i]) == c;
                        if !hit {
                            assert(r@[i] == before[i]);
                        }
                    } else if hit {
                        assert(seen@[c0@]);
                        let i = choose|i: int| 0 <= i < before.len() && #[trigger] pidx(w, before[i]) == c0@;
                    } else {
                        assert(pidx(w, r@[before.len() as int]) == c);
                    }
                }
            }
        }
        m = m + 1;
    }
    proof {
        assert(mask_of(w, h, r@) =~= mask_of(w, h, comp)) by {
            assert forall|c: int| 0 <= c < w * h implies mask_of(w, h, r@)[c] == mask_of(w, h, comp)[c] by {
                assert(mask_of(w, h, comp)[c] == listed_in(w, comp, comp.len() as int, c));
                assert(mask_of(w, h, r@)[c] == listed_in(w, r@, r@.len() as int, c));
            }
        }
    }
    r
}

/// The cells of `component` marked on a fresh grid.
fn member_mask(width: usize, height: usize, component: &Vec<(usize, usize)>) -> (g: Grid<bool>)
    requires
        dims_ok(width, height),
        cells_ok(width as int, height as int, component@),
    ensures
        g.usable(),
        g.width == width,
        g.height == height,
        g@ == mask_of(width as int, height as int, component@),
{
    let ghost w = width as int;
    let ghost h = height as int;
    let ghost comp = component@;
    let mut g: Grid<bool> = Grid::filled(width, height, false);
    let mut k: usize = 0;
    while k < component.len()
        invariant
            dims_ok(width, height),
            w == width,
            h == height,
            comp == component@,
            cells_ok(w, h, comp),
            g.wf(),
            g.width == width,
            g.height == height,
            k <= comp.len(),
            forall|c: int|
                0 <= c < w * h ==> (g@[c] <==> exists|m: int|
                    0 <= m < k && #[trigger] pidx(w, comp[m]) == c),
        decreases comp.len() - k,
    {
        let (x, y) = component[k];
        proof {
            lemma_index_coords(w, h, x as int, y as int);
        }
        let ghost before = g@;
        g.set(x as i64, y as i64, true);
        proof {
            assert forall|c: int| 0 <= c < w * h implies (g@[c] <==> exists|m: int|
                0 <= m < k + 1 && #[trigger] pidx(w, comp[m]) == c) by {
                if c == pidx(w, comp[k as int]) {
                    assert(pidx(w, comp[k as int]) == c);
                } else {
                    assert(g@[c] == before[c]);
                    if exists|m: int| 0 <= m < k + 1 && #[trigger] pidx(w, comp[m]) == c {
                        let m = choose|m: int| 0 <= m < k + 1 && #[trigger] pidx(w, comp[m]) == c;
                        assert(m < k);
                    }
                }
            }
        }
        k = k + 1;
    }
    proof {
        assert(g@ =~= mask_of(w, h, comp));
    }
    g
}

/// The reached cells of a flood form a set closed under adjacency.
proof fn lemma_reached_closed(f: Flood, w: int, h: int, inside: Seq<bool>, seeds: Seq<usize>)
    requires
        0 < w,
        0 < h,
        f.labels(w, h, inside, seeds),
    ensures
        closed_in(w, h, inside, Set::new(|c: int| 0 <= c < w * h && f.reached@[c])),
{
    reveal(Flood::labels);
    let s = Set::new(|c: int| 0 <= c < w * h && f.reached@[c]);
    assert forall|c: int, j: int|
        s.contains(c) && 0 <= c < w * h && inside[c] && adjacent(w, h, c, j)
            && inside[j] implies s.contains(j) by {
        lemma_adjacent_symmetric(w, h, c, j);
        assert(f.reached@[c]);
        assert(f.reached@[j]);
    }
}

/// A closed set that holds a reached cell of a one-seed flood holds the
/// seed: walk back towards it along cells one step closer each.
proof fn lemma_chain_down(
    f: Flood,
    w: int,
    h: int,
    inside: Seq<bool>,
    seed: usize,
    s: Set<int>,
    c: int,
)
    requires
        0 < w,
        0 < h,
        f.labels(w, h, inside, seq![seed]),
        closed_in(w, h, inside, s),
        0 <= c < w * h,
        f.reached@[c],
        s.contains(c),
    ensures
        s.contains(seed as int),
    decreases f.dist@[c],
{
    reveal(Flood::labels);
    let seeds = seq![seed];
    if c != seed as int {
        assert forall|i: int| 0 <= i < seeds.len() implies #[trigger] seeds[i] != c by {}
        let p = choose|p: int|
            0 <= p < w * h && f.reached@[p] && #[trigger] adjacent(w, h, p, c) && f.dist@[p] + 1
                == f.dist@[c] && f.root@[p] == f.root@[c];
        lemma_adjacent_symmetric(w, h, p, c);
        assert(inside[c] && inside[p]);
        assert(s.contains(p));
        lemma_chain_down(f, w, h, inside, seed, s, p);
    }
}

/// A closed set that holds the seed of a one-seed flood holds every cell
/// the flood reached.
proof fn lemma_chain_up(
    f: Flood,
    w: int,
    h: int,
    inside: Seq<bool>,
    seed: usize,
    s: Set<int>,
    t: int,
)
    requires
        0 < w,
        0 < h,
        f.labels(w, h, inside, seq![seed]),
        closed_in(w, h, inside, s),
        s.contains(seed as int),
        0 <= t < w * h,
        f.reached@[t],
    ensures
        s.contains(t),
    decreases f.dist@[t],
{
    reveal(Flood::labels);
    let seeds = seq![seed];
    if t != seed as int {
        assert forall|i: int| 0 <= i < seeds.len() implies #[trigger] seeds[i] != t by {}
        let p = choose|p: int|
            0 <= p < w * h && f.reached@[p] && #[trigger] adjacent(w, h, p, t) && f.dist@[p] + 1
                == f.dist@[t] && f.root@[p] == f.root@[t];
        lemma_chain_up(f, w, h, inside, seed, s, p);
        assert(inside[p] && inside[t]);
    }
}

/// On connected cells, a flood from at least one seed reaches them all.
proof fn lemma_flood_covers(f: Flood, w: int, h: int, inside: Seq<bool>, seeds: Seq<usize>)
    requires
        f.labels(w, h, inside, seeds),
        connected(w, h, inside),
        seeds.len() > 0,
        0 < w,
        0 < h,
    ensures
        forall|c: int| 0 <= c < w * h && inside[c] ==> #[trigger] f.reached@[c],
{
    reveal(Flood::labels);
    let s = Set::new(|c: int| 0 <= c < w * h && f.reached@[c]);
    lemma_reached_closed(f, w, h, inside, seeds);
    let c0 = seeds[0] as int;
    assert(f.order@[0] == seeds[0]);
    assert(s.contains(c0));
    assert(closed_in(w, h, inside, s));
    assert forall|c: int| 0 <= c < w * h && inside[c] implies #[trigger] f.reached@[c] by {
        assert(s.contains(c));
    }
}

/// A closed set holding a cell of a chained list holds its first cell.
proof fn lemma_chain_back(w: int, h: int, comp: Seq<(usize, usize)>, s: Set<int>, m: int)
    requires
        0 < w,
        0 < h,
        cells_ok(w, h, comp),
        chained(w, h, comp),
        closed_in(w, h, mask_of(w, h, comp), s),
        0 <= m < comp.len(),
        s.contains(pidx(w, comp[m])),
    ensures
        s.contains(pidx(w, comp[0])),
    decreases m,
{
    if m > 0 {
        assert(touches_earlier(w, h, comp, m));
        let m2 = choose|m2: int|
            0 <= m2 < m && #[trigger] adjacent(w, h, pidx(w, comp[m2]), pidx(w, comp[m]));
        lemma_index_coords(w, h, comp[m].0 as int, comp[m].1 as int);
        lemma_index_coords(w, h, comp[m2].0 as int, comp[m2].1 as int);
        lemma_adjacent_symmetric(w, h, pidx(w, comp[m2]), pidx(w, comp[m]));
        let mask = mask_of(w, h, comp);
        assert(mask[pidx(w, comp[m])] && mask[pidx(w, comp[m2])]) by {
            assert(pidx(w, comp[m]) == pidx(w, comp[m]));
            assert(pidx(w, comp[m2]) == pidx(w, comp[m2]));
        }
        assert(s.contains(pidx(w, comp[m2])));
        lemma_chain_back(w, h, comp, s, m2);
    }
}

/// A closed set holding the first cell of a chained list holds every cell.
proof fn lemma_chain_forward(w: int, h: int, comp: Seq<(usize, usize)>, s: Set<int>, m: int)
    requires
        0 < w,
        0 < h,
        cells_ok(w, h, comp),
        chained(w, h, comp),
        closed_in(w, h, mask_of(w, h, comp), s),
        0 <= m < comp.len(),
        s.contains(pidx(w, comp[0])),
    ensures
        s.contains(pidx(w, comp[m])),
    decreases m,
{
    if m > 0 {
        assert(touches_earlier(w, h, comp, m));
        let m2 = choose|m2: int|
            0 <= m2 < m && #[trigger] adjacent(w, h, pidx(w, comp[m2]), pidx(w, comp[m]));
        lemma_chain_forward(w, h, comp, s, m2);
        lemma_index_coords(w, h, comp[m].0 as int, comp[m].1 as int);
        lemma_index_coords(w, h, comp[m2].0 as int, comp[m2].1 as int);
        let mask = mask_of(w, h, comp);
        assert(mask[pidx(w, comp[m])] && mask[pidx(w, comp[m2])]) by {
            assert(pidx(w, comp[m]) == pidx(w, comp[m]));
            assert(pidx(w, comp[m2]) == pidx(w, comp[m2]));
        }
    }
}

/// Cells listed so that each touches an earlier one form one connected
/// piece.
pub proof fn lemma_chained_connected(w: int, h: int, comp: Seq<(usize, usize)>)
    requires
        0 < w,
        0 < h,
        cells_ok(w, h, comp),
        chained(w, h, comp),
    ensures
        connected(w, h, mask_of(w, h, comp)),
{
    let mask = mask_of(w, h, comp);
    assert forall|s: Set<int>|
        #[trigger] closed_in(w, h, mask, s) && (exists|c: int|
            0 <= c < w * h && mask[c] && s.contains(c)) implies forall|c: int|
        0 <= c < w * h && mask[c] ==> s.contains(c) by {
        let c1 = choose|c: int| 0 <= c < w * h && mask[c] && s.contains(c);
        let m1 = choose|m: int| 0 <= m < comp.len() && #[trigger] pidx(w, comp[m]) == c1;
        lemma_chain_back(w, h, comp, s, m1);
        assert forall|c: int| 0 <= c < w * h && mask[c] implies s.contains(c) by {
            let m = choose|m: int| 0 <= m < comp.len() && #[trigger] pidx(w, comp[m]) == c;
            lemma_chain_forward(w, h, comp, s, m);
        }
    }
}

/// Whether the cells of `component` form one 8-connected piece.
pub fn is_connected(width: usize, height: usize, component: &Vec<(usize, usize)>) -> (r: bool)
    requires
        dims_ok(width, height),
        cells_in_range(width as int, height as int, component@),
    ensures
        r == connected(width as int, height as int, mask_of(width as int, height as int, component@)),
{
    let cells = distinct_cells(width, height, component);
    connected_distinct(width, height, &cells)
}

/// Whether distinct cells form one 8-connected piece.
fn connected_distinct(width: usize, height: usize, component: &Vec<(usize, usize)>) -> (r: bool)
    requires
        dims_ok(width, height),
        cells_ok(width as int, height as int, component@),
    ensures
        r == connected(width as int, height as int, mask_of(width as int, height as int, component@)),
{
    let ghost w = width as int;
    let ghost h = height as int;
    let ghost mask = mask_of(w, h, component@);
    if component.len() == 0 {
        proof {
            assert forall|s: Set<int>|
                #[trigger] closed_in(w, h, mask, s) && (exists|c: int|
                    0 <= c < w * h && mask[c] && s.contains(c)) implies forall|c: int|
                0 <= c < w * h && mask[c] ==> s.contains(c) by {
                let c = choose|c: int| 0 <= c < w * h && mask[c] && s.contains(c);
                assert(mask[c]);
            }
        }
        return true;
    }
    let g = member_mask(width, height, component);
    let (x0, y0) = component[0];
    proof {
        lemma_index_coords(w, h, x0 as int, y0 as int);
        assert(mask[pidx(w, component@[0])]) by {
            assert(pidx(w, component@[0]) == pidx(w, component@[0]));
        }
    }
    let start = y0 * width + x0;
    let seeds = vec![start];
    let f = flood(&g, &seeds);
    let n = g.cells.len();
    let mut c: usize = 0;
    while c < n
        invariant
            n == w * h,
            w == width,
            h == height,
            mask == mask_of(w, h, component@),
            g@ == mask,
            seeds@ == seq![start],
            f.labels(w, h, mask, seeds@),
            f.reached@.len() == n,
            g.cells@.len() == n,
            start < n,
            mask[start as int],
            0 < w,
            0 < h,
            c <= n,
            forall|c2: int| 0 <= c2 < c && mask[c2] ==> #[trigger] f.reached@[c2],
        decreases n - c,
    {
        if g.cells[c] && !f.reached[c] {
            proof {
                let s = Set::new(|c3: int| 0 <= c3 < w * h && f.reached@[c3]);
                lemma_reached_closed(f, w, h, mask, seeds@);
                reveal(Flood::labels);
                assert(f.order@[0] == start);
                assert(s.contains(start as int));
                assert(!s.contains(c as int));
                assert(closed_in(w, h, mask, s));
                assert(mask[c as int]);
                assert(!connected(w, h, mask)) by {
                    if connected(w, h, mask) {
                        assert(0 <= start < w * h && mask[start as int] && s.contains(start as int));
                        assert(s.contains(c as int));
                    }
                }
            }
            return false;
        }
        c = c + 1;
    }
    proof {
        assert forall|s: Set<int>|
            #[trigger] closed_in(w, h, mask, s) && (exists|c1: int|
                0 <= c1 < w * h && mask[c1] && s.contains(c1)) implies forall|t: int|
            0 <= t < w * h && mask[t] ==> s.contains(t) by {
            let c1 = choose|c1: int| 0 <= c1 < w * h && mask[c1] && s.contains(c1);
            assert(f.reached@[c1]);
            lemma_chain_down(f, w, h, mask, start, s, c1);
            assert forall|t: int| 0 <= t < w * h && mask[t] implies s.contains(t) by {
                assert(f.reached@[t]);
                lemma_chain_up(f, w, h, mask, start, s, t);
            }
        }
    }
    true
}

/// A cell at the greatest flood distance from `start` over the cells of
/// `inside` (the last one a breadth-first search takes off its queue).
pub fn farthest_from(inside: &Grid<bool>, start: usize) -> (r: usize)
    requires
        inside.usable(),
        start < inside@.len(),
        inside@[start as int],
    ensures
        r < inside@.len(),
        inside@[r as int],
        exists|f: Flood|
            #[trigger] f.labels(inside.width as int, inside.height as int, inside@, one_seed(start))
                && r == f.order@.last(),
        r == bfs_order(inside.width as int, inside.height as int, inside@, one_seed(start)).last(),
{
    let seeds = vec![start];
    let f = flood(inside, &seeds);
    proof {
        reveal(Flood::labels);
        assert(seeds@ == one_seed(start));
        assert(f.order@.len() >= 1);
        let i = f.order@.len() - 1;
        assert(f.order@[i] < inside@.len() && f.reached@[f.order@[i] as int]);
    }
    let r = f.order[f.order.len() - 1];
    r
}

/// How `plan_split` divides a landmass: the two seeds (storage indices of
/// the diameter ends it found), then, per cell of the landmass in its
/// order, the side it falls on (`true` for the second seed's) and its step
/// distance from the seam between the sides.
pub struct SplitPlan {
    /// The landmass's cells, each once, in the order first given; `side`
    /// and `ring` are indexed like it.
    pub cells: Vec<(usize, usize)>,
    pub ends: (usize, usize),
    pub side: Vec<bool>,
    pub ring: Vec<usize>,
}

/// The cell the first search starts from: the one `jitter` picks.
pub open spec fn start_cell(w: int, comp: Seq<(usize, usize)>, jitter: u64) -> usize {
    pidx(w, comp[(jitter as usize) as int % comp.len() as int]) as usize
}

/// Cell `m` of `comp` touches a cell of `comp` on the other side.
pub open spec fn on_seam(w: int, h: int, comp: Seq<(usize, usize)>, side: Seq<bool>, m: int) -> bool {
    exists|m2: int|
        0 <= m2 < comp.len() && #[trigger] adjacent(w, h, pidx(w, comp[m]), pidx(w, comp[m2]))
            && side[m2] != side[m]
}

/// The seam cells among the first `k` cells of `comp`, in order.
pub open spec fn seam_of(w: int, h: int, comp: Seq<(usize, usize)>, side: Seq<bool>, k: int) -> Seq<
    usize,
>
    decreases k,
{
    if k <= 0 {
        Seq::empty()
    } else if on_seam(w, h, comp, side, k - 1) {
        seam_of(w, h, comp, side, k - 1).push(pidx(w, comp[k - 1]) as usize)
    } else {
        seam_of(w, h, comp, side, k - 1)
    }
}

/// A single seed, as a seed list.
pub open spec fn one_seed(s: usize) -> Seq<usize> {
    seq![s]
}

/// The two seeds of a split, as a seed list.
pub open spec fn pair_seeds(ends: (usize, usize)) -> Seq<usize> {
    seq![ends.0, ends.1]
}

/// The sides of `p` are those of a two-seed flood from its ends, which
/// reaches every cell.
pub open spec fn sides_ok(w: int, h: int, comp: Seq<(usize, usize)>, p: SplitPlan) -> bool {
    &&& p.side@.len() == comp.len()
    &&& exists|fs: Flood|
        #[trigger] fs.labels(w, h, mask_of(w, h, comp), pair_seeds(p.ends)) && fs.order@ == bfs_order(
            w,
            h,
            mask_of(w, h, comp),
            pair_seeds(p.ends),
        ) && forall|m: int|
            0 <= m < comp.len() ==> fs.reached@[pidx(w, #[trigger] comp[m])] && p.side@[m] == (
            fs.root@[pidx(w, comp[m])] == p.ends.1)
}

/// The ring distances of `p` are those of a flood from every seam cell,
/// which reaches every cell.
pub open spec fn ring_ok(w: int, h: int, comp: Seq<(usize, usize)>, p: SplitPlan) -> bool {
    &&& p.ring@.len() == comp.len()
    &&& exists|fr: Flood|
        #[trigger] fr.labels(
            w,
            h,
            mask_of(w, h, comp),
            seam_of(w, h, comp, p.side@, comp.len() as int),
        ) && fr.order@ == bfs_order(
            w,
            h,
            mask_of(w, h, comp),
            seam_of(w, h, comp, p.side@, comp.len() as int),
        ) && forall|m: int|
            0 <= m < comp.len() ==> fr.reached@[pidx(w, #[trigger] comp[m])] && p.ring@[m]
                == fr.dist@[pidx(w, comp[m])]
}

/// A seam cell is listed in `seam_of`, and everything listed there is the
/// storage index of a seam cell among the first `k`.
proof fn lemma_seam_of(w: int, h: int, comp: Seq<(usize, usize)>, side: Seq<bool>, k: int)
    requires
        0 <= k <= comp.len(),
        cells_ok(w, h, comp),
        0 < w,
    ensures
        forall|m: int|
            0 <= m < k && on_seam(w, h, comp, side, m) ==> seam_of(w, h, comp, side, k).contains(
                pidx(w, #[trigger] comp[m]) as usize,
            ),
    decreases k,
{
    if k > 0 {
        lemma_seam_of(w, h, comp, side, k - 1);
        let prev = seam_of(w, h, comp, side, k - 1);
        assert forall|m: int|
            0 <= m < k && on_seam(w, h, comp, side, m) implies seam_of(w, h, comp, side, k).contains(
            pidx(w, #[trigger] comp[m]) as usize,
        ) by {
            if m < k - 1 {
                let i = choose|i: int| 0 <= i < prev.len() && prev[i] == pidx(w, comp[m]) as usize;
                if on_seam(w, h, comp, side, k - 1) {
                    assert(prev.push(pidx(w, comp[k - 1]) as usize)[i] == prev[i]);
                }
            } else {
                let s = prev.push(pidx(w, comp[k - 1]) as usize);
                assert(s[prev.len() as int] == pidx(w, comp[k - 1]) as usize);
            }
        }
    }
}

/// Seam cells are at ring distance 0.
proof fn lemma_seam_ring_zero(w: int, h: int, comp: Seq<(usize, usize)>, p: SplitPlan, m: int)
    requires
        0 < w,
        cells_ok(w, h, comp),
        ring_ok(w, h, comp, p),
        0 <= m < comp.len(),
        on_seam(w, h, comp, p.side@, m),
    ensures
        p.ring@[m] == 0,
{
    reveal(Flood::labels);
    let seam = seam_of(w, h, comp, p.side@, comp.len() as int);
    let fr = choose|fr: Flood|
        #[trigger] fr.labels(w, h, mask_of(w, h, comp), seam) && forall|m: int|
            0 <= m < comp.len() ==> fr.reached@[pidx(w, #[trigger] comp[m])] && p.ring@[m]
                == fr.dist@[pidx(w, comp[m])];
    lemma_seam_of(w, h, comp, p.side@, comp.len() as int);
    assert(seam.contains(pidx(w, comp[m]) as usize));
    let i = choose|i: int| 0 <= i < seam.len() && seam[i] == pidx(w, comp[m]) as usize;
    assert(fr.dist@[seam[i] as int] == 0);
    lemma_index_coords(w, h, comp[m].0 as int, comp[m].1 as int);
}

/// The neighbor scan of cell `m` finds a cell of the other side exactly
/// when `m` is on the seam.
proof fn lemma_seam_found(
    w: int,
    h: int,
    comp: Seq<(usize, usize)>,
    side: Seq<bool>,
    root: Seq<usize>,
    b: usize,
    m: int,
    nbrs: Seq<(i64, i64)>,
)
    requires
        0 < w,
        0 < h,
        cells_ok(w, h, comp),
        0 <= m < comp.len(),
        side.len() == comp.len(),
        root.len() == w * h,
        forall|m2: int| 0 <= m2 < comp.len() ==> side[m2] == (root[pidx(w, #[trigger] comp[m2])] == b),
        coords_as_int(nbrs) == neighbor_coords(comp[m].0 as int, comp[m].1 as int, h, 8),
    ensures
        (exists|t2: int|
            0 <= t2 < nbrs.len() && mask_of(w, h, comp)[#[trigger] cell_index(
                w,
                h,
                nbrs[t2].0 as int,
                nbrs[t2].1 as int,
            )] && (root[cell_index(w, h, nbrs[t2].0 as int, nbrs[t2].1 as int)] == b) != side[m])
            <==> on_seam(w, h, comp, side, m),
{
    let mask = mask_of(w, h, comp);
    let x = comp[m].0 as int;
    let y = comp[m].1 as int;
    let c = pidx(w, comp[m]);
    let nc = neighbor_coords(x, y, h, 8);
    if exists|t2: int|
        0 <= t2 < nbrs.len() && mask[#[trigger] cell_index(
            w,
            h,
            nbrs[t2].0 as int,
            nbrs[t2].1 as int,
        )] && (root[cell_index(w, h, nbrs[t2].0 as int, nbrs[t2].1 as int)] == b) != side[m] {
        let t2 = choose|t2: int|
            0 <= t2 < nbrs.len() && mask[#[trigger] cell_index(
                w,
                h,
                nbrs[t2].0 as int,
                nbrs[t2].1 as int,
            )] && (root[cell_index(w, h, nbrs[t2].0 as int, nbrs[t2].1 as int)] == b) != side[m];
        let j = cell_index(w, h, nbrs[t2].0 as int, nbrs[t2].1 as int);
        assert(coords_as_int(nbrs)[t2] == nc[t2]);
        assert(nc.len() == nbrs.len());
        lemma_listed_adjacent(w, h, x, y, t2);
        lemma_cell_index_range(w, h, nbrs[t2].0 as int, nbrs[t2].1 as int);
        let m2 = choose|m2: int| 0 <= m2 < comp.len() && #[trigger] pidx(w, comp[m2]) == j;
        assert(adjacent(w, h, pidx(w, comp[m]), pidx(w, comp[m2])));
        assert(side[m2] != side[m]);
    }
    if on_seam(w, h, comp, side, m) {
        let m2 = choose|m2: int|
            0 <= m2 < comp.len() && #[trigger] adjacent(w, h, pidx(w, comp[m]), pidx(w, comp[m2]))
                && side[m2] != side[m];
        let j = pidx(w, comp[m2]);
        lemma_adjacent_listed(w, h, x, y, j);
        let t2 = choose|t2: int|
            0 <= t2 < nc.len() && cell_index(w, h, #[trigger] nc[t2].0, nc[t2].1) == j;
        assert(coords_as_int(nbrs)[t2] == nc[t2]);
        lemma_index_coords(w, h, comp[m2].0 as int, comp[m2].1 as int);
        assert(mask[j]) by {
            assert(pidx(w, comp[m2]) == j);
        }
        assert(cell_index(w, h, nbrs[t2].0 as int, nbrs[t2].1 as int) == j);
    }
}

/// On a connected landmass the two sides of a two-seed flood touch
/// somewhere, so the seam is not empty.
proof fn lemma_seam_nonempty(
    w: int,
    h: int,
    comp: Seq<(usize, usize)>,
    side: Seq<bool>,
    sides: Flood,
    a: usize,
    b: usize,
)
    requires
        0 < w,
        0 < h,
        cells_ok(w, h, comp),
        connected(w, h, mask_of(w, h, comp)),
        sides.labels(w, h, mask_of(w, h, comp), pair_seeds((a, b))),
        a != b,
        side.len() == comp.len(),
        forall|m2: int|
            0 <= m2 < comp.len() ==> side[m2] == (sides.root@[pidx(w, #[trigger] comp[m2])] == b),
    ensures
        seam_of(w, h, comp, side, comp.len() as int).len() > 0,
{
    reveal(Flood::labels);
    let mask = mask_of(w, h, comp);
    let n = w * h;
    let seam = seam_of(w, h, comp, side, comp.len() as int);
    let seeds = pair_seeds((a, b));
    assert(sides.order@[0] == a && sides.order@[1] == b);
    assert(a < n && b < n && sides.reached@[a as int] && sides.reached@[b as int]);
    assert(sides.root@[a as int] == a && sides.root@[b as int] == b) by {
        assert(seeds[0] == a && seeds[1] == b);
    }
    if seam.len() == 0 {
        lemma_seam_of(w, h, comp, side, comp.len() as int);
        let f = Set::new(|c: int| 0 <= c < n && mask[c] && sides.root@[c] != b);
        assert(closed_in(w, h, mask, f)) by {
            assert forall|c: int, j: int|
                #![trigger f.contains(c), adjacent(w, h, c, j)]
                f.contains(c) && 0 <= c < w * h && mask[c] && adjacent(w, h, c, j) && mask[j]
                    implies f.contains(j) by {
                lemma_adjacent_symmetric(w, h, c, j);
                let m1 = choose|m1: int| 0 <= m1 < comp.len() && #[trigger] pidx(w, comp[m1]) == c;
                let m2 = choose|m2: int| 0 <= m2 < comp.len() && #[trigger] pidx(w, comp[m2]) == j;
                assert(adjacent(w, h, pidx(w, comp[m1]), pidx(w, comp[m2])));
                if side[m2] != side[m1] {
                    assert(on_seam(w, h, comp, side, m1));
                    assert(seam.contains(pidx(w, comp[m1]) as usize));
                }
            }
        }
        assert(mask[a as int]);
        assert(f.contains(a as int));
        assert(mask[b as int]);
        assert(f.contains(b as int));
    }
}

/// `root[cell] == b` for each cell of `component`, in its order.
fn sides_of(width: usize, height: usize, component: &Vec<(usize, usize)>, root: &Vec<usize>, b: usize) -> (side: Vec<bool>)
    requires
        dims_ok(width, height),
        cells_ok(width as int, height as int, component@),
        root@.len() == width * height,
    ensures
        side@.len() == component@.len(),
        forall|m2: int|
            0 <= m2 < component@.len() ==> side@[m2] == (root@[pidx(width as int, #[trigger] component@[m2])] == b),
{
    let ghost w = width as int;
    let ghost h = height as int;
    let mut side: Vec<bool> = Vec::new();
    let mut m: usize = 0;
    while m < component.len()
        invariant
            w == width,
            h == height,
            dims_ok(width, height),
            cells_ok(w, h, component@),
            root@.len() == w * h,
            m <= component@.len(),
            side@.len() == m,
            forall|m2: int|
                0 <= m2 < m ==> side@[m2] == (root@[pidx(w, #[trigger] component@[m2])] == b),
        decreases component@.len() - m,
    {
        let (x, y) = component[m];
        proof {
            lemma_index_coords(w, h, x as int, y as int);
        }
        let c = y * width + x;
        side.push(root[c] == b);
        m = m + 1;
    }
    side
}

/// `dist[cell]` for each cell of `component`, in its order.
fn dists_of(width: usize, height: usize, component: &Vec<(usize, usize)>, dist: &Vec<usize>) -> (ring: Vec<usize>)
    requires
        dims_ok(width, height),
        cells_ok(width as int, height as int, component@),
        dist@.len() == width * height,
    ensures
        ring@.len() == component@.len(),
        forall|m2: int|
            0 <= m2 < component@.len() ==> ring@[m2] == dist@[pidx(width as int, #[trigger] component@[m2])],
{
    let ghost w = width as int;
    let ghost h = height as int;
    let mut ring: Vec<usize> = Vec::new();
    let mut m: usize = 0;
    while m < component.len()
        invariant
            w == width,
            h == height,
            dims_ok(width, height),
            cells_ok(w, h, component@),
            dist@.len() == w * h,
            m <= component@.len(),
            ring@.len() == m,
            forall|m2: int|
                0 <= m2 < m ==> ring@[m2] == dist@[pidx(w, #[trigger] component@[m2])],
        decreases component@.len() - m,
    {
        let (x, y) = component[m];
        proof {
            lemma_index_coords(w, h, x as int, y as int);
        }
        let c = y * width + x;
        ring.push(dist[c]);
        m = m + 1;
    }
    ring
}

/// Whether cell `m` of `component` has a neighbor on the other side.
fn touches_other_side(
    mask_grid: &Grid<bool>,
    component: &Vec<(usize, usize)>,
    side: &Vec<bool>,
    root: &Vec<usize>,
    b: usize,
    m: usize,
) -> (r: bool)
    requires
        dims_ok(mask_grid.width, mask_grid.height),
        mask_grid.usable(),
        cells_ok(mask_grid.width as int, mask_grid.height as int, component@),
        mask_grid@ == mask_of(mask_grid.width as int, mask_grid.height as int, component@),
        root@.len() == mask_grid.width * mask_grid.height,
        side@.len() == component@.len(),
        forall|m2: int|
            0 <= m2 < component@.len() ==> side@[m2] == (root@[pidx(mask_grid.width as int, #[trigger] component@[m2])] == b),
        m < component@.len(),
    ensures
        r == on_seam(mask_grid.width as int, mask_grid.height as int, component@, side@, m as int),
{
    let ghost w = mask_grid.width as int;
    let ghost h = mask_grid.height as int;
    let ghost mask = mask_grid@;
    let (x, y) = component[m];
    let side_m = side[m];
    let nbrs = mask_grid.neighbors(x as i64, y as i64);
    let mut found = false;
    let mut t: usize = 0;
    while t < nbrs.len()
        invariant
            w == mask_grid.width,
            h == mask_grid.height,
            mask == mask_grid@,
            mask_grid.usable(),
            root@.len() == w * h,
            t <= nbrs@.len(),
            found <==> exists|t2: int|
                0 <= t2 < t && mask[#[trigger] cell_index(
                    w,
                    h,
                    nbrs@[t2].0 as int,
                    nbrs@[t2].1 as int,
                )] && (root@[cell_index(w, h, nbrs@[t2].0 as int, nbrs@[t2].1 as int)] == b)
                    != side_m,
        decreases nbrs@.len() - t,
    {
        let (nx, ny) = nbrs[t];
        proof {
            lemma_cell_index_range(w, h, nx as int, ny as int);
        }
        let j = mask_grid.index(nx, ny);
        if mask_grid.cells[j] && ((root[j] == b) != side_m) {
            found = true;
        }
        t = t + 1;
    }
    proof {
        lemma_seam_found(w, h, component@, side@, root@, b, m as int, nbrs@);
    }
    found
}

/// The seam cells of `component` (storage indices, in its order).
fn seam_cells(
    mask_grid: &Grid<bool>,
    component: &Vec<(usize, usize)>,
    side: &Vec<bool>,
    root: &Vec<usize>,
    b: usize,
) -> (seam: Vec<usize>)
    requires
        dims_ok(mask_grid.width, mask_grid.height),
        mask_grid.usable(),
        cells_ok(mask_grid.width as int, mask_grid.height as int, component@),
        mask_grid@ == mask_of(mask_grid.width as int, mask_grid.height as int, component@),
        root@.len() == mask_grid.width * mask_grid.height,
        side@.len() == component@.len(),
        forall|m2: int|
            0 <= m2 < component@.len() ==> side@[m2] == (root@[pidx(mask_grid.width as int, #[trigger] component@[m2])] == b),
    ensures
        seam@ == seam_of(mask_grid.width as int, mask_grid.height as int, component@, side@, component@.len() as int),
        forall|i: int|
            0 <= i < seam@.len() ==> #[trigger] seam@[i] < mask_grid@.len() && mask_grid@[seam@[i] as int],
        forall|i: int, j: int|
            0 <= i < seam@.len() && 0 <= j < seam@.len() && i != j ==> #[trigger] seam@[i]
                != #[trigger] seam@[j],
{
    let width = mask_grid.width;
    let ghost w = mask_grid.width as int;
    let ghost h = mask_grid.height as int;
    let ghost comp = component@;
    let len = component.len();
    let mut seam: Vec<usize> = Vec::new();
    let mut m: usize = 0;
    while m < len
        invariant
            width == mask_grid.width,
            w == width,
            h == mask_grid.height,
            comp == component@,
            len == comp.len(),
            dims_ok(mask_grid.width, mask_grid.height),
            mask_grid.usable(),
            cells_ok(w, h, comp),
            mask_grid@ == mask_of(w, h, comp),
            root@.len() == w * h,
            side@.len() == len,
            forall|m2: int|
                0 <= m2 < len ==> side@[m2] == (root@[pidx(w, #[trigger] comp[m2])] == b),
            m <= len,
            seam@ == seam_of(w, h, comp, side@, m as int),
            forall|i: int|
                0 <= i < seam@.len() ==> exists|m2: int|
                    0 <= m2 < m && #[trigger] seam@[i] == pidx(w, comp[m2]) as usize,
            forall|i: int, j: int|
                0 <= i < seam@.len() && 0 <= j < seam@.len() && i != j ==> #[trigger] seam@[i]
                    != #[trigger] seam@[j],
        decreases len - m,
    {
        let (x, y) = component[m];
        proof {
            lemma_index_coords(w, h, x as int, y as int);
        }
        let found = touches_other_side(mask_grid, component, side, root, b, m);
        let ghost before = seam@;
        if found {
            let cell = y * width + x;
            seam.push(cell);
            proof {
                assert forall|i: int| 0 <= i < before.len() implies #[trigger] before[i] != cell by {
                    let m2 = choose|m2: int| 0 <= m2 < m && #[trigger] before[i] == pidx(w, comp[m2]) as usize;
                    lemma_index_coords(w, h, comp[m2].0 as int, comp[m2].1 as int);
                }
                assert forall|i: int| 0 <= i < seam@.len() implies exists|m2: int|
                    0 <= m2 < m + 1 && #[trigger] seam@[i] == pidx(w, comp[m2]) as usize by {
                    if i < before.len() {
                        assert(seam@[i] == before[i]);
                    } else {
                        assert(seam@[i] == pidx(w, comp[m as int]) as usize);
                    }
                }
            }
        }
        m = m + 1;
    }
    proof {
        assert forall|i: int| 0 <= i < seam@.len() implies #[trigger] seam@[i] < mask_grid@.len()
            && mask_grid@[seam@[i] as int] by {
            let m2 = choose|m2: int| 0 <= m2 < len && #[trigger] seam@[i] == pidx(w, comp[m2]) as usize;
            lemma_index_coords(w, h, comp[m2].0 as int, comp[m2].1 as int);
            assert(pidx(w, comp[m2]) == pidx(w, comp[m2]));
        }
    }
    seam
}

/// The plan for distinct, connected `cells`, with the first search starting
/// from storage index `start`.
fn plan_over(width: usize, height: usize, cells: Vec<(usize, usize)>, start: usize) -> (r: Option<
    SplitPlan,
>)
    requires
        dims_ok(width, height),
        cells_ok(width as int, height as int, cells@),
        connected(width as int, height as int, mask_of(width as int, height as int, cells@)),
        start < width * height,
        mask_of(width as int, height as int, cells@)[start as int],
    ensures
        ({
            let mask = mask_of(width as int, height as int, cells@);
            let a = bfs_order(width as int, height as int, mask, one_seed(start)).last();
            let b = bfs_order(width as int, height as int, mask, one_seed(a)).last();
            &&& (r is None <==> a == b)
            &&& (r matches Some(p) ==> p.ends == (a, b))
        }),
        exists|f1: Flood, f2: Flood|
            #[trigger] f1.labels(
                width as int,
                height as int,
                mask_of(width as int, height as int, cells@),
                one_seed(start),
            ) && #[trigger] f2.labels(
                width as int,
                height as int,
                mask_of(width as int, height as int, cells@),
                one_seed(f1.order@.last()),
            ) && (r is None <==> f2.order@.last() == f1.order@.last()) && (r matches Some(p)
                ==> p.ends == (f1.order@.last(), f2.order@.last())),
        r matches Some(p) ==> p.cells@ == cells@ && sides_ok(width as int, height as int, cells@, p)
            && ring_ok(width as int, height as int, cells@, p),
{
    let component = &cells;
    let ghost w = width as int;
    let ghost h = height as int;
    let ghost comp = component@;
    let ghost mask = mask_of(w, h, comp);
    let mask_grid = member_mask(width, height, component);
    let a = farthest_from(&mask_grid, start);
    let b = farthest_from(&mask_grid, a);
    let ghost f1 = choose|f: Flood| #[trigger] f.labels(w, h, mask, one_seed(start)) && a == f.order@.last();
    let ghost f2 = choose|f: Flood| #[trigger] f.labels(w, h, mask, one_seed(a)) && b == f.order@.last();
    if a == b {
        proof {
            assert(f1.labels(w, h, mask, one_seed(start)));
            assert(f2.labels(w, h, mask, one_seed(f1.order@.last())));
        }
        return None;
    }
    let seeds = vec![a, b];
    let sides = flood(&mask_grid, &seeds);
    proof {
        assert(seeds@ == pair_seeds((a, b)));
        lemma_flood_covers(sides, w, h, mask, seeds@);
    }
    let side = sides_of(width, height, component, &sides.root, b);
    let seam = seam_cells(&mask_grid, component, &side, &sides.root, b);
    let ring_flood = flood(&mask_grid, &seam);
    proof {
        lemma_seam_nonempty(w, h, comp, side@, sides, a, b);
        lemma_flood_covers(ring_flood, w, h, mask, seam@);
    }
    let ring = dists_of(width, height, component, &ring_flood.dist);
    let p = SplitPlan { cells, ends: (a, b), side, ring };
    proof {
        assert(f1.labels(w, h, mask, one_seed(start)));
        assert(f2.labels(w, h, mask, one_seed(f1.order@.last())));
        assert(sides.labels(w, h, mask, pair_seeds(p.ends)));
        assert forall|m2: int| 0 <= m2 < comp.len() implies sides.reached@[pidx(w, #[trigger] comp[m2])]
            && p.side@[m2] == (sides.root@[pidx(w, comp[m2])] == p.ends.1) by {
            lemma_index_coords(w, h, comp[m2].0 as int, comp[m2].1 as int);
            assert(mask[pidx(w, comp[m2])]) by {
                assert(pidx(w, comp[m2]) == pidx(w, comp[m2]));
            }
        }
        assert(ring_flood.labels(w, h, mask, seam_of(w, h, comp, p.side@, comp.len() as int)));
        assert forall|m2: int| 0 <= m2 < comp.len() implies ring_flood.reached@[pidx(w, #[trigger] comp[m2])]
            && p.ring@[m2] == ring_flood.dist@[pidx(w, comp[m2])] by {
            lemma_index_coords(w, h, comp[m2].0 as int, comp[m2].1 as int);
            assert(mask[pidx(w, comp[m2])]) by {
                assert(pidx(w, comp[m2]) == pidx(w, comp[m2]));
            }
        }
    }
    Some(p)
}

/// Plans a strait that cuts a landmass (the connected cells of
/// `component`; a cell listed twice counts once) in two: seeds at the two
/// ends of its approximate diameter (the farthest cell from the cell
/// `jitter` picks, then the farthest cell from that one), every cell
/// assigned to the seed whose flood front reaches it first, and every
/// cell's step distance from the seam where the two sides meet. There is
/// no plan for a list of fewer than two cells, nor when the second search
/// ends where it started.
pub fn plan_split(
    width: usize,
    height: usize,
    component: &Vec<(usize, usize)>,
    jitter: u64,
) -> (r: Option<SplitPlan>)
    requires
        dims_ok(width, height),
        cells_in_range(width as int, height as int, component@),
        connected(width as int, height as int, mask_of(width as int, height as int, component@)),
    ensures
        component@.len() < 2 ==> r is None,
        component@.len() >= 2 ==> ({
            let mask = mask_of(width as int, height as int, component@);
            let a = bfs_order(
                width as int,
                height as int,
                mask,
                one_seed(start_cell(width as int, component@, jitter)),
            ).last();
            let b = bfs_order(width as int, height as int, mask, one_seed(a)).last();
            &&& (r is None <==> a == b)
            &&& (r matches Some(p) ==> p.ends == (a, b))
        }),
        component@.len() >= 2 ==> exists|f1: Flood, f2: Flood|
            #[trigger] f1.labels(
                width as int,
                height as int,
                mask_of(width as int, height as int, component@),
                one_seed(start_cell(width as int, component@, jitter)),
            ) && #[trigger] f2.labels(
                width as int,
                height as int,
                mask_of(width as int, height as int, component@),
                one_seed(f1.order@.last()),
            ) && (r is None <==> f2.order@.last() == f1.order@.last()) && (r matches Some(p)
                ==> p.ends == (f1.order@.last(), f2.order@.last())),
        r matches Some(p) ==> p.cells@ == distinct_of(component@, component@.len() as int)
            && sides_ok(width as int, height as int, p.cells@, p) && ring_ok(
            width as int,
            height as int,
            p.cells@,
            p,
        ),
{
    let ghost w = width as int;
    let ghost h = height as int;
    let ghost comp = component@;
    let len = component.len();
    if len < 2 {
        return None;
    }
    let k = (jitter as usize) % len;
    let (sx, sy) = component[k];
    proof {
        assert(comp[k as int] == (sx, sy));
        lemma_index_coords(w, h, sx as int, sy as int);
        assert(pidx(w, comp[k as int]) == pidx(w, comp[k as int]));
        assert(mask_of(w, h, comp)[pidx(w, comp[k as int])]);
    }
    let start = sy * width + sx;
    assert(start == start_cell(w, comp, jitter));
    let cells = distinct_cells(width, height, component);
    plan_over(width, height, cells, start)
}

/// A cell the cut keeps before fragments are dropped: one farther from the
/// seam than its limit, or one of the two seeds.
pub open spec fn keeps(w: int, cells: Seq<(usize, usize)>, p: SplitPlan, limits: Seq<usize>, m: int) -> bool {
    p.ring@[m] > limits[m] || pidx(w, cells[m]) == p.ends.0 || pidx(w, cells[m]) == p.ends.1
}

/// The kept cells, marked on a `w` by `h` grid.
pub open spec fn kept_mask(
    w: int,
    h: int,
    cells: Seq<(usize, usize)>,
    p: SplitPlan,
    limits: Seq<usize>,
) -> Seq<bool> {
    Seq::new(
        (w * h) as nat,
        |c: int|
            exists|m: int|
                0 <= m < cells.len() && #[trigger] pidx(w, cells[m]) == c && keeps(w, cells, p, limits, m),
    )
}

/// The land left standing after a cut: the kept cells that a path of kept
/// cells joins to one of the two seeds (those a flood from the seeds over
/// the kept cells reaches).
pub open spec fn standing(
    w: int,
    h: int,
    cells: Seq<(usize, usize)>,
    p: SplitPlan,
    limits: Seq<usize>,
) -> Seq<bool> {
    let order = bfs_order(w, h, kept_mask(w, h, cells, p, limits), pair_seeds(p.ends));
    Seq::new((w * h) as nat, |c: int| order.contains(c as usize))
}

/// Cell `c` is a cell of `cells` on side `sd`.
pub open spec fn on_side(w: int, cells: Seq<(usize, usize)>, side: Seq<bool>, c: int, sd: bool) -> bool {
    exists|m: int| 0 <= m < cells.len() && #[trigger] pidx(w, cells[m]) == c && side[m] == sd
}

/// The standing land on side `sd` of the plan, marked.
pub open spec fn piece(
    w: int,
    h: int,
    cells: Seq<(usize, usize)>,
    p: SplitPlan,
    limits: Seq<usize>,
    sd: bool,
) -> Seq<bool> {
    Seq::new(
        (w * h) as nat,
        |c: int| standing(w, h, cells, p, limits)[c] && on_side(w, cells, p.side@, c, sd),
    )
}

/// The cells among the first `k` of `cells` that are not left standing,
/// in order.
pub open spec fn cut_of(w: int, cells: Seq<(usize, usize)>, stand: Seq<bool>, k: int) -> Seq<
    (usize, usize),
>
    decreases k,
{
    if k <= 0 {
        Seq::empty()
    } else if !stand[pidx(w, cells[k - 1])] {
        cut_of(w, cells, stand, k - 1).push(cells[k - 1])
    } else {
        cut_of(w, cells, stand, k - 1)
    }
}

/// The seeds of a plan are cells of the landmass, `ends.0` on the first
/// side and `ends.1` on the second.
proof fn lemma_ends_sides(w: int, h: int, cells: Seq<(usize, usize)>, p: SplitPlan)
    requires
        0 < w,
        0 < h,
        cells_ok(w, h, cells),
        sides_ok(w, h, cells, p),
        p.ends.0 != p.ends.1,
    ensures
        p.ends.0 < w * h,
        p.ends.1 < w * h,
        on_side(w, cells, p.side@, p.ends.0 as int, false),
        on_side(w, cells, p.side@, p.ends.1 as int, true),
{
    reveal(Flood::labels);
    let fs = choose|fs: Flood|
        #[trigger] fs.labels(w, h, mask_of(w, h, cells), pair_seeds(p.ends)) && fs.order@ == bfs_order(
            w,
            h,
            mask_of(w, h, cells),
            pair_seeds(p.ends),
        ) && forall|m: int|
            0 <= m < cells.len() ==> fs.reached@[pidx(w, #[trigger] cells[m])] && p.side@[m] == (
            fs.root@[pidx(w, cells[m])] == p.ends.1);
    let seeds = pair_seeds(p.ends);
    assert(seeds[0] == p.ends.0 && seeds[1] == p.ends.1);
    assert(fs.order@[0] == seeds[0]);
    assert(fs.order@[1] == seeds[1]);
    let a = p.ends.0 as int;
    let b = p.ends.1 as int;
    assert(mask_of(w, h, cells)[a]);
    assert(mask_of(w, h, cells)[b]);
    let ma = choose|m: int| 0 <= m < cells.len() && #[trigger] pidx(w, cells[m]) == a;
    let mb = choose|m: int| 0 <= m < cells.len() && #[trigger] pidx(w, cells[m]) == b;
    assert(fs.root@[seeds[0] as int] == seeds[0]);
    assert(fs.root@[seeds[1] as int] == seeds[1]);
    assert(p.side@[ma] == false);
    assert(p.side@[mb] == true);
}

/// Kept cells that touch lie on the same side, unless they are the two
/// seeds themselves: a kept cell on the seam is a seed, since the seam is
/// always cleared.
proof fn lemma_kept_same_side(
    w: int,
    h: int,
    cells: Seq<(usize, usize)>,
    p: SplitPlan,
    limits: Seq<usize>,
    m1: int,
    m2: int,
)
    requires
        0 < w,
        0 < h,
        cells_ok(w, h, cells),
        ring_ok(w, h, cells, p),
        p.side@.len() == cells.len(),
        limits.len() == cells.len(),
        0 <= m1 < cells.len(),
        0 <= m2 < cells.len(),
        keeps(w, cells, p, limits, m1),
        keeps(w, cells, p, limits, m2),
        adjacent(w, h, pidx(w, cells[m1]), pidx(w, cells[m2])),
        !adjacent(w, h, p.ends.0 as int, p.ends.1 as int),
        p.ends.0 != p.ends.1,
        p.ends.0 < w * h,
        p.ends.1 < w * h,
    ensures
        p.side@[m1] == p.side@[m2],
{
    if p.side@[m1] != p.side@[m2] {
        let c1 = pidx(w, cells[m1]);
        let c2 = pidx(w, cells[m2]);
        lemma_index_coords(w, h, cells[m1].0 as int, cells[m1].1 as int);
        lemma_index_coords(w, h, cells[m2].0 as int, cells[m2].1 as int);
        lemma_adjacent_symmetric(w, h, c1, c2);
        assert(on_seam(w, h, cells, p.side@, m1));
        assert(on_seam(w, h, cells, p.side@, m2));
        lemma_seam_ring_zero(w, h, cells, p, m1);
        lemma_seam_ring_zero(w, h, cells, p, m2);
        assert(m1 != m2);
        assert(c1 != c2);
        if c1 == p.ends.0 {
            assert(c2 == p.ends.1);
        } else {
            assert(c1 == p.ends.1 && c2 == p.ends.0);
            lemma_adjacent_symmetric(w, h, c1, c2);
        }
    }
}

/// A reached cell of one side leads back, through its flood parents, to
/// that side's seed: a closed set of that side's standing land holding the
/// cell holds the seed.
#[verifier::rlimit(50)]
#[verifier::spinoff_prover]
proof fn lemma_back_to_seed(
    w: int,
    h: int,
    cells: Seq<(usize, usize)>,
    p: SplitPlan,
    limits: Seq<usize>,
    fl: Flood,
    pc: Seq<bool>,
    sd: bool,
    s: Set<int>,
    x: int,
)
    requires
        0 < w,
        0 < h,
        cells_ok(w, h, cells),
        sides_ok(w, h, cells, p),
        ring_ok(w, h, cells, p),
        limits.len() == cells.len(),
        p.ends.0 != p.ends.1,
        !adjacent(w, h, p.ends.0 as int, p.ends.1 as int),
        fl.labels(w, h, kept_mask(w, h, cells, p, limits), pair_seeds(p.ends)),
        pc.len() == w * h,
        forall|c: int|
            0 <= c < w * h ==> #[trigger] pc[c] == (fl.reached@[c] && on_side(w, cells, p.side@, c, sd)),
        closed_in(w, h, pc, s),
        0 <= x < w * h,
        pc[x],
        s.contains(x),
    ensures
        s.contains(if sd { p.ends.1 as int } else { p.ends.0 as int }),
    decreases fl.dist@[x],
{
    reveal(Flood::labels);
    lemma_ends_sides(w, h, cells, p);
    let seeds = pair_seeds(p.ends);
    let kept = kept_mask(w, h, cells, p, limits);
    let mx = choose|m: int| 0 <= m < cells.len() && #[trigger] pidx(w, cells[m]) == x && p.side@[m] == sd;
    if x == p.ends.0 || x == p.ends.1 {
        let ma = choose|m: int| 0 <= m < cells.len() && #[trigger] pidx(w, cells[m]) == p.ends.0 && p.side@[m] == false;
        let mb = choose|m: int| 0 <= m < cells.len() && #[trigger] pidx(w, cells[m]) == p.ends.1 && p.side@[m] == true;
        if x == p.ends.0 {
            assert(mx == ma);
        } else {
            assert(mx == mb);
        }
    } else {
        assert(forall|i: int| 0 <= i < seeds.len() ==> #[trigger] seeds[i] != x);
        let q = choose|q: int|
            0 <= q < w * h && fl.reached@[q] && #[trigger] adjacent(w, h, q, x) && fl.dist@[q] + 1
                == fl.dist@[x] && fl.root@[q] == fl.root@[x];
        assert(kept[q] && kept[x]);
        let mq = choose|m: int|
            0 <= m < cells.len() && #[trigger] pidx(w, cells[m]) == q && keeps(w, cells, p, limits, m);
        let mk = choose|m: int|
            0 <= m < cells.len() && #[trigger] pidx(w, cells[m]) == x && keeps(w, cells, p, limits, m);
        assert(mk == mx);
        lemma_kept_same_side(w, h, cells, p, limits, mq, mx);
        assert(on_side(w, cells, p.side@, q, sd));
        assert(pc[q]);
        lemma_adjacent_symmetric(w, h, q, x);
        assert(s.contains(q));
        lemma_back_to_seed(w, h, cells, p, limits, fl, pc, sd, s, q);
    }
}

/// A closed set of one side's standing land holding that side's seed
/// holds every standing cell of the side.
#[verifier::rlimit(50)]
#[verifier::spinoff_prover]
proof fn lemma_out_from_seed(
    w: int,
    h: int,
    cells: Seq<(usize, usize)>,
    p: SplitPlan,
    limits: Seq<usize>,
    fl: Flood,
    pc: Seq<bool>,
    sd: bool,
    s: Set<int>,
    y: int,
)
    requires
        0 < w,
        0 < h,
        cells_ok(w, h, cells),
        sides_ok(w, h, cells, p),
        ring_ok(w, h, cells, p),
        limits.len() == cells.len(),
        p.ends.0 != p.ends.1,
        !adjacent(w, h, p.ends.0 as int, p.ends.1 as int),
        fl.labels(w, h, kept_mask(w, h, cells, p, limits), pair_seeds(p.ends)),
        pc.len() == w * h,
        forall|c: int|
            0 <= c < w * h ==> #[trigger] pc[c] == (fl.reached@[c] && on_side(w, cells, p.side@, c, sd)),
        closed_in(w, h, pc, s),
        s.contains(if sd { p.ends.1 as int } else { p.ends.0 as int }),
        0 <= y < w * h,
        pc[y],
    ensures
        s.contains(y),
    decreases fl.dist@[y],
{
    reveal(Flood::labels);
    lemma_ends_sides(w, h, cells, p);
    let seeds = pair_seeds(p.ends);
    let kept = kept_mask(w, h, cells, p, limits);
    let my = choose|m: int| 0 <= m < cells.len() && #[trigger] pidx(w, cells[m]) == y && p.side@[m] == sd;
    if y == p.ends.0 || y == p.ends.1 {
        let ma = choose|m: int| 0 <= m < cells.len() && #[trigger] pidx(w, cells[m]) == p.ends.0 && p.side@[m] == false;
        let mb = choose|m: int| 0 <= m < cells.len() && #[trigger] pidx(w, cells[m]) == p.ends.1 && p.side@[m] == true;
        if y == p.ends.0 {
            assert(my == ma);
        } else {
            assert(my == mb);
        }
    } else {
        assert(forall|i: int| 0 <= i < seeds.len() ==> #[trigger] seeds[i] != y);
        let q = choose|q: int|
            0 <= q < w * h && fl.reached@[q] && #[trigger] adjacent(w, h, q, y) && fl.dist@[q] + 1
                == fl.dist@[y] && fl.root@[q] == fl.root@[y];
        assert(kept[q] && kept[y]);
        let mq = choose|m: int|
            0 <= m < cells.len() && #[trigger] pidx(w, cells[m]) == q && keeps(w, cells, p, limits, m);
        let mk = choose|m: int|
            0 <= m < cells.len() && #[trigger] pidx(w, cells[m]) == y && keeps(w, cells, p, limits, m);
        assert(mk == my);
        lemma_kept_same_side(w, h, cells, p, limits, mq, my);
        assert(on_side(w, cells, p.side@, q, sd));
        assert(pc[q]);
        lemma_out_from_seed(w, h, cells, p, limits, fl, pc, sd, s, q);
        assert(s.contains(q) && pc[q] && adjacent(w, h, q, y) && pc[y]);
    }
}

/// With the seeds apart, each side's standing land is one connected piece
/// holding its seed, and the two pieces do not touch.
proof fn lemma_two_pieces(
    w: int,
    h: int,
    cells: Seq<(usize, usize)>,
    p: SplitPlan,
    limits: Seq<usize>,
    fl: Flood,
)
    requires
        0 < w,
        0 < h,
        cells_ok(w, h, cells),
        sides_ok(w, h, cells, p),
        ring_ok(w, h, cells, p),
        limits.len() == cells.len(),
        p.ends.0 != p.ends.1,
        !adjacent(w, h, p.ends.0 as int, p.ends.1 as int),
        fl.labels(w, h, kept_mask(w, h, cells, p, limits), pair_seeds(p.ends)),
        forall|c: int| 0 <= c < w * h ==> #[trigger] standing(w, h, cells, p, limits)[c] == fl.reached@[c],
    ensures
        connected(w, h, piece(w, h, cells, p, limits, false)),
        connected(w, h, piece(w, h, cells, p, limits, true)),
        forall|c: int, j: int|
            0 <= c < w * h && 0 <= j < w * h && #[trigger] piece(w, h, cells, p, limits, false)[c]
                && #[trigger] piece(w, h, cells, p, limits, true)[j] ==> !adjacent(w, h, c, j),
{
    lemma_ends_sides(w, h, cells, p);
    lemma_piece_connected(w, h, cells, p, limits, fl, false);
    lemma_piece_connected(w, h, cells, p, limits, fl, true);
    let kept = kept_mask(w, h, cells, p, limits);
    assert forall|c: int, j: int|
        0 <= c < w * h && 0 <= j < w * h && #[trigger] piece(w, h, cells, p, limits, false)[c]
            && #[trigger] piece(w, h, cells, p, limits, true)[j] implies !adjacent(w, h, c, j) by {
        if adjacent(w, h, c, j) {
            reveal(Flood::labels);
            let pf = piece(w, h, cells, p, limits, false);
            let pt = piece(w, h, cells, p, limits, true);
            assert(standing(w, h, cells, p, limits)[c] == fl.reached@[c]);
            assert(standing(w, h, cells, p, limits)[j] == fl.reached@[j]);
            assert(fl.reached@[c] && fl.reached@[j]);
            assert(kept[c] && kept[j]);
            let mc = choose|m: int|
                0 <= m < cells.len() && #[trigger] pidx(w, cells[m]) == c && keeps(w, cells, p, limits, m);
            let mj = choose|m: int|
                0 <= m < cells.len() && #[trigger] pidx(w, cells[m]) == j && keeps(w, cells, p, limits, m);
            let sc = choose|m: int| 0 <= m < cells.len() && #[trigger] pidx(w, cells[m]) == c && p.side@[m] == false;
            let sj = choose|m: int| 0 <= m < cells.len() && #[trigger] pidx(w, cells[m]) == j && p.side@[m] == true;
            assert(sc == mc && sj == mj);
            lemma_kept_same_side(w, h, cells, p, limits, mc, mj);
        }
    }
}

/// The standing land of one side is connected.
proof fn lemma_piece_connected(
    w: int,
    h: int,
    cells: Seq<(usize, usize)>,
    p: SplitPlan,
    limits: Seq<usize>,
    fl: Flood,
    sd: bool,
)
    requires
        0 < w,
        0 < h,
        cells_ok(w, h, cells),
        sides_ok(w, h, cells, p),
        ring_ok(w, h, cells, p),
        limits.len() == cells.len(),
        p.ends.0 != p.ends.1,
        !adjacent(w, h, p.ends.0 as int, p.ends.1 as int),
        fl.labels(w, h, kept_mask(w, h, cells, p, limits), pair_seeds(p.ends)),
        forall|c: int| 0 <= c < w * h ==> #[trigger] standing(w, h, cells, p, limits)[c] == fl.reached@[c],
    ensures
        connected(w, h, piece(w, h, cells, p, limits, sd)),
{
    let pc = piece(w, h, cells, p, limits, sd);
    assert forall|c: int| 0 <= c < w * h implies #[trigger] pc[c] == (fl.reached@[c] && on_side(
        w,
        cells,
        p.side@,
        c,
        sd,
    )) by {
        assert(standing(w, h, cells, p, limits)[c] == fl.reached@[c]);
    }
    assert forall|s: Set<int>|
        #[trigger] closed_in(w, h, pc, s) && (exists|c: int| 0 <= c < w * h && pc[c] && s.contains(c))
            implies forall|c: int| 0 <= c < w * h && pc[c] ==> s.contains(c) by {
        let x = choose|c: int| 0 <= c < w * h && pc[c] && s.contains(c);
        lemma_back_to_seed(w, h, cells, p, limits, fl, pc, sd, s, x);
        assert forall|c: int| 0 <= c < w * h && pc[c] implies s.contains(c) by {
            lemma_out_from_seed(w, h, cells, p, limits, fl, pc, sd, s, c);
        }
    }
}

/// What a flood from the seeds over the kept cells gives a cut: it reaches
/// exactly the standing land, which holds both seeds and lies on the two
/// sides (as two pieces when the seeds are apart).
proof fn lemma_cut_facts(
    w: int,
    h: int,
    cells: Seq<(usize, usize)>,
    p: SplitPlan,
    limits: Seq<usize>,
    fl: Flood,
)
    requires
        0 < w,
        0 < h,
        cells_ok(w, h, cells),
        sides_ok(w, h, cells, p),
        ring_ok(w, h, cells, p),
        limits.len() == cells.len(),
        p.ends.0 != p.ends.1,
        fl.labels(w, h, kept_mask(w, h, cells, p, limits), pair_seeds(p.ends)),
        fl.order@ == bfs_order(w, h, kept_mask(w, h, cells, p, limits), pair_seeds(p.ends)),
        fl.reached@.len() == w * h,
        w * h <= usize::MAX,
    ensures
        forall|c: int| 0 <= c < w * h ==> #[trigger] standing(w, h, cells, p, limits)[c] == fl.reached@[c],
        standing(w, h, cells, p, limits)[p.ends.0 as int],
        standing(w, h, cells, p, limits)[p.ends.1 as int],
        forall|c: int|
            0 <= c < w * h && #[trigger] standing(w, h, cells, p, limits)[c] ==> piece(w, h, cells, p, limits, false)[c]
                || piece(w, h, cells, p, limits, true)[c],
        !adjacent(w, h, p.ends.0 as int, p.ends.1 as int) ==> {
            &&& piece(w, h, cells, p, limits, false)[p.ends.0 as int]
            &&& piece(w, h, cells, p, limits, true)[p.ends.1 as int]
            &&& connected(w, h, piece(w, h, cells, p, limits, false))
            &&& connected(w, h, piece(w, h, cells, p, limits, true))
            &&& forall|c: int, j: int|
                0 <= c < w * h && 0 <= j < w * h && #[trigger] piece(w, h, cells, p, limits, false)[c]
                    && #[trigger] piece(w, h, cells, p, limits, true)[j] ==> !adjacent(w, h, c, j)
        },
{
    reveal(Flood::labels);
    lemma_ends_sides(w, h, cells, p);
    let stand = standing(w, h, cells, p, limits);
    let kept = kept_mask(w, h, cells, p, limits);
    let a = p.ends.0 as int;
    let b = p.ends.1 as int;
    assert forall|c: int| 0 <= c < w * h implies #[trigger] stand[c] == fl.reached@[c] by {
        let order = fl.order@;
        if fl.reached@[c] {
            let i = choose|i: int| 0 <= i < order.len() && #[trigger] order[i] == c;
            assert(order.contains(c as usize));
        }
        if order.contains(c as usize) {
            let i = choose|i: int| 0 <= i < order.len() && order[i] == c as usize;
            assert(order[i] as int == c);
            assert(fl.reached@[order[i] as int]);
        }
    }
    let seeds = pair_seeds(p.ends);
    assert(seeds[0] == p.ends.0 && seeds[1] == p.ends.1);
    assert(fl.order@[0] == seeds[0] && fl.order@[1] == seeds[1]);
    assert(fl.reached@[a] && fl.reached@[b]);
    assert(stand[a] && stand[b]);
    assert forall|c: int| 0 <= c < w * h && #[trigger] stand[c] implies piece(w, h, cells, p, limits, false)[c]
        || piece(w, h, cells, p, limits, true)[c] by {
        assert(fl.reached@[c]);
        assert(kept[c]);
        let m = choose|m: int|
            0 <= m < cells.len() && #[trigger] pidx(w, cells[m]) == c && keeps(w, cells, p, limits, m);
        assert(on_side(w, cells, p.side@, c, p.side@[m]));
    }
    if !adjacent(w, h, a, b) {
        lemma_two_pieces(w, h, cells, p, limits, fl);
    }
}

/// Cuts the strait of a plan: clears every cell of the landmass within its
/// own `limits` of the seam, keeping the two seeds, then also clears what
/// of the rest is no longer joined to a seed. What stands is exactly two
/// connected pieces, one around each end of the landmass's diameter (one
/// piece when the two ends touch, where no cut can part them). Returns the
/// cleared cells, in the plan's order.
pub fn strait_cut(width: usize, height: usize, plan: &SplitPlan, limits: &Vec<usize>) -> (r: Vec<
    (usize, usize),
>)
    requires
        dims_ok(width, height),
        cells_ok(width as int, height as int, plan.cells@),
        sides_ok(width as int, height as int, plan.cells@, *plan),
        ring_ok(width as int, height as int, plan.cells@, *plan),
        limits@.len() == plan.cells@.len(),
        plan.ends.0 != plan.ends.1,
    ensures
        r@ == cut_of(
            width as int,
            plan.cells@,
            standing(width as int, height as int, plan.cells@, *plan, limits@),
            plan.cells@.len() as int,
        ),
        standing(width as int, height as int, plan.cells@, *plan, limits@)[plan.ends.0 as int],
        standing(width as int, height as int, plan.cells@, *plan, limits@)[plan.ends.1 as int],
        forall|c: int|
            0 <= c < width * height && #[trigger] standing(
                width as int,
                height as int,
                plan.cells@,
                *plan,
                limits@,
            )[c] ==> piece(width as int, height as int, plan.cells@, *plan, limits@, false)[c]
                || piece(width as int, height as int, plan.cells@, *plan, limits@, true)[c],
        !adjacent(width as int, height as int, plan.ends.0 as int, plan.ends.1 as int) ==> {
            &&& piece(width as int, height as int, plan.cells@, *plan, limits@, false)[plan.ends.0 as int]
            &&& piece(width as int, height as int, plan.cells@, *plan, limits@, true)[plan.ends.1 as int]
            &&& connected(
                width as int,
                height as int,
                piece(width as int, height as int, plan.cells@, *plan, limits@, false),
            )
            &&& connected(
                width as int,
                height as int,
                piece(width as int, height as int, plan.cells@, *plan, limits@, true),
            )
            &&& forall|c: int, j: int|
                0 <= c < width * height && 0 <= j < width * height && #[trigger] piece(
                    width as int,
                    height as int,
                    plan.cells@,
                    *plan,
                    limits@,
                    false,
                )[c] && #[trigger] piece(
                    width as int,
                    height as int,
                    plan.cells@,
                    *plan,
                    limits@,
                    true,
                )[j] ==> !adjacent(width as int, height as int, c, j)
        },
{
    let ghost w = width as int;
    let ghost h = height as int;
    let ghost cells = plan.cells@;
    let ghost lim = limits@;
    let ghost kept = kept_mask(w, h, cells, *plan, lim);
    let (a, b) = plan.ends;
    proof {
        lemma_ends_sides(w, h, cells, *plan);
    }
    let mut g: Grid<bool> = Grid::filled(width, height, false);
    let mut k: usize = 0;
    while k < plan.cells.len()
        invariant
            dims_ok(width, height),
            w == width,
            h == height,
            cells == plan.cells@,
            lim == limits@,
            (a, b) == plan.ends,
            cells_ok(w, h, cells),
            plan.ring@.len() == cells.len(),
            lim.len() == cells.len(),
            g.wf(),
            g.width == width,
            g.height == height,
            k <= cells.len(),
            forall|c: int|
                0 <= c < w * h ==> (#[trigger] g@[c] <==> exists|m: int|
                    0 <= m < k && #[trigger] pidx(w, cells[m]) == c && keeps(w, cells, *plan, lim, m)),
        decreases cells.len() - k,
    {
        let (x, y) = plan.cells[k];
        proof {
            assert(cells[k as int] == (x, y));
            lemma_index_coords(w, h, x as int, y as int);
        }
        let idx = y * width + x;
        let keep = plan.ring[k] > limits[k] || idx == a || idx == b;
        let ghost before = g@;
        g.set(x as i64, y as i64, keep);
        proof {
            assert(keep == keeps(w, cells, *plan, lim, k as int));
            assert forall|c: int| 0 <= c < w * h implies (#[trigger] g@[c] <==> exists|m: int|
                0 <= m < k + 1 && #[trigger] pidx(w, cells[m]) == c && keeps(w, cells, *plan, lim, m)) by {
                if c == pidx(w, cells[k as int]) {
                    if !keep {
                        if exists|m: int|
                            0 <= m < k + 1 && #[trigger] pidx(w, cells[m]) == c && keeps(w, cells, *plan, lim, m) {
                            let m = choose|m: int|
                                0 <= m < k + 1 && #[trigger] pidx(w, cells[m]) == c && keeps(w, cells, *plan, lim, m);
                            assert(m == k);
                        }
                    }
                } else {
                    assert(g@[c] == before[c]);
                    if exists|m: int|
                        0 <= m < k + 1 && #[trigger] pidx(w, cells[m]) == c && keeps(w, cells, *plan, lim, m) {
                        let m = choose|m: int|
                            0 <= m < k + 1 && #[trigger] pidx(w, cells[m]) == c && keeps(w, cells, *plan, lim, m);
                        assert(m < k);
                    }
                }
            }
        }
        k = k + 1;
    }
    proof {
        assert(g@ =~= kept);
        let ma = choose|m: int| 0 <= m < cells.len() && #[trigger] pidx(w, cells[m]) == a && plan.side@[m] == false;
        let mb = choose|m: int| 0 <= m < cells.len() && #[trigger] pidx(w, cells[m]) == b && plan.side@[m] == true;
        assert(keeps(w, cells, *plan, lim, ma) && keeps(w, cells, *plan, lim, mb));
        assert(kept[a as int] && kept[b as int]);
    }
    let seeds = vec![a, b];
    proof {
        assert(seeds@ == pair_seeds(plan.ends));
    }
    let fl = flood(&g, &seeds);
    let ghost stand = standing(w, h, cells, *plan, lim);
    proof {
        lemma_cut_facts(w, h, cells, *plan, lim, fl);
    }
    let mut r: Vec<(usize, usize)> = Vec::new();
    let mut m: usize = 0;
    while m < plan.cells.len()
        invariant
            dims_ok(width, height),
            w == width,
            h == height,
            cells == plan.cells@,
            cells_ok(w, h, cells),
            fl.reached@.len() == w * h,
            forall|c: int| 0 <= c < w * h ==> #[trigger] stand[c] == fl.reached@[c],
            m <= cells.len(),
            r@ == cut_of(w, cells, stand, m as int),
        decreases cells.len() - m,
    {
        let (x, y) = plan.cells[m];
        proof {
            assert(cells[m as int] == (x, y));
            lemma_index_coords(w, h, x as int, y as int);
        }
        let idx = y * width + x;
        if !fl.reached[idx] {
            r.push((x, y));
        }
        m = m + 1;
    }
    r
}

} // verus!
