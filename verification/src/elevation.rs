//! The integer side of elevation post-processing: finding connected land.
use crate::flood::listed_neighbor;
use crate::grid::{
    adjacent, cell_index, coords_as_int, lemma_adjacent_symmetric, lemma_cell_index_range,
    lemma_coords_of_index, lemma_index_coords, lemma_listed_adjacent, lemma_neighbor_coords_has,
    lemma_neighbor_coords_shape, nbr_offset, neighbor_coords, offset_ok, offset_target, Grid,
};
use vstd::arithmetic::div_mod::{lemma_fundamental_div_mod, lemma_fundamental_div_mod_converse};
use vstd::prelude::*;

verus! {

/// Storage index of a normalized `(x, y)` cell.
pub open spec fn pidx(w: int, p: (usize, usize)) -> int {
    p.1 as int * w + p.0 as int
}

/// Storage index of a normalized signed `(x, y)` cell.
pub open spec fn sidx(w: int, p: (i64, i64)) -> int {
    p.1 as int * w + p.0 as int
}

pub open spec fn comps_view(r: Seq<Vec<(usize, usize)>>) -> Seq<Seq<(usize, usize)>> {
    r.map_values(|v: Vec<(usize, usize)>| v@)
}

/// `comps` lists the 8-connected landmasses of `land`: every cell is a
/// normalized land cell, every land cell appears exactly once across all
/// lists, no list is empty, and each list is closed under land adjacency
/// (a land neighbor of a member is a member of the same list).
pub open spec fn components_partition(land: Grid<bool>, comps: Seq<Seq<(usize, usize)>>) -> bool {
    let w = land.width as int;
    let h = land.height as int;
    &&& forall|k: int, m: int|
        0 <= k < comps.len() && 0 <= m < comps[k].len() ==> {
            &&& (#[trigger] comps[k][m]).0 < w
            &&& comps[k][m].1 < h
            &&& land@[pidx(w, comps[k][m])]
        }
    &&& forall|k: int| 0 <= k < comps.len() ==> (#[trigger] comps[k]).len() > 0
    &&& forall|k1: int, m1: int, k2: int, m2: int|
        0 <= k1 < comps.len() && 0 <= m1 < comps[k1].len() && 0 <= k2 < comps.len() && 0 <= m2
            < comps[k2].len() && #[trigger] pidx(w, comps[k1][m1]) == #[trigger] pidx(
            w,
            comps[k2][m2],
        ) ==> k1 == k2 && m1 == m2
    &&& forall|c: int|
        0 <= c < w * h && #[trigger] land@[c] ==> exists|k: int, m: int|
            0 <= k < comps.len() && 0 <= m < comps[k].len() && #[trigger] pidx(w, comps[k][m])
                == c
    &&& forall|k: int, m: int, j: int|
        0 <= k < comps.len() && 0 <= m < comps[k].len() && adjacent(
            w,
            h,
            #[trigger] pidx(w, comps[k][m]),
            j,
        ) && #[trigger] land@[j] ==> exists|m2: int|
            0 <= m2 < comps[k].len() && #[trigger] pidx(w, comps[k][m2]) == j
}

/// Cell `m` of `comp` touches one of the cells listed before it.
pub open spec fn touches_earlier(w: int, h: int, comp: Seq<(usize, usize)>, m: int) -> bool {
    exists|m2: int| 0 <= m2 < m && #[trigger] adjacent(w, h, pidx(w, comp[m2]), pidx(w, comp[m]))
}

/// Every cell of `comp` after the first touches an earlier one: the cells
/// were found by walking from neighbor to neighbor, so they form one
/// 8-connected piece.
pub open spec fn chained(w: int, h: int, comp: Seq<(usize, usize)>) -> bool {
    forall|m: int| 0 < m < comp.len() ==> #[trigger] touches_earlier(w, h, comp, m)
}

/// Landmasses listed in scan order: each list starts with its first cell
/// in row-major order, and lists come in the order of those first cells.
pub open spec fn scan_ordered(w: int, cv: Seq<Seq<(usize, usize)>>) -> bool {
    &&& forall|k: int, m: int|
        0 <= k < cv.len() && 0 <= m < cv[k].len() ==> pidx(w, cv[k][0]) <= pidx(
            w,
            #[trigger] cv[k][m],
        )
    &&& forall|k1: int, k2: int|
        0 <= k1 < k2 < cv.len() ==> pidx(w, #[trigger] cv[k1][0]) < pidx(w, #[trigger] cv[k2][0])
}

/// The landmass search keeps every list chained: the cells waiting on the
/// stack each touch an expanded cell (`disc[c]` is its place in `member`).
spec fn chain_inv(
    w: int,
    h: int,
    comps: Seq<Seq<(usize, usize)>>,
    member: Seq<(usize, usize)>,
    stack: Seq<(i64, i64)>,
    disc: Seq<int>,
) -> bool {
    &&& disc.len() == w * h
    &&& forall|k: int| 0 <= k < comps.len() ==> chained(w, h, #[trigger] comps[k])
    &&& chained(w, h, member)
    &&& member.len() == 0 ==> stack.len() <= 1
    &&& member.len() > 0 ==> forall|s: int|
        0 <= s < stack.len() ==> 0 <= disc[sidx(w, #[trigger] stack[s])] < member.len() && adjacent(
            w,
            h,
            pidx(w, member[disc[sidx(w, stack[s])]]),
            sidx(w, stack[s]),
        )
}

/// Moving the top of the stack to the member list keeps the lists chained.
proof fn lemma_chain_expand(
    w: int,
    h: int,
    comps: Seq<Seq<(usize, usize)>>,
    member0: Seq<(usize, usize)>,
    stack0: Seq<(i64, i64)>,
    disc: Seq<int>,
)
    requires
        chain_inv(w, h, comps, member0, stack0, disc),
        stack0.len() > 0,
        0 <= stack0[stack0.len() - 1].0 <= usize::MAX,
        0 <= stack0[stack0.len() - 1].1 <= usize::MAX,
    ensures
        ({
            let top = stack0[stack0.len() - 1];
            chain_inv(
                w,
                h,
                comps,
                member0.push((top.0 as usize, top.1 as usize)),
                stack0.drop_last(),
                disc,
            )
        }),
{
    let top = stack0[stack0.len() - 1];
    let member = member0.push((top.0 as usize, top.1 as usize));
    let stack = stack0.drop_last();
    assert(pidx(w, member[member0.len() as int]) == sidx(w, top));
    assert forall|m: int| 0 < m < member.len() implies #[trigger] touches_earlier(w, h, member, m) by {
        if m < member0.len() {
            assert(touches_earlier(w, h, member0, m));
            let m2 = choose|m2: int|
                0 <= m2 < m && #[trigger] adjacent(w, h, pidx(w, member0[m2]), pidx(w, member0[m]));
            assert(member[m2] == member0[m2] && member[m] == member0[m]);
        } else {
            let d = disc[sidx(w, stack0[stack0.len() - 1])];
            assert(member[d] == member0[d]);
            assert(adjacent(w, h, pidx(w, member[d]), pidx(w, member[m])));
        }
    }
    if member0.len() > 0 {
        assert forall|s: int| 0 <= s < stack.len() implies 0 <= disc[sidx(w, #[trigger] stack[s])]
            < member.len() && adjacent(
            w,
            h,
            pidx(w, member[disc[sidx(w, stack[s])]]),
            sidx(w, stack[s]),
        ) by {
            assert(stack[s] == stack0[s]);
            let d = disc[sidx(w, stack0[s])];
            assert(member[d] == member0[d]);
        }
    }
}

/// A cell found next to the cell being expanded (the last member) joins the
/// stack, chained to it.
proof fn lemma_chain_discover(
    w: int,
    h: int,
    comps: Seq<Seq<(usize, usize)>>,
    member: Seq<(usize, usize)>,
    stack0: Seq<(i64, i64)>,
    disc: Seq<int>,
    p: (i64, i64),
)
    requires
        chain_inv(w, h, comps, member, stack0, disc),
        member.len() > 0,
        0 <= sidx(w, p) < w * h,
        adjacent(w, h, pidx(w, member[member.len() - 1]), sidx(w, p)),
        forall|s: int|
            0 <= s < stack0.len() ==> sidx(w, #[trigger] stack0[s]) != sidx(w, p) && 0 <= sidx(
                w,
                stack0[s],
            ) < w * h,
    ensures
        chain_inv(
            w,
            h,
            comps,
            member,
            stack0.push(p),
            disc.update(sidx(w, p), member.len() - 1),
        ),
{
    let j = sidx(w, p);
    let stack = stack0.push(p);
    let disc2 = disc.update(j, member.len() - 1);
    assert forall|s: int| 0 <= s < stack.len() implies 0 <= disc2[sidx(w, #[trigger] stack[s])]
        < member.len() && adjacent(
        w,
        h,
        pidx(w, member[disc2[sidx(w, stack[s])]]),
        sidx(w, stack[s]),
    ) by {
        if s < stack0.len() {
            assert(stack[s] == stack0[s]);
        }
    }
}

/// `x` wrapped onto `0..width`.
pub(crate) fn wrap_x(x: i64, width: usize) -> (r: i64)
    requires
        0 < width <= i64::MAX,
    ensures
        r == x as int % width as int,
        0 <= r < width,
{
    let w = width as i64;
    if x >= 0 {
        x % w
    } else {
        let m = (-(x + 1)) % w;
        proof {
            let q: int = (-(x + 1)) as int / (w as int);
            lemma_fundamental_div_mod(-(x + 1) as int, w as int);
            assert(x == (-(q + 1)) * w + (w - 1 - m)) by (nonlinear_arith)
                requires
                    -(x + 1) == w * q + m,
            ;
            lemma_fundamental_div_mod_converse(x as int, w as int, -(q + 1), w - 1 - m);
        }
        w - 1 - m
    }
}

/// Every cell adjacent to normalized `(cx, cy)` is the storage index of one
/// of the coordinates `Grid::neighbors` hands out for it.
pub(crate) proof fn lemma_adjacent_listed(w: int, h: int, cx: int, cy: int, j: int)
    requires
        0 < w,
        0 <= cx < w,
        0 <= cy < h,
        adjacent(w, h, cy * w + cx, j),
    ensures
        exists|t: int|
            0 <= t < neighbor_coords(cx, cy, h, 8).len() && cell_index(
                w,
                h,
                #[trigger] neighbor_coords(cx, cy, h, 8)[t].0,
                neighbor_coords(cx, cy, h, 8)[t].1,
            ) == j,
{
    let c = cy * w + cx;
    lemma_index_coords(w, h, cx, cy);
    let k = choose|k: int| offset_ok(w, h, c, k) && #[trigger] offset_target(w, h, c, k) == j;
    lemma_neighbor_coords_has(cx, cy, h, 8, k);
    let nc = neighbor_coords(cx, cy, h, 8);
    let p = (cx + nbr_offset(k).0, cy + nbr_offset(k).1);
    let t = choose|t: int| 0 <= t < nc.len() && nc[t] == p;
    assert(cell_index(w, h, nc[t].0, nc[t].1) == j);
}

/// State of the landmass search while component number `comps.len()` is
/// being grown from `member` (cells already expanded) and `stack` (cells
/// found but not yet expanded). `comp[c]` is the component of cell `c`, or
/// -1 if it has not been reached; `pos[c]` is its place in its list.
spec fn search_inv(
    land: Grid<bool>,
    visited: Grid<bool>,
    comps: Seq<Seq<(usize, usize)>>,
    member: Seq<(usize, usize)>,
    stack: Seq<(i64, i64)>,
    comp: Seq<int>,
    pos: Seq<int>,
    inm: Seq<bool>,
    spos: Seq<int>,
) -> bool {
    let w = land.width as int;
    let h = land.height as int;
    let n = w * h;
    let kk = comps.len() as int;
    &&& land.usable()
    &&& visited.wf()
    &&& visited.width == land.width
    &&& visited.height == land.height
    &&& comp.len() == n
    &&& pos.len() == n
    &&& inm.len() == n
    &&& spos.len() == n
    &&& forall|c: int| 0 <= c < n ==> #[trigger] visited@[c] == (comp[c] >= 0)
    &&& forall|c: int| 0 <= c < n && #[trigger] comp[c] >= 0 ==> land@[c] && comp[c] <= kk
    &&& forall|k: int, m: int|
        0 <= k < kk && 0 <= m < comps[k].len() ==> {
            &&& (#[trigger] comps[k][m]).0 < w
            &&& comps[k][m].1 < h
            &&& 0 <= pidx(w, comps[k][m]) < n
            &&& comp[pidx(w, comps[k][m])] == k
            &&& pos[pidx(w, comps[k][m])] == m
        }
    &&& forall|k: int| 0 <= k < kk ==> (#[trigger] comps[k]).len() > 0
    &&& forall|c: int|
        0 <= c < n && 0 <= #[trigger] comp[c] < kk ==> 0 <= pos[c] < comps[comp[c]].len() && pidx(
            w,
            comps[comp[c]][pos[c]],
        ) == c
    &&& forall|m: int|
        0 <= m < member.len() ==> {
            &&& (#[trigger] member[m]).0 < w
            &&& member[m].1 < h
            &&& 0 <= pidx(w, member[m]) < n
            &&& comp[pidx(w, member[m])] == kk
            &&& inm[pidx(w, member[m])]
            &&& pos[pidx(w, member[m])] == m
        }
    &&& forall|s: int|
        0 <= s < stack.len() ==> {
            &&& 0 <= (#[trigger] stack[s]).0 < w
            &&& 0 <= stack[s].1 < h
            &&& 0 <= sidx(w, stack[s]) < n
            &&& comp[sidx(w, stack[s])] == kk
            &&& !inm[sidx(w, stack[s])]
            &&& spos[sidx(w, stack[s])] == s
        }
    &&& forall|c: int|
        0 <= c < n && #[trigger] comp[c] == kk ==> {
            &&& inm[c] ==> 0 <= pos[c] < member.len() && pidx(w, member[pos[c]]) == c
            &&& !inm[c] ==> 0 <= spos[c] < stack.len() && sidx(w, stack[spos[c]]) == c
        }
    &&& forall|c: int, j: int|
        0 <= c < n && 0 <= #[trigger] comp[c] < kk && adjacent(w, h, c, j) && #[trigger] land@[j]
            ==> comp[j] == comp[c]
}

/// Closure of the component being grown: an expanded cell (other than the
/// one currently being expanded, `skip`) has all its land neighbors reached.
spec fn grown_closed(land: Grid<bool>, kk: int, comp: Seq<int>, inm: Seq<bool>, skip: int) -> bool {
    let w = land.width as int;
    let h = land.height as int;
    forall|c: int, j: int|
        0 <= c < w * h && c != skip && #[trigger] comp[c] == kk && inm[c] && adjacent(w, h, c, j)
            && #[trigger] land@[j] ==> comp[j] >= 0
}

/// The landmasses with at least `min_size` cells, in the order they were given.
pub open spec fn large_only(
    comps: Seq<Seq<(usize, usize)>>,
    min_size: int,
) -> Seq<Seq<(usize, usize)>> {
    comps.filter(|c: Seq<(usize, usize)>| c.len() >= min_size)
}

/// Drops landmasses smaller than `min_size` cells, keeping the order.
pub fn retain_large(components: Vec<Vec<(usize, usize)>>, min_size: usize) -> (r: Vec<
    Vec<(usize, usize)>,
>)
    ensures
        comps_view(r@) == large_only(comps_view(components@), min_size as int),
{
    let ghost cv = comps_view(components@);
    let mut kept: Vec<Vec<(usize, usize)>> = Vec::new();
    let mut rest = components;
    let n = rest.len();
    let mut k: usize = 0;
    assert(comps_view(rest@).len() == rest@.len());
    while k < n
        invariant
            n == cv.len(),
            k <= n,
            comps_view(kept@) == large_only(cv.take(k as int), min_size as int),
            comps_view(rest@) == cv.skip(k as int),
            rest@.len() == n - k,
        decreases n - k,
    {
        let ghost before = rest@;
        let comp = rest.remove(0);
        proof {
            assert(comp@ == cv[k as int]) by {
                assert(comps_view(before)[0] == before[0]@);
            }
            assert(comps_view(rest@) =~= cv.skip(k as int + 1)) by {
                assert(rest@ == before.remove(0));
                assert forall|q: int| 0 <= q < rest@.len() implies comps_view(rest@)[q] == cv.skip(
                    k as int + 1,
                )[q] by {
                    assert(rest@[q] == before[q + 1]);
                    assert(comps_view(before)[q + 1] == before[q + 1]@);
                }
            }
            let t1 = cv.take(k as int + 1);
            assert(t1.drop_last() =~= cv.take(k as int));
            assert(t1.last() == cv[k as int]);
            reveal_with_fuel(Seq::filter, 1);
            assert(large_only(t1, min_size as int) == if cv[k as int].len() >= min_size {
                large_only(cv.take(k as int), min_size as int).push(cv[k as int])
            } else {
                large_only(cv.take(k as int), min_size as int)
            });
        }
        let ghost kept_before = kept@;
        if comp.len() >= min_size {
            kept.push(comp);
            proof {
                assert(comps_view(kept@) =~= comps_view(kept_before).push(cv[k as int]));
            }
        }
        k = k + 1;
    }
    proof {
        assert(cv.take(n as int) =~= cv);
    }
    kept
}

/// What the continent-count correction does next.
#[derive(Clone, Copy, Debug, PartialEq, Eq, Structural)]
pub enum CorrectionStep {
    /// The landmass count is right (or there is nothing left to split).
    Done,
    /// Too many landmasses: bridge the closest pair.
    Merge,
    /// Too few: cut the landmass at this index (the largest; the last one
    /// among equally large ones) in two.
    Split(usize),
}

/// Index of the largest landmass, the last one on ties.
pub open spec fn is_largest_at(large: Seq<Seq<(usize, usize)>>, i: int) -> bool {
    &&& 0 <= i < large.len()
    &&& forall|j: int| 0 <= j < large.len() ==> (#[trigger] large[j]).len() <= large[i].len()
    &&& forall|j: int| i < j < large.len() ==> (#[trigger] large[j]).len() < large[i].len()
}

/// How many merge-or-split passes the landmass-count correction gets for a
/// target count (a target of 0 counts as 1): two per landmass wanted, plus
/// twenty to spare.
pub fn correction_passes(target_count: u32) -> (r: u64)
    ensures
        r == (if target_count == 0 {
            1
        } else {
            target_count as int
        }) * 2 + 20,
{
    let target: u64 = if target_count == 0 {
        1
    } else {
        target_count as u64
    };
    target * 2 + 20
}

/// The correction step for the landmasses at least the minimum size:
/// done at the target count, merge above it, split the largest below it.
pub fn correction_step(large: &Vec<Vec<(usize, usize)>>, target: usize) -> (r: CorrectionStep)
    ensures
        large@.len() == target || large@.len() == 0 ==> r == CorrectionStep::Done,
        large@.len() > target && large@.len() > 0 ==> r == CorrectionStep::Merge,
        0 < large@.len() < target ==> (r matches CorrectionStep::Split(i) && is_largest_at(
            comps_view(large@),
            i as int,
        )),
{
    let n = large.len();
    if n == target || n == 0 {
        return CorrectionStep::Done;
    }
    if n > target {
        return CorrectionStep::Merge;
    }
    let ghost cv = comps_view(large@);
    let mut best: usize = 0;
    let mut i: usize = 1;
    while i < n
        invariant
            n == large@.len(),
            cv == comps_view(large@),
            0 < n,
            best < i <= n,
            forall|j: int| 0 <= j < i ==> (#[trigger] cv[j]).len() <= cv[best as int].len(),
            forall|j: int| best < j < i ==> (#[trigger] cv[j]).len() < cv[best as int].len(),
        decreases n - i,
    {
        assert(cv[i as int] == large@[i as int]@ && cv[best as int] == large@[best as int]@);
        if large[i].len() >= large[best].len() {
            best = i;
        }
        i = i + 1;
    }
    CorrectionStep::Split(best)
}

/// Starting a new component at unreached land cell `i`.
proof fn lemma_begin(
    land: Grid<bool>,
    visited0: Grid<bool>,
    visited: Grid<bool>,
    cv: Seq<Seq<(usize, usize)>>,
    comp0: Seq<int>,
    pos: Seq<int>,
    inm0: Seq<bool>,
    spos0: Seq<int>,
    i: int,
    x: i64,
    y: i64,
) -> (r: (Seq<int>, Seq<bool>, Seq<int>))
    requires
        search_inv(land, visited0, cv, Seq::empty(), Seq::empty(), comp0, pos, inm0, spos0),
        0 <= i < land.width * land.height,
        x == i % (land.width as int),
        y == i / (land.width as int),
        sidx(land.width as int, (x, y)) == i,
        !visited0@[i],
        land@[i],
        visited.wf(),
        visited.width == visited0.width,
        visited.height == visited0.height,
        visited@ == visited0@.update(i, true),
    ensures
        search_inv(land, visited, cv, Seq::empty(), seq![(x, y)], r.0, pos, r.1, r.2),
        grown_closed(land, cv.len() as int, r.0, r.1, -1),
        r.0[i] == cv.len(),
        forall|c: int| 0 <= c < land.width * land.height && c != i ==> r.0[c] == comp0[c],
{
    let w = land.width as int;
    let h = land.height as int;
    let n = w * h;
    let kk = cv.len() as int;
    assert forall|c: int| 0 <= c < n implies #[trigger] comp0[c] != kk by {
        if comp0[c] == kk {
            if inm0[c] {
                assert(0 <= pos[c] < 0);
            } else {
                assert(0 <= spos0[c] < 0);
            }
        }
    }
    assert(comp0[i] < 0);
    let comp = comp0.update(i, kk);
    let inm = inm0.update(i, false);
    let spos = spos0.update(i, 0);
    let stack = seq![(x, y)];
    lemma_coords_of_index(w, h, i);
    assert(stack[0] == (x, y));
    assert forall|k: int, m: int| 0 <= k < kk && 0 <= m < cv[k].len() implies pidx(
        w,
        #[trigger] cv[k][m],
    ) != i by {
        assert(comp0[pidx(w, cv[k][m])] == k);
    }
    assert forall|c: int, j: int|
        0 <= c < n && 0 <= #[trigger] comp[c] < kk && adjacent(w, h, c, j)
            && #[trigger] land@[j] implies comp[j] == comp[c] by {
        assert(c != i);
        assert(comp0[c] == comp[c]);
        assert(comp0[j] == comp0[c]);
        lemma_adjacent_symmetric(w, h, c, j);
    }
    assert forall|c: int| 0 <= c < n && #[trigger] comp[c] == kk implies c == i by {
        if c != i {
            assert(comp0[c] == comp[c]);
        }
    }
    (comp, inm, spos)
}

/// Expanding the top of the stack: it moves to the member list.
proof fn lemma_expand(
    land: Grid<bool>,
    visited: Grid<bool>,
    cv: Seq<Seq<(usize, usize)>>,
    member0: Seq<(usize, usize)>,
    stack0: Seq<(i64, i64)>,
    comp: Seq<int>,
    pos0: Seq<int>,
    inm0: Seq<bool>,
    spos: Seq<int>,
) -> (r: (Seq<int>, Seq<bool>))
    requires
        search_inv(land, visited, cv, member0, stack0, comp, pos0, inm0, spos),
        grown_closed(land, cv.len() as int, comp, inm0, -1),
        stack0.len() > 0,
    ensures
        ({
            let top = stack0[stack0.len() - 1];
            let c = sidx(land.width as int, top);
            let member = member0.push((top.0 as usize, top.1 as usize));
            &&& search_inv(land, visited, cv, member, stack0.drop_last(), comp, r.0, r.1, spos)
            &&& grown_closed(land, cv.len() as int, comp, r.1, c)
            &&& 0 <= top.0 < land.width
            &&& 0 <= top.1 < land.height
            &&& 0 <= c < land.width * land.height
            &&& comp[c] == cv.len()
            &&& r.1[c]
            &&& member0.len() < land.width * land.height
        }),
{
    let w = land.width as int;
    let h = land.height as int;
    let n = w * h;
    let kk = cv.len() as int;
    let top = stack0[stack0.len() - 1];
    let c = sidx(w, top);
    let stack = stack0.drop_last();
    lemma_index_coords(w, h, top.0 as int, top.1 as int);
    assert(spos[c] == stack0.len() - 1);
    assert(!inm0[c]);
    assert forall|m: int| 0 <= m < member0.len() implies pidx(w, #[trigger] member0[m]) != c by {
        assert(inm0[pidx(w, member0[m])]);
    }
    assert(member0.len() < n) by {
        let f = |m: int| pidx(w, member0[m]);
        assert forall|m: int| 0 <= m < member0.len() implies 0 <= #[trigger] f(m) < n && f(m)
            != c by {
            lemma_index_coords(w, h, member0[m].0 as int, member0[m].1 as int);
        }
        assert forall|m1: int, m2: int|
            0 <= m1 < member0.len() && 0 <= m2 < member0.len() && m1 != m2 implies #[trigger] f(m1)
            != #[trigger] f(m2) by {
            assert(pos0[pidx(w, member0[m1])] == m1);
            assert(pos0[pidx(w, member0[m2])] == m2);
        }
        lemma_injective_range_bound(f, member0.len() as int, n as int, c);
    }
    assert forall|s: int| 0 <= s < stack.len() implies sidx(w, #[trigger] stack[s]) != c by {
        assert(stack[s] == stack0[s]);
        assert(spos[sidx(w, stack0[s])] == s);
    }
    let inm = inm0.update(c, true);
    let pos = pos0.update(c, member0.len() as int);
    let member = member0.push((top.0 as usize, top.1 as usize));
    assert(pidx(w, member[member0.len() as int]) == c);
    assert forall|m: int| 0 <= m < member.len() implies {
        &&& (#[trigger] member[m]).0 < w
        &&& member[m].1 < h
        &&& 0 <= pidx(w, member[m]) < n
        &&& comp[pidx(w, member[m])] == kk
        &&& inm[pidx(w, member[m])]
        &&& pos[pidx(w, member[m])] == m
    } by {
        if m < member0.len() {
            assert(member[m] == member0[m]);
        } else {
            assert(member[m] == (top.0 as usize, top.1 as usize));
        }
    }
    assert forall|s: int| 0 <= s < stack.len() implies {
        &&& 0 <= (#[trigger] stack[s]).0 < w
        &&& 0 <= stack[s].1 < h
        &&& 0 <= sidx(w, stack[s]) < n
        &&& comp[sidx(w, stack[s])] == kk
        &&& !inm[sidx(w, stack[s])]
        &&& spos[sidx(w, stack[s])] == s
    } by {
        assert(stack[s] == stack0[s]);
    }
    assert forall|c2: int| 0 <= c2 < n && #[trigger] comp[c2] == kk implies {
        &&& inm[c2] ==> 0 <= pos[c2] < member.len() && pidx(w, member[pos[c2]]) == c2
        &&& !inm[c2] ==> 0 <= spos[c2] < stack.len() && sidx(w, stack[spos[c2]]) == c2
    } by {
        if c2 != c {
            if inm0[c2] {
                assert(member[pos0[c2]] == member0[pos0[c2]]);
            } else {
                assert(spos[c2] != stack0.len() - 1);
                assert(stack[spos[c2]] == stack0[spos[c2]]);
            }
        }
    }
    assert forall|k: int, m: int| 0 <= k < kk && 0 <= m < cv[k].len() implies pidx(
        w,
        #[trigger] cv[k][m],
    ) != c by {
        assert(comp[pidx(w, cv[k][m])] == k);
    }
    assert forall|c2: int| 0 <= c2 < n && 0 <= #[trigger] comp[c2] < kk implies 0 <= pos[c2]
        < cv[comp[c2]].len() && pidx(w, cv[comp[c2]][pos[c2]]) == c2 by {
        assert(c2 != c);
    }
    (pos, inm)
}

/// A newly discovered land neighbor `j` joins the component on the stack.
proof fn lemma_discover(
    land: Grid<bool>,
    visited0: Grid<bool>,
    visited: Grid<bool>,
    cv: Seq<Seq<(usize, usize)>>,
    member: Seq<(usize, usize)>,
    stack0: Seq<(i64, i64)>,
    comp0: Seq<int>,
    pos: Seq<int>,
    inm0: Seq<bool>,
    spos0: Seq<int>,
    skip: int,
    p: (i64, i64),
) -> (r: (Seq<int>, Seq<bool>, Seq<int>))
    requires
        search_inv(land, visited0, cv, member, stack0, comp0, pos, inm0, spos0),
        grown_closed(land, cv.len() as int, comp0, inm0, skip),
        0 <= p.0 < land.width,
        0 <= p.1 < land.height,
        !visited0@[sidx(land.width as int, p)],
        land@[sidx(land.width as int, p)],
        visited.wf(),
        visited.width == visited0.width,
        visited.height == visited0.height,
        visited@ == visited0@.update(sidx(land.width as int, p), true),
    ensures
        search_inv(land, visited, cv, member, stack0.push(p), r.0, pos, r.1, r.2),
        grown_closed(land, cv.len() as int, r.0, r.1, skip),
        forall|c: int|
            0 <= c < land.width * land.height && c != sidx(land.width as int, p) ==> r.0[c]
                == comp0[c] && r.1[c] == inm0[c],
        r.0[sidx(land.width as int, p)] == cv.len(),
{
    let w = land.width as int;
    let h = land.height as int;
    let n = w * h;
    let kk = cv.len() as int;
    let j = sidx(w, p);
    lemma_index_coords(w, h, p.0 as int, p.1 as int);
    assert(comp0[j] < 0);
    let comp = comp0.update(j, kk);
    let inm = inm0.update(j, false);
    let spos = spos0.update(j, stack0.len() as int);
    let stack = stack0.push(p);
    assert forall|k: int, m: int| 0 <= k < kk && 0 <= m < cv[k].len() implies pidx(
        w,
        #[trigger] cv[k][m],
    ) != j by {
        assert(comp0[pidx(w, cv[k][m])] == k);
    }
    assert forall|m: int| 0 <= m < member.len() implies pidx(w, #[trigger] member[m]) != j by {
        assert(comp0[pidx(w, member[m])] == kk);
    }
    assert forall|s: int| 0 <= s < stack.len() implies {
        &&& 0 <= (#[trigger] stack[s]).0 < w
        &&& 0 <= stack[s].1 < h
        &&& 0 <= sidx(w, stack[s]) < n
        &&& comp[sidx(w, stack[s])] == kk
        &&& !inm[sidx(w, stack[s])]
        &&& spos[sidx(w, stack[s])] == s
    } by {
        if s < stack0.len() {
            assert(stack[s] == stack0[s]);
            assert(comp0[sidx(w, stack0[s])] == kk);
        }
    }
    assert forall|c2: int| 0 <= c2 < n && #[trigger] comp[c2] == kk implies {
        &&& inm[c2] ==> 0 <= pos[c2] < member.len() && pidx(w, member[pos[c2]]) == c2
        &&& !inm[c2] ==> 0 <= spos[c2] < stack.len() && sidx(w, stack[spos[c2]]) == c2
    } by {
        if c2 != j {
            if !inm0[c2] {
                assert(stack[spos0[c2]] == stack0[spos0[c2]]);
            }
        }
    }
    assert forall|c2: int, j2: int|
        0 <= c2 < n && 0 <= #[trigger] comp[c2] < kk && adjacent(w, h, c2, j2)
            && #[trigger] land@[j2] implies comp[j2] == comp[c2] by {
        assert(c2 != j);
        assert(comp0[c2] == comp[c2]);
        assert(comp0[j2] == comp0[c2]);
        lemma_adjacent_symmetric(w, h, c2, j2);
    }
    assert forall|c2: int, j2: int|
        0 <= c2 < n && c2 != skip && #[trigger] comp[c2] == kk && inm[c2] && adjacent(w, h, c2, j2)
            && #[trigger] land@[j2] implies comp[j2] >= 0 by {
        assert(c2 != j);
        assert(comp0[c2] == kk);
        assert(comp0[j2] >= 0);
        lemma_adjacent_symmetric(w, h, c2, j2);
    }
    assert forall|c2: int| 0 <= c2 < n && 0 <= #[trigger] comp[c2] < kk implies 0 <= pos[c2]
        < cv[comp[c2]].len() && pidx(w, cv[comp[c2]][pos[c2]]) == c2 by {
        assert(c2 != j);
    }
    (comp, inm, spos)
}

/// The grown component is complete once the stack is empty: it is closed
/// under land adjacency and can be recorded.
proof fn lemma_finish(
    land: Grid<bool>,
    visited: Grid<bool>,
    cv: Seq<Seq<(usize, usize)>>,
    member: Seq<(usize, usize)>,
    comp: Seq<int>,
    pos: Seq<int>,
    inm: Seq<bool>,
    spos: Seq<int>,
    i: int,
)
    requires
        search_inv(land, visited, cv, member, Seq::empty(), comp, pos, inm, spos),
        grown_closed(land, cv.len() as int, comp, inm, -1),
        0 <= i < land.width * land.height,
        comp[i] == cv.len(),
    ensures
        search_inv(
            land,
            visited,
            cv.push(member),
            Seq::empty(),
            Seq::empty(),
            comp,
            pos,
            inm,
            spos,
        ),
{
    let w = land.width as int;
    let h = land.height as int;
    let n = w * h;
    let kk = cv.len() as int;
    let cv2 = cv.push(member);
    assert forall|c: int| 0 <= c < n && #[trigger] comp[c] == kk implies inm[c] by {
        if !inm[c] {
            assert(0 <= spos[c] < 0);
        }
    }
    assert forall|c: int, j: int|
        0 <= c < n && #[trigger] comp[c] == kk && adjacent(w, h, c, j)
            && #[trigger] land@[j] implies comp[j] == kk by {
        assert(inm[c]);
        assert(comp[j] >= 0);
        lemma_adjacent_symmetric(w, h, c, j);
        assert(land@[c]);
        assert(comp[j] <= kk);
        if comp[j] < kk {
            assert(adjacent(w, h, j, c));
            assert(comp[c] == comp[j]);
        }
    }
    assert(member.len() > 0) by {
        assert(inm[i]);
    }
    assert forall|k: int, m: int| 0 <= k < kk + 1 && 0 <= m < cv2[k].len() implies {
        &&& (#[trigger] cv2[k][m]).0 < w
        &&& cv2[k][m].1 < h
        &&& 0 <= pidx(w, cv2[k][m]) < n
        &&& comp[pidx(w, cv2[k][m])] == k
        &&& pos[pidx(w, cv2[k][m])] == m
    } by {
        if k == kk {
            assert(cv2[k] == member);
        } else {
            assert(cv2[k] == cv[k]);
        }
    }
    assert forall|k: int| 0 <= k < kk + 1 implies (#[trigger] cv2[k]).len() > 0 by {
        if k < kk {
            assert(cv2[k] == cv[k]);
        }
    }
    assert forall|c: int| 0 <= c < n && 0 <= #[trigger] comp[c] < kk + 1 implies 0 <= pos[c]
        < cv2[comp[c]].len() && pidx(w, cv2[comp[c]][pos[c]]) == c by {
        if comp[c] < kk {
            assert(cv2[comp[c]] == cv[comp[c]]);
        } else {
            assert(inm[c]);
        }
    }
    assert forall|c: int| 0 <= c < n && #[trigger] comp[c] >= 0 implies land@[c] && comp[c] <= kk
        + 1 by {}
    assert forall|c: int| 0 <= c < n && #[trigger] comp[c] == kk + 1 implies false by {}
}

/// Storage indices of the cells of a landmass, in list order.
pub open spec fn cell_indices(w: int, comp: Seq<(usize, usize)>) -> Seq<int> {
    comp.map_values(|p: (usize, usize)| pidx(w, p))
}

/// Storage indices of the cells on the search stack, bottom first.
pub open spec fn stack_indices(w: int, stack: Seq<(i64, i64)>) -> Seq<int> {
    stack.map_values(|p: (i64, i64)| sidx(w, p))
}

/// `(seen, stack)` after cell `c`, just taken off the stack, has looked at
/// its first `t` listed neighbors: each land neighbor not seen yet is
/// marked seen and pushed.
pub open spec fn push_neighbors(
    w: int,
    h: int,
    land: Seq<bool>,
    seen: Seq<bool>,
    stack: Seq<int>,
    c: int,
    t: int,
) -> (Seq<bool>, Seq<int>)
    decreases t,
{
    if t <= 0 {
        (seen, stack)
    } else {
        let prev = push_neighbors(w, h, land, seen, stack, c, t - 1);
        let j = listed_neighbor(w, h, c, t - 1);
        if land[j] && !prev.0[j] {
            (prev.0.update(j, true), prev.1.push(j))
        } else {
            prev
        }
    }
}

/// `(seen, stack, member)` of the depth-first walk from `start` after `k`
/// cells were taken off the stack (top first) and moved to `member`.
pub open spec fn dfs_steps(w: int, h: int, land: Seq<bool>, seen: Seq<bool>, start: int, k: nat) -> (
    Seq<bool>,
    Seq<int>,
    Seq<int>,
)
    decreases k,
{
    if k == 0 {
        (seen.update(start, true), seq![start], Seq::empty())
    } else {
        let p = dfs_steps(w, h, land, seen, start, (k - 1) as nat);
        if p.1.len() > 0 {
            let c = p.1.last();
            let q = push_neighbors(
                w,
                h,
                land,
                p.0,
                p.1.drop_last(),
                c,
                neighbor_coords(c % w, c / w, h, 8).len() as int,
            );
            (q.0, q.1, p.2.push(c))
        } else {
            p
        }
    }
}

/// The landmass grown from `start` by the depth-first walk (each of the
/// `w * h` cells is taken off the stack at most once), and the cells seen
/// once it is done.
pub open spec fn dfs_landmass(w: int, h: int, land: Seq<bool>, seen: Seq<bool>, start: int) -> (
    Seq<bool>,
    Seq<int>,
) {
    let s = dfs_steps(w, h, land, seen, start, (w * h) as nat);
    (s.0, s.2)
}

/// The row-major scan over the first `i` cells: each land cell not yet
/// seen starts a new landmass.
pub open spec fn dfs_scan(w: int, h: int, land: Seq<bool>, i: nat) -> (Seq<bool>, Seq<Seq<int>>)
    decreases i,
{
    if i == 0 {
        (Seq::new((w * h) as nat, |c: int| false), Seq::empty())
    } else {
        let p = dfs_scan(w, h, land, (i - 1) as nat);
        let c = i - 1;
        if p.0[c] || !land[c] {
            p
        } else {
            let d = dfs_landmass(w, h, land, p.0, c);
            (d.0, p.1.push(d.1))
        }
    }
}

/// The landmasses of a `w` by `h` land mask, as storage indices, in the
/// order the scan finds them and each in the order its cells leave the
/// stack.
pub open spec fn landmass_order(w: int, h: int, land: Seq<bool>) -> Seq<Seq<int>> {
    dfs_scan(w, h, land, (w * h) as nat).1
}

/// The scan over the first `i` cells agrees with `seen` and the lists found.
spec fn scan_matches(
    w: int,
    h: int,
    land: Seq<bool>,
    i: nat,
    seen: Seq<bool>,
    cv: Seq<Seq<(usize, usize)>>,
) -> bool {
    let s = dfs_scan(w, h, land, i);
    &&& s.0 == seen
    &&& s.1.len() == cv.len()
    &&& forall|k: int| 0 <= k < cv.len() ==> #[trigger] s.1[k] == cell_indices(w, cv[k])
}

/// Once the stack is empty the walk stays where it is.
proof fn lemma_dfs_settled(
    w: int,
    h: int,
    land: Seq<bool>,
    seen: Seq<bool>,
    start: int,
    k: nat,
    n: nat,
)
    requires
        k <= n,
        dfs_steps(w, h, land, seen, start, k).1.len() == 0,
    ensures
        dfs_steps(w, h, land, seen, start, n) == dfs_steps(w, h, land, seen, start, k),
    decreases n,
{
    if n > k {
        lemma_dfs_settled(w, h, land, seen, start, k, (n - 1) as nat);
    }
}

/// Flood-fills connected land (8-connected, wrapping in X), returning each
/// landmass's cells in the order they were expanded.
pub fn label_land_components(land: &Grid<bool>) -> (r: Vec<Vec<(usize, usize)>>)
    requires
        land.wf(),
    ensures
        components_partition(*land, comps_view(r@)),
        forall|k: int|
            0 <= k < r@.len() ==> chained(land.width as int, land.height as int, #[trigger] r@[k]@),
        scan_ordered(land.width as int, comps_view(r@)),
        r@.len() == landmass_order(land.width as int, land.height as int, land@).len(),
        forall|k: int|
            0 <= k < r@.len() ==> cell_indices(land.width as int, #[trigger] r@[k]@)
                == landmass_order(land.width as int, land.height as int, land@)[k],
{
    let width = land.width;
    let height = land.height;
    let mut components: Vec<Vec<(usize, usize)>> = Vec::new();
    if width == 0 || height == 0 {
        proof {
            assert(comps_view(components@) =~= Seq::empty());
            assert forall|c: int| 0 <= c < width * height implies !land@[c] by {
                assert(width * height == 0) by (nonlinear_arith)
                    requires
                        width == 0 || height == 0,
                ;
            }
            assert(width * height == 0) by (nonlinear_arith)
                requires
                    width == 0 || height == 0,
            ;
            assert(landmass_order(width as int, height as int, land@) =~= Seq::empty());
        }
        return components;
    }
    let n = land.cells.len();
    let mut visited: Grid<bool> = Grid::filled(width, height, false);
    let ghost w = width as int;
    let ghost h = height as int;
    let ghost mut comp: Seq<int> = Seq::new(n as nat, |c: int| -1int);
    let ghost mut pos: Seq<int> = Seq::new(n as nat, |c: int| 0int);
    let ghost mut inm: Seq<bool> = Seq::new(n as nat, |c: int| false);
    let ghost mut spos: Seq<int> = Seq::new(n as nat, |c: int| 0int);
    let ghost mut disc: Seq<int> = Seq::new(n as nat, |c: int| 0int);
    proof {
        assert(visited@ =~= dfs_scan(w, h, land@, 0).0);
    }
    let mut i: usize = 0;
    while i < n
        invariant
            width == land.width,
            height == land.height,
            w == width,
            h == height,
            n == width * height,
            0 < width,
            0 < height,
            i <= n,
            search_inv(
                *land,
                visited,
                comps_view(components@),
                Seq::empty(),
                Seq::empty(),
                comp,
                pos,
                inm,
                spos,
            ),
            chain_inv(w, h, comps_view(components@), Seq::empty(), Seq::empty(), disc),
            scan_ordered(w, comps_view(components@)),
            forall|k: int|
                0 <= k < components@.len() ==> pidx(w, #[trigger] comps_view(components@)[k][0]) < i,
            forall|c: int| 0 <= c < i && #[trigger] land@[c] ==> comp[c] >= 0,
            scan_matches(w, h, land@, i as nat, visited@, comps_view(components@)),
        decreases n - i,
    {
        proof {
            lemma_coords_of_index(w, h, i as int);
        }
        let x = (i % width) as i64;
        let y = (i / width) as i64;
        assert(cell_index(w, h, x as int, y as int) == i);
        let seen = *visited.get(x, y);
        let is_land = *land.get(x, y);
        if seen || !is_land {
            proof {
                assert(dfs_scan(w, h, land@, (i + 1) as nat) == dfs_scan(w, h, land@, i as nat));
            }
            i = i + 1;
            continue;
        }
        let ghost cv = comps_view(components@);
        let ghost kk = cv.len() as int;
        let ghost visited0 = visited;
        let ghost seen0 = visited@;
        let mut stack: Vec<(i64, i64)> = Vec::new();
        stack.push((x, y));
        visited.set(x, y, true);
        proof {
            let r = lemma_begin(*land, visited0, visited, cv, comp, pos, inm, spos, i as int, x, y);
            comp = r.0;
            inm = r.1;
            spos = r.2;
            assert(stack@ =~= seq![(x, y)]);
            assert(chain_inv(w, h, cv, Seq::empty(), stack@, disc));
            assert(sidx(w, (x, y)) == i);
            assert(stack_indices(w, stack@) =~= seq![i as int]);
            assert(cell_indices(w, Seq::<(usize, usize)>::empty()) =~= Seq::<int>::empty());
        }
        let mut member: Vec<(usize, usize)> = Vec::new();
        let ghost mut k: nat = 0;
        while stack.len() > 0
            invariant
                width == land.width,
                height == land.height,
                w == width,
                h == height,
                n == width * height,
                0 < width,
                0 < height,
                i < n,
                cv == comps_view(components@),
                kk == cv.len(),
                comp[i as int] == kk,
                search_inv(*land, visited, cv, member@, stack@, comp, pos, inm, spos),
                grown_closed(*land, kk, comp, inm, -1),
                chain_inv(w, h, cv, member@, stack@, disc),
                forall|c: int| 0 <= c < i && #[trigger] land@[c] ==> comp[c] >= 0,
                forall|c: int| 0 <= c < n && #[trigger] comp[c] == kk ==> c >= i,
                member@.len() == 0 ==> forall|c: int| 0 <= c < n && #[trigger] comp[c] == kk ==> c == i,
                member@.len() > 0 ==> pidx(w, member@[0]) == i,
                scan_ordered(w, cv),
                forall|k: int| 0 <= k < cv.len() ==> pidx(w, #[trigger] cv[k][0]) < i,
                scan_matches(w, h, land@, i as nat, seen0, cv),
                !seen0[i as int],
                land@[i as int],
                member@.len() == k,
                dfs_steps(w, h, land@, seen0, i as int, k).0 == visited@,
                dfs_steps(w, h, land@, seen0, i as int, k).1 == stack_indices(w, stack@),
                dfs_steps(w, h, land@, seen0, i as int, k).2 == cell_indices(w, member@),
            decreases n - member@.len(),
        {
            let ghost pre = dfs_steps(w, h, land@, seen0, i as int, k);
            let ghost stack0 = stack@;
            let ghost member0 = member@;
            let top = stack.pop();
            let (cx, cy) = top.unwrap();
            let ghost c = sidx(w, (cx, cy));
            proof {
                assert(stack0[stack0.len() - 1] == (cx, cy));
                assert(stack@ =~= stack0.drop_last());
                let r = lemma_expand(*land, visited, cv, member0, stack0, comp, pos, inm, spos);
                pos = r.0;
                inm = r.1;
                lemma_chain_expand(w, h, cv, member0, stack0, disc);
            }
            member.push((cx as usize, cy as usize));
            proof {
                if member0.len() == 0 {
                    assert(comp[c] == kk);
                    assert(member@[0] == (cx as usize, cy as usize));
                } else {
                    assert(member@[0] == member0[0]);
                }
                assert(pre.1.last() == c);
                assert(stack_indices(w, stack@) =~= pre.1.drop_last());
                assert(cell_indices(w, member@) =~= pre.2.push(c));
                lemma_index_coords(w, h, cx as int, cy as int);
                assert(push_neighbors(w, h, land@, pre.0, pre.1.drop_last(), c, 0) == (
                    visited@,
                    stack_indices(w, stack@),
                ));
            }
            let nbrs = land.neighbors(cx, cy);
            let mut t: usize = 0;
            while t < nbrs.len()
                invariant
                    width == land.width,
                    height == land.height,
                    w == width,
                    h == height,
                    n == width * height,
                    0 < width,
                    0 < height,
                    i < n,
                    cv == comps_view(components@),
                    kk == cv.len(),
                    comp[i as int] == kk,
                    0 <= cx < width,
                    0 <= cy < height,
                    c == cy * w + cx,
                    0 <= c < n,
                    comp[c] == kk,
                    inm[c],
                    member@.len() > member0.len(),
                    coords_as_int(nbrs@) == neighbor_coords(cx as int, cy as int, h, 8),
                    t <= nbrs@.len(),
                    search_inv(*land, visited, cv, member@, stack@, comp, pos, inm, spos),
                    grown_closed(*land, kk, comp, inm, c),
                    chain_inv(w, h, cv, member@, stack@, disc),
                    member@.len() > 0,
                    pidx(w, member@[member@.len() - 1]) == c,
                    forall|t2: int|
                        0 <= t2 < t ==> 0 <= #[trigger] cell_index(
                            w,
                            h,
                            nbrs@[t2].0 as int,
                            nbrs@[t2].1 as int,
                        ) < n && (land@[cell_index(w, h, nbrs@[t2].0 as int, nbrs@[t2].1 as int)]
                            ==> comp[cell_index(w, h, nbrs@[t2].0 as int, nbrs@[t2].1 as int)]
                            >= 0),
                    forall|c2: int| 0 <= c2 < i && #[trigger] land@[c2] ==> comp[c2] >= 0,
                    forall|c2: int| 0 <= c2 < n && #[trigger] comp[c2] == kk ==> c2 >= i,
                    pidx(w, member@[0]) == i,
                    scan_ordered(w, cv),
                    forall|k: int| 0 <= k < cv.len() ==> pidx(w, #[trigger] cv[k][0]) < i,
                    scan_matches(w, h, land@, i as nat, seen0, cv),
                    !seen0[i as int],
                    land@[i as int],
                    member@.len() == k + 1,
                    pre == dfs_steps(w, h, land@, seen0, i as int, k),
                    pre.1.len() > 0,
                    pre.1.last() == c,
                    c % w == cx,
                    c / w == cy,
                    cell_indices(w, member@) == pre.2.push(c),
                    push_neighbors(w, h, land@, pre.0, pre.1.drop_last(), c, t as int).0
                        == visited@,
                    push_neighbors(w, h, land@, pre.0, pre.1.drop_last(), c, t as int).1
                        == stack_indices(w, stack@),
                decreases nbrs@.len() - t,
            {
                let (nx, ny) = nbrs[t];
                proof {
                    assert(coords_as_int(nbrs@)[t as int] == (nx as int, ny as int));
                    lemma_neighbor_coords_shape(cx as int, cy as int, h, 8, t as int);
                    lemma_cell_index_range(w, h, nx as int, ny as int);
                }
                let seen_n = *visited.get(nx, ny);
                let land_n = *land.get(nx, ny);
                let ghost pv = push_neighbors(w, h, land@, pre.0, pre.1.drop_last(), c, t as int);
                let ghost vstack = stack@;
                proof {
                    assert(listed_neighbor(w, h, c, t as int) == cell_index(
                        w,
                        h,
                        nx as int,
                        ny as int,
                    ));
                }
                if !seen_n && land_n {
                    let ghost j = cell_index(w, h, nx as int, ny as int);
                    let ghost visited0 = visited;
                    let ghost stack0 = stack@;
                    visited.set(nx, ny, true);
                    let wx = wrap_x(nx, width);
                    proof {
                        lemma_index_coords(w, h, wx as int, ny as int);
                        assert(sidx(w, (wx, ny)) == j);
                        lemma_listed_adjacent(w, h, cx as int, cy as int, t as int);
                        assert(cell_index(
                            w,
                            h,
                            neighbor_coords(cx as int, cy as int, h, 8)[t as int].0,
                            neighbor_coords(cx as int, cy as int, h, 8)[t as int].1,
                        ) == j);
                        assert forall|s2: int| 0 <= s2 < stack0.len() implies sidx(
                            w,
                            #[trigger] stack0[s2],
                        ) != sidx(w, (wx, ny)) && 0 <= sidx(w, stack0[s2]) < w * h by {
                            assert(comp[sidx(w, stack0[s2])] == kk);
                        }
                        lemma_chain_discover(w, h, cv, member@, stack0, disc, (wx, ny));
                        disc = disc.update(j, member@.len() - 1);
                        assert(j >= i) by {
                            if j < i {
                                assert(comp[j] >= 0);
                            }
                        }
                        let r = lemma_discover(
                            *land,
                            visited0,
                            visited,
                            cv,
                            member@,
                            stack0,
                            comp,
                            pos,
                            inm,
                            spos,
                            c,
                            (wx, ny),
                        );
                        comp = r.0;
                        inm = r.1;
                        spos = r.2;
                    }
                    stack.push((wx, ny));
                    proof {
                        assert(stack_indices(w, stack@) =~= stack_indices(w, vstack).push(j));
                    }
                }
                proof {
                    assert(push_neighbors(w, h, land@, pre.0, pre.1.drop_last(), c, t + 1) == (
                        visited@,
                        stack_indices(w, stack@),
                    ));
                }
                t = t + 1;
            }
            proof {
                assert forall|j: int| adjacent(w, h, c, j) && #[trigger] land@[j] implies comp[j]
                    >= 0 by {
                    lemma_adjacent_listed(w, h, cx as int, cy as int, j);
                    let nc = neighbor_coords(cx as int, cy as int, h, 8);
                    let t2 = choose|t2: int|
                        0 <= t2 < nc.len() && cell_index(w, h, #[trigger] nc[t2].0, nc[t2].1) == j;
                    assert(coords_as_int(nbrs@)[t2] == nc[t2]);
                }
                assert(grown_closed(*land, kk, comp, inm, -1));
                assert(nbrs@.len() == coords_as_int(nbrs@).len());
                assert(dfs_steps(w, h, land@, seen0, i as int, k + 1) == (
                    visited@,
                    stack_indices(w, stack@),
                    cell_indices(w, member@),
                ));
                k = k + 1;
            }
        }
        proof {
            assert forall|m: int| 0 <= m < member@.len() implies 0 <= #[trigger] pidx(
                w,
                member@[m],
            ) < n && pos[pidx(w, member@[m])] == m by {}
            lemma_injective_bound(|m: int| pidx(w, member@[m]), member@.len() as int, n as int);
            lemma_dfs_settled(w, h, land@, seen0, i as int, k, n as nat);
            lemma_finish(*land, visited, cv, member@, comp, pos, inm, spos, i as int);
        }
        let ghost finished = member@;
        components.push(member);
        proof {
            assert(comps_view(components@) =~= cv.push(finished));
            let cv2 = cv.push(finished);
            assert(dfs_scan(w, h, land@, (i + 1) as nat) == (
                visited@,
                dfs_scan(w, h, land@, i as nat).1.push(cell_indices(w, finished)),
            ));
            assert forall|k2: int| 0 <= k2 < cv2.len() implies #[trigger] dfs_scan(
                w,
                h,
                land@,
                (i + 1) as nat,
            ).1[k2] == cell_indices(w, cv2[k2]) by {
                if k2 < cv.len() {
                    assert(cv2[k2] == cv[k2]);
                }
            }
            assert(finished.len() > 0) by {
                assert(comp[i as int] == kk);
            }
            assert forall|k: int, m: int| 0 <= k < cv2.len() && 0 <= m < cv2[k].len() implies pidx(
                w,
                cv2[k][0],
            ) <= pidx(w, #[trigger] cv2[k][m]) by {
                if k < cv.len() {
                    assert(cv2[k] == cv[k]);
                } else {
                    assert(cv2[k] == finished);
                    assert(comp[pidx(w, finished[m])] == kk);
                }
            }
            assert forall|k1: int, k2: int| 0 <= k1 < k2 < cv2.len() implies pidx(
                w,
                #[trigger] cv2[k1][0],
            ) < pidx(w, #[trigger] cv2[k2][0]) by {
                assert(cv2[k1] == cv[k1]);
                if k2 < cv.len() {
                    assert(cv2[k2] == cv[k2]);
                }
            }
            assert(scan_ordered(w, comps_view(components@)));
            assert forall|k: int| 0 <= k < components@.len() implies pidx(
                w,
                #[trigger] comps_view(components@)[k][0],
            ) < i + 1 by {
                if k < cv.len() {
                    assert(cv2[k] == cv[k]);
                }
            }
            assert forall|k2: int| 0 <= k2 < cv.len() + 1 implies chained(
                w,
                h,
                #[trigger] cv.push(finished)[k2],
            ) by {
                if k2 < cv.len() {
                    assert(cv.push(finished)[k2] == cv[k2]);
                }
            }
            assert(chain_inv(w, h, comps_view(components@), Seq::empty(), Seq::empty(), disc));
        }
        i = i + 1;
    }
    proof {
        let cv = comps_view(components@);
        assert forall|k: int| 0 <= k < components@.len() implies chained(
            w,
            h,
            #[trigger] components@[k]@,
        ) by {
            assert(cv[k] == components@[k]@);
        }
        assert forall|k1: int, m1: int, k2: int, m2: int|
            0 <= k1 < cv.len() && 0 <= m1 < cv[k1].len() && 0 <= k2 < cv.len() && 0 <= m2
                < cv[k2].len() && #[trigger] pidx(w, cv[k1][m1]) == #[trigger] pidx(w, cv[k2][m2])
            implies k1 == k2 && m1 == m2 by {
            let c = pidx(w, cv[k1][m1]);
            assert(comp[c] == k1);
            assert(pos[c] == m1);
        }
        assert forall|c: int| 0 <= c < w * h && #[trigger] land@[c] implies exists|k: int, m: int|
            0 <= k < cv.len() && 0 <= m < cv[k].len() && #[trigger] pidx(w, cv[k][m]) == c by {
            assert(comp[c] >= 0);
            assert(comp[c] < cv.len()) by {
                if comp[c] == cv.len() {
                    if inm[c] {
                        assert(0 <= pos[c] < 0);
                    } else {
                        assert(0 <= spos[c] < 0);
                    }
                }
            }
            assert(pidx(w, cv[comp[c]][pos[c]]) == c);
        }
        assert forall|k: int, m: int, j: int|
            0 <= k < cv.len() && 0 <= m < cv[k].len() && adjacent(
                w,
                h,
                #[trigger] pidx(w, cv[k][m]),
                j,
            ) && #[trigger] land@[j] implies exists|m2: int|
            0 <= m2 < cv[k].len() && #[trigger] pidx(w, cv[k][m2]) == j by {
            let c = pidx(w, cv[k][m]);
            assert(comp[c] == k);
            lemma_index_coords(w, h, cv[k][m].0 as int, cv[k][m].1 as int);
            lemma_adjacent_symmetric(w, h, c, j);
            assert(comp[j] == k);
            assert(pidx(w, cv[k][pos[j]]) == j);
        }
    }
    components
}

/// An injective map from `0..len` into `0..n` has `len <= n`.
pub proof fn lemma_injective_bound(f: spec_fn(int) -> int, len: int, n: int)
    requires
        0 <= len,
        0 <= n,
        forall|m: int| 0 <= m < len ==> 0 <= #[trigger] f(m) < n,
        forall|m1: int, m2: int|
            0 <= m1 < len && 0 <= m2 < len && m1 != m2 ==> #[trigger] f(m1) != #[trigger] f(m2),
    ensures
        len <= n,
{
    if len > 0 {
        let g = |m: int| f(m + 1);
        assert forall|m: int| 0 <= m < len - 1 implies 0 <= #[trigger] g(m) < n && g(m) != f(0) by {
            assert(f(m + 1) != f(0));
        }
        assert forall|m1: int, m2: int|
            0 <= m1 < len - 1 && 0 <= m2 < len - 1 && m1 != m2 implies #[trigger] g(m1)
            != #[trigger] g(m2) by {
            assert(f(m1 + 1) != f(m2 + 1));
        }
        lemma_injective_range_bound(g, len - 1, n, f(0));
    }
}

/// An injective map from `0..len` into `0..n` that misses `extra` (also in
/// `0..n`) has `len < n`.
pub(crate) proof fn lemma_injective_range_bound(f: spec_fn(int) -> int, len: int, n: int, extra: int)
    requires
        0 <= len,
        0 <= extra < n,
        forall|m: int| 0 <= m < len ==> 0 <= #[trigger] f(m) < n && f(m) != extra,
        forall|m1: int, m2: int|
            0 <= m1 < len && 0 <= m2 < len && m1 != m2 ==> #[trigger] f(m1) != #[trigger] f(m2),
    ensures
        len < n,
{
    let img = Set::new(|v: int| exists|m: int| 0 <= m < len && #[trigger] f(m) == v);
    let dom = vstd::set_lib::set_int_range(0, len);
    let full = vstd::set_lib::set_int_range(0, n);
    vstd::set_lib::lemma_int_range(0, len);
    vstd::set_lib::lemma_int_range(0, n);
    assert(img.insert(extra).subset_of(full)) by {
        assert forall|v: int| img.insert(extra).contains(v) implies full.contains(v) by {
            if v != extra {
                let m = choose|m: int| 0 <= m < len && #[trigger] f(m) == v;
            }
        }
    }
    let fm = |m: int| f(m);
    assert(img =~= dom.map(fm)) by {
        assert forall|v: int| img.contains(v) implies dom.map(fm).contains(v) by {
            let m = choose|m: int| 0 <= m < len && #[trigger] f(m) == v;
            assert(dom.contains(m));
        }
    }
    assert(vstd::relations::injective_on(fm, dom)) by {
        assert forall|a: int, b: int| dom.contains(a) && dom.contains(b) && fm(a) == fm(b) implies a
            == b by {
            if a != b {
                assert(f(a) != f(b));
            }
        }
    }
    vstd::set_lib::lemma_map_size(dom, img, fm);
    vstd::set_lib::lemma_len_subset(img.insert(extra), full);
    assert(!img.contains(extra));
}

} // verus!
