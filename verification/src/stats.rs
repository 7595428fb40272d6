//! Landmass statistics over a classified terrain grid.
use crate::biome::Terrain;
use crate::elevation::{
    cell_indices, chained, comps_view, components_partition, label_land_components,
    landmass_order, lemma_injective_bound, pidx, scan_ordered,
};
use crate::strait::{cells_ok, closed_in, connected, lemma_chained_connected, mask_of};
use crate::grid::{adjacent, cell_index, lemma_adjacent_symmetric, lemma_index_coords, Grid};
use vstd::prelude::*;

verus! {

/// The number of landmasses of at least `min_size` cells: the count of a
/// labelling that meets `landmass_labelling` (every such labelling has the
/// same count, see `lemma_labelling_count_unique`).
pub open spec fn landmass_count(terrain: Grid<Terrain>, min_size: int) -> int {
    choose|count: int| #[trigger] has_labelling(terrain, min_size, count)
}

/// Some labelling with `count` ids meets `landmass_labelling`.
pub open spec fn has_labelling(terrain: Grid<Terrain>, min_size: int, count: int) -> bool {
    exists|labels: Grid<i32>| #[trigger] landmass_labelling(terrain, min_size, labels, count)
}

/// Some cell carries label `id`.
pub open spec fn id_used(labels: Grid<i32>, id: int) -> bool {
    exists|c: int| 0 <= c < labels@.len() && #[trigger] labels@[c] == id
}

/// The land cells of a terrain grid, marked.
pub open spec fn land_of(terrain: Grid<Terrain>) -> Seq<bool> {
    terrain@.map_values(|t: Terrain| spec_is_land(t))
}

/// How many of the first `k` landmasses of `order` have at least
/// `min_size` cells.
pub open spec fn count_at_least(order: Seq<Seq<int>>, min_size: int, k: int) -> int
    decreases k,
{
    if k <= 0 {
        0
    } else {
        count_at_least(order, min_size, k - 1) + if order[k - 1].len() >= min_size {
            1int
        } else {
            0int
        }
    }
}

/// The number of landmasses of at least `min_size` cells, counted over the
/// scan of the land (the count the labelling ends with).
pub open spec fn big_landmasses(terrain: Grid<Terrain>, min_size: int) -> int {
    let order = landmass_order(terrain.width as int, terrain.height as int, land_of(terrain));
    count_at_least(order, min_size, order.len() as int)
}

/// Counting over the landmass lists and over their storage indices agree.
proof fn lemma_count_matches(
    cv: Seq<Seq<(usize, usize)>>,
    order: Seq<Seq<int>>,
    w: int,
    ms: int,
    k: int,
)
    requires
        cv.len() == order.len(),
        forall|i: int| 0 <= i < cv.len() ==> cell_indices(w, #[trigger] cv[i]) == order[i],
        0 <= k <= cv.len(),
    ensures
        big_before(cv, ms, k) == count_at_least(order, ms, k),
    decreases k,
{
    if k > 0 {
        lemma_count_matches(cv, order, w, ms, k - 1);
        assert(cell_indices(w, cv[k - 1]).len() == cv[k - 1].len());
    }
}

/// Land is everything but water and ice.
pub open spec fn spec_is_land(t: Terrain) -> bool {
    !(t == Terrain::Ocean || t == Terrain::Coast || t == Terrain::Lake || t == Terrain::Ice)
}

/// Storage indices of the cells carrying label `id`.
pub open spec fn cells_labelled(labels: Grid<i32>, id: int) -> Set<int> {
    Set::new(|c: int| 0 <= c < labels@.len() && labels@[c] == id)
}

/// The cells carrying label `id`, marked.
pub open spec fn labelled_mask(labels: Grid<i32>, id: int) -> Seq<bool> {
    Seq::new(labels@.len(), |c: int| labels@[c] == id)
}

/// `s` is a finite set of land cells with every land neighbor of a member
/// also a member: a union of whole landmasses.
pub open spec fn closed_land_set(terrain: Grid<Terrain>, s: Set<int>) -> bool {
    let w = terrain.width as int;
    let h = terrain.height as int;
    &&& s.finite()
    &&& forall|a: int| #[trigger]
        s.contains(a) ==> 0 <= a < w * h && spec_is_land(terrain@[a]) && forall|b: int|
            adjacent(w, h, a, b) && spec_is_land(terrain@[b]) ==> #[trigger] s.contains(b)
}

/// The contract of `label_landmasses`: labels run `-1..count`, only land
/// gets a landmass id, neighboring land cells share their label, the cells
/// of each id form one connected piece of at least `min_size` cells, and a
/// land cell is left at `-1` only when it lies in a landmass smaller than
/// `min_size`. So each id is exactly one landmass, and `count` is the
/// number of landmasses of at least `min_size` cells. Ids follow the order
/// in which the landmasses' first cells come in row-major order (a cell
/// with id `k > 0` has a cell with id `k - 1` before it), and every id
/// below `count` is used, so the labelling is fully determined.
pub open spec fn landmass_labelling(
    terrain: Grid<Terrain>,
    min_size: int,
    labels: Grid<i32>,
    count: int,
) -> bool {
    let w = terrain.width as int;
    let h = terrain.height as int;
    let n = w * h;
    &&& 0 <= count
    &&& labels.wf()
    &&& labels.width == terrain.width
    &&& labels.height == terrain.height
    &&& forall|c: int| 0 <= c < n ==> -1 <= #[trigger] labels@[c] < count
    &&& forall|c: int| 0 <= c < n && #[trigger] labels@[c] >= 0 ==> spec_is_land(terrain@[c])
    &&& forall|c: int, j: int|
        0 <= c < n && #[trigger] adjacent(w, h, c, j) && spec_is_land(terrain@[c])
            && spec_is_land(terrain@[j]) ==> labels@[c] == labels@[j]
    &&& forall|id: int|
        0 <= id < count ==> (#[trigger] cells_labelled(labels, id)).finite() && cells_labelled(
            labels,
            id,
        ).len() >= min_size
    &&& forall|id: int| 0 <= id < count ==> connected(w, h, #[trigger] labelled_mask(labels, id))
    &&& forall|id: int| 0 <= id < count ==> #[trigger] id_used(labels, id)
    &&& forall|c: int|
        0 <= c < n && #[trigger] labels@[c] > 0 ==> exists|c1: int|
            0 <= c1 < c && #[trigger] labels@[c1] == labels@[c] - 1
    &&& forall|c: int|
        0 <= c < n && #[trigger] labels@[c] == -1 && spec_is_land(terrain@[c]) ==> exists|
            s: Set<int>,
        |
            #![trigger s.contains(c)]
            closed_land_set(terrain, s) && s.contains(c) && s.len() < min_size
}

pub fn is_land(terrain: Terrain) -> (r: bool)
    ensures
        r == spec_is_land(terrain),
        r == !(terrain == Terrain::Ocean || terrain == Terrain::Coast || terrain == Terrain::Lake
            || terrain == Terrain::Ice),
{
    match terrain {
        Terrain::Ocean | Terrain::Coast | Terrain::Lake | Terrain::Ice => false,
        _ => true,
    }
}

/// Number of landmasses among the first `k` of `cv` with at least
/// `min_size` cells.
spec fn big_before(cv: Seq<Seq<(usize, usize)>>, min_size: int, k: int) -> int
    decreases k,
{
    if k <= 0 {
        0
    } else {
        big_before(cv, min_size, k - 1) + if cv[k - 1].len() >= min_size {
            1int
        } else {
            0int
        }
    }
}

/// The label landmass `k` gets.
spec fn lab(cv: Seq<Seq<(usize, usize)>>, min_size: int, k: int) -> int {
    if cv[k].len() >= min_size {
        big_before(cv, min_size, k)
    } else {
        -1
    }
}

/// Where land cell `c` sits in `cv`.
spec fn home(cv: Seq<Seq<(usize, usize)>>, w: int, c: int) -> (int, int) {
    choose|k: int, m: int|
        0 <= k < cv.len() && 0 <= m < cv[k].len() && #[trigger] pidx(w, cv[k][m]) == c
}

proof fn lemma_big_before_bound(cv: Seq<Seq<(usize, usize)>>, min_size: int, k: int)
    requires
        0 <= k <= cv.len(),
    ensures
        0 <= big_before(cv, min_size, k) <= k,
    decreases k,
{
    if k > 0 {
        lemma_big_before_bound(cv, min_size, k - 1);
    }
}

proof fn lemma_big_before_mono(cv: Seq<Seq<(usize, usize)>>, min_size: int, k1: int, k2: int)
    requires
        0 <= k1 <= k2 <= cv.len(),
    ensures
        big_before(cv, min_size, k1) <= big_before(cv, min_size, k2),
        0 <= big_before(cv, min_size, k1) <= k1,
        k1 < k2 && cv[k1].len() >= min_size ==> big_before(cv, min_size, k1) < big_before(
            cv,
            min_size,
            k2,
        ),
    decreases k2,
{
    lemma_big_before_bound(cv, min_size, k1);
    if k1 < k2 {
        lemma_big_before_mono(cv, min_size, k1, k2 - 1);
    }
}

/// Every id below `big_before(.., k)` belongs to some large landmass.
proof fn lemma_big_before_onto(cv: Seq<Seq<(usize, usize)>>, min_size: int, k: int, id: int)
    requires
        0 <= k <= cv.len(),
        0 <= id < big_before(cv, min_size, k),
    ensures
        exists|k2: int|
            0 <= k2 < k && cv[k2].len() >= min_size && #[trigger] big_before(cv, min_size, k2)
                == id,
    decreases k,
{
    if id < big_before(cv, min_size, k - 1) {
        lemma_big_before_onto(cv, min_size, k - 1, id);
        let k2 = choose|k2: int|
            0 <= k2 < k - 1 && cv[k2].len() >= min_size && #[trigger] big_before(cv, min_size, k2)
                == id;
    } else {
        lemma_big_before_bound(cv, min_size, k - 1);
        assert(big_before(cv, min_size, k - 1) == id);
    }
}

/// Counts distinct connected landmasses, ignoring specks smaller than
/// `min_size` cells: the generated continent count, which can differ from
/// the expected number of noise blobs.
pub fn count_landmasses(terrain: &Grid<Terrain>, min_size: usize) -> (r: usize)
    requires
        terrain.wf(),
        big_landmasses(*terrain, min_size as int) <= i32::MAX,
    ensures
        r == landmass_count(*terrain, min_size as int),
        exists|labels: Grid<i32>| landmass_labelling(*terrain, min_size as int, labels, r as int),
{
    let (labels, count) = label_landmasses(terrain, min_size);
    count
}

/// Flood-fills connected landmasses (8-connected, wrapping in X, specks
/// under `min_size` cells don't count) and labels every cell with its
/// landmass's 0-based index in encounter order, or `-1` for water, ice and
/// discarded specks.
pub fn label_landmasses(terrain: &Grid<Terrain>, min_size: usize) -> (r: (Grid<i32>, usize))
    requires
        terrain.wf(),
        big_landmasses(*terrain, min_size as int) <= i32::MAX,
    ensures
        landmass_labelling(*terrain, min_size as int, r.0, r.1 as int),
        r.1 == landmass_count(*terrain, min_size as int),
{
    let width = terrain.width;
    let height = terrain.height;
    let n = terrain.cells.len();
    let mut mask_cells: Vec<bool> = Vec::with_capacity(n);
    let mut i: usize = 0;
    while i < n
        invariant
            n == terrain@.len(),
            i <= n,
            mask_cells@.len() == i,
            forall|c: int| 0 <= c < i ==> mask_cells@[c] == spec_is_land(#[trigger] terrain@[c]),
        decreases n - i,
    {
        mask_cells.push(is_land(terrain.cells[i]));
        i = i + 1;
    }
    let land = Grid { width, height, cells: mask_cells };
    assert(forall|c: int| 0 <= c < n ==> land@[c] == spec_is_land(#[trigger] terrain@[c]));
    let comps = label_land_components(&land);
    let ghost cv = comps_view(comps@);
    let ghost w = width as int;
    let ghost h = height as int;
    assert forall|k2: int| 0 <= k2 < cv.len() implies chained(w, h, #[trigger] cv[k2]) by {
        assert(cv[k2] == comps@[k2]@);
    }
    let ghost ms = min_size as int;
    proof {
        assert(land@ =~= land_of(*terrain));
        let order = landmass_order(w, h, land@);
        assert forall|i: int| 0 <= i < cv.len() implies cell_indices(w, #[trigger] cv[i]) == order[i] by {
            assert(cv[i] == comps@[i]@);
        }
        lemma_count_matches(cv, order, w, ms, cv.len() as int);
    }
    let mut labels: Grid<i32> = Grid::filled(width, height, -1i32);
    if width == 0 || height == 0 {
        proof {
            assert(n == 0) by (nonlinear_arith)
                requires
                    n == width * height,
                    width == 0 || height == 0,
            ;
            assert(big_before(cv, ms, 0) == 0);
        }
        proof {
            lemma_count_is_landmass_count(*terrain, ms, labels, 0);
        }
        return (labels, 0);
    }
    proof {
        // there are no more landmasses than cells
        let f = |k: int| pidx(w, cv[k][0]);
        assert forall|k: int| 0 <= k < cv.len() implies 0 <= #[trigger] f(k) < n by {
            assert(cv[k].len() > 0);
            lemma_index_coords(w, h, cv[k][0].0 as int, cv[k][0].1 as int);
        }
        assert forall|k1: int, k2: int|
            0 <= k1 < cv.len() && 0 <= k2 < cv.len() && k1 != k2 implies #[trigger] f(k1)
            != #[trigger] f(k2) by {
            assert(cv[k1].len() > 0 && cv[k2].len() > 0);
        }
        lemma_injective_bound(f, cv.len() as int, n as int);
    }
    let mut next_id: i32 = 0;
    let mut k: usize = 0;
    while k < comps.len()
        invariant
            width == terrain.width,
            height == terrain.height,
            w == width,
            h == height,
            0 < width,
            0 < height,
            n == width * height,
            big_before(cv, ms, cv.len() as int) <= i32::MAX,
            ms == min_size,
            cv == comps_view(comps@),
            cv.len() == comps@.len(),
            cv.len() <= n,
            components_partition(land, cv),
            forall|k2: int| 0 <= k2 < cv.len() ==> chained(w, h, #[trigger] cv[k2]),
            scan_ordered(w, cv),
            forall|c: int| 0 <= c < n ==> land@[c] == spec_is_land(#[trigger] terrain@[c]),
            land.width == width,
            land.height == height,
            k <= cv.len(),
            next_id == big_before(cv, ms, k as int),
            labels.wf(),
            labels.width == width,
            labels.height == height,
            forall|c: int|
                0 <= c < n ==> #[trigger] labels@[c] == if land@[c] && home(cv, w, c).0 < k {
                    lab(cv, ms, home(cv, w, c).0)
                } else {
                    -1
                },
        decreases cv.len() - k,
    {
        proof {
            lemma_big_before_mono(cv, ms, k as int, k as int);
        }
        let comp = &comps[k];
        assert(comp@ == cv[k as int]);
        if comp.len() >= min_size {
            let mut m: usize = 0;
            while m < comp.len()
                invariant
                    width == terrain.width,
                    height == terrain.height,
                    w == width,
                    h == height,
                    0 < width,
                    0 < height,
                    n == width * height,
                    ms == min_size,
                    cv == comps_view(comps@),
                    cv.len() == comps@.len(),
                    components_partition(land, cv),
                    land.width == width,
                    land.height == height,
                    k < cv.len(),
                    comp@ == cv[k as int],
                    cv[k as int].len() >= ms,
                    next_id == big_before(cv, ms, k as int),
                    m <= comp@.len(),
                    labels.wf(),
                    labels.width == width,
                    labels.height == height,
                    forall|c: int|
                        0 <= c < n ==> #[trigger] labels@[c] == if land@[c] && (home(cv, w, c).0 < k
                            || (home(cv, w, c).0 == k && home(cv, w, c).1 < m)) {
                            lab(cv, ms, home(cv, w, c).0)
                        } else {
                            -1
                        },
                decreases comp@.len() - m,
            {
                let (x, y) = comp[m];
                let ghost c = pidx(w, (x, y));
                proof {
                    assert(cv[k as int][m as int] == (x, y));
                    lemma_index_coords(w, h, x as int, y as int);
                    lemma_home(land, cv, k as int, m as int);
                }
                let ghost before = labels@;
                labels.set(x as i64, y as i64, next_id);
                proof {
                    assert(labels@ == before.update(c, next_id as i32));
                    assert forall|c2: int| 0 <= c2 < n implies #[trigger] labels@[c2] == if land@[c2]
                        && (home(cv, w, c2).0 < k || (home(cv, w, c2).0 == k && home(cv, w, c2).1
                        < m + 1)) {
                        lab(cv, ms, home(cv, w, c2).0)
                    } else {
                        -1
                    } by {
                        if c2 != c && land@[c2] {
                            lemma_home_of(land, cv, c2);
                            let hk = home(cv, w, c2);
                            assert(!(hk.0 == k && hk.1 == m));
                        }
                    }
                }
                m = m + 1;
            }
            proof {
                assert forall|c: int| 0 <= c < n implies #[trigger] labels@[c] == if land@[c] && home(
                    cv,
                    w,
                    c,
                ).0 < k + 1 {
                    lab(cv, ms, home(cv, w, c).0)
                } else {
                    -1
                } by {
                    if land@[c] {
                        lemma_home_of(land, cv, c);
                    }
                }
                lemma_big_before_mono(cv, ms, k as int, k as int + 1);
                lemma_big_before_mono(cv, ms, k as int, cv.len() as int);
            }
            next_id = next_id + 1;
        } else {
            proof {
                assert forall|c: int| 0 <= c < n implies #[trigger] labels@[c] == if land@[c] && home(
                    cv,
                    w,
                    c,
                ).0 < k + 1 {
                    lab(cv, ms, home(cv, w, c).0)
                } else {
                    -1
                } by {}
            }
        }
        k = k + 1;
    }
    proof {
        lemma_labelling(*terrain, land, cv, ms, labels);
        lemma_big_before_bound(cv, ms, cv.len() as int);
        lemma_count_is_landmass_count(*terrain, ms, labels, next_id as int);
    }
    (labels, next_id as usize)
}

/// `home` finds the place of a land cell.
proof fn lemma_home_of(land: Grid<bool>, cv: Seq<Seq<(usize, usize)>>, c: int)
    requires
        components_partition(land, cv),
        0 <= c < land.width * land.height,
        land@[c],
    ensures
        0 <= home(cv, land.width as int, c).0 < cv.len(),
        0 <= home(cv, land.width as int, c).1 < cv[home(cv, land.width as int, c).0].len(),
        pidx(
            land.width as int,
            cv[home(cv, land.width as int, c).0][home(cv, land.width as int, c).1],
        ) == c,
{
}

/// `home` of a listed cell is where it is listed.
proof fn lemma_home(land: Grid<bool>, cv: Seq<Seq<(usize, usize)>>, k: int, m: int)
    requires
        components_partition(land, cv),
        0 <= k < cv.len(),
        0 <= m < cv[k].len(),
    ensures
        home(cv, land.width as int, pidx(land.width as int, cv[k][m])) == (k, m),
        land@[pidx(land.width as int, cv[k][m])],
{
    let w = land.width as int;
    let c = pidx(w, cv[k][m]);
    let hm = home(cv, w, c);
    assert(pidx(w, cv[hm.0][hm.1]) == c);
}

/// Labels derived from the landmass partition meet `landmass_labelling`.
proof fn lemma_labelling(
    terrain: Grid<Terrain>,
    land: Grid<bool>,
    cv: Seq<Seq<(usize, usize)>>,
    ms: int,
    labels: Grid<i32>,
)
    requires
        components_partition(land, cv),
        land.width == terrain.width,
        land.height == terrain.height,
        0 < land.width,
        0 < land.height,
        labels.wf(),
        labels.width == terrain.width,
        labels.height == terrain.height,
        forall|k: int| 0 <= k < cv.len() ==> chained(land.width as int, land.height as int, #[trigger] cv[k]),
        scan_ordered(land.width as int, cv),
        forall|c: int|
            0 <= c < land.width * land.height ==> land@[c] == spec_is_land(#[trigger] terrain@[c]),
        forall|c: int|
            0 <= c < land.width * land.height ==> #[trigger] labels@[c] == if land@[c] && home(
                cv,
                land.width as int,
                c,
            ).0 < cv.len() {
                lab(cv, ms, home(cv, land.width as int, c).0)
            } else {
                -1
            },
    ensures
        landmass_labelling(terrain, ms, labels, big_before(cv, ms, cv.len() as int)),
{
    let w = land.width as int;
    let h = land.height as int;
    let n = w * h;
    let count = big_before(cv, ms, cv.len() as int);
    lemma_big_before_bound(cv, ms, cv.len() as int);
    assert forall|c: int| 0 <= c < n implies -1 <= #[trigger] labels@[c] < count by {
        if land@[c] {
            lemma_home_of(land, cv, c);
            let k = home(cv, w, c).0;
            if cv[k].len() >= ms {
                lemma_big_before_mono(cv, ms, k, cv.len() as int);
            }
        }
    }
    assert forall|c: int, j: int|
        0 <= c < n && #[trigger] adjacent(w, h, c, j) && spec_is_land(terrain@[c]) && spec_is_land(
            terrain@[j],
        ) implies labels@[c] == labels@[j] by {
        lemma_adjacent_symmetric(w, h, c, j);
        lemma_home_of(land, cv, c);
        let hc = home(cv, w, c);
        assert(land@[j]);
        let m2 = choose|m2: int| 0 <= m2 < cv[hc.0].len() && #[trigger] pidx(w, cv[hc.0][m2]) == j;
        lemma_home(land, cv, hc.0, m2);
    }
    assert forall|id: int| 0 <= id < count implies (#[trigger] cells_labelled(labels, id)).finite()
        && cells_labelled(labels, id).len() >= ms by {
        lemma_big_before_onto(cv, ms, cv.len() as int, id);
        let k = choose|k: int|
            0 <= k < cv.len() && cv[k].len() >= ms && #[trigger] big_before(cv, ms, k) == id;
        lemma_component_cells(land, cv, k);
        let s = Set::new(|c: int| exists|m: int| 0 <= m < cv[k].len() && #[trigger] pidx(w, cv[k][m]) == c);
        assert(cells_labelled(labels, id) =~= s) by {
            assert forall|c: int| cells_labelled(labels, id).contains(c) implies s.contains(c) by {
                assert(labels@[c] == id);
                assert(land@[c]);
                lemma_home_of(land, cv, c);
                let hc = home(cv, w, c);
                if hc.0 != k {
                    if hc.0 < k {
                        lemma_big_before_mono(cv, ms, hc.0, k);
                    } else {
                        lemma_big_before_mono(cv, ms, k, hc.0);
                    }
                }
            }
            assert forall|c: int| s.contains(c) implies cells_labelled(labels, id).contains(c) by {
                let m = choose|m: int| 0 <= m < cv[k].len() && #[trigger] pidx(w, cv[k][m]) == c;
                lemma_home(land, cv, k, m);
                lemma_index_coords(w, h, cv[k][m].0 as int, cv[k][m].1 as int);
            }
        }
    }
    assert forall|c: int| 0 <= c < n && #[trigger] labels@[c] > 0 implies exists|c1: int|
        0 <= c1 < c && #[trigger] labels@[c1] == labels@[c] - 1 by {
        let id = labels@[c] as int;
        assert(land@[c]);
        lemma_home_of(land, cv, c);
        let hc = home(cv, w, c);
        let k = hc.0;
        assert(cv[k].len() >= ms);
        assert(big_before(cv, ms, k) == id);
        lemma_big_before_onto(cv, ms, k, id - 1);
        let k2 = choose|k2: int|
            0 <= k2 < k && cv[k2].len() >= ms && #[trigger] big_before(cv, ms, k2) == id - 1;
        assert(cv[k2].len() > 0);
        let c1 = pidx(w, cv[k2][0]);
        assert(pidx(w, cv[k2][0]) < pidx(w, cv[k][0]));
        assert(pidx(w, cv[k][0]) <= pidx(w, cv[k][hc.1]));
        lemma_home(land, cv, k2, 0);
        lemma_index_coords(w, h, cv[k2][0].0 as int, cv[k2][0].1 as int);
        assert(labels@[c1] == id - 1);
    }
    assert forall|id: int| 0 <= id < count implies #[trigger] id_used(labels, id) by {
        lemma_big_before_onto(cv, ms, cv.len() as int, id);
        let k = choose|k: int|
            0 <= k < cv.len() && cv[k].len() >= ms && #[trigger] big_before(cv, ms, k) == id;
        assert(cv[k].len() > 0);
        lemma_home(land, cv, k, 0);
        lemma_index_coords(w, h, cv[k][0].0 as int, cv[k][0].1 as int);
        let c = pidx(w, cv[k][0]);
        assert(labels@[c] == id);
    }
    assert forall|id: int| 0 <= id < count implies connected(w, h, #[trigger] labelled_mask(labels, id)) by {
        lemma_big_before_onto(cv, ms, cv.len() as int, id);
        let k = choose|k: int|
            0 <= k < cv.len() && cv[k].len() >= ms && #[trigger] big_before(cv, ms, k) == id;
        assert(cells_ok(w, h, cv[k])) by {
            assert forall|m1: int, m2: int|
                0 <= m1 < cv[k].len() && 0 <= m2 < cv[k].len() && m1 != m2 implies #[trigger] pidx(
                w,
                cv[k][m1],
            ) != #[trigger] pidx(w, cv[k][m2]) by {}
        }
        assert(chained(w, h, cv[k]));
        lemma_chained_connected(w, h, cv[k]);
        assert(cells_labelled(labels, id).finite());
        assert(labelled_mask(labels, id) =~= mask_of(w, h, cv[k])) by {
            assert forall|c: int| 0 <= c < n implies labelled_mask(labels, id)[c] == mask_of(
                w,
                h,
                cv[k],
            )[c] by {
                if labels@[c] == id {
                    assert(land@[c]);
                    lemma_home_of(land, cv, c);
                    let hc = home(cv, w, c);
                    if hc.0 != k {
                        if hc.0 < k {
                            lemma_big_before_mono(cv, ms, hc.0, k);
                        } else {
                            lemma_big_before_mono(cv, ms, k, hc.0);
                        }
                    }
                    assert(pidx(w, cv[k][hc.1]) == c);
                }
                if mask_of(w, h, cv[k])[c] {
                    let m = choose|m: int| 0 <= m < cv[k].len() && #[trigger] pidx(w, cv[k][m]) == c;
                    lemma_home(land, cv, k, m);
                }
            }
        }
    }
    assert forall|c: int|
        0 <= c < n && #[trigger] labels@[c] == -1 && spec_is_land(terrain@[c]) implies exists|
            s: Set<int>,
        |
            #![trigger s.contains(c)]
            closed_land_set(terrain, s) && s.contains(c) && s.len() < ms by {
        assert(land@[c]);
        lemma_home_of(land, cv, c);
        let hc = home(cv, w, c);
        let k = hc.0;
        lemma_big_before_bound(cv, ms, k);
        assert(cv[k].len() < ms);
        lemma_component_cells(land, cv, k);
        let s = Set::new(|c2: int| exists|m: int| 0 <= m < cv[k].len() && #[trigger] pidx(w, cv[k][m]) == c2);
        assert(s.contains(c)) by {
            assert(pidx(w, cv[k][hc.1]) == c);
        }
        assert forall|a: int| #[trigger] s.contains(a) implies 0 <= a < w * h && spec_is_land(terrain@[a])
            && forall|b: int|
            adjacent(w, h, a, b) && spec_is_land(terrain@[b]) ==> #[trigger] s.contains(b) by {
            let m = choose|m: int| 0 <= m < cv[k].len() && #[trigger] pidx(w, cv[k][m]) == a;
            lemma_index_coords(w, h, cv[k][m].0 as int, cv[k][m].1 as int);
            assert forall|b: int| adjacent(w, h, a, b) && spec_is_land(terrain@[b]) implies #[trigger] s.contains(b) by {
                lemma_adjacent_symmetric(w, h, a, b);
                assert(land@[b]);
                let m2 = choose|m2: int| 0 <= m2 < cv[k].len() && #[trigger] pidx(w, cv[k][m2]) == b;
            }
        }
        assert(closed_land_set(terrain, s));
    }
}

/// The cells of landmass `k` form a finite set of exactly its length.
proof fn lemma_component_cells(land: Grid<bool>, cv: Seq<Seq<(usize, usize)>>, k: int)
    requires
        components_partition(land, cv),
        0 <= k < cv.len(),
    ensures
        Set::new(
            |c: int|
                exists|m: int|
                    0 <= m < cv[k].len() && #[trigger] pidx(land.width as int, cv[k][m]) == c,
        ).finite(),
        Set::new(
            |c: int|
                exists|m: int|
                    0 <= m < cv[k].len() && #[trigger] pidx(land.width as int, cv[k][m]) == c,
        ).len() == cv[k].len(),
{
    let w = land.width as int;
    let s = Set::new(|c: int| exists|m: int| 0 <= m < cv[k].len() && #[trigger] pidx(w, cv[k][m]) == c);
    let dom = vstd::set_lib::set_int_range(0, cv[k].len() as int);
    vstd::set_lib::lemma_int_range(0, cv[k].len() as int);
    let f = |m: int| pidx(w, cv[k][m]);
    assert(dom.map(f) =~= s) by {
        assert forall|c: int| s.contains(c) implies dom.map(f).contains(c) by {
            let m = choose|m: int| 0 <= m < cv[k].len() && #[trigger] pidx(w, cv[k][m]) == c;
            assert(dom.contains(m));
        }
    }
    assert(vstd::relations::injective_on(f, dom));
    vstd::set_lib::lemma_map_size(dom, s, f);
}

/// `s` is a finite set of cells, none of them Ocean, Coast, Lake or Ice,
/// that holds every such neighbor of its members: a union of whole
/// landmasses.
pub open spec fn dry_region(terrain: Grid<Terrain>, s: Set<int>) -> bool {
    let w = terrain.width as int;
    let h = terrain.height as int;
    &&& s.finite()
    &&& forall|a: int| #[trigger]
        s.contains(a) ==> 0 <= a < w * h && !(terrain@[a] == Terrain::Ocean || terrain@[a]
            == Terrain::Coast || terrain@[a] == Terrain::Lake || terrain@[a] == Terrain::Ice)
            && forall|b: int|
            adjacent(w, h, a, b) && !(terrain@[b] == Terrain::Ocean || terrain@[b] == Terrain::Coast
                || terrain@[b] == Terrain::Lake || terrain@[b] == Terrain::Ice) ==> #[trigger] s.contains(b)
}

/// What counts as land for the landmass labels: Ocean, Coast, Lake and Ice
/// cells are never labelled; any other cell is labelled with a landmass id
/// whenever every union of whole landmasses around it has at least
/// `min_size` cells (always, when `min_size` is at most 1).
pub proof fn lemma_labels_follow_land(
    terrain: Grid<Terrain>,
    min_size: int,
    labels: Grid<i32>,
    count: int,
    c: int,
)
    requires
        landmass_labelling(terrain, min_size, labels, count),
        0 <= c < terrain.width * terrain.height,
    ensures
        terrain@[c] == Terrain::Ocean || terrain@[c] == Terrain::Coast || terrain@[c] == Terrain::Lake
            || terrain@[c] == Terrain::Ice ==> labels@[c] == -1,
        !(terrain@[c] == Terrain::Ocean || terrain@[c] == Terrain::Coast || terrain@[c] == Terrain::Lake
            || terrain@[c] == Terrain::Ice) && (forall|s: Set<int>|
            #[trigger] dry_region(terrain, s) && s.contains(c) ==> s.len() >= min_size)
            ==> 0 <= labels@[c] < count,
        !(terrain@[c] == Terrain::Ocean || terrain@[c] == Terrain::Coast || terrain@[c] == Terrain::Lake
            || terrain@[c] == Terrain::Ice) && min_size <= 1 ==> 0 <= labels@[c] < count,
{
    let land = !(terrain@[c] == Terrain::Ocean || terrain@[c] == Terrain::Coast || terrain@[c]
        == Terrain::Lake || terrain@[c] == Terrain::Ice);
    if land && labels@[c] < 0 {
        assert(labels@[c] == -1);
        assert(spec_is_land(terrain@[c]));
        let s = choose|s: Set<int>|
            #![trigger s.contains(c)]
            closed_land_set(terrain, s) && s.contains(c) && s.len() < min_size;
        assert(dry_region(terrain, s));
        assert(s.len() >= 1) by {
            if s.len() == 0 {
                assert(s =~= Set::empty());
            }
        }
    }
}

/// A map with a cell that is none of Ocean, Coast, Lake or Ice has at
/// least one landmass when specks are not dropped (`min_size` at most 1).
pub proof fn lemma_dry_cell_makes_a_landmass(
    terrain: Grid<Terrain>,
    min_size: int,
    labels: Grid<i32>,
    count: int,
    c: int,
)
    requires
        landmass_labelling(terrain, min_size, labels, count),
        0 <= c < terrain.width * terrain.height,
        !(terrain@[c] == Terrain::Ocean || terrain@[c] == Terrain::Coast || terrain@[c] == Terrain::Lake
            || terrain@[c] == Terrain::Ice),
        min_size <= 1,
    ensures
        count >= 1,
        count == landmass_count(terrain, min_size),
{
    lemma_labels_follow_land(terrain, min_size, labels, count, c);
    lemma_count_is_landmass_count(terrain, min_size, labels, count);
}

/// A cell that carries id `id` in `labels`.
spec fn id_cell(labels: Grid<i32>, id: int) -> int {
    choose|c: int| 0 <= c < labels@.len() && labels@[c] == id
}

/// Cells that share a landmass id in one labelling share their label in
/// any other: the cells of an id are connected, and neighboring land
/// cells carry the same label.
proof fn lemma_same_label_transfer(
    terrain: Grid<Terrain>,
    ms: int,
    l1: Grid<i32>,
    n1: int,
    l2: Grid<i32>,
    n2: int,
    a: int,
    b: int,
)
    requires
        landmass_labelling(terrain, ms, l1, n1),
        landmass_labelling(terrain, ms, l2, n2),
        0 <= a < l1@.len(),
        0 <= b < l1@.len(),
        l1@[a] >= 0,
        l1@[a] == l1@[b],
    ensures
        l2@[a] == l2@[b],
{
    let w = terrain.width as int;
    let h = terrain.height as int;
    let id = l1@[a] as int;
    let mask = labelled_mask(l1, id);
    let s = Set::new(|x: int| 0 <= x < w * h && l2@[x] == l2@[a]);
    assert(0 < w && 0 < h) by {
        assert(w * h > 0);
        if w <= 0 || h <= 0 {
            assert(w * h <= 0) by (nonlinear_arith)
                requires
                    w <= 0 || h <= 0,
                    w >= 0,
                    h >= 0,
            ;
        }
    }
    assert(closed_in(w, h, mask, s)) by {
        assert forall|c: int, j: int|
            #![trigger s.contains(c), adjacent(w, h, c, j)]
            s.contains(c) && 0 <= c < w * h && mask[c] && adjacent(w, h, c, j) && mask[j]
                implies s.contains(j) by {
            lemma_adjacent_symmetric(w, h, c, j);
            assert(l1@[c] >= 0 && l1@[j] >= 0);
            assert(spec_is_land(terrain@[c]) && spec_is_land(terrain@[j]));
        }
    }
    assert(mask[a] && s.contains(a));
    assert(mask[b]);
}

/// A cell with a landmass id in one labelling has one in any other: a
/// closed set of land around it holds the whole id, so it is not small.
proof fn lemma_labelled_stays(
    terrain: Grid<Terrain>,
    ms: int,
    l1: Grid<i32>,
    n1: int,
    l2: Grid<i32>,
    n2: int,
    c: int,
)
    requires
        landmass_labelling(terrain, ms, l1, n1),
        landmass_labelling(terrain, ms, l2, n2),
        0 <= c < l1@.len(),
        l1@[c] >= 0,
    ensures
        l2@[c] >= 0,
{
    let w = terrain.width as int;
    let h = terrain.height as int;
    let id = l1@[c] as int;
    if l2@[c] < 0 {
        assert(spec_is_land(terrain@[c]));
        assert(l2@[c] == -1);
        let s = choose|s: Set<int>|
            #![trigger s.contains(c)]
            closed_land_set(terrain, s) && s.contains(c) && s.len() < ms;
        let mask = labelled_mask(l1, id);
        assert(0 < w && 0 < h) by {
            if w <= 0 || h <= 0 {
                assert(w * h <= 0) by (nonlinear_arith)
                    requires
                        w <= 0 || h <= 0,
                        w >= 0,
                        h >= 0,
                ;
            }
        }
        assert(closed_in(w, h, mask, s)) by {
            assert forall|a: int, j: int|
                #![trigger s.contains(a), adjacent(w, h, a, j)]
                s.contains(a) && 0 <= a < w * h && mask[a] && adjacent(w, h, a, j) && mask[j]
                    implies s.contains(j) by {
                lemma_adjacent_symmetric(w, h, a, j);
                assert(l1@[j] >= 0);
                assert(spec_is_land(terrain@[j]));
            }
        }
        assert(mask[c]);
        assert(cells_labelled(l1, id).subset_of(s)) by {
            assert forall|x: int| cells_labelled(l1, id).contains(x) implies s.contains(x) by {
                assert(mask[x]);
            }
        }
        vstd::set_lib::lemma_len_subset(cells_labelled(l1, id), s);
    }
}

/// One labelling has no more ids than another: each id of the first picks
/// out, through any of its cells, a distinct id of the second.
proof fn lemma_count_le(
    terrain: Grid<Terrain>,
    ms: int,
    l1: Grid<i32>,
    n1: int,
    l2: Grid<i32>,
    n2: int,
)
    requires
        landmass_labelling(terrain, ms, l1, n1),
        landmass_labelling(terrain, ms, l2, n2),
    ensures
        n1 <= n2,
{
    let n = l1@.len() as int;
    let f = |id: int| l2@[id_cell(l1, id)] as int;
    assert forall|id: int| 0 <= id < n1 implies 0 <= #[trigger] f(id) < n2 by {
        assert(id_used(l1, id));
        let c = id_cell(l1, id);
        lemma_labelled_stays(terrain, ms, l1, n1, l2, n2, c);
    }
    assert forall|i: int, j: int| 0 <= i < n1 && 0 <= j < n1 && i != j implies #[trigger] f(i)
        != #[trigger] f(j) by {
        assert(id_used(l1, i));
        assert(id_used(l1, j));
        let ci = id_cell(l1, i);
        let cj = id_cell(l1, j);
        lemma_labelled_stays(terrain, ms, l1, n1, l2, n2, ci);
        if f(i) == f(j) {
            lemma_same_label_transfer(terrain, ms, l2, n2, l1, n1, ci, cj);
        }
    }
    lemma_injective_bound(f, n1, n2);
}

/// Every labelling that meets `landmass_labelling` for the same terrain
/// and minimum size has the same count: the number of landmasses is
/// determined by the terrain.
pub proof fn lemma_labelling_count_unique(
    terrain: Grid<Terrain>,
    min_size: int,
    l1: Grid<i32>,
    n1: int,
    l2: Grid<i32>,
    n2: int,
)
    requires
        landmass_labelling(terrain, min_size, l1, n1),
        landmass_labelling(terrain, min_size, l2, n2),
    ensures
        n1 == n2,
{
    lemma_count_le(terrain, min_size, l1, n1, l2, n2);
    lemma_count_le(terrain, min_size, l2, n2, l1, n1);
}

/// The count of a labelling that meets the contract is `landmass_count`.
proof fn lemma_count_is_landmass_count(terrain: Grid<Terrain>, ms: int, labels: Grid<i32>, count: int)
    requires
        landmass_labelling(terrain, ms, labels, count),
    ensures
        count == landmass_count(terrain, ms),
{
    assert(has_labelling(terrain, ms, count));
    let c2 = landmass_count(terrain, ms);
    assert(has_labelling(terrain, ms, c2));
    let l2 = choose|l: Grid<i32>| landmass_labelling(terrain, ms, l, c2);
    lemma_labelling_count_unique(terrain, ms, labels, count, l2, c2);
}

} // verus!
