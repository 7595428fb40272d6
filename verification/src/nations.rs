//! Nation starting positions: placement only, spaced apart across habitable
//! land on the cylinder.
use crate::biome::Terrain;
use crate::grid::{lemma_cell_index_range, Grid};
use crate::sampling::{lemma_scatter_well_scattered, scatter_from, scatter_points, well_scattered};
use vstd::prelude::*;

verus! {

/// Habitable land excludes water, ice and snow.
pub open spec fn spec_is_habitable(t: Terrain) -> bool {
    !(t == Terrain::Ocean || t == Terrain::Coast || t == Terrain::Lake || t == Terrain::Ice || t
        == Terrain::Snow)
}

pub fn is_habitable(terrain: Terrain) -> (r: bool)
    ensures
        r == spec_is_habitable(terrain),
        r == !(terrain == Terrain::Ocean || terrain == Terrain::Coast || terrain == Terrain::Lake
            || terrain == Terrain::Ice || terrain == Terrain::Snow),
{
    match terrain {
        Terrain::Ocean | Terrain::Coast | Terrain::Lake | Terrain::Ice | Terrain::Snow => false,
        _ => true,
    }
}

/// The habitable cells of `terrain`.
pub open spec fn habitable_mask(terrain: Grid<Terrain>, mask: Grid<bool>) -> bool {
    &&& mask.wf()
    &&& mask.width == terrain.width
    &&& mask.height == terrain.height
    &&& forall|c: int| 0 <= c < mask@.len() ==> #[trigger] mask@[c] == spec_is_habitable(terrain@[c])
}

/// A nation can stand on `p`: it is a cell of the map whose terrain is
/// none of Ocean, Coast, Lake, Ice or Snow.
pub open spec fn on_open_land(terrain: Grid<Terrain>, p: (usize, usize)) -> bool {
    &&& p.0 < terrain.width
    &&& p.1 < terrain.height
    &&& !(terrain.at(p.0 as int, p.1 as int) == Terrain::Ocean || terrain.at(p.0 as int, p.1 as int)
        == Terrain::Coast || terrain.at(p.0 as int, p.1 as int) == Terrain::Lake || terrain.at(
        p.0 as int,
        p.1 as int,
    ) == Terrain::Ice || terrain.at(p.0 as int, p.1 as int) == Terrain::Snow)
}

/// Points scattered over the habitable mask of a terrain grid all stand on
/// open land: none on Ocean, Coast, Lake, Ice or Snow.
pub proof fn lemma_scattered_on_open_land(
    terrain: Grid<Terrain>,
    mask: Grid<bool>,
    pts: Seq<(usize, usize)>,
    count: int,
    min_dist_sq: int,
)
    requires
        terrain.wf(),
        habitable_mask(terrain, mask),
        well_scattered(pts, terrain.width as int, terrain.height as int, count, min_dist_sq, mask),
    ensures
        forall|i: int| 0 <= i < pts.len() ==> on_open_land(terrain, #[trigger] pts[i]),
{
    assert forall|i: int| 0 <= i < pts.len() implies on_open_land(terrain, #[trigger] pts[i]) by {
        let w = terrain.width as int;
        let h = terrain.height as int;
        let p = pts[i];
        lemma_cell_index_range(w, h, p.0 as int, p.1 as int);
        assert(mask.at(p.0 as int, p.1 as int));
    }
}

/// The nations `place` scatters, for any map, count, seed and spacing,
/// stand on open land: none on Ocean, Coast, Lake, Ice or Snow.
pub proof fn lemma_nations_on_open_land(
    terrain: Grid<Terrain>,
    mask: Grid<bool>,
    count: int,
    seed: u64,
    min_dist_sq: int,
)
    requires
        terrain.wf(),
        terrain.width > 0,
        terrain.height > 0,
        count >= 0,
        habitable_mask(terrain, mask),
    ensures
        forall|i: int|
            0 <= i < scatter_from(
                terrain.width as int,
                terrain.height as int,
                count,
                min_dist_sq,
                mask,
                seed ^ 0x9E3779B97F4A7C15u64,
                (count * 500) as nat,
                Seq::empty(),
            ).len() ==> on_open_land(
                terrain,
                #[trigger] scatter_from(
                    terrain.width as int,
                    terrain.height as int,
                    count,
                    min_dist_sq,
                    mask,
                    seed ^ 0x9E3779B97F4A7C15u64,
                    (count * 500) as nat,
                    Seq::empty(),
                )[i],
            ),
{
    let w = terrain.width as int;
    let h = terrain.height as int;
    assert(well_scattered(Seq::empty(), w, h, count, min_dist_sq, mask));
    lemma_scatter_well_scattered(
        w,
        h,
        count,
        min_dist_sq,
        mask,
        seed ^ 0x9E3779B97F4A7C15u64,
        (count * 500) as nat,
        Seq::empty(),
    );
    lemma_scattered_on_open_land(
        terrain,
        mask,
        scatter_from(
            w,
            h,
            count,
            min_dist_sq,
            mask,
            seed ^ 0x9E3779B97F4A7C15u64,
            (count * 500) as nat,
            Seq::empty(),
        ),
        count,
        min_dist_sq,
    );
}

/// Scatters `count` nation starting positions across habitable land, at
/// least `min_dist_sq` apart (squared, wrap-aware), by the same seeded
/// rejection sampling as `scatter_points`.
pub fn place(terrain: &Grid<Terrain>, count: usize, seed: u64, min_dist_sq: u64) -> (r: Vec<
    (usize, usize),
>)
    requires
        terrain.wf(),
        count <= usize::MAX / 500,
    ensures
        count == 0 ==> r@.len() == 0,
        exists|mask: Grid<bool>|
            {
                &&& habitable_mask(*terrain, mask)
                &&& well_scattered(
                    r@,
                    terrain.width as int,
                    terrain.height as int,
                    count as int,
                    min_dist_sq as int,
                    mask,
                )
                &&& (count > 0 && terrain.width > 0 && terrain.height > 0 ==> r@ == scatter_from(
                    terrain.width as int,
                    terrain.height as int,
                    count as int,
                    min_dist_sq as int,
                    mask,
                    seed ^ 0x9E3779B97F4A7C15u64,
                    (count * 500) as nat,
                    Seq::empty(),
                ))
            },
        forall|i: int|
            0 <= i < r@.len() ==> on_open_land(*terrain, #[trigger] r@[i]),
{
    let n = terrain.cells.len();
    let mut cells: Vec<bool> = Vec::with_capacity(n);
    let mut i: usize = 0;
    while i < n
        invariant
            n == terrain@.len(),
            i <= n,
            cells@.len() == i,
            forall|c: int| 0 <= c < i ==> cells@[c] == spec_is_habitable(#[trigger] terrain@[c]),
        decreases n - i,
    {
        cells.push(is_habitable(terrain.cells[i]));
        i = i + 1;
    }
    let mask = Grid { width: terrain.width, height: terrain.height, cells };
    let r = scatter_points(terrain.width, terrain.height, count, seed, min_dist_sq, &mask);
    assert(habitable_mask(*terrain, mask));
    proof {
        lemma_scattered_on_open_land(
            *terrain,
            mask,
            r@,
            count as int,
            min_dist_sq as int,
        );
    }
    r
}

} // verus!
