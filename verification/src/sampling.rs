//! Point scattering on the cylinder: N points, spaced apart, each on a cell
//! some acceptance mask allows.
use crate::grid::Grid;
use crate::noise::{spec_splitmix64, splitmix64};
use vstd::prelude::*;

verus! {

/// Squared distance accounting for the cylinder's X wrap (the shorter of
/// going left or right around).
#[verifier::opaque]
pub open spec fn spec_wrapped_dist_sq(x1: int, y1: int, x2: int, y2: int, width: int) -> int {
    let raw_dx = if x1 >= x2 {
        x1 - x2
    } else {
        x2 - x1
    };
    let dx = if raw_dx <= width - raw_dx {
        raw_dx
    } else {
        width - raw_dx
    };
    let dy = y1 - y2;
    dx * dx + dy * dy
}

/// `(x, y)` is at least `min_dist_sq` (squared, wrap-aware) from every point
/// of `placed`.
pub open spec fn far_from_all(
    placed: Seq<(usize, usize)>,
    x: int,
    y: int,
    width: int,
    min_dist_sq: int,
) -> bool {
    forall|i: int|
        0 <= i < placed.len() ==> spec_wrapped_dist_sq(
            x,
            y,
            (#[trigger] placed[i]).0 as int,
            placed[i].1 as int,
            width,
        ) >= min_dist_sq
}

/// Rejection sampling, `attempts` tries from generator `state`: each try
/// draws a column then a row from successive splitmix64 states and keeps
/// the cell if the mask accepts it and it is far enough from every point
/// kept so far; it stops early once `count` points are kept.
pub open spec fn scatter_from(
    width: int,
    height: int,
    count: int,
    min_dist_sq: int,
    accept: Grid<bool>,
    state: u64,
    attempts: nat,
    placed: Seq<(usize, usize)>,
) -> Seq<(usize, usize)>
    decreases attempts,
{
    if attempts == 0 || placed.len() >= count {
        placed
    } else {
        let s1 = spec_splitmix64(state);
        let x = s1 as int % width;
        let s2 = spec_splitmix64(s1);
        let y = s2 as int % height;
        let next = if accept.at(x, y) && far_from_all(placed, x, y, width, min_dist_sq) {
            placed.push((x as usize, y as usize))
        } else {
            placed
        };
        scatter_from(width, height, count, min_dist_sq, accept, s2, (attempts - 1) as nat, next)
    }
}

/// What `scatter_points` guarantees of any result: at most `count` points,
/// each an accepted in-range cell, pairwise at least `min_dist_sq` apart.
pub open spec fn well_scattered(
    pts: Seq<(usize, usize)>,
    width: int,
    height: int,
    count: int,
    min_dist_sq: int,
    accept: Grid<bool>,
) -> bool {
    &&& pts.len() <= count
    &&& forall|i: int|
        0 <= i < pts.len() ==> (#[trigger] pts[i]).0 < width && pts[i].1 < height && accept.at(
            pts[i].0 as int,
            pts[i].1 as int,
        )
    &&& forall|i: int, j: int|
        0 <= i < j < pts.len() ==> spec_wrapped_dist_sq(
            (#[trigger] pts[i]).0 as int,
            pts[i].1 as int,
            (#[trigger] pts[j]).0 as int,
            pts[j].1 as int,
            width,
        ) >= min_dist_sq
}

/// The spacing law: rejection sampling only ever keeps points that respect
/// the mask and the spacing, and never more than asked for.
pub proof fn lemma_scatter_well_scattered(
    width: int,
    height: int,
    count: int,
    min_dist_sq: int,
    accept: Grid<bool>,
    state: u64,
    attempts: nat,
    placed: Seq<(usize, usize)>,
)
    requires
        0 < width <= usize::MAX,
        0 < height <= usize::MAX,
        well_scattered(placed, width, height, count, min_dist_sq, accept),
    ensures
        well_scattered(
            scatter_from(width, height, count, min_dist_sq, accept, state, attempts, placed),
            width,
            height,
            count,
            min_dist_sq,
            accept,
        ),
    decreases attempts,
{
    if attempts > 0 && placed.len() < count {
        let s1 = spec_splitmix64(state);
        let x = s1 as int % width;
        let s2 = spec_splitmix64(s1);
        let y = s2 as int % height;
        vstd::arithmetic::div_mod::lemma_mod_bound(s1 as int, width);
        vstd::arithmetic::div_mod::lemma_mod_bound(s2 as int, height);
        if accept.at(x, y) && far_from_all(placed, x, y, width, min_dist_sq) {
            let next = placed.push((x as usize, y as usize));
            assert forall|i: int, j: int| 0 <= i < j < next.len() implies spec_wrapped_dist_sq(
                (#[trigger] next[i]).0 as int,
                next[i].1 as int,
                (#[trigger] next[j]).0 as int,
                next[j].1 as int,
                width,
            ) >= min_dist_sq by {
                if j == placed.len() {
                    assert(next[i] == placed[i]);
                    assert(next[j] == (x as usize, y as usize));
                    lemma_wrapped_dist_sq_symmetric(
                        x,
                        y,
                        placed[i].0 as int,
                        placed[i].1 as int,
                        width,
                    );
                } else {
                    assert(next[i] == placed[i] && next[j] == placed[j]);
                }
            }
            assert forall|i: int| 0 <= i < next.len() implies (#[trigger] next[i]).0 < width
                && next[i].1 < height && accept.at(next[i].0 as int, next[i].1 as int) by {
                if i < placed.len() {
                    assert(next[i] == placed[i]);
                } else {
                    assert(next[i] == (x as usize, y as usize));
                }
            }
            lemma_scatter_well_scattered(
                width,
                height,
                count,
                min_dist_sq,
                accept,
                s2,
                (attempts - 1) as nat,
                next,
            );
        } else {
            lemma_scatter_well_scattered(
                width,
                height,
                count,
                min_dist_sq,
                accept,
                s2,
                (attempts - 1) as nat,
                placed,
            );
        }
    }
}

/// Sampling only ever appends to the points already placed.
proof fn lemma_scatter_extends(
    width: int,
    height: int,
    count: int,
    min_dist_sq: int,
    accept: Grid<bool>,
    state: u64,
    attempts: nat,
    placed: Seq<(usize, usize)>,
)
    ensures
        placed.is_prefix_of(
            scatter_from(width, height, count, min_dist_sq, accept, state, attempts, placed),
        ),
    decreases attempts,
{
    if attempts > 0 && placed.len() < count {
        let s1 = spec_splitmix64(state);
        let x = s1 as int % width;
        let s2 = spec_splitmix64(s1);
        let y = s2 as int % height;
        let next = if accept.at(x, y) && far_from_all(placed, x, y, width, min_dist_sq) {
            placed.push((x as usize, y as usize))
        } else {
            placed
        };
        lemma_scatter_extends(width, height, count, min_dist_sq, accept, s2, (attempts - 1) as nat, next);
        assert(placed.is_prefix_of(next));
    }
}

/// Asking for fewer points (with no more attempts) gives a prefix of the
/// points asked for with more: both runs draw the same cells and keep the
/// same ones until the smaller count is reached.
pub proof fn lemma_scatter_prefix(
    width: int,
    height: int,
    n: int,
    m: int,
    min_dist_sq: int,
    accept: Grid<bool>,
    state: u64,
    attempts_n: nat,
    attempts_m: nat,
    placed: Seq<(usize, usize)>,
)
    requires
        n <= m,
        attempts_n <= attempts_m,
        placed.len() <= n,
    ensures
        scatter_from(width, height, n, min_dist_sq, accept, state, attempts_n, placed).is_prefix_of(
            scatter_from(width, height, m, min_dist_sq, accept, state, attempts_m, placed),
        ),
    decreases attempts_n,
{
    if attempts_n == 0 || placed.len() >= n {
        lemma_scatter_extends(width, height, m, min_dist_sq, accept, state, attempts_m, placed);
    } else {
        let s1 = spec_splitmix64(state);
        let x = s1 as int % width;
        let s2 = spec_splitmix64(s1);
        let y = s2 as int % height;
        let next = if accept.at(x, y) && far_from_all(placed, x, y, width, min_dist_sq) {
            placed.push((x as usize, y as usize))
        } else {
            placed
        };
        lemma_scatter_prefix(
            width,
            height,
            n,
            m,
            min_dist_sq,
            accept,
            s2,
            (attempts_n - 1) as nat,
            (attempts_m - 1) as nat,
            next,
        );
    }
}

/// The prefix law for `scatter_points` itself: for the same map, seed,
/// spacing and mask, the points for a count `n` are the first points for
/// any larger count `m`.
pub proof fn lemma_scatter_points_prefix(
    width: int,
    height: int,
    n: int,
    m: int,
    seed: u64,
    min_dist_sq: int,
    accept: Grid<bool>,
)
    requires
        0 < n <= m,
    ensures
        scatter_from(
            width,
            height,
            n,
            min_dist_sq,
            accept,
            seed ^ 0x9E3779B97F4A7C15u64,
            (n * 500) as nat,
            Seq::empty(),
        ).is_prefix_of(
            scatter_from(
                width,
                height,
                m,
                min_dist_sq,
                accept,
                seed ^ 0x9E3779B97F4A7C15u64,
                (m * 500) as nat,
                Seq::empty(),
            ),
        ),
{
    lemma_scatter_prefix(
        width,
        height,
        n,
        m,
        min_dist_sq,
        accept,
        seed ^ 0x9E3779B97F4A7C15u64,
        (n * 500) as nat,
        (m * 500) as nat,
        Seq::empty(),
    );
}

pub proof fn lemma_wrapped_dist_sq_symmetric(x1: int, y1: int, x2: int, y2: int, width: int)
    ensures
        spec_wrapped_dist_sq(x1, y1, x2, y2, width) == spec_wrapped_dist_sq(x2, y2, x1, y1, width),
{
    reveal(spec_wrapped_dist_sq);
    assert((y1 - y2) * (y1 - y2) == (y2 - y1) * (y2 - y1)) by (nonlinear_arith);
}

/// Squared distance accounting for the cylinder's X wrap, exact in
/// integers. Both points lie on a grid `width` cells wide that fits in
/// memory (so the squares fit a `u128`).
pub fn wrapped_dist_sq(x1: usize, y1: usize, x2: usize, y2: usize, width: usize) -> (r: u128)
    requires
        x1 < width,
        x2 < width,
        width * (y1 + 1) <= usize::MAX,
        width * (y2 + 1) <= usize::MAX,
    ensures
        r == spec_wrapped_dist_sq(x1 as int, y1 as int, x2 as int, y2 as int, width as int),
{
    let raw_dx: u128 = if x1 >= x2 {
        (x1 - x2) as u128
    } else {
        (x2 - x1) as u128
    };
    let w = width as u128;
    let dx: u128 = if raw_dx <= w - raw_dx {
        raw_dx
    } else {
        w - raw_dx
    };
    let dy: u128 = if y1 >= y2 {
        (y1 - y2) as u128
    } else {
        (y2 - y1) as u128
    };
    proof {
        reveal(spec_wrapped_dist_sq);
        assert(usize::MAX <= 0xFFFF_FFFF_FFFF_FFFF);
        assert(2 * dx <= w);
        if width == 1 {
            assert(dx == 0);
            assert(dy <= 0xFFFF_FFFF_FFFF_FFFF);
            assert(dy * dy <= 0xFFFF_FFFF_FFFF_FFFFu128 * 0xFFFF_FFFF_FFFF_FFFFu128) by (nonlinear_arith)
                requires
                    dy <= 0xFFFF_FFFF_FFFF_FFFF,
            ;
            assert(dx * dx == 0) by (nonlinear_arith)
                requires
                    dx == 0,
            ;
        } else {
            assert(2 * (y1 + 1) <= width * (y1 + 1)) by (nonlinear_arith)
                requires
                    width >= 2,
                    y1 >= 0,
            ;
            assert(2 * (y2 + 1) <= width * (y2 + 1)) by (nonlinear_arith)
                requires
                    width >= 2,
                    y2 >= 0,
            ;
            assert(dy < 0x8000_0000_0000_0000);
            assert(dx <= 0x8000_0000_0000_0000);
            assert(dx * dx <= 0x8000_0000_0000_0000u128 * 0x8000_0000_0000_0000u128) by (nonlinear_arith)
                requires
                    dx <= 0x8000_0000_0000_0000,
            ;
            assert(dy * dy <= 0x8000_0000_0000_0000u128 * 0x8000_0000_0000_0000u128) by (nonlinear_arith)
                requires
                    dy <= 0x8000_0000_0000_0000,
            ;
        }
        assert((y1 - y2) * (y1 - y2) == dy * dy) by (nonlinear_arith)
            requires
                dy == y1 - y2 || dy == y2 - y1,
        ;
    }
    dx * dx + dy * dy
}

/// Scatters up to `count` cells across a `width` x `height` cylinder
/// (wrapping in X), each accepted by `accept` and at least `min_dist_sq`
/// (squared, wrap-aware) from every point already placed, by rejection
/// sampling over `count * 500` attempts: may return fewer than `count`
/// points when there isn't room.
pub fn scatter_points(
    width: usize,
    height: usize,
    count: usize,
    seed: u64,
    min_dist_sq: u64,
    accept: &Grid<bool>,
) -> (r: Vec<(usize, usize)>)
    requires
        accept.wf(),
        accept.width == width,
        accept.height == height,
        count <= usize::MAX / 500,
    ensures
        count == 0 || width == 0 || height == 0 ==> r@.len() == 0,
        count > 0 && width > 0 && height > 0 ==> r@ == scatter_from(
            width as int,
            height as int,
            count as int,
            min_dist_sq as int,
            *accept,
            seed ^ 0x9E3779B97F4A7C15u64,
            (count * 500) as nat,
            Seq::empty(),
        ),
        well_scattered(r@, width as int, height as int, count as int, min_dist_sq as int, *accept),
{
    if count == 0 || width == 0 || height == 0 {
        return Vec::new();
    }
    let cell_count = accept.cells.len();
    assert(width * height == cell_count);
    let mut positions: Vec<(usize, usize)> = Vec::with_capacity(count);
    let mut state = seed ^ 0x9E37_79B9_7F4A_7C15;
    let max_attempts = count * 500;
    let ghost total = scatter_from(
        width as int,
        height as int,
        count as int,
        min_dist_sq as int,
        *accept,
        state,
        max_attempts as nat,
        Seq::empty(),
    );
    let mut attempt: usize = 0;
    while attempt < max_attempts
        invariant
            accept.wf(),
            accept.width == width,
            accept.height == height,
            0 < width,
            0 < height,
            width * height <= usize::MAX,
            attempt <= max_attempts,
            scatter_from(
                width as int,
                height as int,
                count as int,
                min_dist_sq as int,
                *accept,
                state,
                (max_attempts - attempt) as nat,
                positions@,
            ) == total,
            forall|i: int|
                0 <= i < positions@.len() ==> (#[trigger] positions@[i]).0 < width
                    && positions@[i].1 < height,
        ensures
            attempt == max_attempts || positions@.len() >= count,
            scatter_from(
                width as int,
                height as int,
                count as int,
                min_dist_sq as int,
                *accept,
                state,
                (max_attempts - attempt) as nat,
                positions@,
            ) == total,
        decreases max_attempts - attempt,
    {
        let ghost state0 = state;
        if positions.len() >= count {
            break;
        }
        state = splitmix64(state);
        let x = (state % width as u64) as usize;
        state = splitmix64(state);
        let y = (state % height as u64) as usize;
        let ghost before = positions@;
        if *accept.get(x as i64, y as i64) {
            let mut far_enough = true;
            let mut k: usize = 0;
            while k < positions.len()
                invariant
                    0 < width,
                    0 < height,
                    width * height <= usize::MAX,
                    x < width,
                    y < height,
                    k <= positions@.len(),
                    forall|i: int|
                        0 <= i < positions@.len() ==> (#[trigger] positions@[i]).0 < width
                            && positions@[i].1 < height,
                    far_enough == far_from_all(
                        positions@.take(k as int),
                        x as int,
                        y as int,
                        width as int,
                        min_dist_sq as int,
                    ),
                decreases positions@.len() - k,
            {
                let (px, py) = positions[k];
                assert(width * (y + 1) <= width * height && width * (py + 1) <= width * height) by (nonlinear_arith)
                    requires
                        y < height,
                        py < height,
                        width > 0,
                ;
                let d = wrapped_dist_sq(x, y, px, py, width);
                proof {
                    assert(positions@.take(k as int + 1) =~= positions@.take(k as int).push(
                        positions@[k as int],
                    ));
                    lemma_far_from_all_push(
                        positions@.take(k as int),
                        positions@[k as int],
                        x as int,
                        y as int,
                        width as int,
                        min_dist_sq as int,
                    );
                }
                far_enough = far_enough && d >= min_dist_sq as u128;
                k = k + 1;
            }
            assert(positions@.take(positions@.len() as int) =~= positions@);
            if far_enough {
                positions.push((x, y));
            }
        }
        proof {
            assert(x as int == spec_splitmix64(state0) as int % width as int);
            assert(y as int == state as int % height as int);
            assert(state == spec_splitmix64(spec_splitmix64(state0)));
        }
        attempt = attempt + 1;
    }
    proof {
        lemma_scatter_done(
            width as int,
            height as int,
            count as int,
            min_dist_sq as int,
            *accept,
            state,
            (max_attempts - attempt) as nat,
            positions@,
        );
        lemma_scatter_well_scattered(
            width as int,
            height as int,
            count as int,
            min_dist_sq as int,
            *accept,
            seed ^ 0x9E3779B97F4A7C15u64,
            (count * 500) as nat,
            Seq::empty(),
        );
    }
    positions
}

proof fn lemma_far_from_all_push(
    placed: Seq<(usize, usize)>,
    p: (usize, usize),
    x: int,
    y: int,
    width: int,
    min_dist_sq: int,
)
    ensures
        far_from_all(placed.push(p), x, y, width, min_dist_sq) == (far_from_all(
            placed,
            x,
            y,
            width,
            min_dist_sq,
        ) && spec_wrapped_dist_sq(x, y, p.0 as int, p.1 as int, width) >= min_dist_sq),
{
    let s = placed.push(p);
    assert(s[placed.len() as int] == p);
    if far_from_all(placed, x, y, width, min_dist_sq) && spec_wrapped_dist_sq(
        x,
        y,
        p.0 as int,
        p.1 as int,
        width,
    ) >= min_dist_sq {
        assert forall|i: int| 0 <= i < s.len() implies spec_wrapped_dist_sq(
            x,
            y,
            (#[trigger] s[i]).0 as int,
            s[i].1 as int,
            width,
        ) >= min_dist_sq by {
            if i < placed.len() {
                assert(s[i] == placed[i]);
            }
        }
    }
    if far_from_all(s, x, y, width, min_dist_sq) {
        assert forall|i: int| 0 <= i < placed.len() implies spec_wrapped_dist_sq(
            x,
            y,
            (#[trigger] placed[i]).0 as int,
            placed[i].1 as int,
            width,
        ) >= min_dist_sq by {
            assert(s[i] == placed[i]);
        }
    }
}

/// Once `count` points are kept, or no attempts are left, the rest of the
/// sampling changes nothing.
proof fn lemma_scatter_done(
    width: int,
    height: int,
    count: int,
    min_dist_sq: int,
    accept: Grid<bool>,
    state: u64,
    attempts: nat,
    placed: Seq<(usize, usize)>,
)
    requires
        attempts == 0 || placed.len() >= count,
    ensures
        scatter_from(width, height, count, min_dist_sq, accept, state, attempts, placed) == placed,
{
}

} // verus!
