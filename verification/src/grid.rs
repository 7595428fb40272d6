//! A 2D grid that wraps in X (the cylinder's circumference) and clamps in Y
//! (pole to pole: there is nothing past the poles to wrap to).
use vstd::arithmetic::div_mod::{
    lemma_add_mod_noop_right, lemma_fundamental_div_mod, lemma_fundamental_div_mod_converse,
};
use vstd::prelude::*;

verus! {

/// Column `x` wrapped onto the circumference `0..w` (Euclidean remainder).
pub open spec fn wrap_col(x: int, w: int) -> int {
    x % w
}

/// Row `y` clamped onto `0..h`.
pub open spec fn clamp_row(y: int, h: int) -> int {
    if y < 0 {
        0
    } else if y >= h {
        h - 1
    } else {
        y
    }
}

/// Row-major storage index of the cell that `(x, y)` lands on.
pub open spec fn cell_index(w: int, h: int, x: int, y: int) -> int {
    clamp_row(y, h) * w + wrap_col(x, w)
}

/// The eight neighbor offsets, in the order `Grid::neighbors` walks them.
pub open spec fn nbr_offset(k: int) -> (int, int) {
    if k == 0 {
        (-1, -1)
    } else if k == 1 {
        (0, -1)
    } else if k == 2 {
        (1, -1)
    } else if k == 3 {
        (-1, 0)
    } else if k == 4 {
        (1, 0)
    } else if k == 5 {
        (-1, 1)
    } else if k == 6 {
        (0, 1)
    } else {
        (1, 1)
    }
}

/// The raw (unwrapped) neighbor coordinates of `(x, y)` produced by the
/// first `k` offsets: rows past either pole are dropped, columns are left
/// unwrapped.
pub open spec fn neighbor_coords(x: int, y: int, h: int, k: int) -> Seq<(int, int)>
    decreases k,
{
    if k <= 0 {
        Seq::empty()
    } else {
        let prev = neighbor_coords(x, y, h, k - 1);
        let o = nbr_offset(k - 1);
        if 0 <= y + o.1 < h {
            prev.push((x + o.0, y + o.1))
        } else {
            prev
        }
    }
}

/// Storage index reached from storage index `i` through offset `k`, if that
/// offset stays between the poles.
pub open spec fn offset_ok(w: int, h: int, i: int, k: int) -> bool {
    0 <= k < 8 && 0 <= i / w + nbr_offset(k).1 < h
}

pub open spec fn offset_target(w: int, h: int, i: int, k: int) -> int {
    cell_index(w, h, i % w + nbr_offset(k).0, i / w + nbr_offset(k).1)
}

/// Cells `i` and `j` (storage indices) are 8-connected neighbors on the
/// cylinder.
pub open spec fn adjacent(w: int, h: int, i: int, j: int) -> bool {
    exists|k: int| offset_ok(w, h, i, k) && #[trigger] offset_target(w, h, i, k) == j
}

pub open spec fn coords_as_int(s: Seq<(i64, i64)>) -> Seq<(int, int)> {
    s.map_values(|p: (i64, i64)| (p.0 as int, p.1 as int))
}

pub struct Grid<T> {
    pub width: usize,
    pub height: usize,
    /// Row-major cell storage, `width * height` long (see `Grid::wf`).
    pub cells: Vec<T>,
}

impl<T> View for Grid<T> {
    type V = Seq<T>;

    open spec fn view(&self) -> Seq<T> {
        self.cells@
    }
}

impl<T> Grid<T> {
    /// Storage is exactly `width * height` cells and both sides fit in `i64`
    /// (coordinates are signed).
    pub open spec fn wf(&self) -> bool {
        &&& self@.len() == self.width * self.height
        &&& self.width <= i64::MAX
        &&& self.height <= i64::MAX
    }

    /// Non-empty in both directions, so every coordinate lands on a cell.
    pub open spec fn usable(&self) -> bool {
        &&& self.wf()
        &&& self.width > 0
        &&& self.height > 0
    }

    /// The cell `(x, y)` reads, after wrapping and clamping.
    pub open spec fn at(&self, x: int, y: int) -> T {
        self@[cell_index(self.width as int, self.height as int, x, y)]
    }

    /// A `width` by `height` grid with every cell set to `value`.
    pub fn filled(width: usize, height: usize, value: T) -> (g: Self) where T: Copy
        requires
            width * height <= usize::MAX,
            width <= i64::MAX,
            height <= i64::MAX,
        ensures
            g.wf(),
            g.width == width,
            g.height == height,
            forall|i: int| 0 <= i < g@.len() ==> g@[i] == value,
    {
        let n = width * height;
        let mut cells: Vec<T> = Vec::with_capacity(n);
        let mut i: usize = 0;
        while i < n
            invariant
                i <= n,
                cells@.len() == i,
                forall|j: int| 0 <= j < i ==> cells@[j] == value,
            decreases n - i,
        {
            cells.push(value);
            i = i + 1;
        }
        Grid { width, height, cells }
    }

    /// A `width` by `height` grid with every cell set to `T::default()`.
    pub fn new(width: usize, height: usize) -> (g: Self) where T: Copy + Default
        requires
            width * height <= usize::MAX,
            width <= i64::MAX,
            height <= i64::MAX,
        ensures
            g.wf(),
            g.width == width,
            g.height == height,
            forall|i: int, j: int| 0 <= i < g@.len() && 0 <= j < g@.len() ==> g@[i] == g@[j],
            forall|i: int| 0 <= i < g@.len() ==> call_ensures(T::default, (), #[trigger] g@[i]),
    {
        let value = T::default();
        Self::filled(width, height, value)
    }

    /// Storage index of `(x, y)`: `x` wrapped around the circumference,
    /// `y` clamped to the poles.
    pub(crate) fn index(&self, x: i64, y: i64) -> (r: usize)
        requires
            self.usable(),
        ensures
            r == cell_index(self.width as int, self.height as int, x as int, y as int),
            r < self@.len(),
    {
        let n = self.cells.len();
        let w = self.width as i64;
        let h = self.height as i64;
        let col: i64 = if x >= 0 {
            x % w
        } else {
            let m = (-(x + 1)) % w;
            proof {
                let q: int = (-(x + 1)) as int / (w as int);
                lemma_fundamental_div_mod(-(x + 1) as int, w as int);
                assert(x == (-(q + 1)) * w + (w - 1 - m)) by (nonlinear_arith)
                    requires
                        -(x + 1) == w * q + m,
                ;
                lemma_fundamental_div_mod_converse(x as int, w as int, -(q + 1), w - 1 - m);
            }
            w - 1 - m
        };
        let row: i64 = if y < 0 {
            0
        } else if y >= h {
            h - 1
        } else {
            y
        };
        assert(0 <= col < w);
        assert(0 <= row < h);
        proof {
            assert(row * w + col < self.width * self.height) by (nonlinear_arith)
                requires
                    0 <= col < w,
                    0 <= row < h,
                    w == self.width,
                    h == self.height,
            ;
            assert(row * w + col >= 0) by (nonlinear_arith)
                requires
                    0 <= col,
                    0 <= row,
                    0 < w,
            ;
        }
        assert(row * w <= row * w + col);
        assert((row as usize) * self.width == row * w);
        (row as usize) * self.width + (col as usize)
    }

    pub fn get(&self, x: i64, y: i64) -> (r: &T)
        requires
            self.usable(),
        ensures
            *r == self.at(x as int, y as int),
    {
        let i = self.index(x, y);
        &self.cells[i]
    }

    pub fn set(&mut self, x: i64, y: i64, value: T)
        requires
            old(self).usable(),
        ensures
            final(self).width == old(self).width,
            final(self).height == old(self).height,
            final(self)@ == old(self)@.update(
                cell_index(old(self).width as int, old(self).height as int, x as int, y as int),
                value,
            ),
    {
        let i = self.index(x, y);
        self.cells.set(i, value);
    }

    /// Every `(x, y)` of the grid, row by row (`y` outer, `x` inner).
    pub fn iter_coords(&self) -> (r: Vec<(usize, usize)>)
        requires
            self.wf(),
        ensures
            r@.len() == self.width * self.height,
            forall|i: int|
                0 <= i < r@.len() ==> #[trigger] r@[i] == ((i % self.width as int) as usize, (i
                    / self.width as int) as usize),
    {
        let width = self.width;
        let height = self.height;
        let mut out: Vec<(usize, usize)> = Vec::new();
        let mut y: usize = 0;
        while y < height
            invariant
                self.wf(),
                width == self.width,
                height == self.height,
                y <= height,
                out@.len() == y * width,
                forall|i: int|
                    0 <= i < out@.len() ==> #[trigger] out@[i] == ((i % width as int) as usize, (i
                        / width as int) as usize),
            decreases height - y,
        {
            let mut x: usize = 0;
            proof {
                assert((y + 1) * width <= height * width) by (nonlinear_arith)
                    requires
                        y + 1 <= height,
                ;
            }
            while x < width
                invariant
                    self.wf(),
                    width == self.width,
                    height == self.height,
                    y < height,
                    x <= width,
                    (y + 1) * width <= height * width,
                    out@.len() == y * width + x,
                    forall|i: int|
                        0 <= i < out@.len() ==> #[trigger] out@[i] == ((i % width as int) as usize, (
                        i / width as int) as usize),
                decreases width - x,
            {
                proof {
                    assert((y * width + x) + 1 <= (y + 1) * width) by (nonlinear_arith)
                        requires
                            x < width,
                    ;
                    lemma_fundamental_div_mod_converse(
                        y * width + x,
                        width as int,
                        y as int,
                        x as int,
                    );
                }
                out.push((x, y));
                x = x + 1;
            }
            proof {
                assert(y * width + width == (y + 1) * width) by (nonlinear_arith);
            }
            y = y + 1;
        }
        assert(height * width == width * height) by (nonlinear_arith);
        out
    }

    /// The 8 neighbors of `(x, y)`, with columns left unwrapped and rows
    /// past either pole dropped (a cell on the polar edge simply has fewer
    /// neighbors).
    pub fn neighbors(&self, x: i64, y: i64) -> (r: Vec<(i64, i64)>)
        requires
            self.wf(),
            i64::MIN < x < i64::MAX,
            i64::MIN < y < i64::MAX,
        ensures
            coords_as_int(r@) == neighbor_coords(x as int, y as int, self.height as int, 8),
    {
        let offsets: [(i64, i64); 8] = [
            (-1, -1),
            (0, -1),
            (1, -1),
            (-1, 0),
            (1, 0),
            (-1, 1),
            (0, 1),
            (1, 1),
        ];
        let h = self.height as i64;
        let mut out: Vec<(i64, i64)> = Vec::new();
        let mut k: usize = 0;
        while k < 8
            invariant
                k <= 8,
                h == self.height,
                i64::MIN < x < i64::MAX,
                i64::MIN < y < i64::MAX,
                offsets@ == seq![
                    (-1i64, -1i64),
                    (0i64, -1i64),
                    (1i64, -1i64),
                    (-1i64, 0i64),
                    (1i64, 0i64),
                    (-1i64, 1i64),
                    (0i64, 1i64),
                    (1i64, 1i64),
                ],
                coords_as_int(out@) == neighbor_coords(x as int, y as int, h as int, k as int),
            decreases 8 - k,
        {
            let (dx, dy) = offsets[k];
            assert(dx == nbr_offset(k as int).0 && dy == nbr_offset(k as int).1);
            let ny = y + dy;
            if ny < 0 || ny >= h {
            } else {
                let ghost before = out@;
                out.push((x + dx, ny));
                assert(coords_as_int(out@) =~= coords_as_int(before).push(
                    ((x + dx) as int, ny as int),
                ));
            }
            k = k + 1;
        }
        out
    }
}

/// `neighbor_coords` holds the coordinate of every offset that stays
/// between the poles.
pub proof fn lemma_neighbor_coords_has(x: int, y: int, h: int, n: int, k: int)
    requires
        0 <= k < n,
        0 <= y + nbr_offset(k).1 < h,
    ensures
        neighbor_coords(x, y, h, n).contains((x + nbr_offset(k).0, y + nbr_offset(k).1)),
    decreases n,
{
    let prev = neighbor_coords(x, y, h, n - 1);
    let o = nbr_offset(n - 1);
    if k == n - 1 {
        let s = prev.push((x + o.0, y + o.1));
        assert(s[s.len() - 1] == (x + o.0, y + o.1));
    } else {
        lemma_neighbor_coords_has(x, y, h, n - 1, k);
        let p = (x + nbr_offset(k).0, y + nbr_offset(k).1);
        let j = choose|j: int| 0 <= j < prev.len() && prev[j] == p;
        if 0 <= y + o.1 < h {
            let s = prev.push((x + o.0, y + o.1));
            assert(s[j] == p);
        }
    }
}

/// Every entry of `neighbor_coords` has a row between the poles and lies
/// one step away in each direction.
pub proof fn lemma_neighbor_coords_shape(x: int, y: int, h: int, n: int, t: int)
    requires
        n <= 8,
        0 <= t < neighbor_coords(x, y, h, n).len(),
    ensures
        0 <= neighbor_coords(x, y, h, n)[t].1 < h,
        x - 1 <= neighbor_coords(x, y, h, n)[t].0 <= x + 1,
        y - 1 <= neighbor_coords(x, y, h, n)[t].1 <= y + 1,
        exists|k: int|
            0 <= k < n && 0 <= k < 8 && neighbor_coords(x, y, h, n)[t] == (
            x + #[trigger] nbr_offset(k).0,
            y + nbr_offset(k).1,
        ),
    decreases n,
{
    let prev = neighbor_coords(x, y, h, n - 1);
    let o = nbr_offset(n - 1);
    if t < prev.len() {
        lemma_neighbor_coords_shape(x, y, h, n - 1, t);
        if 0 <= y + o.1 < h {
            assert(neighbor_coords(x, y, h, n)[t] == prev[t]);
        }
    } else {
        lemma_neighbor_coords_len(x, y, h, n - 1);
        assert(0 <= y + o.1 < h);
        assert(neighbor_coords(x, y, h, n)[t] == (x + o.0, y + o.1));
    }
}

pub proof fn lemma_neighbor_coords_len(x: int, y: int, h: int, n: int)
    ensures
        neighbor_coords(x, y, h, n).len() <= if n < 0 {
            0
        } else {
            n
        },
    decreases n,
{
    if n > 0 {
        lemma_neighbor_coords_len(x, y, h, n - 1);
    }
}

/// The storage index of a normalized coordinate decomposes back into it.
pub proof fn lemma_index_coords(w: int, h: int, x: int, y: int)
    requires
        0 < w,
        0 <= x < w,
        0 <= y < h,
    ensures
        cell_index(w, h, x, y) == y * w + x,
        (y * w + x) % w == x,
        (y * w + x) / w == y,
        0 <= y * w + x < w * h,
{
    lemma_fundamental_div_mod_converse(y * w + x, w, y, x);
    assert(x % w == x) by {
        lemma_fundamental_div_mod_converse(x, w, 0, x);
    }
    assert(y * w + x < w * h) by (nonlinear_arith)
        requires
            0 <= x < w,
            0 <= y < h,
    ;
    assert(y * w + x >= 0) by (nonlinear_arith)
        requires
            0 <= x,
            0 <= y,
            0 < w,
    ;
}

/// Every coordinate lands on a cell of a non-empty grid.
pub proof fn lemma_cell_index_range(w: int, h: int, x: int, y: int)
    requires
        0 < w,
        0 < h,
    ensures
        0 <= cell_index(w, h, x, y) < w * h,
{
    vstd::arithmetic::div_mod::lemma_mod_bound(x, w);
    lemma_index_coords(w, h, x % w, clamp_row(y, h));
}

/// A storage index splits into a normalized coordinate.
pub proof fn lemma_coords_of_index(w: int, h: int, i: int)
    requires
        0 < w,
        0 <= i < w * h,
    ensures
        0 <= i % w < w,
        0 <= i / w < h,
        i == (i / w) * w + i % w,
        cell_index(w, h, i % w, i / w) == i,
{
    lemma_fundamental_div_mod(i, w);
    vstd::arithmetic::div_mod::lemma_mod_pos_bound(i, w);
    let q = i / w;
    let r = i % w;
    assert(0 <= q < h) by (nonlinear_arith)
        requires
            i == w * q + r,
            0 <= r < w,
            0 <= i < w * h,
    ;
    assert(i == q * w + r) by (nonlinear_arith)
        requires
            i == w * q + r,
    ;
    lemma_index_coords(w, h, i % w, i / w);
}

/// The neighbor relation is symmetric: the opposite offset leads back.
pub proof fn lemma_adjacent_symmetric(w: int, h: int, i: int, j: int)
    requires
        0 < w,
        0 < h,
        0 <= i < w * h,
        adjacent(w, h, i, j),
    ensures
        0 <= j < w * h,
        adjacent(w, h, j, i),
{
    let k = choose|k: int| offset_ok(w, h, i, k) && #[trigger] offset_target(w, h, i, k) == j;
    let o = nbr_offset(k);
    let x = i % w;
    let y = i / w;
    lemma_coords_of_index(w, h, i);
    let nx = (x + o.0) % w;
    let ny = y + o.1;
    assert(0 <= nx < w);
    lemma_index_coords(w, h, nx, ny);
    assert(j == ny * w + nx);
    assert(j % w == nx && j / w == ny);
    let k2 = 7 - k;
    let o2 = nbr_offset(k2);
    assert(o2.0 == -o.0 && o2.1 == -o.1);
    assert(offset_ok(w, h, j, k2));
    assert((nx + o2.0) % w == x) by {
        lemma_add_mod_noop_right(-o.0, x + o.0, w);
        assert(x % w == x) by {
            lemma_fundamental_div_mod_converse(x, w, 0, x);
        }
    }
    lemma_index_coords(w, h, x, y);
    assert(offset_target(w, h, j, k2) == i);
}

/// Each listed neighbor of normalized `(x, y)` is adjacent to it.
pub proof fn lemma_listed_adjacent(w: int, h: int, x: int, y: int, t: int)
    requires
        0 < w,
        0 < h,
        0 <= x < w,
        0 <= y < h,
        0 <= t < neighbor_coords(x, y, h, 8).len(),
    ensures
        adjacent(
            w,
            h,
            y * w + x,
            cell_index(w, h, neighbor_coords(x, y, h, 8)[t].0, neighbor_coords(x, y, h, 8)[t].1),
        ),
{
    let u = y * w + x;
    lemma_index_coords(w, h, x, y);
    lemma_neighbor_coords_shape(x, y, h, 8, t);
    let nc = neighbor_coords(x, y, h, 8);
    let kk = choose|kk: int|
        0 <= kk < 8 && 0 <= kk < 8 && nc[t] == (x + #[trigger] nbr_offset(kk).0, y + nbr_offset(kk).1);
    assert(offset_ok(w, h, u, kk));
    assert(offset_target(w, h, u, kk) == cell_index(w, h, nc[t].0, nc[t].1));
}

} // verus!
