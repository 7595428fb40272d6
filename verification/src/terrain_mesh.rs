//! Index bookkeeping for the chunked terrain mesh: which grid cells a chunk
//! samples, how its quads are triangulated, and how the world is cut into
//! chunks.
use vstd::prelude::*;

verus! {

/// Quads per chunk edge.
pub const CHUNK_QUADS: usize = 64;

/// How many queued chunks are meshed per frame.
pub const CHUNKS_PER_FRAME: usize = 8;

/// One frame of the incremental terrain build with `pending` chunk jobs
/// queued: how many are built this frame, and whether the queue is empty
/// afterwards (the point at which the world-map image is made and the game
/// starts).
pub fn frame_batch(pending: usize) -> (r: (usize, bool))
    ensures
        r.0 == if pending < CHUNKS_PER_FRAME {
            pending
        } else {
            CHUNKS_PER_FRAME
        },
        r.1 == (pending <= CHUNKS_PER_FRAME),
{
    if pending < CHUNKS_PER_FRAME {
        (pending, true)
    } else {
        (CHUNKS_PER_FRAME, pending == CHUNKS_PER_FRAME)
    }
}

/// Chunk jobs still queued after `k` frames of an incremental build that
/// started with `total`, each frame taking its `frame_batch`.
pub open spec fn pending_after(total: int, k: nat) -> int
    decreases k,
{
    if k == 0 {
        total
    } else {
        let p = pending_after(total, (k - 1) as nat);
        p - if p < CHUNKS_PER_FRAME {
            p
        } else {
            CHUNKS_PER_FRAME as int
        }
    }
}

/// Over successive frames the build takes eight chunks a frame: after `k`
/// frames `max(total - 8k, 0)` are left and the rest are built (never more
/// than `total`), and frame `k` is the one that reports the queue empty
/// exactly when `total <= 8k`; so the build finishes on frame
/// `max(1, ceil(total / 8))`.
pub proof fn lemma_build_frames(total: int, k: nat)
    requires
        total >= 0,
    ensures
        pending_after(total, k) == if total - 8 * k > 0 {
            total - 8 * k
        } else {
            0
        },
        0 <= total - pending_after(total, k) <= total,
        k >= 1 ==> ((pending_after(total, (k - 1) as nat) <= CHUNKS_PER_FRAME) <==> total <= 8 * k),
    decreases k,
{
    if k > 0 {
        lemma_build_frames(total, (k - 1) as nat);
    }
}

/// Every `stride`-th index of `0..len`, then `len - 1` if the stride did
/// not already land on it.
pub open spec fn spec_sample_indices(len: int, stride: int) -> Seq<usize> {
    let count = (len - 1) / stride + 1;
    let base = Seq::new(count as nat, |k: int| (k * stride) as usize);
    if (count - 1) * stride == len - 1 {
        base
    } else {
        base.push((len - 1) as usize)
    }
}

/// Which local indices (within `0..len`) to sample for one axis of a
/// decimated mesh: every `stride`-th, plus the final index, so a chunk's
/// decimated mesh always reaches its own far edge. `stride == 1` yields
/// `0..len` unchanged.
pub fn sample_indices(len: usize, stride: usize) -> (r: Vec<usize>)
    requires
        len >= 1,
        stride >= 1,
    ensures
        r@ == spec_sample_indices(len as int, stride as int),
        r@[0] == 0,
        r@[r@.len() - 1] == len - 1,
        forall|i: int, j: int| 0 <= i < j < r@.len() ==> r@[i] < r@[j],
{
    let count = (len - 1) / stride + 1;
    proof {
        assert(((len - 1) / stride as int) * stride <= len - 1) by (nonlinear_arith)
            requires
                len >= 1,
                stride >= 1,
        ;
    }
    let mut indices: Vec<usize> = Vec::new();
    let mut k: usize = 0;
    while k < count
        invariant
            len >= 1,
            stride >= 1,
            count == (len - 1) / stride as int + 1,
            (count - 1) * stride <= len - 1,
            k <= count,
            indices@ =~= Seq::new(k as nat, |q: int| (q * stride) as usize),
        decreases count - k,
    {
        proof {
            assert(k * stride <= (count - 1) * stride) by (nonlinear_arith)
                requires
                    k <= count - 1,
                    stride >= 1,
            ;
        }
        indices.push(k * stride);
        k = k + 1;
    }
    let last = indices[indices.len() - 1];
    proof {
        assert forall|i: int, j: int| 0 <= i < j < indices@.len() implies indices@[i]
            < indices@[j] by {
            assert(i * stride < j * stride) by (nonlinear_arith)
                requires
                    i < j,
                    stride >= 1,
            ;
            assert(j * stride <= (count - 1) * stride) by (nonlinear_arith)
                requires
                    j <= count - 1,
                    stride >= 1,
            ;
        }
    }
    if last != len - 1 {
        indices.push(len - 1);
        proof {
            assert forall|i: int, j: int| 0 <= i < j < indices@.len() implies indices@[i]
                < indices@[j] by {
                if j == count {
                    assert(i * stride <= (count - 1) * stride) by (nonlinear_arith)
                        requires
                            i <= count - 1,
                            stride >= 1,
                    ;
                }
            }
        }
    }
    indices
}

/// The six corner indices of quad `(row, col)` in a `cols`-wide vertex
/// grid, as two triangles wound so the face normal points up.
pub open spec fn quad_corners(cols: int, row: int, col: int) -> Seq<u32> {
    let a = (row * cols + col) as u32;
    let b = (row * cols + col + 1) as u32;
    let c = ((row + 1) * cols + col) as u32;
    let d = ((row + 1) * cols + col + 1) as u32;
    seq![a, c, b, b, c, d]
}

/// Two triangles per grid quad of a `cols` x `rows` vertex grid, quads in
/// row-major order.
pub fn grid_indices(cols: usize, rows: usize) -> (r: Vec<u32>)
    requires
        cols >= 1,
        rows >= 1,
        cols * rows <= u32::MAX,
    ensures
        r@.len() == 6 * ((cols - 1) * (rows - 1)),
        forall|q: int, s: int|
            0 <= q < (cols - 1) * (rows - 1) && 0 <= s < 6 ==> #[trigger] r@[6 * q + s]
                == quad_corners(cols as int, q / (cols - 1), q % (cols - 1))[s],
{
    let mut indices: Vec<u32> = Vec::new();
    let mut row: usize = 0;
    proof {
        assert((rows - 1) * cols <= cols * rows) by (nonlinear_arith)
            requires
                rows >= 1,
                cols >= 1,
        ;
    }
    while row < rows - 1
        invariant
            cols >= 1,
            rows >= 1,
            cols * rows <= u32::MAX,
            row <= rows - 1,
            indices@.len() == 6 * ((cols - 1) * row),
            forall|q: int, s: int|
                0 <= q < (cols - 1) * row && 0 <= s < 6 ==> #[trigger] indices@[6 * q + s]
                    == quad_corners(cols as int, q / (cols - 1), q % (cols - 1))[s],
        decreases rows - 1 - row,
    {
        let mut col: usize = 0;
        while col < cols - 1
            invariant
                cols >= 1,
                rows >= 1,
                cols * rows <= u32::MAX,
                row < rows - 1,
                col <= cols - 1,
                indices@.len() == 6 * ((cols - 1) * row + col),
                forall|q: int, s: int|
                    0 <= q < (cols - 1) * row + col && 0 <= s < 6 ==> #[trigger] indices@[6 * q
                        + s] == quad_corners(cols as int, q / (cols - 1), q % (cols - 1))[s],
            decreases cols - 1 - col,
        {
            proof {
                assert((row + 1) * cols + col + 1 <= cols * rows) by (nonlinear_arith)
                    requires
                        row + 1 <= rows - 1,
                        col + 1 <= cols - 1,
                        cols >= 1,
                ;
                assert(row * cols + col + 1 <= (row + 1) * cols + col + 1) by (nonlinear_arith)
                    requires
                        cols >= 1,
                ;
            }
            let a = (row * cols + col) as u32;
            let b = (row * cols + col + 1) as u32;
            let c = ((row + 1) * cols + col) as u32;
            let d = ((row + 1) * cols + col + 1) as u32;
            let ghost before = indices@;
            let ghost q0 = (cols - 1) * row + col;
            indices.push(a);
            indices.push(c);
            indices.push(b);
            indices.push(b);
            indices.push(c);
            indices.push(d);
            proof {
                assert(q0 == row * (cols - 1) + col) by (nonlinear_arith)
                    requires
                        q0 == (cols - 1) * row + col,
                ;
                vstd::arithmetic::div_mod::lemma_fundamental_div_mod_converse(
                    q0,
                    cols - 1,
                    row as int,
                    col as int,
                );
                assert forall|q: int, s: int|
                    0 <= q < q0 + 1 && 0 <= s < 6 implies #[trigger] indices@[6 * q + s]
                    == quad_corners(cols as int, q / (cols - 1), q % (cols - 1))[s] by {
                    if q < q0 {
                        assert(6 * q + s < 6 * q0);
                        assert(indices@[6 * q + s] == before[6 * q + s]);
                    } else {
                        assert(q == q0);
                    }
                }
            }
            col = col + 1;
        }
        proof {
            assert((cols - 1) * row + (cols - 1) == (cols - 1) * (row + 1)) by (nonlinear_arith);
        }
        row = row + 1;
    }
    indices
}

/// One chunk of the terrain mesh: a `cols` x `rows` vertex window starting
/// at (`col_start`, `row_start`).
#[derive(Clone, Copy, Debug, PartialEq, Eq, Structural)]
pub struct ChunkJob {
    pub col_start: usize,
    pub row_start: usize,
    pub cols: usize,
    pub rows: usize,
}

/// The chunk at chunk coordinates `(cx, cy)`: windows overlap their
/// neighbor by one vertex so chunk edges meet, and are cut short at the
/// world's edge.
pub open spec fn chunk_at(width: int, height: int, cx: int, cy: int) -> ChunkJob {
    let col_start = cx * 64;
    let row_start = cy * 64;
    let col_end = if col_start + 65 <= width {
        col_start + 65
    } else {
        width
    };
    let row_end = if row_start + 65 <= height {
        row_start + 65
    } else {
        height
    };
    ChunkJob {
        col_start: col_start as usize,
        row_start: row_start as usize,
        cols: (col_end - col_start) as usize,
        rows: (row_end - row_start) as usize,
    }
}

/// Chunks, row-major over chunk coordinates, skipping windows too thin to
/// hold a quad.
pub open spec fn chunks_upto(width: int, height: int, chunk_cols: int, q: int) -> Seq<ChunkJob>
    decreases q,
{
    if q <= 0 || chunk_cols <= 0 {
        Seq::empty()
    } else {
        let prev = chunks_upto(width, height, chunk_cols, q - 1);
        let job = chunk_at(width, height, (q - 1) % chunk_cols, (q - 1) / chunk_cols);
        if job.cols < 2 || job.rows < 2 {
            prev
        } else {
            prev.push(job)
        }
    }
}

pub open spec fn chunk_count(n: int) -> int {
    (n + 63) / 64
}

/// The terrain-mesh chunk jobs for a `width` x `height` world, in build
/// order.
pub fn chunk_jobs(width: usize, height: usize) -> (r: Vec<ChunkJob>)
    requires
        width + 128 <= usize::MAX,
        height + 128 <= usize::MAX,
        chunk_count(width as int) * chunk_count(height as int) <= usize::MAX,
    ensures
        r@ == chunks_upto(
            width as int,
            height as int,
            chunk_count(width as int),
            chunk_count(width as int) * chunk_count(height as int),
        ),
{
    let chunk_cols = (width + (CHUNK_QUADS - 1)) / CHUNK_QUADS;
    let chunk_rows = (height + (CHUNK_QUADS - 1)) / CHUNK_QUADS;
    let ghost cc = chunk_count(width as int);
    let ghost cr = chunk_count(height as int);
    let mut jobs: Vec<ChunkJob> = Vec::new();
    let mut chunk_y: usize = 0;
    while chunk_y < chunk_rows
        invariant
            chunk_cols == cc,
            chunk_rows == cr,
            cc == chunk_count(width as int),
            cr == chunk_count(height as int),
            cc * cr <= usize::MAX,
            width + 128 <= usize::MAX,
            height + 128 <= usize::MAX,
            chunk_y <= chunk_rows,
            jobs@ == chunks_upto(width as int, height as int, cc, cc * chunk_y),
        decreases chunk_rows - chunk_y,
    {
        let mut chunk_x: usize = 0;
        while chunk_x < chunk_cols
            invariant
                chunk_cols == cc,
                chunk_rows == cr,
                cc == chunk_count(width as int),
                cr == chunk_count(height as int),
                cc * cr <= usize::MAX,
                width + 128 <= usize::MAX,
                height + 128 <= usize::MAX,
                chunk_y < chunk_rows,
                chunk_x <= chunk_cols,
                jobs@ == chunks_upto(width as int, height as int, cc, cc * chunk_y + chunk_x),
            decreases chunk_cols - chunk_x,
        {
            proof {
                let q = cc * chunk_y + chunk_x;
                assert(q == chunk_y * cc + chunk_x) by (nonlinear_arith)
                    requires
                        q == cc * chunk_y + chunk_x,
                ;
                vstd::arithmetic::div_mod::lemma_fundamental_div_mod_converse(
                    q,
                    cc,
                    chunk_y as int,
                    chunk_x as int,
                );
                assert(chunk_x * 64 < width + 64) by (nonlinear_arith)
                    requires
                        chunk_x < cc,
                        cc == (width + 63) / 64,
                ;
                assert(chunk_y * 64 < height + 64) by (nonlinear_arith)
                    requires
                        chunk_y < cr,
                        cr == (height + 63) / 64,
                ;
            }
            let col_start = chunk_x * CHUNK_QUADS;
            let row_start = chunk_y * CHUNK_QUADS;
            let col_end = if col_start + CHUNK_QUADS + 1 <= width {
                col_start + CHUNK_QUADS + 1
            } else {
                width
            };
            let row_end = if row_start + CHUNK_QUADS + 1 <= height {
                row_start + CHUNK_QUADS + 1
            } else {
                height
            };
            proof {
                assert(col_start <= width) by (nonlinear_arith)
                    requires
                        chunk_x < cc,
                        cc == (width + 63) / 64,
                        col_start == chunk_x * 64,
                ;
                assert(row_start <= height) by (nonlinear_arith)
                    requires
                        chunk_y < cr,
                        cr == (height + 63) / 64,
                        row_start == chunk_y * 64,
                ;
            }
            let cols = col_end - col_start;
            let rows = row_end - row_start;
            if !(cols < 2 || rows < 2) {
                jobs.push(ChunkJob { col_start, row_start, cols, rows });
            }
            proof {
                assert(cc * chunk_y + chunk_x + 1 <= cc * cr) by (nonlinear_arith)
                    requires
                        chunk_x < cc,
                        chunk_y < cr,
                ;
            }
            chunk_x = chunk_x + 1;
        }
        proof {
            assert(cc * chunk_y + cc == cc * (chunk_y + 1)) by (nonlinear_arith);
        }
        chunk_y = chunk_y + 1;
    }
    jobs
}

/// Neighboring chunks meet: a chunk not cut short by the world's edge ends
/// on the column (row) where the next chunk starts, and a decimated mesh
/// of it, at any stride, still samples that shared border.
pub proof fn lemma_chunks_meet(width: int, height: int, cx: int, cy: int, stride: int)
    requires
        0 <= cx,
        0 <= cy,
        stride >= 1,
        width <= usize::MAX,
        height <= usize::MAX,
    ensures
        cx * 64 + 65 <= width ==> chunk_at(width, height, cx, cy).col_start + chunk_at(
            width,
            height,
            cx,
            cy,
        ).cols - 1 == chunk_at(width, height, cx + 1, cy).col_start,
        cy * 64 + 65 <= height ==> chunk_at(width, height, cx, cy).row_start + chunk_at(
            width,
            height,
            cx,
            cy,
        ).rows - 1 == chunk_at(width, height, cx, cy + 1).row_start,
        cx * 64 + 65 <= width ==> spec_sample_indices(65, stride).last() == 64,
{
    if cx * 64 + 65 <= width {
        assert((cx + 1) * 64 == cx * 64 + 64);
        let count: int = 64int / stride + 1;
        assert((count - 1) * stride <= 64) by (nonlinear_arith)
            requires
                count == 64int / stride + 1,
                stride >= 1,
        ;
    }
    if cy * 64 + 65 <= height {
        assert((cy + 1) * 64 == cy * 64 + 64);
    }
}

} // verus!
