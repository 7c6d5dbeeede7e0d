//! Zigzag scanning of square matrices and of square blocks of larger matrices,
//! and the reconstruction of a matrix from its scan.
use vstd::prelude::*;

use crate::grid::{
    band_blocks_scan, bands_scan, block_fits, clones_of, edge_block_row_scan, first_row_len, full_block_scan_rect,
    grid_clones_of, grid_view, is_square, lemma_clones_of_concat, next_start, num_blocks, place_block,
    sub_block, unzigzag, zigzag_seq,
};
use crate::order::{
    in_grid, lemma_cell_of_rank, lemma_next_rank, lemma_rank_bounds, zigzag_advance, zigzag_rank,
};

verus! {

/// Scans the `bh`-by-`bw` block of `matrix` at `(ro, co)` in zigzag order.
fn scan_block<T: Clone>(matrix: &[Vec<T>], ro: usize, co: usize, bh: usize, bw: usize) -> (scanned:
    Vec<T>)
    requires
        bh * bw <= usize::MAX,
        block_fits(grid_view(matrix@), ro as int, co as int, bh as int, bw as int),
    ensures
        clones_of(
            zigzag_seq(
                sub_block(grid_view(matrix@), ro as int, co as int, bh as int, bw as int),
                bh as int,
                bw as int,
            ),
            scanned@,
        ),
{
    let ghost g = grid_view(matrix@);
    let ghost block = sub_block(g, ro as int, co as int, bh as int, bw as int);
    let ghost want = zigzag_seq(block, bh as int, bw as int);
    let total = bh * bw;
    let rows = matrix.len();
    let mut scanned: Vec<T> = Vec::with_capacity(total);
    let mut row: usize = 0;
    let mut col: usize = 0;
    let mut going_up = true;
    for i in 0..total
        invariant
            total == bh * bw,
            g == grid_view(matrix@),
            rows == matrix@.len(),
            block == sub_block(g, ro as int, co as int, bh as int, bw as int),
            want == zigzag_seq(block, bh as int, bw as int),
            block_fits(g, ro as int, co as int, bh as int, bw as int),
            scanned.len() == i,
            i < total ==> in_grid(bh as int, bw as int, row as int, col as int),
            i < total ==> zigzag_rank(bh as int, bw as int, row as int, col as int) == i,
            i < total ==> going_up == ((row + col) % 2 == 0),
            forall|k: int| 0 <= k < i ==> cloned(want[k], #[trigger] scanned@[k]),
    {
        proof {
            lemma_cell_of_rank(bh as int, bw as int, row as int, col as int);
            assert(g[ro + row].len() >= co + bw);
            assert(ro + row < g.len());
            assert(want[i as int] == matrix@[ro + row]@[co + col]);
        }
        let r = ro + row;
        let line = &matrix[r];
        let line_len = line.len();
        assert(line_len == g[ro + row].len());
        let value = line[co + col].clone();
        scanned.push(value);
        proof {
            if i + 1 < total {
                lemma_next_rank(bh as int, bw as int, row as int, col as int);
            }
        }
        let next = zigzag_advance(bh, bw, row, col, going_up);
        row = next.0;
        col = next.1;
        going_up = next.2;
    }
    scanned
}

/// Scans a square matrix in zigzag order (the order JPEG uses).
///
/// Entry `k` of the result is a clone of the matrix entry at `zigzag_cell(n, n, k)`.
pub fn zigzag_scan<T: Clone>(matrix: &[Vec<T>]) -> (scanned: Vec<T>)
    requires
        matrix.len() >= 1,
        is_square(grid_view(matrix@), matrix.len() as int),
        matrix.len() * matrix.len() <= usize::MAX,
    ensures
        clones_of(
            zigzag_seq(grid_view(matrix@), matrix.len() as int, matrix.len() as int),
            scanned@,
        ),
{
    let n = matrix.len();
    let ghost g = grid_view(matrix@);
    assert(sub_block(g, 0, 0, n as int, n as int) =~= g) by {
        assert forall|i: int| 0 <= i < n implies #[trigger] sub_block(
            g,
            0,
            0,
            n as int,
            n as int,
        )[i] =~= g[i] by {
            assert(g[i].len() == n);
        }
    }
    scan_block(matrix, 0, 0, n, n)
}

/// Scans the `block_size`-by-`block_size` block of `matrix` whose top-left entry is
/// `matrix[row_offset][col_offset]` in zigzag order.
///
/// The block must lie inside the matrix, and must also fit in the width of the first row.
pub fn block_zigzag<T: Clone>(
    matrix: &[Vec<T>],
    row_offset: usize,
    col_offset: usize,
    block_size: usize,
) -> (scanned: Vec<T>)
    requires
        block_size >= 1,
        row_offset + block_size <= matrix.len(),
        col_offset + block_size <= matrix@[0].len(),
        block_fits(
            grid_view(matrix@),
            row_offset as int,
            col_offset as int,
            block_size as int,
            block_size as int,
        ),
        block_size * block_size <= usize::MAX,
    ensures
        clones_of(
            zigzag_seq(
                sub_block(
                    grid_view(matrix@),
                    row_offset as int,
                    col_offset as int,
                    block_size as int,
                    block_size as int,
                ),
                block_size as int,
                block_size as int,
            ),
            scanned@,
        ),
{
    scan_block(matrix, row_offset, col_offset, block_size, block_size)
}

/// Rebuilds a `block_size`-by-`block_size` block from its zigzag scan `flat` and writes
/// it into `dest` with its top-left entry at `(row_offset, col_offset)`.
///
/// Every entry of `dest` outside the block is left as it was. The argument `n` is not used.
pub fn inverse_block_zigzag<T: Clone + Default>(
    flat: &[T],
    n: usize,
    dest: &mut [Vec<T>],
    row_offset: usize,
    col_offset: usize,
    block_size: usize,
)
    requires
        flat.len() == block_size * block_size,
        block_fits(
            grid_view(old(dest)@),
            row_offset as int,
            col_offset as int,
            block_size as int,
            block_size as int,
        ),
    ensures
        grid_view(final(dest)@) == place_block(
            grid_view(old(dest)@),
            sub_block(
                grid_view(final(dest)@),
                row_offset as int,
                col_offset as int,
                block_size as int,
                block_size as int,
            ),
            row_offset as int,
            col_offset as int,
        ),
        grid_clones_of(
            unzigzag(flat@, block_size as int),
            sub_block(
                grid_view(final(dest)@),
                row_offset as int,
                col_offset as int,
                block_size as int,
                block_size as int,
            ),
        ),
{
    let ghost old_g = grid_view(dest@);
    let ghost ro = row_offset as int;
    let ghost co = col_offset as int;
    let ghost bs = block_size as int;
    let mut block = inverse_zigzag(flat, block_size);
    let ghost full = grid_view(block@);
    let mut i = block_size;
    while i > 0
        invariant
            0 <= i <= bs,
            bs == block_size,
            ro == row_offset,
            co == col_offset,
            block_fits(old_g, ro, co, bs, bs),
            full.len() == bs,
            forall|t: int| 0 <= t < bs ==> (#[trigger] full[t]).len() == bs,
            block@.len() == i,
            forall|t: int| 0 <= t < i ==> (#[trigger] block@[t])@ == full[t],
            dest@.len() == old_g.len(),
            forall|r: int| 0 <= r < old_g.len() ==> (#[trigger] dest@[r])@.len() == old_g[r].len(),
            forall|r: int, c: int|
                0 <= r < old_g.len() && 0 <= c < old_g[r].len() ==> #[trigger] dest@[r]@[c] == if ro
                    + i <= r < ro + bs && co <= c < co + bs {
                    full[r - ro][c - co]
                } else {
                    old_g[r][c]
                },
        decreases i,
    {
        i -= 1;
        let mut line = block.pop().unwrap();
        assert(line@ == full[i as int]);
        assert(old_g[ro + i].len() >= co + bs);
        let mut j = block_size;
        while j > 0
            invariant
                0 <= j <= bs,
                0 <= i < bs,
                bs == block_size,
                ro == row_offset,
                co == col_offset,
                block_fits(old_g, ro, co, bs, bs),
                full.len() == bs,
                line@.len() == j,
                forall|t: int| 0 <= t < j ==> #[trigger] line@[t] == full[i as int][t],
                dest@.len() == old_g.len(),
                forall|r: int|
                    0 <= r < old_g.len() ==> (#[trigger] dest@[r])@.len() == old_g[r].len(),
                forall|r: int, c: int|
                    0 <= r < old_g.len() && 0 <= c < old_g[r].len() ==> #[trigger] dest@[r]@[c]
                        == if (ro + i < r < ro + bs && co <= c < co + bs) || (r == ro + i && co
                        + j <= c < co + bs) {
                        full[r - ro][c - co]
                    } else {
                        old_g[r][c]
                    },
            decreases j,
        {
            j -= 1;
            let value = line.pop().unwrap();
            let ghost before = dest@;
            assert(dest@[ro + i]@.len() == old_g[ro + i].len());
            let rows = dest.len();
            assert(ro + i < rows);
            let r = row_offset + i;
            let width = dest[r].len();
            assert(co + j < width);
            dest[r][col_offset + j] = value;
            proof {
                assert forall|r: int| 0 <= r < old_g.len() implies (#[trigger] dest@[r])@.len()
                    == old_g[r].len() by {
                    assert(before[r]@.len() == old_g[r].len());
                }
                assert forall|r: int, c: int|
                    0 <= r < old_g.len() && 0 <= c < old_g[r].len() implies #[trigger] dest@[r]@[c]
                        == if (ro + i < r < ro + bs && co <= c < co + bs) || (r == ro + i && co
                        + j <= c < co + bs) {
                        full[r - ro][c - co]
                    } else {
                        old_g[r][c]
                    } by {
                    if r != ro + i || c != co + j {
                        assert(dest@[r]@[c] == before[r]@[c]);
                    }
                }
            }
        }
    }
    proof {
        let new_g = grid_view(dest@);
        let b = sub_block(new_g, ro, co, bs, bs);
        assert forall|t: int| 0 <= t < bs implies #[trigger] b[t] =~= full[t] by {
            assert(old_g[ro + t].len() >= co + bs);
            assert forall|c: int| 0 <= c < bs implies b[t][c] == full[t][c] by {
                assert(dest@[ro + t]@[co + c] == full[t][c]);
            }
        }
        assert(b =~= full);
        let placed = place_block(old_g, b, ro, co);
        assert forall|r: int| 0 <= r < new_g.len() implies #[trigger] new_g[r] =~= placed[r] by {
            assert forall|c: int| 0 <= c < new_g[r].len() implies new_g[r][c] == placed[r][c] by {
                assert(dest@[r]@[c] == new_g[r][c]);
            }
        }
        assert(new_g =~= placed);
    }
}

/// Scans a matrix block by block: the matrix is cut into `block_size`-by-`block_size`
/// blocks, with smaller blocks at the right and bottom edges where the sizes do not
/// divide evenly, and the blocks are scanned in zigzag order one after another, block
/// rows top to bottom, blocks left to right.
///
/// The width of the matrix is that of its first row; every row must be at least that wide.
pub fn full_block_zigzag<T: Clone + Default>(matrix: &[Vec<T>], block_size: usize) -> (scanned:
    Vec<T>)
    requires
        matrix.len() > 0 ==> block_size > 0,
        forall|i: int|
            0 <= i < matrix.len() ==> first_row_len(grid_view(matrix@)) <= (
            #[trigger] matrix@[i]).len(),
        matrix.len() * first_row_len(grid_view(matrix@)) <= usize::MAX,
    ensures
        scanned.len() == matrix.len() * first_row_len(grid_view(matrix@)),
        clones_of(
            full_block_scan_rect(
                grid_view(matrix@),
                first_row_len(grid_view(matrix@)),
                block_size as int,
            ),
            scanned@,
        ),
        block_size > 0 ==> clones_of(
            Seq::new(
                num_blocks(matrix.len() as int, block_size as int) as nat,
                |br: int|
                    edge_block_row_scan(
                        grid_view(matrix@),
                        matrix.len() as int,
                        first_row_len(grid_view(matrix@)),
                        block_size as int,
                        br,
                    ),
            ).flatten(),
            scanned@,
        ),
{
    let ghost g = grid_view(matrix@);
    let rows = matrix.len();
    let cols = if rows > 0 {
        matrix[0].len()
    } else {
        0
    };
    assert(cols == first_row_len(g));
    let ghost bs = block_size as int;
    let ghost total = full_block_scan_rect(g, cols as int, bs);
    let ghost mut done: Seq<T> = Seq::empty();
    let mut result: Vec<T> = Vec::new();
    let mut r: usize = 0;
    assert(done + bands_scan(g, cols as int, bs, 0) =~= total);
    while r < rows
        invariant
            g == grid_view(matrix@),
            rows == matrix@.len(),
            cols == first_row_len(g),
            bs == block_size,
            rows > 0 ==> bs > 0,
            forall|i: int| 0 <= i < rows ==> cols <= (#[trigger] g[i]).len(),
            rows * cols <= usize::MAX,
            total == full_block_scan_rect(g, cols as int, bs),
            r <= rows,
            done + bands_scan(g, cols as int, bs, r as int) == total,
            clones_of(done, result@),
            result@.len() == r * cols,
        decreases rows - r,
    {
        let actual_r = if block_size < rows - r {
            block_size
        } else {
            rows - r
        };
        let ghost band = band_blocks_scan(g, bs, r as int, actual_r as int, 0, cols as int);
        let ghost mut band_done: Seq<T> = Seq::empty();
        let mut c: usize = 0;
        assert(band_done + band =~= band);
        while c < cols
            invariant
                g == grid_view(matrix@),
                rows == matrix@.len(),
                cols == first_row_len(g),
                bs == block_size,
                bs > 0,
                forall|i: int| 0 <= i < rows ==> cols <= (#[trigger] g[i]).len(),
                rows * cols <= usize::MAX,
                r < rows,
                1 <= actual_r <= bs,
                r + actual_r <= rows,
                actual_r == next_start(rows as int, r as int, bs) - r,
                band == band_blocks_scan(g, bs, r as int, actual_r as int, 0, cols as int),
                c <= cols,
                band_done + band_blocks_scan(g, bs, r as int, actual_r as int, c as int, cols as int)
                    == band,
                clones_of(done + band_done, result@),
                result@.len() == r * cols + actual_r * c,
            decreases cols - c,
        {
            let actual_c = if block_size < cols - c {
                block_size
            } else {
                cols - c
            };
            proof {
                assert forall|i: int|
                    #![trigger g[i]]
                    r <= i < r + actual_r implies i < g.len() && c + actual_c <= g[i].len() by {}
                assert(actual_r * actual_c <= rows * cols) by (nonlinear_arith)
                    requires
                        0 <= actual_r <= rows,
                        0 <= actual_c <= cols,
                ;
            }
            let mut scanned = if actual_r == block_size && actual_c == block_size {
                block_zigzag(matrix, r, c, block_size)
            } else {
                scan_block(matrix, r, c, actual_r, actual_c)
            };
            let ghost piece = zigzag_seq(
                sub_block(g, r as int, c as int, actual_r as int, actual_c as int),
                actual_r as int,
                actual_c as int,
            );
            proof {
                lemma_clones_of_concat(done + band_done, result@, piece, scanned@);
                assert(done + band_done + piece =~= done + (band_done + piece));
                let rest = band_blocks_scan(
                    g,
                    bs,
                    r as int,
                    actual_r as int,
                    c + actual_c,
                    cols as int,
                );
                assert(band_blocks_scan(g, bs, r as int, actual_r as int, c as int, cols as int)
                    == piece + rest);
                assert(band_done + piece + rest =~= band_done + (piece + rest));
                assert(r * cols + actual_r * c + actual_r * actual_c == r * cols + actual_r * (c
                    + actual_c)) by (nonlinear_arith);
            }
            result.append(&mut scanned);
            proof {
                band_done = band_done + piece;
            }
            c = c + actual_c;
        }
        proof {
            assert(band_blocks_scan(g, bs, r as int, actual_r as int, c as int, cols as int)
                =~= Seq::<T>::empty());
            assert(band_done + Seq::<T>::empty() =~= band_done);
            let rest = bands_scan(g, cols as int, bs, r + actual_r);
            assert(bands_scan(g, cols as int, bs, r as int) == band + rest);
            assert(done + (band + rest) =~= done + band + rest);
            assert(r * cols + actual_r * cols == (r + actual_r) * cols) by (nonlinear_arith);
            done = done + band;
        }
        r = r + actual_r;
    }
    proof {
        assert(bands_scan(g, cols as int, bs, r as int) =~= Seq::<T>::empty());
        assert(done + Seq::<T>::empty() =~= done);
        if bs > 0 {
            crate::laws::lemma_full_block_scan_blocks(g, cols as int, bs);
        }
    }
    result
}

/// An `n`-by-`n` matrix with every entry `T::default()`.
fn default_matrix<T: Default>(n: usize) -> (matrix: Vec<Vec<T>>)
    ensures
        is_square(grid_view(matrix@), n as int),
{
    let mut matrix: Vec<Vec<T>> = Vec::with_capacity(n);
    for r in 0..n
        invariant
            matrix.len() == r,
            forall|i: int| 0 <= i < r ==> (#[trigger] matrix@[i]).len() == n,
    {
        let mut line: Vec<T> = Vec::with_capacity(n);
        for c in 0..n
            invariant
                line.len() == c,
        {
            line.push(T::default());
        }
        matrix.push(line);
    }
    matrix
}

/// Rebuilds the `n`-by-`n` matrix whose zigzag scan is `flat`.
///
/// Entry `(r, c)` of the result is a clone of `flat[zigzag_rank(n, n, r, c)]`.
pub fn inverse_zigzag<T: Clone + Default>(flat: &[T], n: usize) -> (matrix: Vec<Vec<T>>)
    requires
        flat.len() == n * n,
    ensures
        grid_clones_of(unzigzag(flat@, n as int), grid_view(matrix@)),
{
    let total = flat.len();
    let mut matrix: Vec<Vec<T>> = default_matrix(n);
    let mut row: usize = 0;
    let mut col: usize = 0;
    let mut going_up = true;
    assert forall|r: int, c: int| in_grid(n as int, n as int, r, c) implies zigzag_rank(n as int, n as int, r, c) >= 0 by {
        lemma_rank_bounds(n as int, n as int, r, c);
    }
    for i in 0..total
        invariant
            total == n * n,
            flat@.len() == total,
            is_square(grid_view(matrix@), n as int),
            i < total ==> in_grid(n as int, n as int, row as int, col as int),
            i < total ==> zigzag_rank(n as int, n as int, row as int, col as int) == i,
            i < total ==> going_up == ((row + col) % 2 == 0),
            forall|r: int, c: int|
                in_grid(n as int, n as int, r, c) && zigzag_rank(n as int, n as int, r, c) < i ==> cloned(
                    flat@[zigzag_rank(n as int, n as int, r, c)],
                    #[trigger] matrix@[r]@[c],
                ),
    {
        let value = flat[i].clone();
        let ghost before = matrix@;
        assert(grid_view(matrix@)[row as int].len() == n);
        matrix[row][col] = value;
        proof {
            assert(matrix@.len() == n);
            assert forall|r: int| 0 <= r < n implies #[trigger] grid_view(matrix@)[r].len() == n by {
                assert(grid_view(before)[r].len() == n);
            }
            assert forall|r: int, c: int|
                in_grid(n as int, n as int, r, c) && zigzag_rank(n as int, n as int, r, c) < i + 1 implies cloned(
                    flat@[zigzag_rank(n as int, n as int, r, c)],
                    #[trigger] matrix@[r]@[c],
                ) by {
                if r != row || c != col {
                    assert(matrix@[r]@[c] == before[r]@[c]);
                    if zigzag_rank(n as int, n as int, r, c) == i {
                        crate::order::lemma_rank_injective(
                            n as int,
                            n as int,
                            r,
                            c,
                            row as int,
                            col as int,
                        );
                    }
                }
            }
            if i + 1 < total {
                lemma_next_rank(n as int, n as int, row as int, col as int);
            }
        }
        let next = zigzag_advance(n, n, row, col, going_up);
        row = next.0;
        col = next.1;
        going_up = next.2;
    }
    proof {
        let g = grid_view(matrix@);
        let want = unzigzag(flat@, n as int);
        assert forall|r: int| 0 <= r < n implies clones_of(want[r], #[trigger] g[r]) by {
            assert forall|c: int| 0 <= c < n implies cloned(want[r][c], #[trigger] g[r][c]) by {
                lemma_rank_bounds(n as int, n as int, r, c);
                assert(matrix@[r]@[c] == g[r][c]);
            }
        }
    }
    matrix
}

} // verus!
