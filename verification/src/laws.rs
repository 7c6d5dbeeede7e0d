//! Properties of the library as a whole: what scanning undoes, what stays put, and
//! how the functions relate to one another.
use vstd::laws_eq::{obeys_concrete_eq, obeys_eq, obeys_eq_spec_properties};
use vstd::prelude::*;
use vstd::std_specs::cmp::PartialEqSpec;

use crate::grid::{
    band_blocks_scan, bands_scan, block_extent, clone_is_exact, edge_block_row_scan,
    edge_block_scan_at, next_start, num_blocks, clones_of, full_block_scan_rect, grid_clones_of,
    is_square, sub_block, unzigzag, zigzag_seq,
};
use crate::rle::{
    is_canonical_rle, is_rle_of, lemma_expand_index, lemma_expand_len, lemma_find_run,
    lemma_offset_monotone, lemma_run_facts, rle_expand, rle_offset, rle_total, RLEPair,
};
use crate::order::{
    in_grid, lemma_cell_at, lemma_cell_of_rank, lemma_rank_bounds, zigzag_cell, zigzag_rank,
};

verus! {

/// The zigzag walk over an `h`-by-`w` grid visits every cell exactly once: each step
/// `k < h * w` is at a cell of the grid whose position is `k`, each cell's position is a
/// step of the walk that lands on that cell, and different steps land on different cells.
pub proof fn lemma_zigzag_order_is_permutation(h: int, w: int)
    requires
        h >= 0,
        w >= 0,
    ensures
        forall|k: int|
            0 <= k < h * w ==> in_grid(h, w, #[trigger] zigzag_cell(h, w, k).0, zigzag_cell(h, w, k).1)
                && zigzag_rank(h, w, zigzag_cell(h, w, k).0, zigzag_cell(h, w, k).1) == k,
        forall|r: int, c: int|
            in_grid(h, w, r, c) ==> 0 <= #[trigger] zigzag_rank(h, w, r, c) < h * w && zigzag_cell(
                h,
                w,
                zigzag_rank(h, w, r, c),
            ) == (r, c),
        forall|k1: int, k2: int|
            0 <= k1 < h * w && 0 <= k2 < h * w && k1 != k2 ==> #[trigger] zigzag_cell(h, w, k1)
                != #[trigger] zigzag_cell(h, w, k2),
{
    assert forall|k: int| 0 <= k < h * w implies in_grid(
        h,
        w,
        #[trigger] zigzag_cell(h, w, k).0,
        zigzag_cell(h, w, k).1,
    ) && zigzag_rank(h, w, zigzag_cell(h, w, k).0, zigzag_cell(h, w, k).1) == k by {
        lemma_cell_at(h, w, k);
    }
    assert forall|r: int, c: int| in_grid(h, w, r, c) implies 0 <= #[trigger] zigzag_rank(
        h,
        w,
        r,
        c,
    ) < h * w && zigzag_cell(h, w, zigzag_rank(h, w, r, c)) == (r, c) by {
        lemma_rank_bounds(h, w, r, c);
        lemma_cell_of_rank(h, w, r, c);
    }
    assert forall|k1: int, k2: int|
        0 <= k1 < h * w && 0 <= k2 < h * w && k1 != k2 implies #[trigger] zigzag_cell(h, w, k1)
        != #[trigger] zigzag_cell(h, w, k2) by {
        lemma_cell_at(h, w, k1);
        lemma_cell_at(h, w, k2);
    }
}

/// The walk starts at the top-left corner and ends at the bottom-right corner; from the
/// corner it first moves right, then down-left.
pub proof fn lemma_zigzag_order_ends(h: int, w: int)
    requires
        h >= 1,
        w >= 1,
    ensures
        zigzag_cell(h, w, 0) == (0int, 0int),
        zigzag_cell(h, w, h * w - 1) == (h - 1, w - 1),
        w >= 2 ==> zigzag_cell(h, w, 1) == (0int, 1int),
        h >= 2 && w >= 2 ==> zigzag_cell(h, w, 2) == (1int, 0int),
{
    lemma_cell_of_rank(h, w, 0, 0);
    lemma_cell_of_rank(h, w, h - 1, w - 1);
    crate::order::lemma_diag_start_total(h, w);
    assert(zigzag_rank(h, w, h - 1, w - 1) == h * w - 1);
    if w >= 2 {
        lemma_cell_of_rank(h, w, 0, 1);
        assert(crate::order::diag_start(h, w, 1) == 1);
        if h >= 2 {
            lemma_cell_of_rank(h, w, 1, 0);
        }
    }
}

/// The walk goes through the anti-diagonals `r + c` in increasing order; on an even
/// anti-diagonal it moves up and right (columns increase), on an odd one down and left
/// (rows increase).
pub proof fn lemma_zigzag_order_diagonals(h: int, w: int, k1: int, k2: int)
    requires
        h >= 0,
        w >= 0,
        0 <= k1 < k2 < h * w,
    ensures
        ({
            let (r1, c1) = zigzag_cell(h, w, k1);
            let (r2, c2) = zigzag_cell(h, w, k2);
            ||| r1 + c1 < r2 + c2
            ||| (r1 + c1 == r2 + c2 && (r1 + c1) % 2 == 0 && c1 < c2)
            ||| (r1 + c1 == r2 + c2 && (r1 + c1) % 2 == 1 && r1 < r2)
        }),
{
    lemma_cell_at(h, w, k1);
    lemma_cell_at(h, w, k2);
    let (r1, c1) = zigzag_cell(h, w, k1);
    let (r2, c2) = zigzag_cell(h, w, k2);
    lemma_rank_bounds(h, w, r1, c1);
    lemma_rank_bounds(h, w, r2, c2);
    if r1 + c1 > r2 + c2 {
        crate::order::lemma_diag_start_total(h, w);
        crate::order::lemma_diag_start_monotone(h, w, (r2 + c2) as nat, (r1 + c1) as nat);
    }
}

/// Each step of the walk moves to a neighbouring cell: row and column each change by at
/// most one, and the cell changes.
pub proof fn lemma_zigzag_order_steps_are_adjacent(h: int, w: int, k: int)
    requires
        h >= 0,
        w >= 0,
        0 <= k < k + 1 < h * w,
    ensures
        ({
            let (r1, c1) = zigzag_cell(h, w, k);
            let (r2, c2) = zigzag_cell(h, w, k + 1);
            &&& -1 <= r2 - r1 <= 1
            &&& -1 <= c2 - c1 <= 1
            &&& (r1, c1) != (r2, c2)
        }),
{
    lemma_cell_at(h, w, k);
    let (r1, c1) = zigzag_cell(h, w, k);
    crate::order::lemma_next_rank(h, w, r1, c1);
    let nx = crate::order::zigzag_next(h, w, r1, c1);
    lemma_cell_of_rank(h, w, nx.0, nx.1);
}

/// Entry `k` of the zigzag scan of a block is the matrix entry at the block's origin
/// plus the `k`-th cell of the walk over the block.
pub proof fn lemma_block_scan_entries<T>(g: Seq<Seq<T>>, ro: int, co: int, bh: int, bw: int)
    requires
        bh >= 0,
        bw >= 0,
        crate::grid::block_fits(g, ro, co, bh, bw),
    ensures
        zigzag_seq(sub_block(g, ro, co, bh, bw), bh, bw).len() == bh * bw,
        forall|k: int|
            0 <= k < bh * bw ==> #[trigger] zigzag_seq(sub_block(g, ro, co, bh, bw), bh, bw)[k]
                == g[ro + zigzag_cell(bh, bw, k).0][co + zigzag_cell(bh, bw, k).1],
{
    assert(bh * bw >= 0) by (nonlinear_arith)
        requires
            bh >= 0,
            bw >= 0,
    ;
    assert forall|k: int| 0 <= k < bh * bw implies #[trigger] zigzag_seq(
        sub_block(g, ro, co, bh, bw),
        bh,
        bw,
    )[k] == g[ro + zigzag_cell(bh, bw, k).0][co + zigzag_cell(bh, bw, k).1] by {
        lemma_cell_at(bh, bw, k);
        let (r, c) = zigzag_cell(bh, bw, k);
        assert(g[ro + r].len() >= co + bw);
    }
}

/// Rebuilding a square matrix from its zigzag scan gives back the matrix.
pub proof fn lemma_unzigzag_of_zigzag<T>(g: Seq<Seq<T>>, n: int)
    requires
        n >= 0,
        is_square(g, n),
    ensures
        unzigzag(zigzag_seq(g, n, n), n) == g,
{
    let back = unzigzag(zigzag_seq(g, n, n), n);
    assert forall|r: int| 0 <= r < n implies #[trigger] back[r] =~= g[r] by {
        assert forall|c: int| 0 <= c < n implies back[r][c] == g[r][c] by {
            lemma_rank_bounds(n, n, r, c);
            lemma_cell_of_rank(n, n, r, c);
        }
    }
    assert(back =~= g);
}

/// Scanning the matrix rebuilt from a sequence of `n * n` entries gives back the sequence.
pub proof fn lemma_zigzag_of_unzigzag<T>(flat: Seq<T>, n: int)
    requires
        n >= 0,
        flat.len() == n * n,
    ensures
        zigzag_seq(unzigzag(flat, n), n, n) == flat,
{
    let back = zigzag_seq(unzigzag(flat, n), n, n);
    assert forall|k: int| 0 <= k < n * n implies #[trigger] back[k] == flat[k] by {
        lemma_cell_at(n, n, k);
    }
    assert(back =~= flat);
}

/// Where cloning copies exactly, entry-by-entry clones are equal to their source.
pub proof fn lemma_exact_clones<T: Clone>(src: Seq<T>, dst: Seq<T>)
    requires
        clone_is_exact::<T>(),
        clones_of(src, dst),
    ensures
        dst == src,
{
    assert forall|i: int| 0 <= i < src.len() implies #[trigger] dst[i] == src[i] by {
        assert(cloned(src[i], dst[i]));
    }
    assert(dst =~= src);
}

/// Where cloning copies exactly, a matrix of clones is equal to its source.
pub proof fn lemma_exact_grid_clones<T: Clone>(src: Seq<Seq<T>>, dst: Seq<Seq<T>>)
    requires
        clone_is_exact::<T>(),
        grid_clones_of(src, dst),
    ensures
        dst == src,
{
    assert forall|i: int| 0 <= i < src.len() implies #[trigger] dst[i] == src[i] by {
        lemma_exact_clones(src[i], dst[i]);
    }
    assert(dst =~= src);
}

/// `inverse_zigzag(&zigzag_scan(m), n)` gives back `m`: for `scanned` as `zigzag_scan`
/// promises and `rebuilt` as `inverse_zigzag` promises, `rebuilt` is the matrix, where
/// cloning copies exactly.
pub proof fn lemma_scan_then_rebuild<T: Clone>(
    g: Seq<Seq<T>>,
    n: int,
    scanned: Seq<T>,
    rebuilt: Seq<Seq<T>>,
)
    requires
        n >= 0,
        is_square(g, n),
        clone_is_exact::<T>(),
        clones_of(zigzag_seq(g, n, n), scanned),
        grid_clones_of(unzigzag(scanned, n), rebuilt),
    ensures
        rebuilt == g,
{
    lemma_exact_clones(zigzag_seq(g, n, n), scanned);
    lemma_exact_grid_clones(unzigzag(scanned, n), rebuilt);
    lemma_unzigzag_of_zigzag(g, n);
}

/// `zigzag_scan(&inverse_zigzag(flat, n))` gives back `flat`, where cloning copies
/// exactly.
pub proof fn lemma_rebuild_then_scan<T: Clone>(
    flat: Seq<T>,
    n: int,
    rebuilt: Seq<Seq<T>>,
    scanned: Seq<T>,
)
    requires
        n >= 0,
        flat.len() == n * n,
        clone_is_exact::<T>(),
        grid_clones_of(unzigzag(flat, n), rebuilt),
        clones_of(zigzag_seq(rebuilt, n, n), scanned),
    ensures
        scanned == flat,
{
    lemma_exact_grid_clones(unzigzag(flat, n), rebuilt);
    lemma_exact_clones(zigzag_seq(rebuilt, n, n), scanned);
    lemma_zigzag_of_unzigzag(flat, n);
}

/// Writing a block with `inverse_block_zigzag` and scanning the same block with
/// `block_zigzag` gives back the written sequence, where cloning copies exactly.
pub proof fn lemma_place_then_scan_block<T: Clone>(
    flat: Seq<T>,
    dest: Seq<Seq<T>>,
    ro: int,
    co: int,
    bs: int,
    scanned: Seq<T>,
)
    requires
        bs >= 0,
        flat.len() == bs * bs,
        clone_is_exact::<T>(),
        grid_clones_of(unzigzag(flat, bs), sub_block(dest, ro, co, bs, bs)),
        clones_of(zigzag_seq(sub_block(dest, ro, co, bs, bs), bs, bs), scanned),
    ensures
        scanned == flat,
{
    lemma_rebuild_then_scan(flat, bs, sub_block(dest, ro, co, bs, bs), scanned);
}

/// Entry `k` of `zigzag_scan(m)` is a clone of `m[r][c]`, where `(r, c)` is entry `k`
/// of `zigzag_indices(n)`.
pub proof fn lemma_scan_follows_indices<T: Clone>(
    g: Seq<Seq<T>>,
    n: int,
    indices: Seq<(usize, usize)>,
    scanned: Seq<T>,
)
    requires
        n >= 0,
        indices.len() == n * n,
        forall|k: int|
            0 <= k < n * n ==> {
                &&& in_grid(n, n, #[trigger] indices[k].0 as int, indices[k].1 as int)
                &&& zigzag_rank(n, n, indices[k].0 as int, indices[k].1 as int) == k
            },
        clones_of(zigzag_seq(g, n, n), scanned),
    ensures
        forall|k: int|
            0 <= k < n * n ==> cloned(
                g[indices[k].0 as int][indices[k].1 as int],
                #[trigger] scanned[k],
            ),
{
    assert forall|k: int| 0 <= k < n * n implies cloned(
        g[indices[k].0 as int][indices[k].1 as int],
        #[trigger] scanned[k],
    ) by {
        assert(in_grid(n, n, indices[k].0 as int, indices[k].1 as int));
        lemma_cell_of_rank(n, n, indices[k].0 as int, indices[k].1 as int);
    }
}

/// A matrix no larger than one block is a single block: scanning it block by block is
/// scanning it whole.
pub proof fn lemma_one_block_scan<T>(g: Seq<Seq<T>>, h: int, w: int, bs: int)
    requires
        h >= 1,
        w >= 1,
        bs >= h,
        bs >= w,
        g.len() == h,
        forall|i: int| 0 <= i < h ==> #[trigger] g[i].len() == w,
    ensures
        full_block_scan_rect(g, w, bs) == zigzag_seq(g, h, w),
{
    assert(sub_block(g, 0, 0, h, w) =~= g) by {
        assert forall|i: int| 0 <= i < h implies #[trigger] sub_block(g, 0, 0, h, w)[i] =~= g[i] by {
            assert(g[i].len() == w);
        }
    }
    let piece = zigzag_seq(g, h, w);
    assert(band_blocks_scan(g, bs, 0, h, w, w) =~= Seq::<T>::empty());
    assert(band_blocks_scan(g, bs, 0, h, 0, w) =~= piece);
    assert(bands_scan(g, w, bs, h) =~= Seq::<T>::empty());
    assert(bands_scan(g, w, bs, 0) =~= piece);
}

/// The zigzag scan of the `bs`-by-`bs` block in block row `br` and block column `bc` of `g`.
pub open spec fn block_scan_at<T>(g: Seq<Seq<T>>, bs: int, br: int, bc: int) -> Seq<T> {
    zigzag_seq(sub_block(g, br * bs, bc * bs, bs, bs), bs, bs)
}

/// The scans of the `nc` blocks of block row `br`, left to right, concatenated.
pub open spec fn block_row_scan<T>(g: Seq<Seq<T>>, bs: int, br: int, nc: int) -> Seq<T> {
    Seq::new(nc as nat, |bc: int| block_scan_at(g, bs, br, bc)).flatten()
}

/// Along a block row whose width is a whole number `nc` of blocks, the scan from block
/// column `bc` on is the scans of blocks `bc .. nc` concatenated.
proof fn lemma_band_blocks_even<T>(g: Seq<Seq<T>>, bs: int, br: int, bc: int, nc: int, cols: int)
    requires
        bs >= 1,
        0 <= bc <= nc,
        cols == nc * bs,
    ensures
        band_blocks_scan(g, bs, br * bs, bs, bc * bs, cols) == Seq::new(
            (nc - bc) as nat,
            |t: int| block_scan_at(g, bs, br, bc + t),
        ).flatten(),
    decreases nc - bc,
{
    let parts = Seq::new((nc - bc) as nat, |t: int| block_scan_at(g, bs, br, bc + t));
    if bc == nc {
        assert(bc * bs == cols);
        assert(parts.len() == 0);
    } else {
        let c = bc * bs;
        assert(c + bs <= cols && (bc + 1) * bs == c + bs) by (nonlinear_arith)
            requires
                bs >= 1,
                bc < nc,
                c == bc * bs,
                cols == nc * bs,
        ;
        lemma_band_blocks_even(g, bs, br, bc + 1, nc, cols);
        let rest = Seq::new((nc - (bc + 1)) as nat, |t: int| block_scan_at(g, bs, br, bc + 1 + t));
        assert(parts.drop_first() =~= rest);
        assert(parts.first() == block_scan_at(g, bs, br, bc));
        assert(band_blocks_scan(g, bs, br * bs, bs, c, cols) == block_scan_at(g, bs, br, bc)
            + band_blocks_scan(g, bs, br * bs, bs, c + bs, cols));
    }
}

/// With a whole number `nr` of block rows, the scan from block row `br` on is the scans
/// of block rows `br .. nr` concatenated.
proof fn lemma_bands_even<T>(g: Seq<Seq<T>>, bs: int, br: int, nr: int, nc: int, cols: int)
    requires
        bs >= 1,
        0 <= br <= nr,
        g.len() == nr * bs,
        nc >= 0,
        cols == nc * bs,
    ensures
        bands_scan(g, cols, bs, br * bs) == Seq::new(
            (nr - br) as nat,
            |t: int| block_row_scan(g, bs, br + t, nc),
        ).flatten(),
    decreases nr - br,
{
    let parts = Seq::new((nr - br) as nat, |t: int| block_row_scan(g, bs, br + t, nc));
    if br == nr {
        assert(parts.len() == 0);
    } else {
        let r = br * bs;
        assert(r + bs <= g.len() && (br + 1) * bs == r + bs) by (nonlinear_arith)
            requires
                bs >= 1,
                br < nr,
                r == br * bs,
                g.len() == nr * bs,
        ;
        lemma_bands_even(g, bs, br + 1, nr, nc, cols);
        lemma_band_blocks_even(g, bs, br, 0, nc, cols);
        assert(Seq::new((nc - 0) as nat, |t: int| block_scan_at(g, bs, br, 0 + t)) =~= Seq::new(
            nc as nat,
            |bc: int| block_scan_at(g, bs, br, bc),
        ));
        let rest = Seq::new((nr - (br + 1)) as nat, |t: int| block_row_scan(g, bs, br + 1 + t, nc));
        assert(parts.drop_first() =~= rest);
        assert(bands_scan(g, cols, bs, r) == band_blocks_scan(g, bs, r, bs, 0, cols) + bands_scan(
            g,
            cols,
            bs,
            r + bs,
        ));
    }
}

/// Where the block size divides both sides, scanning block by block is the zigzag scans
/// of the `bs`-by-`bs` blocks concatenated, block rows top to bottom and blocks left to
/// right; these are the blocks that `block_zigzag` scans.
pub proof fn lemma_full_block_scan_even<T>(g: Seq<Seq<T>>, cols: int, bs: int)
    requires
        bs >= 1,
        cols >= 0,
        g.len() as int % bs == 0,
        cols % bs == 0,
    ensures
        full_block_scan_rect(g, cols, bs) == Seq::new(
            (g.len() as int / bs) as nat,
            |br: int| block_row_scan(g, bs, br, cols / bs),
        ).flatten(),
{
    let nr = g.len() as int / bs;
    let nc = cols / bs;
    vstd::arithmetic::div_mod::lemma_fundamental_div_mod(g.len() as int, bs);
    vstd::arithmetic::div_mod::lemma_fundamental_div_mod(cols, bs);
    assert(nr >= 0 && nc >= 0 && g.len() == nr * bs && cols == nc * bs) by (nonlinear_arith)
        requires
            bs >= 1,
            g.len() >= 0,
            cols >= 0,
            g.len() == bs * nr,
            cols == bs * nc,
    ;
    lemma_bands_even(g, bs, 0, nr, nc, cols);
    assert(Seq::new((nr - 0) as nat, |t: int| block_row_scan(g, bs, 0 + t, nc)) =~= Seq::new(
        nr as nat,
        |br: int| block_row_scan(g, bs, br, nc),
    ));
}

/// Block `i` of size `bs` starts inside a side of length `len` exactly when `i` is below
/// the number of blocks.
proof fn lemma_num_blocks(len: int, bs: int, i: int)
    requires
        bs >= 1,
        len >= 0,
        i >= 0,
    ensures
        num_blocks(len, bs) >= 0,
        (i < num_blocks(len, bs)) == (i * bs < len),
        (i + 1) * bs == i * bs + bs,
{
    let q = num_blocks(len, bs);
    vstd::arithmetic::div_mod::lemma_fundamental_div_mod(len + bs - 1, bs);
    let m = (len + bs - 1) % bs;
    assert(0 <= m < bs);
    assert(q >= 0 && (i < q) == (i * bs < len) && (i + 1) * bs == i * bs + bs) by (nonlinear_arith)
        requires
            bs >= 1,
            len >= 0,
            i >= 0,
            len + bs - 1 == bs * q + m,
            0 <= m < bs,
    ;
}

/// Along a block row of height `bh`, the scan from block column `bc` on is the scans of
/// the remaining blocks, the last one possibly narrower, concatenated.
proof fn lemma_band_blocks_rect<T>(
    g: Seq<Seq<T>>,
    rows: int,
    cols: int,
    bs: int,
    br: int,
    bc: int,
)
    requires
        bs >= 1,
        cols >= 0,
        0 <= bc <= num_blocks(cols, bs),
    ensures
        band_blocks_scan(g, bs, br * bs, block_extent(rows, bs, br), bc * bs, cols) == Seq::new(
            (num_blocks(cols, bs) - bc) as nat,
            |t: int| edge_block_scan_at(g, rows, cols, bs, br, bc + t),
        ).flatten(),
    decreases num_blocks(cols, bs) - bc,
{
    let nc = num_blocks(cols, bs);
    let bh = block_extent(rows, bs, br);
    let parts = Seq::new((nc - bc) as nat, |t: int| edge_block_scan_at(g, rows, cols, bs, br, bc + t));
    lemma_num_blocks(cols, bs, bc);
    if bc == nc {
        assert(parts.len() == 0);
    } else {
        let c = bc * bs;
        lemma_band_blocks_rect(g, rows, cols, bs, br, bc + 1);
        let next = next_start(cols, c, bs);
        assert(next - c == block_extent(cols, bs, bc));
        assert(band_blocks_scan(g, bs, br * bs, bh, next, cols) == band_blocks_scan(
            g,
            bs,
            br * bs,
            bh,
            (bc + 1) * bs,
            cols,
        ));
        let rest = Seq::new(
            (nc - (bc + 1)) as nat,
            |t: int| edge_block_scan_at(g, rows, cols, bs, br, bc + 1 + t),
        );
        assert(parts.drop_first() =~= rest);
        assert(parts.first() == edge_block_scan_at(g, rows, cols, bs, br, bc));
        assert(band_blocks_scan(g, bs, br * bs, bh, c, cols) == edge_block_scan_at(
            g,
            rows,
            cols,
            bs,
            br,
            bc,
        ) + band_blocks_scan(g, bs, br * bs, bh, next, cols));
    }
}

/// From block row `br` on, the scan is the scans of the remaining block rows, the last
/// one possibly lower, concatenated.
proof fn lemma_bands_rect<T>(g: Seq<Seq<T>>, cols: int, bs: int, br: int)
    requires
        bs >= 1,
        cols >= 0,
        0 <= br <= num_blocks(g.len() as int, bs),
    ensures
        bands_scan(g, cols, bs, br * bs) == Seq::new(
            (num_blocks(g.len() as int, bs) - br) as nat,
            |t: int| edge_block_row_scan(g, g.len() as int, cols, bs, br + t),
        ).flatten(),
    decreases num_blocks(g.len() as int, bs) - br,
{
    let rows = g.len() as int;
    let nr = num_blocks(rows, bs);
    let parts = Seq::new((nr - br) as nat, |t: int| edge_block_row_scan(g, rows, cols, bs, br + t));
    lemma_num_blocks(rows, bs, br);
    if br == nr {
        assert(parts.len() == 0);
    } else {
        let r = br * bs;
        lemma_bands_rect(g, cols, bs, br + 1);
        let next = next_start(rows, r, bs);
        assert(next - r == block_extent(rows, bs, br));
        assert(bands_scan(g, cols, bs, next) == bands_scan(g, cols, bs, (br + 1) * bs));
        lemma_band_blocks_rect(g, rows, cols, bs, br, 0);
        assert(Seq::new(
            (num_blocks(cols, bs) - 0) as nat,
            |t: int| edge_block_scan_at(g, rows, cols, bs, br, 0 + t),
        ) =~= Seq::new(
            num_blocks(cols, bs) as nat,
            |bc: int| edge_block_scan_at(g, rows, cols, bs, br, bc),
        ));
        assert(band_blocks_scan(g, bs, r, block_extent(rows, bs, br), 0 * bs, cols)
            == edge_block_row_scan(g, rows, cols, bs, br));
        let rest = Seq::new(
            (nr - (br + 1)) as nat,
            |t: int| edge_block_row_scan(g, rows, cols, bs, br + 1 + t),
        );
        assert(parts.drop_first() =~= rest);
        assert(bands_scan(g, cols, bs, r) == band_blocks_scan(
            g,
            bs,
            r,
            next - r,
            0,
            cols,
        ) + bands_scan(g, cols, bs, next));
    }
}

/// For every block size and every matrix, scanning block by block is the zigzag scans of
/// the blocks concatenated, block rows top to bottom and blocks left to right. Blocks are
/// `bs`-by-`bs`, except along the right and bottom edges, where the blocks are the
/// smaller rectangles that are left over; each block, square or not, is scanned in zigzag
/// order over its own height and width.
pub proof fn lemma_full_block_scan_blocks<T>(g: Seq<Seq<T>>, cols: int, bs: int)
    requires
        bs >= 1,
        cols >= 0,
    ensures
        full_block_scan_rect(g, cols, bs) == Seq::new(
            num_blocks(g.len() as int, bs) as nat,
            |br: int| edge_block_row_scan(g, g.len() as int, cols, bs, br),
        ).flatten(),
{
    let rows = g.len() as int;
    lemma_num_blocks(rows, bs, 0);
    lemma_bands_rect(g, cols, bs, 0);
    assert(Seq::new(
        (num_blocks(rows, bs) - 0) as nat,
        |t: int| edge_block_row_scan(g, rows, cols, bs, 0 + t),
    ) =~= Seq::new(
        num_blocks(rows, bs) as nat,
        |br: int| edge_block_row_scan(g, rows, cols, bs, br),
    ));
}

/// The whole pipeline gives back the matrix: scanning a square matrix, run-length
/// encoding the scan, decoding the pairs and rebuilding the matrix from the decoded
/// sequence, each step as its function promises, ends at the starting matrix, where
/// cloning copies exactly and `==` is equality.
pub proof fn lemma_pipeline_roundtrip<T: Clone + PartialEq>(
    g: Seq<Seq<T>>,
    n: int,
    scanned: Seq<T>,
    pairs: Seq<RLEPair<T>>,
    decoded: Seq<T>,
    rebuilt: Seq<Seq<T>>,
)
    requires
        n >= 0,
        is_square(g, n),
        clone_is_exact::<T>(),
        obeys_concrete_eq::<T>(),
        clones_of(zigzag_seq(g, n, n), scanned),
        is_rle_of(scanned, pairs),
        clones_of(rle_expand(pairs), decoded),
        grid_clones_of(unzigzag(decoded, n), rebuilt),
    ensures
        decoded == scanned,
        rebuilt == g,
{
    lemma_rle_roundtrip(scanned, pairs, decoded);
    lemma_scan_then_rebuild(g, n, scanned, rebuilt);
}

/// In an encoding, each entry of a run equals the run's value, where cloning copies
/// exactly and `==` is equality.
proof fn lemma_run_entries<T: Clone + PartialEq>(data: Seq<T>, pairs: Seq<RLEPair<T>>, j: int, k: int)
    requires
        is_rle_of(data, pairs),
        clone_is_exact::<T>(),
        obeys_concrete_eq::<T>(),
        0 <= j < pairs.len(),
        rle_offset(pairs, j) <= k < rle_offset(pairs, j + 1),
    ensures
        data[k] == pairs[j].value,
        k < data.len(),
{
    reveal(obeys_concrete_eq);
    lemma_run_facts(data, pairs, j);
    if k > rle_offset(pairs, j) {
        assert(data[k].eq_spec(&pairs[j].value));
    }
}

/// In an encoding, a new run starts exactly where an entry differs from the one before,
/// where cloning copies exactly and `==` is equality.
proof fn lemma_run_starts<T: Clone + PartialEq>(data: Seq<T>, pairs: Seq<RLEPair<T>>, j: int)
    requires
        is_rle_of(data, pairs),
        clone_is_exact::<T>(),
        obeys_concrete_eq::<T>(),
        0 < j < pairs.len(),
    ensures
        data[rle_offset(pairs, j)] != data[rle_offset(pairs, j) - 1],
{
    reveal(obeys_concrete_eq);
    lemma_run_facts(data, pairs, j);
    lemma_run_facts(data, pairs, j - 1);
    lemma_run_entries(data, pairs, j - 1, rle_offset(pairs, j) - 1);
    assert(!data[rle_offset(pairs, j)].eq_spec(&pairs[j - 1].value));
}

/// Decoding the run-length encoding of `data` gives back `data`: the expansion of an
/// encoding is the encoded sequence, where cloning copies exactly and `==` is equality.
pub proof fn lemma_rle_expand_of_encoding<T: Clone + PartialEq>(
    data: Seq<T>,
    pairs: Seq<RLEPair<T>>,
)
    requires
        is_rle_of(data, pairs),
        clone_is_exact::<T>(),
        obeys_concrete_eq::<T>(),
    ensures
        rle_expand(pairs) == data,
{
    lemma_expand_len(pairs);
    let e = rle_expand(pairs);
    assert forall|k: int| 0 <= k < data.len() implies #[trigger] e[k] == data[k] by {
        let j = lemma_find_run(pairs, k, pairs.len() as int);
        lemma_run_entries(data, pairs, j, k);
        lemma_expand_index(pairs, j, k - rle_offset(pairs, j));
    }
    assert(e =~= data);
}

/// `rle_decode(&rle_encode(data))` gives back `data`: for `pairs` as `rle_encode`
/// promises and `decoded` as `rle_decode` promises, `decoded` is `data`, where cloning
/// copies exactly and `==` is equality.
pub proof fn lemma_rle_roundtrip<T: Clone + PartialEq>(
    data: Seq<T>,
    pairs: Seq<RLEPair<T>>,
    decoded: Seq<T>,
)
    requires
        is_rle_of(data, pairs),
        clones_of(rle_expand(pairs), decoded),
        clone_is_exact::<T>(),
        obeys_concrete_eq::<T>(),
    ensures
        decoded == data,
{
    lemma_rle_expand_of_encoding(data, pairs);
    lemma_exact_clones(rle_expand(pairs), decoded);
}

/// An encoding never has more pairs than the sequence has entries, and, where cloning
/// copies exactly and `==` is equality, it is canonical.
pub proof fn lemma_rle_encoding_is_canonical<T: Clone + PartialEq>(
    data: Seq<T>,
    pairs: Seq<RLEPair<T>>,
)
    requires
        is_rle_of(data, pairs),
    ensures
        pairs.len() <= data.len(),
        clone_is_exact::<T>() && obeys_concrete_eq::<T>() ==> is_canonical_rle(pairs),
{
    lemma_offset_monotone(pairs, 0, pairs.len() as int);
    if clone_is_exact::<T>() && obeys_concrete_eq::<T>() {
        assert forall|j: int| 0 < j < pairs.len() implies (#[trigger] pairs[j]).value != pairs[j
            - 1].value by {
            lemma_run_facts(data, pairs, j);
            lemma_run_facts(data, pairs, j - 1);
            lemma_run_entries(data, pairs, j, rle_offset(pairs, j));
            lemma_run_entries(data, pairs, j - 1, rle_offset(pairs, j) - 1);
            lemma_run_starts(data, pairs, j);
        }
    }
}

/// A canonical list of pairs is the encoding of its own expansion, where `==` is equality.
pub proof fn lemma_canonical_encodes_expansion<T: Clone + PartialEq>(pairs: Seq<RLEPair<T>>)
    requires
        is_canonical_rle(pairs),
        obeys_concrete_eq::<T>(),
    ensures
        is_rle_of(rle_expand(pairs), pairs),
{
    reveal(obeys_concrete_eq);
    let e = rle_expand(pairs);
    lemma_expand_len(pairs);
    assert forall|j: int| 0 <= j < pairs.len() implies (#[trigger] pairs[j]).count >= 1 && cloned(
        e[rle_offset(pairs, j)],
        pairs[j].value,
    ) by {
        lemma_expand_index(pairs, j, 0);
    }
    assert forall|j: int, k: int|
        #![trigger pairs[j], e[k]]
        0 <= j < pairs.len() && rle_offset(pairs, j) < k < rle_offset(pairs, j + 1) implies e[k].eq_spec(
        &pairs[j].value,
    ) by {
        lemma_expand_index(pairs, j, k - rle_offset(pairs, j));
    }
    assert forall|j: int|
        0 < j < pairs.len() implies !e[rle_offset(pairs, j)].eq_spec(
        &(#[trigger] pairs[j - 1]).value,
    ) by {
        lemma_expand_index(pairs, j, 0);
        assert(pairs[j].value != pairs[j - 1].value);
    }
}

/// Two encodings of the same sequence start their runs at the same places.
proof fn lemma_encodings_share_offsets<T: Clone + PartialEq>(
    data: Seq<T>,
    p: Seq<RLEPair<T>>,
    q: Seq<RLEPair<T>>,
    j: int,
)
    requires
        is_rle_of(data, p),
        is_rle_of(data, q),
        clone_is_exact::<T>(),
        obeys_concrete_eq::<T>(),
        0 <= j <= p.len(),
        j <= q.len(),
    ensures
        rle_offset(p, j) == rle_offset(q, j),
    decreases j,
{
    if j > 0 {
        lemma_encodings_share_offsets(data, p, q, j - 1);
        lemma_run_facts(data, p, j - 1);
        lemma_run_facts(data, q, j - 1);
        let a = rle_offset(p, j);
        let b = rle_offset(q, j);
        if a < b {
            if j == p.len() {
                assert(a == data.len());
            }
            lemma_run_starts(data, p, j);
            lemma_run_entries(data, q, j - 1, a);
            lemma_run_entries(data, q, j - 1, a - 1);
        } else if b < a {
            if j == q.len() {
                assert(b == data.len());
            }
            lemma_run_starts(data, q, j);
            lemma_run_entries(data, p, j - 1, b);
            lemma_run_entries(data, p, j - 1, b - 1);
        }
    }
}

/// A sequence has only one encoding, where cloning copies exactly and `==` is equality.
pub proof fn lemma_rle_encoding_unique<T: Clone + PartialEq>(
    data: Seq<T>,
    p: Seq<RLEPair<T>>,
    q: Seq<RLEPair<T>>,
)
    requires
        is_rle_of(data, p),
        is_rle_of(data, q),
        clone_is_exact::<T>(),
        obeys_concrete_eq::<T>(),
    ensures
        p == q,
{
    if p.len() < q.len() {
        lemma_encodings_share_offsets(data, p, q, p.len() as int);
        lemma_run_facts(data, q, p.len() as int);
    } else if q.len() < p.len() {
        lemma_encodings_share_offsets(data, p, q, q.len() as int);
        lemma_run_facts(data, p, q.len() as int);
    }
    assert forall|j: int| 0 <= j < p.len() implies #[trigger] p[j] == q[j] by {
        lemma_encodings_share_offsets(data, p, q, j);
        lemma_encodings_share_offsets(data, p, q, j + 1);
        lemma_run_facts(data, p, j);
        lemma_run_facts(data, q, j);
    }
    assert(p =~= q);
}

/// `rle_encode(&rle_decode(pairs))` gives back `pairs` when `pairs` is canonical: for
/// `decoded` as `rle_decode` promises and `encoded` as `rle_encode` promises on it,
/// `encoded` is `pairs`, where cloning copies exactly and `==` is equality.
pub proof fn lemma_rle_decode_then_encode<T: Clone + PartialEq>(
    pairs: Seq<RLEPair<T>>,
    decoded: Seq<T>,
    encoded: Seq<RLEPair<T>>,
)
    requires
        is_canonical_rle(pairs),
        clones_of(rle_expand(pairs), decoded),
        is_rle_of(decoded, encoded),
        clone_is_exact::<T>(),
        obeys_concrete_eq::<T>(),
    ensures
        encoded == pairs,
{
    lemma_exact_clones(rle_expand(pairs), decoded);
    lemma_canonical_encodes_expansion(pairs);
    lemma_rle_encoding_unique(decoded, encoded, pairs);
}

/// A non-empty sequence whose entries are all equal encodes to a single pair, where
/// cloning copies exactly and `==` is equality.
pub proof fn lemma_rle_constant<T: Clone + PartialEq>(data: Seq<T>, pairs: Seq<RLEPair<T>>)
    requires
        is_rle_of(data, pairs),
        clone_is_exact::<T>(),
        obeys_concrete_eq::<T>(),
        data.len() >= 1,
        forall|i: int| 0 <= i < data.len() ==> #[trigger] data[i] == data[0],
    ensures
        pairs.len() == 1,
        pairs[0].value == data[0],
        pairs[0].count == data.len(),
{
    if pairs.len() == 0 {
        assert(rle_total(pairs) == 0);
    }
    if pairs.len() > 1 {
        lemma_run_facts(data, pairs, 1);
        lemma_run_facts(data, pairs, 0);
        lemma_run_starts(data, pairs, 1);
    }
    lemma_run_facts(data, pairs, 0);
    lemma_run_entries(data, pairs, 0, 0);
    assert(rle_offset(pairs, 0) == 0);
}

/// A sequence with no two equal neighbours encodes to one pair per entry, where cloning
/// copies exactly and `==` is equality.
pub proof fn lemma_rle_no_repeats<T: Clone + PartialEq>(data: Seq<T>, pairs: Seq<RLEPair<T>>)
    requires
        is_rle_of(data, pairs),
        clone_is_exact::<T>(),
        obeys_concrete_eq::<T>(),
        forall|i: int| 0 < i < data.len() ==> #[trigger] data[i] != data[i - 1],
    ensures
        pairs.len() == data.len(),
        forall|j: int| 0 <= j < pairs.len() ==> (#[trigger] pairs[j]).count == 1,
{
    assert forall|j: int| 0 <= j < pairs.len() implies (#[trigger] pairs[j]).count == 1 by {
        lemma_run_facts(data, pairs, j);
        let s = rle_offset(pairs, j);
        if pairs[j].count > 1 {
            lemma_run_entries(data, pairs, j, s);
            lemma_run_entries(data, pairs, j, s + 1);
            assert(data[s + 1] != data[s]);
        }
    }
    lemma_offset_exact_count(pairs, pairs.len() as int);
}

/// With every count 1, run `j` starts at `j`.
proof fn lemma_offset_exact_count<T>(pairs: Seq<RLEPair<T>>, j: int)
    requires
        0 <= j <= pairs.len(),
        forall|t: int| 0 <= t < pairs.len() ==> (#[trigger] pairs[t]).count == 1,
    ensures
        rle_offset(pairs, j) == j,
    decreases j,
{
    if j > 0 {
        lemma_offset_exact_count(pairs, j - 1);
        assert(pairs[j - 1].count == 1);
    }
}

/// Decoding the run-length encoding of `data` gives back `data` entry by entry up to
/// `==`, where `==` is an equivalence relation (reflexive, symmetric, transitive) and
/// cloning copies exactly.
pub proof fn lemma_rle_roundtrip_equiv<T: Clone + PartialEq>(
    data: Seq<T>,
    pairs: Seq<RLEPair<T>>,
    decoded: Seq<T>,
)
    requires
        is_rle_of(data, pairs),
        clones_of(rle_expand(pairs), decoded),
        clone_is_exact::<T>(),
        obeys_eq::<T>(),
        forall|x: T| #[trigger] x.eq_spec(&x),
    ensures
        decoded.len() == data.len(),
        forall|i: int| 0 <= i < data.len() ==> #[trigger] decoded[i].eq_spec(&data[i]),
{
    lemma_exact_clones(rle_expand(pairs), decoded);
    lemma_expand_len(pairs);
    assert forall|i: int| 0 <= i < data.len() implies #[trigger] decoded[i].eq_spec(&data[i]) by {
        let j = lemma_find_run(pairs, i, pairs.len() as int);
        lemma_run_facts(data, pairs, j);
        lemma_expand_index(pairs, j, i - rle_offset(pairs, j));
        assert(decoded[i] == pairs[j].value);
        assert(pairs[j].value == data[rle_offset(pairs, j)]);
        let v = pairs[j].value;
        if i > rle_offset(pairs, j) {
            assert(data[i].eq_spec(&v));
            assert(v.eq_spec(&data[i])) by {
                reveal(obeys_eq_spec_properties);
            }
        } else {
            assert(v.eq_spec(&v));
        }
    }
}

/// The expansion of a concatenation of pair lists is the concatenation of their
/// expansions, and the empty list expands to nothing.
pub proof fn lemma_rle_expand_concat<T>(p: Seq<RLEPair<T>>, q: Seq<RLEPair<T>>)
    ensures
        rle_expand(p + q) == rle_expand(p) + rle_expand(q),
        rle_expand(Seq::<RLEPair<T>>::empty()) == Seq::<T>::empty(),
    decreases q.len(),
{
    if q.len() == 0 {
        assert(p + q =~= p);
        assert(rle_expand(p) + rle_expand(q) =~= rle_expand(p));
    } else {
        let init = q.drop_last();
        lemma_rle_expand_concat(p, init);
        assert((p + q).drop_last() =~= p + init);
        assert((p + q).last() == q.last());
        let tail = Seq::new(q.last().count as nat, |t: int| q.last().value);
        assert(rle_expand(p) + rle_expand(init) + tail =~= rle_expand(p) + (rle_expand(init)
            + tail));
    }
}

/// `rle_decode(&(p ++ q))` is `rle_decode(&p) ++ rle_decode(&q)`, and decoding no pairs
/// gives nothing, where cloning copies exactly: for `dp`, `dq` and `dpq` as `rle_decode`
/// promises for `p`, `q` and `p + q`.
pub proof fn lemma_rle_decode_concat<T: Clone>(
    p: Seq<RLEPair<T>>,
    q: Seq<RLEPair<T>>,
    dp: Seq<T>,
    dq: Seq<T>,
    dpq: Seq<T>,
)
    requires
        clone_is_exact::<T>(),
        clones_of(rle_expand(p), dp),
        clones_of(rle_expand(q), dq),
        clones_of(rle_expand(p + q), dpq),
    ensures
        dpq == dp + dq,
        p.len() == 0 ==> dp.len() == 0,
{
    lemma_rle_expand_concat(p, q);
    lemma_exact_clones(rle_expand(p), dp);
    lemma_exact_clones(rle_expand(q), dq);
    lemma_exact_clones(rle_expand(p + q), dpq);
    if p.len() == 0 {
        assert(p =~= Seq::<RLEPair<T>>::empty());
    }
}

} // verus!
