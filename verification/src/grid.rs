//! The mathematical model of matrices and of the zigzag scan of their blocks.
use vstd::prelude::*;

use crate::order::{zigzag_cell, zigzag_rank};

verus! {

/// A matrix stored as rows, seen as a sequence of row sequences.
pub open spec fn grid_view<T>(rows: Seq<Vec<T>>) -> Seq<Seq<T>> {
    rows.map_values(|row: Vec<T>| row@)
}

/// `g` has `n` rows of `n` entries each.
pub open spec fn is_square<T>(g: Seq<Seq<T>>, n: int) -> bool {
    &&& g.len() == n
    &&& forall|i: int| 0 <= i < n ==> #[trigger] g[i].len() == n
}

/// Rows `ro .. ro + bh` of `g` exist and each reaches at least column `co + bw`.
pub open spec fn block_fits<T>(g: Seq<Seq<T>>, ro: int, co: int, bh: int, bw: int) -> bool {
    &&& 0 <= ro
    &&& 0 <= co
    &&& forall|i: int|
        #![trigger g[i]]
        ro <= i < ro + bh ==> i < g.len() && co + bw <= g[i].len()
}

/// The `bh`-by-`bw` block of `g` whose top-left entry is `g[ro][co]`.
pub open spec fn sub_block<T>(g: Seq<Seq<T>>, ro: int, co: int, bh: int, bw: int) -> Seq<Seq<T>> {
    Seq::new(bh as nat, |i: int| g[ro + i].subrange(co, co + bw))
}

/// The entries of the `h`-by-`w` matrix `g` in zigzag order.
pub open spec fn zigzag_seq<T>(g: Seq<Seq<T>>, h: int, w: int) -> Seq<T> {
    Seq::new((h * w) as nat, |k: int| g[zigzag_cell(h, w, k).0][zigzag_cell(h, w, k).1])
}

/// The `n`-by-`n` matrix whose zigzag order is `flat`.
pub open spec fn unzigzag<T>(flat: Seq<T>, n: int) -> Seq<Seq<T>> {
    Seq::new(n as nat, |r: int| Seq::new(n as nat, |c: int| flat[zigzag_rank(n, n, r, c)]))
}

/// `g` with the block `b` written over it, top-left entry at `(ro, co)`.
pub open spec fn place_block<T>(g: Seq<Seq<T>>, b: Seq<Seq<T>>, ro: int, co: int) -> Seq<Seq<T>> {
    Seq::new(
        g.len(),
        |i: int|
            if ro <= i < ro + b.len() {
                Seq::new(
                    g[i].len(),
                    |j: int|
                        if co <= j < co + b.len() {
                            b[i - ro][j - co]
                        } else {
                            g[i][j]
                        },
                )
            } else {
                g[i]
            },
    )
}

/// `dst` is `src` with every entry replaced by a clone of it.
pub open spec fn clones_of<T: Clone>(src: Seq<T>, dst: Seq<T>) -> bool {
    &&& src.len() == dst.len()
    &&& forall|i: int| 0 <= i < src.len() ==> cloned(src[i], #[trigger] dst[i])
}

/// `dst` is the matrix `src` with every entry replaced by a clone of it.
pub open spec fn grid_clones_of<T: Clone>(src: Seq<Seq<T>>, dst: Seq<Seq<T>>) -> bool {
    &&& src.len() == dst.len()
    &&& forall|i: int| 0 <= i < src.len() ==> clones_of(src[i], #[trigger] dst[i])
}

/// The length of the first row of `g`, or 0 when `g` has no rows.
pub open spec fn first_row_len<T>(g: Seq<Seq<T>>) -> int {
    if g.len() > 0 {
        g[0].len() as int
    } else {
        0
    }
}

/// Where the next block starts along a side of length `len`, after the block that starts
/// at `pos`: `bs` further on, or at the end of the side for the last, smaller block.
pub open spec fn next_start(len: int, pos: int, bs: int) -> int {
    if bs < len - pos {
        pos + bs
    } else {
        len
    }
}

/// The zigzag scans of the blocks of the block row of `g` that starts at row `r` and is
/// `bh` rows high, from column `c` on, left to right. Blocks are `bs` wide, except the
/// last one, which ends at column `cols`.
pub open spec fn band_blocks_scan<T>(g: Seq<Seq<T>>, bs: int, r: int, bh: int, c: int, cols: int) -> Seq<T>
    decreases cols - c,
{
    if c >= cols || bs <= 0 {
        Seq::empty()
    } else {
        let bw = next_start(cols, c, bs) - c;
        zigzag_seq(sub_block(g, r, c, bh, bw), bh, bw) + band_blocks_scan(
            g,
            bs,
            r,
            bh,
            next_start(cols, c, bs),
            cols,
        )
    }
}

/// The scans of the block rows of `g` from row `r` on, top to bottom. Block rows are
/// `bs` high, except the last one, which ends at the last row.
pub open spec fn bands_scan<T>(g: Seq<Seq<T>>, cols: int, bs: int, r: int) -> Seq<T>
    decreases g.len() - r,
{
    if r >= g.len() || bs <= 0 {
        Seq::empty()
    } else {
        let next = next_start(g.len() as int, r, bs);
        band_blocks_scan(g, bs, r, next - r, 0, cols) + bands_scan(g, cols, bs, next)
    }
}

/// The matrix `g`, whose rows are `cols` wide, cut into `bs`-by-`bs` blocks (smaller at
/// the right and bottom edges), each block scanned in zigzag order, block rows top to
/// bottom and blocks left to right.
pub open spec fn full_block_scan_rect<T>(g: Seq<Seq<T>>, cols: int, bs: int) -> Seq<T> {
    bands_scan(g, cols, bs, 0)
}

/// The number of blocks of size `bs` that cover a side of length `len`, the last one
/// possibly smaller: `len / bs` rounded up.
pub open spec fn num_blocks(len: int, bs: int) -> int {
    (len + bs - 1) / bs
}

/// The size along a side of length `len` of block number `i`: `bs`, or what is left of
/// the side for the last, smaller block.
pub open spec fn block_extent(len: int, bs: int, i: int) -> int {
    if len - i * bs < bs {
        len - i * bs
    } else {
        bs
    }
}

/// The zigzag scan, over its own height and width, of the block in block row `br` and
/// block column `bc` of the `rows`-by-`cols` matrix `g` cut into blocks of size `bs`.
pub open spec fn edge_block_scan_at<T>(
    g: Seq<Seq<T>>,
    rows: int,
    cols: int,
    bs: int,
    br: int,
    bc: int,
) -> Seq<T> {
    let bh = block_extent(rows, bs, br);
    let bw = block_extent(cols, bs, bc);
    zigzag_seq(sub_block(g, br * bs, bc * bs, bh, bw), bh, bw)
}

/// The scans of all the blocks of block row `br`, left to right, concatenated.
pub open spec fn edge_block_row_scan<T>(
    g: Seq<Seq<T>>,
    rows: int,
    cols: int,
    bs: int,
    br: int,
) -> Seq<T> {
    Seq::new(
        num_blocks(cols, bs) as nat,
        |bc: int| edge_block_scan_at(g, rows, cols, bs, br, bc),
    ).flatten()
}

/// Cloning two sequences entry by entry clones their concatenation.
pub proof fn lemma_clones_of_concat<T: Clone>(a: Seq<T>, a2: Seq<T>, b: Seq<T>, b2: Seq<T>)
    requires
        clones_of(a, a2),
        clones_of(b, b2),
    ensures
        clones_of(a + b, a2 + b2),
{
    assert forall|i: int| 0 <= i < (a + b).len() implies cloned((a + b)[i], #[trigger] (a2
        + b2)[i]) by {
        if i < a.len() {
            assert(cloned(a[i], a2[i]));
        } else {
            assert(cloned(b[i - a.len()], b2[i - a.len()]));
        }
    }
}

/// `T::clone` gives back a value equal to its argument.
pub open spec fn clone_is_exact<T: Clone>() -> bool {
    forall|a: T, b: T| #[trigger] vstd::pervasive::strictly_cloned(a, b) ==> a == b
}

} // verus!
