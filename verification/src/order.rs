//! The zigzag walk over an `h`-by-`w` grid.
//!
//! The walk visits the anti-diagonals `r + c == d` for `d = 0, 1, ..., h + w - 2` in turn.
//! On an even diagonal it moves up and to the right (column increasing), on an odd
//! diagonal down and to the left (row increasing). This is the JPEG scanning order.
use vstd::prelude::*;

verus! {

/// `(r, c)` is a cell of an `h`-by-`w` grid (`h` rows, `w` columns).
pub open spec fn in_grid(h: int, w: int, r: int, c: int) -> bool {
    0 <= r < h && 0 <= c < w
}

/// The smallest row that a cell of anti-diagonal `d` can have in a grid of `w` columns.
pub open spec fn row_low(w: int, d: int) -> int {
    if d < w {
        0
    } else {
        d - w + 1
    }
}

/// The smallest column that a cell of anti-diagonal `d` can have in a grid of `h` rows.
pub open spec fn col_low(h: int, d: int) -> int {
    if d < h {
        0
    } else {
        d - h + 1
    }
}

/// The number of cells on anti-diagonal `d`, for `0 <= d <= h + w - 2`.
pub open spec fn diag_len(h: int, w: int, d: int) -> int {
    (if d < h {
        d
    } else {
        h - 1
    }) - row_low(w, d) + 1
}

/// The number of cells on the anti-diagonals that come before `d`.
pub open spec fn diag_start(h: int, w: int, d: nat) -> int
    decreases d,
{
    if d == 0 {
        0
    } else {
        diag_start(h, w, (d - 1) as nat) + diag_len(h, w, d - 1)
    }
}

/// The position of cell `(r, c)` in the zigzag walk over an `h`-by-`w` grid.
pub open spec fn zigzag_rank(h: int, w: int, r: int, c: int) -> int {
    let d = r + c;
    diag_start(h, w, d as nat) + if d % 2 == 0 {
        c - col_low(h, d)
    } else {
        r - row_low(w, d)
    }
}

/// The cell that the zigzag walk over an `h`-by-`w` grid visits at step `k`, for
/// `0 <= k < h * w`.
pub open spec fn zigzag_cell(h: int, w: int, k: int) -> (int, int) {
    choose|rc: (int, int)| in_grid(h, w, rc.0, rc.1) && zigzag_rank(h, w, rc.0, rc.1) == k
}

/// The cell that follows `(r, c)` in the walk (one step along the diagonal, or a
/// step onto the next diagonal at its end).
pub open spec fn zigzag_next(h: int, w: int, r: int, c: int) -> (int, int) {
    if (r + c) % 2 == 0 {
        if c == w - 1 {
            (r + 1, c)
        } else if r == 0 {
            (r, c + 1)
        } else {
            (r - 1, c + 1)
        }
    } else {
        if r == h - 1 {
            (r, c + 1)
        } else if c == 0 {
            (r + 1, c)
        } else {
            (r + 1, c - 1)
        }
    }
}

spec fn triangle(m: nat) -> int
    decreases m,
{
    if m == 0 {
        0
    } else {
        m + triangle((m - 1) as nat)
    }
}

proof fn lemma_triangle_pair(m: nat)
    requires
        m >= 1,
    ensures
        triangle(m) + triangle((m - 1) as nat) == m * m,
    decreases m,
{
    if m > 1 {
        let p = (m - 1) as nat;
        let q = (m - 2) as nat;
        lemma_triangle_pair(p);
        assert(triangle(m) == m + triangle(p));
        assert(triangle(p) == p + triangle(q));
        assert(m * m == p * p + 2 * m - 1) by (nonlinear_arith)
            requires
                p == m - 1,
        ;
    } else {
        assert(m * m == 1) by (nonlinear_arith)
            requires
                m == 1,
        ;
        assert(triangle(m) == 1 + triangle(0));
    }
}

proof fn lemma_diag_start_low(h: int, w: int, d: nat)
    requires
        d <= h,
        d <= w,
    ensures
        diag_start(h, w, d) == triangle(d),
    decreases d,
{
    if d > 0 {
        lemma_diag_start_low(h, w, (d - 1) as nat);
    }
}

proof fn lemma_diag_start_mid(h: int, w: int, a: int, d: nat)
    requires
        a >= 1,
        a == if h < w { h } else { w },
        a <= d <= if h < w { w } else { h },
    ensures
        diag_start(h, w, d) == triangle(a as nat) + (d - a) * a,
    decreases d,
{
    if d == a {
        lemma_diag_start_low(h, w, d);
    } else {
        lemma_diag_start_mid(h, w, a, (d - 1) as nat);
        assert((d - 1 - a) * a + a == (d - a) * a) by (nonlinear_arith);
    }
}

proof fn lemma_diag_start_high(h: int, w: int, a: int, b: int, d: nat)
    requires
        a >= 1,
        a == if h < w { h } else { w },
        b == if h < w { w } else { h },
        b <= d <= a + b - 1,
    ensures
        diag_start(h, w, d) + triangle((a + b - 1 - d) as nat) == a * b,
    decreases d,
{
    if d == b {
        lemma_diag_start_mid(h, w, a, d);
        lemma_triangle_pair(a as nat);
        assert(a * a + (b - a) * a == a * b) by (nonlinear_arith);
    } else {
        lemma_diag_start_high(h, w, a, b, (d - 1) as nat);
    }
}

/// All `h * w` cells lie on the diagonals `0 ..= h + w - 2`.
pub proof fn lemma_diag_start_total(h: int, w: int)
    requires
        h >= 1,
        w >= 1,
    ensures
        diag_start(h, w, (h + w - 1) as nat) == h * w,
        diag_start(h, w, (h + w - 2) as nat) == h * w - 1,
{
    let a = if h < w { h } else { w };
    let b = if h < w { w } else { h };
    assert(a * b == h * w) by (nonlinear_arith)
        requires
            (a == h && b == w) || (a == w && b == h),
    ;
    lemma_diag_start_high(h, w, a, b, (h + w - 1) as nat);
    if a > 1 {
        lemma_diag_start_high(h, w, a, b, (h + w - 2) as nat);
    } else {
        assert(diag_start(h, w, (h + w - 1) as nat) == diag_start(h, w, (h + w - 2) as nat) + 1);
    }
}

/// The diagonals before `d2` take up at least the cells of any diagonal `d1 < d2`.
pub proof fn lemma_diag_start_monotone(h: int, w: int, d1: nat, d2: nat)
    requires
        h >= 1,
        w >= 1,
        d1 < d2 <= h + w - 1,
    ensures
        diag_start(h, w, d1) + diag_len(h, w, d1 as int) <= diag_start(h, w, d2),
    decreases d2,
{
    if d2 > d1 + 1 {
        lemma_diag_start_monotone(h, w, d1, (d2 - 1) as nat);
    }
}

/// A cell's position lies within the stretch of its own diagonal.
pub proof fn lemma_rank_bounds(h: int, w: int, r: int, c: int)
    requires
        in_grid(h, w, r, c),
    ensures
        diag_start(h, w, (r + c) as nat) <= zigzag_rank(h, w, r, c) < diag_start(
            h,
            w,
            (r + c) as nat,
        ) + diag_len(h, w, r + c),
        0 <= zigzag_rank(h, w, r, c) < h * w,
{
    let d = r + c;
    lemma_diag_start_total(h, w);
    if d < h + w - 2 {
        lemma_diag_start_monotone(h, w, d as nat, (h + w - 2) as nat);
    }
    if d > 0 {
        lemma_diag_start_monotone(h, w, 0, d as nat);
    }
}

/// No two cells share a position.
pub proof fn lemma_rank_injective(h: int, w: int, r1: int, c1: int, r2: int, c2: int)
    requires
        in_grid(h, w, r1, c1),
        in_grid(h, w, r2, c2),
        zigzag_rank(h, w, r1, c1) == zigzag_rank(h, w, r2, c2),
    ensures
        r1 == r2 && c1 == c2,
{
    lemma_rank_bounds(h, w, r1, c1);
    lemma_rank_bounds(h, w, r2, c2);
    let d1 = r1 + c1;
    let d2 = r2 + c2;
    if d1 < d2 {
        lemma_diag_start_monotone(h, w, d1 as nat, d2 as nat);
    } else if d2 < d1 {
        lemma_diag_start_monotone(h, w, d2 as nat, d1 as nat);
    }
}

/// One step of the walk moves from position `k` to position `k + 1`.
pub proof fn lemma_next_rank(h: int, w: int, r: int, c: int)
    requires
        in_grid(h, w, r, c),
        zigzag_rank(h, w, r, c) + 1 < h * w,
    ensures
        in_grid(h, w, zigzag_next(h, w, r, c).0, zigzag_next(h, w, r, c).1),
        zigzag_rank(h, w, zigzag_next(h, w, r, c).0, zigzag_next(h, w, r, c).1) == zigzag_rank(
            h,
            w,
            r,
            c,
        ) + 1,
{
    let d = r + c;
    lemma_diag_start_total(h, w);
    if d == h + w - 2 {
        assert(r == h - 1 && c == w - 1);
    }
    assert(diag_start(h, w, (d + 1) as nat) == diag_start(h, w, d as nat) + diag_len(h, w, d));
}

/// Every position `0 <= k < h * w` is taken by the cell `zigzag_cell(h, w, k)`.
pub proof fn lemma_cell_at(h: int, w: int, k: int)
    requires
        0 <= h,
        0 <= w,
        0 <= k < h * w,
    ensures
        in_grid(h, w, zigzag_cell(h, w, k).0, zigzag_cell(h, w, k).1),
        zigzag_rank(h, w, zigzag_cell(h, w, k).0, zigzag_cell(h, w, k).1) == k,
    decreases k,
{
    if k == 0 {
        assert(h >= 1 && w >= 1) by (nonlinear_arith)
            requires
                0 <= h,
                0 <= w,
                0 < h * w,
        ;
        let first: (int, int) = (0, 0);
        assert(in_grid(h, w, first.0, first.1) && zigzag_rank(h, w, first.0, first.1) == 0);
    } else {
        lemma_cell_at(h, w, k - 1);
        let prev = zigzag_cell(h, w, k - 1);
        lemma_next_rank(h, w, prev.0, prev.1);
        let nx = zigzag_next(h, w, prev.0, prev.1);
        assert(in_grid(h, w, nx.0, nx.1) && zigzag_rank(h, w, nx.0, nx.1) == k);
    }
}

/// The cell at a cell's own position is that cell.
pub proof fn lemma_cell_of_rank(h: int, w: int, r: int, c: int)
    requires
        in_grid(h, w, r, c),
    ensures
        zigzag_cell(h, w, zigzag_rank(h, w, r, c)) == (r, c),
{
    lemma_rank_bounds(h, w, r, c);
    let k = zigzag_rank(h, w, r, c);
    lemma_cell_at(h, w, k);
    let rc = zigzag_cell(h, w, k);
    lemma_rank_injective(h, w, r, c, rc.0, rc.1);
}

/// Moves the walk over an `h`-by-`w` grid one step from `(row, col)`; `going_up` tells
/// the direction on the current diagonal.
pub(crate) fn zigzag_advance(h: usize, w: usize, row: usize, col: usize, going_up: bool) -> (next:
    (usize, usize, bool))
    requires
        in_grid(h as int, w as int, row as int, col as int),
        going_up == ((row + col) % 2 == 0),
    ensures
        (next.0 as int, next.1 as int) == zigzag_next(h as int, w as int, row as int, col as int),
        next.2 == ((next.0 + next.1) % 2 == 0),
{
    if going_up {
        if col == w - 1 {
            (row + 1, col, false)
        } else if row == 0 {
            (row, col + 1, false)
        } else {
            (row - 1, col + 1, true)
        }
    } else {
        if row == h - 1 {
            (row, col + 1, true)
        } else if col == 0 {
            (row + 1, col, true)
        } else {
            (row + 1, col - 1, false)
        }
    }
}

/// The cells of an `n`-by-`n` grid as `(row, col)` pairs, in zigzag order.
pub fn zigzag_indices(n: usize) -> (indices: Vec<(usize, usize)>)
    requires
        n * n <= usize::MAX,
    ensures
        indices.len() == n * n,
        forall|k: int|
            0 <= k < n * n ==> {
                &&& in_grid(n as int, n as int, #[trigger] indices@[k].0 as int, indices@[k].1 as int)
                &&& zigzag_rank(n as int, n as int, indices@[k].0 as int, indices@[k].1 as int) == k
                &&& zigzag_cell(n as int, n as int, k) == (indices@[k].0 as int, indices@[k].1 as int)
            },
{
    let total = n * n;
    let mut indices: Vec<(usize, usize)> = Vec::with_capacity(total);
    let mut row: usize = 0;
    let mut col: usize = 0;
    let mut going_up = true;
    for i in 0..total
        invariant
            total == n * n,
            indices.len() == i,
            i < total ==> in_grid(n as int, n as int, row as int, col as int),
            i < total ==> zigzag_rank(n as int, n as int, row as int, col as int) == i,
            i < total ==> going_up == ((row + col) % 2 == 0),
            forall|k: int|
                0 <= k < i ==> {
                    &&& in_grid(n as int, n as int, #[trigger] indices@[k].0 as int, indices@[k].1 as int)
                    &&& zigzag_rank(n as int, n as int, indices@[k].0 as int, indices@[k].1 as int) == k
                },
    {
        indices.push((row, col));
        proof {
            if i + 1 < total {
                lemma_next_rank(n as int, n as int, row as int, col as int);
            }
        }
        let next = zigzag_advance(n, n, row, col, going_up);
        row = next.0;
        col = next.1;
        going_up = next.2;
    }
    assert forall|k: int| 0 <= k < n * n implies zigzag_cell(n as int, n as int, k) == (
        #[trigger] indices@[k].0 as int,
        indices@[k].1 as int,
    ) by {
        lemma_cell_of_rank(n as int, n as int, indices@[k].0 as int, indices@[k].1 as int);
    }
    indices
}

} // verus!
