//! Mathematical model of a Sudoku grid.
//!
//! A grid of side `n` is modelled as a row-major sequence of `n * n` cell
//! values. A cell value is a `u32` in `{0, 1..n}`, where `0` means empty.
//! The predicates here say what the placement check answers and what it
//! means for the placed cells to respect the Sudoku constraints.

use vstd::prelude::*;

verus! {

/// Row-major index of the cell at `(r, c)` in a grid of side `n`.
pub open spec fn idx(n: int, r: int, c: int) -> int {
    r * n + c
}

/// The value of the cell at `(r, c)`.
pub open spec fn cell(b: Seq<u32>, n: int, r: int, c: int) -> u32 {
    b[idx(n, r, c)]
}

/// `n` is a square of an integer.
pub open spec fn is_perfect_square(n: int) -> bool {
    exists|s: int| 0 <= s && #[trigger] (s * s) == n
}

/// Structural well-formedness of a grid of side `n` with subgrids of side
/// `sl`: the side is a positive perfect square, the sequence holds one value
/// per cell, and every value lies in `{0, 1..n}`. The two bounds are machine
/// limits: cell values are stored as `u32`, and the cell count is a `usize`.
pub open spec fn grid_wf(b: Seq<u32>, n: int, sl: int) -> bool {
    &&& 1 <= sl
    &&& 1 <= n
    &&& sl * sl == n
    &&& n <= u32::MAX
    &&& n * n <= usize::MAX
    &&& b.len() == n * n
    &&& forall|p: int| 0 <= p < b.len() ==> #[trigger] b[p] <= n
}

/// Cells `(r1, c1)` and `(r2, c2)` lie in the same subgrid of side `sl`.
pub open spec fn same_subgrid(sl: int, r1: int, c1: int, r2: int, c2: int) -> bool {
    r1 / sl == r2 / sl && c1 / sl == c2 / sl
}

/// The two cells share a row, a column, or a subgrid.
pub open spec fn same_unit(sl: int, r1: int, c1: int, r2: int, c2: int) -> bool {
    r1 == r2 || c1 == c2 || same_subgrid(sl, r1, c1, r2, c2)
}

/// Value `num` occurs somewhere in row `r`.
pub open spec fn row_has(b: Seq<u32>, n: int, r: int, num: u32) -> bool {
    exists|c: int| 0 <= c < n && #[trigger] cell(b, n, r, c) == num
}

/// Value `num` occurs somewhere in column `c`.
pub open spec fn col_has(b: Seq<u32>, n: int, c: int, num: u32) -> bool {
    exists|r: int| 0 <= r < n && #[trigger] cell(b, n, r, c) == num
}

/// Value `num` occurs somewhere in the subgrid containing `(r, c)`.
pub open spec fn subgrid_has(b: Seq<u32>, n: int, sl: int, r: int, c: int, num: u32) -> bool {
    exists|r2: int, c2: int|
        0 <= r2 < n && 0 <= c2 < n && same_subgrid(sl, r, c, r2, c2) && #[trigger] cell(
            b,
            n,
            r2,
            c2,
        ) == num
}

/// The placement check: `num` may go at `(r, c)` exactly when it occurs
/// nowhere in that row, that column, or that subgrid.
pub open spec fn placeable(b: Seq<u32>, n: int, sl: int, num: u32, r: int, c: int) -> bool {
    &&& !row_has(b, n, r, num)
    &&& !col_has(b, n, c, num)
    &&& !subgrid_has(b, n, sl, r, c, num)
}

/// The Sudoku constraints on the cells placed so far: no two distinct cells
/// of the same row, column or subgrid hold the same non-zero value.
pub open spec fn no_conflicts(b: Seq<u32>, n: int, sl: int) -> bool {
    forall|r1: int, c1: int, r2: int, c2: int|
        #![trigger cell(b, n, r1, c1), cell(b, n, r2, c2)]
        0 <= r1 < n && 0 <= c1 < n && 0 <= r2 < n && 0 <= c2 < n && (r1 != r2 || c1 != c2)
            && same_unit(sl, r1, c1, r2, c2) && cell(b, n, r1, c1) != 0 ==> cell(b, n, r1, c1)
            != cell(b, n, r2, c2)
}

/// Every cell at row-major position `p` or later is non-zero.
pub open spec fn filled_from(b: Seq<u32>, n: int, p: int) -> bool {
    forall|q: int| p <= q < n * n ==> #[trigger] b[q] != 0
}

/// Every cell of the grid is non-zero.
pub open spec fn complete(b: Seq<u32>, n: int) -> bool {
    filled_from(b, n, 0)
}

/// `g` completes board `b` from row-major position `pos` on: it is a
/// well-formed conflict-free grid, every cell from `pos` on is filled, and
/// it agrees with `b` on every cell before `pos` and on every non-zero
/// cell. The search succeeds exactly when such a grid exists.
pub open spec fn completion_of(g: Seq<u32>, b: Seq<u32>, n: int, sl: int, pos: int) -> bool {
    &&& grid_wf(g, n, sl)
    &&& no_conflicts(g, n, sl)
    &&& filled_from(g, n, pos)
    &&& forall|p: int| #![trigger g[p]] #![trigger b[p]]
        0 <= p < n * n && (p < pos || b[p] != 0) ==> g[p] == b[p]
}

/// The canonical filling of an empty grid: cell `(r, c)` holds
/// `((r % sl) * sl + r / sl + c) % n + 1`, a Latin square whose rows are
/// shifts chosen so that subgrids work out as well.
pub open spec fn canon_value(n: int, sl: int, r: int, c: int) -> u32 {
    ((((r % sl) * sl + r / sl + c) % n) + 1) as u32
}

/// A cell position within the grid maps to an index within the sequence.
pub proof fn lemma_idx_bounds(n: int, r: int, c: int)
    by (nonlinear_arith)
    requires
        0 <= r < n,
        0 <= c < n,
    ensures
        0 <= idx(n, r, c) < n * n,
        idx(n, r, c) == r * n + c,
{
}

/// Two cell positions map to the same index exactly when they are equal.
pub proof fn lemma_idx_injective(n: int, r1: int, c1: int, r2: int, c2: int)
    by (nonlinear_arith)
    requires
        0 <= r1 < n,
        0 <= c1 < n,
        0 <= r2 < n,
        0 <= c2 < n,
    ensures
        idx(n, r1, c1) == idx(n, r2, c2) <==> (r1 == r2 && c1 == c2),
{
}

/// Two coordinates share a quotient by `sl` exactly when the second lies in
/// the aligned block of length `sl` that contains the first.
pub proof fn lemma_same_block(sl: int, x: int, y: int)
    requires
        0 < sl,
        0 <= x,
        0 <= y,
    ensures
        x / sl == y / sl <==> (x / sl) * sl <= y < (x / sl) * sl + sl,
{
    vstd::arithmetic::div_mod::lemma_fundamental_div_mod(x, sl);
    vstd::arithmetic::div_mod::lemma_fundamental_div_mod(y, sl);
    vstd::arithmetic::div_mod::lemma_mod_bound(x, sl);
    vstd::arithmetic::div_mod::lemma_mod_bound(y, sl);
    vstd::arithmetic::mul::lemma_mul_is_commutative(sl, x / sl);
    vstd::arithmetic::mul::lemma_mul_is_commutative(sl, y / sl);
    if (x / sl) * sl <= y < (x / sl) * sl + sl {
        vstd::arithmetic::div_mod::lemma_fundamental_div_mod_converse(
            y,
            sl,
            x / sl,
            y - (x / sl) * sl,
        );
    }
}

/// The aligned block containing a coordinate of the grid stays within the
/// grid: for `0 <= x < sl * sl`, the corner `(x / sl) * sl` is at most `x`
/// and the block of `sl` cells from the corner ends at or before `sl * sl`.
pub proof fn lemma_corner(sl: int, x: int)
    by (nonlinear_arith)
    requires
        0 < sl,
        0 <= x < sl * sl,
    ensures
        0 <= (x / sl) * sl <= x,
        (x / sl) * sl + sl <= sl * sl,
        x / sl < sl,
{
}

/// Passing the end of a row advances the search to the start of the next
/// row without moving the row-major position.
pub proof fn lemma_advance_row(n: int, row: int)
    by (nonlinear_arith)
    requires
        1 <= n,
        0 <= row,
        row * n + n <= n * n,
    ensures
        row + 1 <= n,
        (row + 1) * n + 0 == row * n + n,
{
}

/// The placement check does not depend on the probed cell itself: if `num`
/// may go at `(row, col)` on one board, it may also go there on the board
/// that agrees everywhere else and holds `0` at `(row, col)`.
pub proof fn lemma_placeable_transfer(
    b1: Seq<u32>,
    b2: Seq<u32>,
    n: int,
    sl: int,
    row: int,
    col: int,
    num: u32,
)
    requires
        b1.len() == n * n,
        b2.len() == n * n,
        0 <= row < n,
        0 <= col < n,
        num != 0,
        forall|p: int| 0 <= p < n * n && p != idx(n, row, col) ==> #[trigger] b1[p] == b2[p],
        cell(b2, n, row, col) == 0,
        placeable(b1, n, sl, num, row, col),
    ensures
        placeable(b2, n, sl, num, row, col),
{
    lemma_idx_bounds(n, row, col);
    assert(!row_has(b2, n, row, num)) by {
        if row_has(b2, n, row, num) {
            let c2 = choose|c2: int| 0 <= c2 < n && #[trigger] cell(b2, n, row, c2) == num;
            lemma_idx_bounds(n, row, c2);
            lemma_idx_injective(n, row, c2, row, col);
            if c2 != col {
                assert(cell(b1, n, row, c2) == num);
            }
        }
    }
    assert(!col_has(b2, n, col, num)) by {
        if col_has(b2, n, col, num) {
            let r2 = choose|r2: int| 0 <= r2 < n && #[trigger] cell(b2, n, r2, col) == num;
            lemma_idx_bounds(n, r2, col);
            lemma_idx_injective(n, r2, col, row, col);
            if r2 != row {
                assert(cell(b1, n, r2, col) == num);
            }
        }
    }
    assert(!subgrid_has(b2, n, sl, row, col, num)) by {
        if subgrid_has(b2, n, sl, row, col, num) {
            let (r2, c2) = choose|r2: int, c2: int|
                0 <= r2 < n && 0 <= c2 < n && same_subgrid(sl, row, col, r2, c2) && #[trigger] cell(
                    b2,
                    n,
                    r2,
                    c2,
                ) == num;
            lemma_idx_bounds(n, r2, c2);
            lemma_idx_injective(n, r2, c2, row, col);
            if r2 != row || c2 != col {
                assert(cell(b1, n, r2, c2) == num);
                assert(subgrid_has(b1, n, sl, row, col, num));
            }
        }
    }
}

/// Writing a non-zero value that the placement check admits preserves the
/// Sudoku constraints.
pub proof fn lemma_place(b: Seq<u32>, n: int, sl: int, row: int, col: int, num: u32)
    requires
        grid_wf(b, n, sl),
        0 <= row < n,
        0 <= col < n,
        num != 0,
        cell(b, n, row, col) == 0,
        placeable(b, n, sl, num, row, col),
        no_conflicts(b, n, sl),
    ensures
        no_conflicts(b.update(idx(n, row, col), num), n, sl),
{
    let b2 = b.update(idx(n, row, col), num);
    assert forall|r1: int, c1: int, r2: int, c2: int|
        #![trigger cell(b2, n, r1, c1), cell(b2, n, r2, c2)]
        0 <= r1 < n && 0 <= c1 < n && 0 <= r2 < n && 0 <= c2 < n && (r1 != r2 || c1 != c2)
            && same_unit(sl, r1, c1, r2, c2) && cell(b2, n, r1, c1) != 0 implies cell(b2, n, r1, c1)
        != cell(b2, n, r2, c2) by {
        lemma_idx_bounds(n, r1, c1);
        lemma_idx_bounds(n, r2, c2);
        lemma_idx_bounds(n, row, col);
        lemma_idx_injective(n, r1, c1, row, col);
        lemma_idx_injective(n, r2, c2, row, col);
        if r1 == row && c1 == col {
            assert(cell(b2, n, r1, c1) == num);
            assert(cell(b2, n, r2, c2) == cell(b, n, r2, c2));
            if r2 == row {
                assert(cell(b, n, row, c2) != num) by {
                    assert(!row_has(b, n, row, num));
                }
            } else if c2 == col {
                assert(cell(b, n, r2, col) != num) by {
                    assert(!col_has(b, n, col, num));
                }
            } else {
                assert(same_subgrid(sl, row, col, r2, c2));
                assert(cell(b, n, r2, c2) != num) by {
                    assert(!subgrid_has(b, n, sl, row, col, num));
                }
            }
        } else if r2 == row && c2 == col {
            assert(cell(b2, n, r2, c2) == num);
            assert(cell(b2, n, r1, c1) == cell(b, n, r1, c1));
            if r1 == row {
                assert(cell(b, n, row, c1) != num) by {
                    assert(!row_has(b, n, row, num));
                }
            } else if c1 == col {
                assert(cell(b, n, r1, col) != num) by {
                    assert(!col_has(b, n, col, num));
                }
            } else {
                assert(same_subgrid(sl, row, col, r1, c1));
                assert(cell(b, n, r1, c1) != num) by {
                    assert(!subgrid_has(b, n, sl, row, col, num));
                }
            }
        } else {
            assert(cell(b2, n, r1, c1) == cell(b, n, r1, c1));
            assert(cell(b2, n, r2, c2) == cell(b, n, r2, c2));
            assert(cell(b, n, r1, c1) != cell(b, n, r2, c2));
        }
    }
}

/// Two numbers with the same residue that lie less than `n` apart are
/// equal.
proof fn lemma_mod_same_close(n: int, x: int, y: int)
    requires
        0 < n,
        x % n == y % n,
        -n < x - y < n,
    ensures
        x == y,
{
    vstd::arithmetic::div_mod::lemma_fundamental_div_mod(x, n);
    vstd::arithmetic::div_mod::lemma_fundamental_div_mod(y, n);
    assert(x == y) by (nonlinear_arith)
        requires
            x == n * (x / n) + x % n,
            y == n * (y / n) + y % n,
            x % n == y % n,
            -n < x - y < n,
            0 < n,
    ;
}

/// The canonical value of any cell lies in `1..=n`.
proof fn lemma_canon_range(n: int, sl: int, r: int, c: int)
    requires
        0 < sl,
        sl * sl == n,
        n <= u32::MAX,
        0 <= r,
        0 <= c,
    ensures
        1 <= canon_value(n, sl, r, c) <= n,
        canon_value(n, sl, r, c) as int == ((r % sl) * sl + r / sl + c) % n + 1,
{
    assert(0 < n) by (nonlinear_arith)
        requires
            0 < sl,
            sl * sl == n,
    ;
    vstd::arithmetic::div_mod::lemma_mod_bound(r, sl);
    vstd::arithmetic::div_mod::lemma_div_pos_is_pos(r, sl);
    vstd::arithmetic::div_mod::lemma_mod_bound((r % sl) * sl + r / sl + c, n);
}

/// Two distinct cells of the same row, column or subgrid receive distinct
/// canonical values.
proof fn lemma_canon_distinct(n: int, sl: int, r1: int, c1: int, r2: int, c2: int)
    requires
        0 < sl,
        sl * sl == n,
        n <= u32::MAX,
        0 <= r1 < n,
        0 <= c1 < n,
        0 <= r2 < n,
        0 <= c2 < n,
        r1 != r2 || c1 != c2,
        same_unit(sl, r1, c1, r2, c2),
    ensures
        canon_value(n, sl, r1, c1) != canon_value(n, sl, r2, c2),
{
    assert(0 < n) by (nonlinear_arith)
        requires
            0 < sl,
            sl * sl == n,
    ;
    let x = (r1 % sl) * sl + r1 / sl + c1;
    let y = (r2 % sl) * sl + r2 / sl + c2;
    lemma_canon_range(n, sl, r1, c1);
    lemma_canon_range(n, sl, r2, c2);
    lemma_corner(sl, r1);
    lemma_corner(sl, r2);
    vstd::arithmetic::div_mod::lemma_mod_bound(r1, sl);
    vstd::arithmetic::div_mod::lemma_mod_bound(r2, sl);
    lemma_idx_bounds(sl, r1 % sl, r1 / sl);
    lemma_idx_bounds(sl, r2 % sl, r2 / sl);
    if x % n == y % n {
        if r1 == r2 {
            lemma_mod_same_close(n, x, y);
        } else if c1 == c2 {
            lemma_mod_same_close(n, x, y);
            lemma_idx_injective(sl, r1 % sl, r1 / sl, r2 % sl, r2 / sl);
            vstd::arithmetic::div_mod::lemma_fundamental_div_mod(r1, sl);
            vstd::arithmetic::div_mod::lemma_fundamental_div_mod(r2, sl);
        } else {
            assert(same_subgrid(sl, r1, c1, r2, c2));
            vstd::arithmetic::div_mod::lemma_fundamental_div_mod(r1, sl);
            vstd::arithmetic::div_mod::lemma_fundamental_div_mod(r2, sl);
            vstd::arithmetic::div_mod::lemma_fundamental_div_mod(c1, sl);
            vstd::arithmetic::div_mod::lemma_fundamental_div_mod(c2, sl);
            vstd::arithmetic::div_mod::lemma_mod_bound(c1, sl);
            vstd::arithmetic::div_mod::lemma_mod_bound(c2, sl);
            let a = r1 % sl - r2 % sl;
            let d = c1 % sl - c2 % sl;
            assert(x - y == sl * a + d) by (nonlinear_arith)
                requires
                    x == (r1 % sl) * sl + r1 / sl + c1,
                    y == (r2 % sl) * sl + r2 / sl + c2,
                    r1 / sl == r2 / sl,
                    c1 / sl == c2 / sl,
                    c1 == sl * (c1 / sl) + c1 % sl,
                    c2 == sl * (c2 / sl) + c2 % sl,
                    a == r1 % sl - r2 % sl,
                    d == c1 % sl - c2 % sl,
            ;
            assert(-n < sl * a + d < n) by (nonlinear_arith)
                requires
                    -sl < a < sl,
                    -sl < d < sl,
                    sl * sl == n,
                    0 < sl,
            ;
            lemma_mod_same_close(n, x, y);
            assert(a == 0 && d == 0) by (nonlinear_arith)
                requires
                    sl * a + d == 0,
                    -sl < a < sl,
                    -sl < d < sl,
                    0 < sl,
            ;
        }
        assert(false);
    }
}

/// An all-empty well-formed board has a completion: the canonical filling
/// is a complete conflict-free grid. This is what makes the generator's
/// success on a fresh board more than luck.
pub proof fn lemma_empty_board_completion(b: Seq<u32>, n: int, sl: int)
    requires
        grid_wf(b, n, sl),
        forall|p: int| 0 <= p < n * n ==> #[trigger] b[p] == 0,
    ensures
        exists|g: Seq<u32>| #[trigger] completion_of(g, b, n, sl, 0),
{
    let g = Seq::new((n * n) as nat, |p: int| canon_value(n, sl, p / n, p % n));
    assert forall|r: int, c: int| 0 <= r < n && 0 <= c < n implies #[trigger] cell(g, n, r, c)
        == canon_value(n, sl, r, c) by {
        lemma_idx_bounds(n, r, c);
        vstd::arithmetic::div_mod::lemma_fundamental_div_mod_converse(r * n + c, n, r, c);
    }
    assert forall|p: int| 0 <= p < g.len() implies 1 <= #[trigger] g[p] <= n by {
        vstd::arithmetic::div_mod::lemma_fundamental_div_mod(p, n);
        vstd::arithmetic::div_mod::lemma_mod_bound(p, n);
        assert(0 <= p / n < n) by (nonlinear_arith)
            requires
                p == n * (p / n) + p % n,
                0 <= p % n < n,
                0 <= p < n * n,
                0 < n,
        ;
        lemma_canon_range(n, sl, p / n, p % n);
    }
    assert(no_conflicts(g, n, sl)) by {
        assert forall|r1: int, c1: int, r2: int, c2: int|
            #![trigger cell(g, n, r1, c1), cell(g, n, r2, c2)]
            0 <= r1 < n && 0 <= c1 < n && 0 <= r2 < n && 0 <= c2 < n && (r1 != r2 || c1 != c2)
                && same_unit(sl, r1, c1, r2, c2) && cell(g, n, r1, c1) != 0 implies cell(
            g,
            n,
            r1,
            c1,
        ) != cell(g, n, r2, c2) by {
            lemma_canon_distinct(n, sl, r1, c1, r2, c2);
        }
    }
    assert(filled_from(g, n, 0));
    assert(completion_of(g, b, n, sl, 0));
}

} // verus!
