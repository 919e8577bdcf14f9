//! Properties of completed boards and of the placement check.
//!
//! The central law: on a well-formed board that is complete and free of
//! conflicts, every row, every column and every subgrid holds each value in
//! `1..=N` exactly once. Two further laws pin the placement check down: on
//! an all-empty board every non-zero value may go anywhere, and a value
//! already present in the probed cell's row, column or subgrid may not.

use vstd::prelude::*;

use crate::model::{
    cell, col_has, complete, grid_wf, lemma_corner, lemma_idx_bounds, no_conflicts, placeable,
    row_has, same_subgrid, same_unit, subgrid_has,
};
use vstd::set_lib::lemma_len_subset;
use vstd::set_lib::FiniteRange;

verus! {

/// The values of row `r`, left to right.
pub open spec fn row_values(b: Seq<u32>, n: int, r: int) -> Seq<u32> {
    Seq::new(n as nat, |c: int| cell(b, n, r, c))
}

/// The values of column `c`, top to bottom.
pub open spec fn col_values(b: Seq<u32>, n: int, c: int) -> Seq<u32> {
    Seq::new(n as nat, |r: int| cell(b, n, r, c))
}

/// The values of the subgrid in subgrid row `si` and subgrid column `sj`,
/// scanned row-major. A subgrid holds `sl * sl == n` cells.
pub open spec fn subgrid_values(b: Seq<u32>, n: int, sl: int, si: int, sj: int) -> Seq<u32> {
    Seq::new(n as nat, |k: int| cell(b, n, si * sl + k / sl, sj * sl + k % sl))
}

/// A sequence of `n` pairwise-distinct values drawn from `1..=n` holds each
/// such value exactly once and nothing else: the pigeonhole step behind the
/// completeness law.
proof fn lemma_distinct_in_range_is_permutation(s: Seq<u32>, n: int)
    requires
        1 <= n <= u32::MAX,
        s.len() == n,
        s.no_duplicates(),
        forall|i: int| 0 <= i < n ==> 1 <= #[trigger] s[i] <= n,
    ensures
        forall|v: u32| 1 <= v <= n ==> #[trigger] s.to_multiset().count(v) == 1,
        forall|v: u32| !(1 <= v <= n) ==> #[trigger] s.to_multiset().count(v) == 0,
{
    broadcast use vstd::seq_lib::group_to_multiset_ensures;
    broadcast use vstd::set::group_set_axioms;

    s.unique_seq_to_set();
    s.lemma_multiset_has_no_duplicates();
    let hi = n as u32;
    let values = Set::<u32>::range_inclusive(1u32, hi);
    <u32 as FiniteRange>::range_properties(1u32, hi);
    assert(!<u32 as FiniteRange>::range_set(1u32, hi).contains(hi));
    assert(values.len() == n);
    assert(s.to_set().subset_of(values)) by {
        assert forall|v: u32| s.to_set().contains(v) implies values.contains(v) by {
            let i = choose|i: int| 0 <= i < s.len() && s[i] == v;
            assert(1 <= s[i] <= n);
        }
    }
    lemma_len_subset(s.to_set(), values);
    assert forall|v: u32| 1 <= v <= n implies #[trigger] s.to_multiset().count(v) == 1 by {
        assert(values.contains(v));
        if !s.to_set().contains(v) {
            s.to_set().lemma_subset_not_in_lt(values, v);
        }
        assert(s.contains(v));
    }
    assert forall|v: u32| !(1 <= v <= n) implies #[trigger] s.to_multiset().count(v) == 0 by {
        if s.to_multiset().count(v) > 0 {
            assert(s.contains(v));
            let i = choose|i: int| 0 <= i < s.len() && s[i] == v;
            assert(1 <= s[i] <= n);
        }
    }
}

/// Law: on a complete conflict-free board, row `r` holds each value in
/// `1..=N` exactly once and no other value.
pub proof fn lemma_complete_row(b: Seq<u32>, n: int, sl: int, r: int)
    requires
        grid_wf(b, n, sl),
        no_conflicts(b, n, sl),
        complete(b, n),
        0 <= r < n,
    ensures
        row_values(b, n, r).len() == n,
        forall|v: u32| 1 <= v <= n ==> #[trigger] row_values(b, n, r).to_multiset().count(v) == 1,
        forall|v: u32|
            !(1 <= v <= n) ==> #[trigger] row_values(b, n, r).to_multiset().count(v) == 0,
{
    let s = row_values(b, n, r);
    assert forall|i: int| 0 <= i < n implies 1 <= #[trigger] s[i] <= n by {
        lemma_idx_bounds(n, r, i);
    }
    assert(s.no_duplicates()) by {
        assert forall|i: int, j: int|
            0 <= i < s.len() && 0 <= j < s.len() && i != j implies s[i] != s[j] by {
            lemma_idx_bounds(n, r, i);
            lemma_idx_bounds(n, r, j);
            assert(cell(b, n, r, i) != 0);
            assert(same_unit(sl, r, i, r, j));
        }
    }
    lemma_distinct_in_range_is_permutation(s, n);
}

/// Law: on a complete conflict-free board, column `c` holds each value in
/// `1..=N` exactly once and no other value.
pub proof fn lemma_complete_col(b: Seq<u32>, n: int, sl: int, c: int)
    requires
        grid_wf(b, n, sl),
        no_conflicts(b, n, sl),
        complete(b, n),
        0 <= c < n,
    ensures
        col_values(b, n, c).len() == n,
        forall|v: u32| 1 <= v <= n ==> #[trigger] col_values(b, n, c).to_multiset().count(v) == 1,
        forall|v: u32|
            !(1 <= v <= n) ==> #[trigger] col_values(b, n, c).to_multiset().count(v) == 0,
{
    let s = col_values(b, n, c);
    assert forall|i: int| 0 <= i < n implies 1 <= #[trigger] s[i] <= n by {
        lemma_idx_bounds(n, i, c);
    }
    assert(s.no_duplicates()) by {
        assert forall|i: int, j: int|
            0 <= i < s.len() && 0 <= j < s.len() && i != j implies s[i] != s[j] by {
            lemma_idx_bounds(n, i, c);
            lemma_idx_bounds(n, j, c);
            assert(cell(b, n, i, c) != 0);
            assert(same_unit(sl, i, c, j, c));
        }
    }
    lemma_distinct_in_range_is_permutation(s, n);
}

/// A cell of the subgrid `(si, sj)` lies within the grid and its
/// coordinates divide back to `(si, sj)`.
proof fn lemma_subgrid_coord(sl: int, si: int, d: int)
    requires
        0 < sl,
        0 <= si < sl,
        0 <= d < sl,
    ensures
        0 <= si * sl + d < sl * sl,
        (si * sl + d) / sl == si,
{
    assert(0 <= si * sl + d < sl * sl) by (nonlinear_arith)
        requires
            0 < sl,
            0 <= si < sl,
            0 <= d < sl,
    ;
    vstd::arithmetic::div_mod::lemma_fundamental_div_mod_converse(si * sl + d, sl, si, d);
}

/// Law: on a complete conflict-free board, the subgrid in subgrid row `si`
/// and subgrid column `sj` holds each value in `1..=N` exactly once and no
/// other value.
pub proof fn lemma_complete_subgrid(b: Seq<u32>, n: int, sl: int, si: int, sj: int)
    requires
        grid_wf(b, n, sl),
        no_conflicts(b, n, sl),
        complete(b, n),
        0 <= si < sl,
        0 <= sj < sl,
    ensures
        subgrid_values(b, n, sl, si, sj).len() == n,
        forall|v: u32|
            1 <= v <= n ==> #[trigger] subgrid_values(b, n, sl, si, sj).to_multiset().count(v)
                == 1,
        forall|v: u32|
            !(1 <= v <= n) ==> #[trigger] subgrid_values(b, n, sl, si, sj).to_multiset().count(v)
                == 0,
{
    let s = subgrid_values(b, n, sl, si, sj);
    assert forall|k: int| 0 <= k < n implies 1 <= #[trigger] s[k] <= n by {
        lemma_corner(sl, k);
        vstd::arithmetic::div_mod::lemma_mod_bound(k, sl);
        lemma_subgrid_coord(sl, si, k / sl);
        lemma_subgrid_coord(sl, sj, k % sl);
        lemma_idx_bounds(n, si * sl + k / sl, sj * sl + k % sl);
    }
    assert(s.no_duplicates()) by {
        assert forall|i: int, j: int|
            0 <= i < s.len() && 0 <= j < s.len() && i != j implies s[i] != s[j] by {
            lemma_corner(sl, i);
            lemma_corner(sl, j);
            vstd::arithmetic::div_mod::lemma_mod_bound(i, sl);
            vstd::arithmetic::div_mod::lemma_mod_bound(j, sl);
            vstd::arithmetic::div_mod::lemma_fundamental_div_mod(i, sl);
            vstd::arithmetic::div_mod::lemma_fundamental_div_mod(j, sl);
            vstd::arithmetic::mul::lemma_mul_is_commutative(sl, i / sl);
            vstd::arithmetic::mul::lemma_mul_is_commutative(sl, j / sl);
            let ri = si * sl + i / sl;
            let ci = sj * sl + i % sl;
            let rj = si * sl + j / sl;
            let cj = sj * sl + j % sl;
            lemma_subgrid_coord(sl, si, i / sl);
            lemma_subgrid_coord(sl, sj, i % sl);
            lemma_subgrid_coord(sl, si, j / sl);
            lemma_subgrid_coord(sl, sj, j % sl);
            lemma_idx_bounds(n, ri, ci);
            lemma_idx_bounds(n, rj, cj);
            assert(ri != rj || ci != cj);
            assert(same_subgrid(sl, ri, ci, rj, cj));
            assert(cell(b, n, ri, ci) != 0);
        }
    }
    lemma_distinct_in_range_is_permutation(s, n);
}

/// Law: a complete well-formed board of side 1 holds the single value 1 in
/// its single cell; no other constraint competes.
pub proof fn lemma_single_cell_board(b: Seq<u32>, sl: int)
    requires
        grid_wf(b, 1, sl),
        complete(b, 1),
    ensures
        b.len() == 1,
        b[0] == 1,
{
}

/// Law: on an all-empty board, any non-zero value may be placed at any
/// position: the placement check finds nothing in the row, the column or
/// the subgrid.
pub proof fn lemma_empty_board_placeable(b: Seq<u32>, n: int, sl: int, num: u32, r: int, c: int)
    requires
        grid_wf(b, n, sl),
        forall|p: int| 0 <= p < n * n ==> #[trigger] b[p] == 0,
        num != 0,
        0 <= r < n,
        0 <= c < n,
    ensures
        placeable(b, n, sl, num, r, c),
{
    assert(!row_has(b, n, r, num)) by {
        if row_has(b, n, r, num) {
            let c2 = choose|c2: int| 0 <= c2 < n && #[trigger] cell(b, n, r, c2) == num;
            lemma_idx_bounds(n, r, c2);
        }
    }
    assert(!col_has(b, n, c, num)) by {
        if col_has(b, n, c, num) {
            let r2 = choose|r2: int| 0 <= r2 < n && #[trigger] cell(b, n, r2, c) == num;
            lemma_idx_bounds(n, r2, c);
        }
    }
    assert(!subgrid_has(b, n, sl, r, c, num)) by {
        if subgrid_has(b, n, sl, r, c, num) {
            let (r2, c2) = choose|r2: int, c2: int|
                0 <= r2 < n && 0 <= c2 < n && same_subgrid(sl, r, c, r2, c2) && #[trigger] cell(
                    b,
                    n,
                    r2,
                    c2,
                ) == num;
            lemma_idx_bounds(n, r2, c2);
        }
    }
}

/// Law: a value already present in some cell of the probed cell's row,
/// column or subgrid cannot be placed there: the placement check rejects
/// it.
pub proof fn lemma_occupied_unit_not_placeable(
    b: Seq<u32>,
    n: int,
    sl: int,
    num: u32,
    r: int,
    c: int,
    r2: int,
    c2: int,
)
    requires
        grid_wf(b, n, sl),
        0 <= r < n,
        0 <= c < n,
        0 <= r2 < n,
        0 <= c2 < n,
        same_unit(sl, r, c, r2, c2),
        cell(b, n, r2, c2) == num,
    ensures
        !placeable(b, n, sl, num, r, c),
{
    if r2 == r {
        assert(row_has(b, n, r, num));
    } else if c2 == c {
        assert(col_has(b, n, c, num));
    } else {
        assert(subgrid_has(b, n, sl, r, c, num));
    }
}

} // verus!
