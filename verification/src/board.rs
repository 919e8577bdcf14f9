//! The board: cell storage, creation, cell access and the placement check.

use vstd::prelude::*;

use crate::model::{
    cell, col_has, complete, completion_of, filled_from, grid_wf, idx, is_perfect_square,
    lemma_advance_row, lemma_corner, lemma_empty_board_completion, lemma_idx_bounds,
    lemma_idx_injective, lemma_place, lemma_placeable_transfer, lemma_same_block, no_conflicts,
    placeable, row_has, same_subgrid, same_unit, subgrid_has,
};
use crate::rng::shuffle;

verus! {

/// An N x N Sudoku board. Cells are stored row-major; `0` marks an empty
/// cell and `1..=N` are placed values. `subgrid_len` is the side of the
/// subgrids, the square root of `size`. The board owns the random number
/// stream used to shuffle candidate values during generation.
pub struct Sudoku {
    pub(crate) data: Vec<u32>,
    pub(crate) size: usize,
    pub(crate) subgrid_len: usize,
    pub(crate) rng: rand::rngs::ThreadRng,
}

impl View for Sudoku {
    type V = Seq<u32>;

    closed spec fn view(&self) -> Seq<u32> {
        self.data@
    }
}

impl Sudoku {
    /// The side of the board, as a mathematical integer.
    pub closed spec fn spec_size(&self) -> int {
        self.size as int
    }

    /// The side of a subgrid, as a mathematical integer.
    pub closed spec fn spec_subgrid_len(&self) -> int {
        self.subgrid_len as int
    }

    /// Structural well-formedness: see [`grid_wf`].
    pub open spec fn wf(&self) -> bool {
        grid_wf(self@, self.spec_size(), self.spec_subgrid_len())
    }

    /// Allocates an all-zero board of side `size` and computes the subgrid
    /// side as the square root of `size`. The side must be a positive
    /// perfect square; the bounds on `size` are machine limits (cells are
    /// `u32` values and the cell count must fit in `usize`).
    #[verifier::loop_isolation(false)]
    pub fn new(size: usize) -> (s: Sudoku)
        requires
            1 <= size,
            is_perfect_square(size as int),
            size <= u32::MAX,
            size * size <= usize::MAX,
        ensures
            s.wf(),
            s.spec_size() == size as int,
            s@.len() == size * size,
            forall|p: int| 0 <= p < s@.len() ==> s@[p] == 0u32,
            no_conflicts(s@, s.spec_size(), s.spec_subgrid_len()),
    {
        let ghost w = choose|t: int| 0 <= t && #[trigger] (t * t) == size as int;
        proof {
            assert(1 <= w && w <= size as int) by (nonlinear_arith)
                requires
                    0 <= w,
                    w * w == size as int,
                    1 <= size as int,
            ;
        }
        let mut sl: usize = 1;
        while sl * sl < size
            invariant
                1 <= sl <= w,
                sl * sl <= size,
            decreases w - sl,
        {
            proof {
                assert(sl < w && (sl + 1) * (sl + 1) <= size as int) by (nonlinear_arith)
                    requires
                        1 <= sl <= w,
                        (sl as int) * (sl as int) < size as int,
                        w * w == size as int,
                ;
            }
            sl = sl + 1;
        }
        let total = size * size;
        let mut data: Vec<u32> = Vec::new();
        let mut i: usize = 0;
        while i < total
            invariant
                i <= total,
                data@.len() == i,
                forall|p: int| 0 <= p < i ==> #[trigger] data@[p] == 0u32,
            decreases total - i,
        {
            data.push(0);
            i = i + 1;
        }
        let s = Sudoku { data, size, subgrid_len: sl, rng: rand::thread_rng() };
        proof {
            let n = size as int;
            assert forall|r1: int, c1: int|
                0 <= r1 < n && 0 <= c1 < n implies #[trigger] cell(s@, n, r1, c1) == 0u32 by {
                lemma_idx_bounds(n, r1, c1);
            }
        }
        s
    }

    /// The side of the board.
    pub fn size(&self) -> (n: usize)
        ensures
            n as int == self.spec_size(),
    {
        self.size
    }

    /// Reads the cell at `(row, col)`.
    pub fn get(&self, row: usize, col: usize) -> (v: u32)
        requires
            self.wf(),
            (row as int) < self.spec_size(),
            (col as int) < self.spec_size(),
        ensures
            v == cell(self@, self.spec_size(), row as int, col as int),
    {
        proof {
            lemma_idx_bounds(self.spec_size(), row as int, col as int);
        }
        self.data[row * self.size + col]
    }

    /// Writes `value` into the cell at `(row, col)`. The value must lie in
    /// `{0, 1..=N}`; the rest of the board is untouched.
    pub fn set(&mut self, row: usize, col: usize, value: u32)
        requires
            old(self).wf(),
            (row as int) < old(self).spec_size(),
            (col as int) < old(self).spec_size(),
            (value as int) <= old(self).spec_size(),
        ensures
            final(self).wf(),
            final(self).spec_size() == old(self).spec_size(),
            final(self).spec_subgrid_len() == old(self).spec_subgrid_len(),
            final(self)@ == old(self)@.update(
                idx(old(self).spec_size(), row as int, col as int),
                value,
            ),
    {
        proof {
            lemma_idx_bounds(self.spec_size(), row as int, col as int);
        }
        let i = row * self.size + col;
        self.data.set(i, value);
    }

    /// The placement check: may `num` legally occupy `(row, col)` given the
    /// current state? Returns true exactly when `num` occurs nowhere in row
    /// `row`, nowhere in column `col`, and nowhere in the subgrid containing
    /// `(row, col)`. No side effects.
    #[verifier::loop_isolation(false)]
    pub fn is_valid(&self, num: u32, row: usize, col: usize) -> (r: bool)
        requires
            self.wf(),
            (row as int) < self.spec_size(),
            (col as int) < self.spec_size(),
        ensures
            r == placeable(
                self@,
                self.spec_size(),
                self.spec_subgrid_len(),
                num,
                row as int,
                col as int,
            ),
    {
        let ghost b = self@;
        let ghost n = self.spec_size();
        let ghost slg = self.spec_subgrid_len();
        let size = self.size;

        // Scan the row.
        let mut c: usize = 0;
        while c < size
            invariant
                c <= size,
                forall|j: int| 0 <= j < c ==> #[trigger] cell(b, n, row as int, j) != num,
            decreases size - c,
        {
            proof {
                lemma_idx_bounds(n, row as int, c as int);
            }
            if self.data[row * size + c] == num {
                proof {
                    assert(cell(b, n, row as int, c as int) == num);
                }
                return false;
            }
            c = c + 1;
        }
        proof {
            assert(!row_has(b, n, row as int, num));
        }

        // Scan the column.
        let mut r: usize = 0;
        while r < size
            invariant
                r <= size,
                forall|j: int| 0 <= j < r ==> #[trigger] cell(b, n, j, col as int) != num,
            decreases size - r,
        {
            proof {
                lemma_idx_bounds(n, r as int, col as int);
            }
            if self.data[r * size + col] == num {
                proof {
                    assert(cell(b, n, r as int, col as int) == num);
                }
                return false;
            }
            r = r + 1;
        }
        proof {
            assert(!col_has(b, n, col as int, num));
        }

        // Scan the subgrid whose top-left corner contains (row, col).
        let sl = self.subgrid_len;
        proof {
            lemma_corner(slg, row as int);
            lemma_corner(slg, col as int);
        }
        let corner_r = row / sl * sl;
        let corner_c = col / sl * sl;
        let mut i: usize = 0;
        while i < sl
            invariant
                i <= sl,
                forall|a: int, d: int|
                    0 <= a < i && 0 <= d < sl ==> #[trigger] cell(
                        b,
                        n,
                        corner_r as int + a,
                        corner_c as int + d,
                    ) != num,
            decreases sl - i,
        {
            let mut j: usize = 0;
            while j < sl
                invariant
                    i < sl,
                    j <= sl,
                    forall|a: int, d: int|
                        0 <= a < i && 0 <= d < sl ==> #[trigger] cell(
                            b,
                            n,
                            corner_r as int + a,
                            corner_c as int + d,
                        ) != num,
                    forall|d: int|
                        0 <= d < j ==> #[trigger] cell(
                            b,
                            n,
                            corner_r as int + i,
                            corner_c as int + d,
                        ) != num,
                decreases sl - j,
            {
                proof {
                    lemma_idx_bounds(n, corner_r as int + i, corner_c as int + j);
                }
                if self.data[(corner_r + i) * size + (corner_c + j)] == num {
                    proof {
                        lemma_same_block(slg, row as int, corner_r as int + i);
                        lemma_same_block(slg, col as int, corner_c as int + j);
                        assert(same_subgrid(
                            slg,
                            row as int,
                            col as int,
                            corner_r as int + i,
                            corner_c as int + j,
                        ));
                        assert(cell(b, n, corner_r as int + i, corner_c as int + j) == num);
                    }
                    return false;
                }
                j = j + 1;
            }
            i = i + 1;
        }
        proof {
            assert(!subgrid_has(b, n, slg, row as int, col as int, num)) by {
                if subgrid_has(b, n, slg, row as int, col as int, num) {
                    let (r2, c2) = choose|r2: int, c2: int|
                        0 <= r2 < n && 0 <= c2 < n && same_subgrid(
                            slg,
                            row as int,
                            col as int,
                            r2,
                            c2,
                        ) && #[trigger] cell(b, n, r2, c2) == num;
                    lemma_same_block(slg, row as int, r2);
                    lemma_same_block(slg, col as int, c2);
                    assert(cell(b, n, corner_r as int + (r2 - corner_r as int), corner_c as int + (
                    c2 - corner_c as int)) != num);
                }
            }
        }
        true
    }

    /// One step of the randomized recursive backtracking search, visiting
    /// cells in row-major order from `(row, col)`. A pre-filled cell is
    /// skipped; an empty cell is tried with the values `1..=N` in a random
    /// order, and reset to `0` when no value leads to a completion. It
    /// succeeds exactly when the board admits a completion from `(row, col)`
    /// on — so the outcome depends on the board alone, not on the shuffle —
    /// and then the final board is such a completion. Cells before
    /// `(row, col)` and pre-filled cells are never touched; on failure the
    /// board is left exactly as it was.
    #[verifier::loop_isolation(false)]
    pub fn solve(&mut self, row: usize, col: usize) -> (r: bool)
        requires
            old(self).wf(),
            no_conflicts(old(self)@, old(self).spec_size(), old(self).spec_subgrid_len()),
            row as int <= old(self).spec_size(),
            col as int <= old(self).spec_size(),
            idx(old(self).spec_size(), row as int, col as int) <= old(self).spec_size() * old(
                self,
            ).spec_size(),
        ensures
            final(self).wf(),
            final(self).spec_size() == old(self).spec_size(),
            final(self).spec_subgrid_len() == old(self).spec_subgrid_len(),
            no_conflicts(final(self)@, old(self).spec_size(), old(self).spec_subgrid_len()),
            forall|p: int|
                0 <= p < idx(old(self).spec_size(), row as int, col as int) ==> final(self)@[p]
                    == old(self)@[p],
            forall|p: int|
                0 <= p < old(self)@.len() && old(self)@[p] != 0 ==> final(self)@[p] == old(
                    self,
                )@[p],
            r ==> completion_of(
                final(self)@,
                old(self)@,
                old(self).spec_size(),
                old(self).spec_subgrid_len(),
                idx(old(self).spec_size(), row as int, col as int),
            ),
            r == (exists|g: Seq<u32>|
                completion_of(
                    g,
                    old(self)@,
                    old(self).spec_size(),
                    old(self).spec_subgrid_len(),
                    idx(old(self).spec_size(), row as int, col as int),
                )),
            !r ==> final(self)@ == old(self)@,
        decreases
                old(self).spec_size() * old(self).spec_size() - (row as int) * old(
                    self,
                ).spec_size() - (col as int),
    {
        let ghost n = old(self).spec_size();
        let ghost sl = old(self).spec_subgrid_len();
        let ghost pos = idx(n, row as int, col as int);
        let size = self.size;
        let mut row = row;
        let mut col = col;
        if col == size {
            proof {
                lemma_advance_row(n, row as int);
            }
            row = row + 1;
            col = 0;
        }
        proof {
            assert(pos == idx(n, row as int, col as int));
        }
        if row == size {
            proof {
                assert(completion_of(self@, old(self)@, n, sl, pos));
            }
            return true;
        }
        let cur = self.get(row, col);
        let next_col = col + 1;
        proof {
            lemma_idx_bounds(n, row as int, col as int);
            assert(idx(n, row as int, next_col as int) == pos + 1);
        }
        if cur != 0 {
            let res = self.solve(row, next_col);
            proof {
                if res {
                    assert(self@[pos] == cur);
                    assert(completion_of(self@, old(self)@, n, sl, pos)) by {
                        assert forall|q: int| pos <= q < n * n implies self@[q] != 0 by {
                            if q != pos {
                                assert(self@[q] != 0);
                            }
                        }
                    }
                } else {
                    // A completion from `pos` leaves the pre-filled cell at
                    // `pos` alone, so it is also a completion from `pos + 1`
                    // — and the recursive call found none.
                    assert forall|g: Seq<u32>| #[trigger] completion_of(
                        g,
                        old(self)@,
                        n,
                        sl,
                        pos,
                    ) implies false by {
                        assert(completion_of(
                            g,
                            old(self)@,
                            n,
                            sl,
                            idx(n, row as int, next_col as int),
                        ));
                    }
                }
            }
            return res;
        }
        let mut numbers: Vec<u32> = Vec::new();
        let mut k: usize = 0;
        while k < size
            invariant
                k <= size,
                numbers@.len() == k,
                forall|j: int| 0 <= j < k ==> #[trigger] numbers@[j] == j + 1,
            decreases size - k,
        {
            numbers.push((k + 1) as u32);
            k = k + 1;
        }
        let ghost init = numbers@;
        shuffle(&mut numbers, &mut self.rng);
        let ghost b0 = self@;
        proof {
            broadcast use vstd::seq_lib::group_to_multiset_ensures;

            assert(numbers@.to_multiset().len() == init.to_multiset().len());
            assert(numbers@.len() == numbers@.to_multiset().len());
            assert(init.len() == init.to_multiset().len());
            assert forall|j: int| 0 <= j < numbers@.len() implies 1 <= #[trigger] numbers@[j]
                <= n by {
                assert(numbers@.contains(numbers@[j]));
                assert(init.to_multiset().count(numbers@[j]) > 0);
                assert(init.contains(numbers@[j]));
                let i = choose|i: int| 0 <= i < init.len() && init[i] == numbers@[j];
                assert(init[i] == i + 1);
            }
            assert(init.no_duplicates());
            init.lemma_multiset_has_no_duplicates();
            assert forall|x: u32| numbers@.to_multiset().contains(x) implies numbers@.to_multiset(
            ).count(x) == 1 by {
                assert(init.to_multiset().contains(x));
            }
            numbers@.lemma_multiset_has_no_duplicates_conv();
            // Every completion's value for this cell is among the pending
            // candidates.
            assert forall|g: Seq<u32>| #[trigger] completion_of(g, b0, n, sl, pos) implies exists|
                j: int,
            | 0 <= j < numbers@.len() && numbers@[j] == g[pos] by {
                assert(g[pos] != 0);
                assert(g[pos] <= n);
                let v = g[pos];
                assert(init[v - 1] == v - 1 + 1);
                assert(init.contains(v));
                assert(numbers@.to_multiset().count(v) > 0);
                assert(numbers@.contains(v));
                let jw = choose|j: int| 0 <= j < numbers@.len() && numbers@[j] == v;
                assert(0 <= jw < numbers@.len() && numbers@[jw] == g[pos]);
            }
        }
        let mut t: usize = 0;
        while t < numbers.len()
            invariant
                t <= numbers@.len(),
                numbers@.len() == n,
                forall|j: int| 0 <= j < numbers@.len() ==> 1 <= #[trigger] numbers@[j] <= n,
                numbers@.no_duplicates(),
                self.wf(),
                self.spec_size() == n,
                self.spec_subgrid_len() == sl,
                no_conflicts(self@, n, sl),
                forall|p: int| 0 <= p < n * n && p != pos ==> #[trigger] self@[p] == b0[p],
                forall|j: int|
                    t <= j < numbers@.len() ==> self@[pos] != #[trigger] numbers@[j],
                forall|g: Seq<u32>|
                    #[trigger] completion_of(g, b0, n, sl, pos) ==> exists|j: int|
                        t <= j < numbers@.len() && numbers@[j] == g[pos],
            decreases numbers@.len() - t,
        {
            let cand = numbers[t];
            let ghost bprev = self@;
            let valid = self.is_valid(cand, row, col);
            if valid {
                self.set(row, col, cand);
                proof {
                    lemma_placeable_transfer(bprev, b0, n, sl, row as int, col as int, cand);
                    lemma_place(b0, n, sl, row as int, col as int, cand);
                    assert(self@ =~= b0.update(pos, cand));
                }
                let ghost b1 = self@;
                if self.solve(row, next_col) {
                    proof {
                        assert(self@[pos] == cand);
                        assert(completion_of(self@, b0, n, sl, pos)) by {
                            assert forall|q: int| pos <= q < n * n implies self@[q] != 0 by {
                                if q != pos {
                                    assert(self@[q] != 0);
                                }
                            }
                            assert forall|p: int|
                                0 <= p < n * n && (p < pos || b0[p] != 0) implies self@[p]
                                == b0[p] by {
                                if p != pos {
                                    assert(b1[p] == b0[p]);
                                    if !(p < pos) {
                                        assert(b1[p] != 0);
                                    }
                                    assert(self@[p] == b1[p]);
                                }
                            }
                        }
                    }
                    return true;
                }
                proof {
                    // The recursion failed, so no completion assigns `cand`
                    // here; every completion's value is still pending.
                    assert forall|g: Seq<u32>| #[trigger] completion_of(
                        g,
                        b0,
                        n,
                        sl,
                        pos,
                    ) implies exists|j: int|
                        t + 1 <= j < numbers@.len() && numbers@[j] == g[pos] by {
                        let jw = choose|j: int|
                            t <= j < numbers@.len() && numbers@[j] == g[pos];
                        if jw == t {
                            assert(g[pos] == cand);
                            assert(completion_of(g, b1, n, sl, pos + 1)) by {
                                assert forall|p: int|
                                    0 <= p < n * n && (p < pos + 1 || b1[p] != 0) implies g[p]
                                    == b1[p] by {
                                    if p == pos {
                                        assert(b1[pos] == cand);
                                    } else {
                                        assert(b1[p] == b0[p]);
                                    }
                                }
                            }
                            assert(completion_of(
                                g,
                                b1,
                                n,
                                sl,
                                idx(n, row as int, next_col as int),
                            ));
                            assert(false);
                        } else {
                            assert(t + 1 <= jw < numbers@.len() && numbers@[jw] == g[pos]);
                        }
                    }
                    assert forall|j: int|
                        t + 1 <= j < numbers@.len() implies self@[pos] != #[trigger] numbers@[j] by {
                        assert(numbers@[j] != numbers@[t as int]);
                    }
                }
            } else {
                proof {
                    // The placement check found `cand` elsewhere in the
                    // cell's row, column or subgrid, so no completion
                    // assigns `cand` here either.
                    assert forall|g: Seq<u32>| #[trigger] completion_of(
                        g,
                        b0,
                        n,
                        sl,
                        pos,
                    ) implies exists|j: int|
                        t + 1 <= j < numbers@.len() && numbers@[j] == g[pos] by {
                        let jw = choose|j: int|
                            t <= j < numbers@.len() && numbers@[j] == g[pos];
                        if jw == t {
                            assert(g[pos] == cand);
                            assert(cell(g, n, row as int, col as int) == cand);
                            assert(cell(bprev, n, row as int, col as int) != cand);
                            if row_has(bprev, n, row as int, cand) {
                                let cw = choose|c2: int|
                                    0 <= c2 < n && #[trigger] cell(bprev, n, row as int, c2)
                                        == cand;
                                lemma_idx_bounds(n, row as int, cw);
                                lemma_idx_injective(n, row as int, cw, row as int, col as int);
                                assert(cw != col as int);
                                assert(b0[idx(n, row as int, cw)] == cand);
                                assert(cell(g, n, row as int, cw) == cand);
                                assert(same_unit(sl, row as int, cw, row as int, col as int));
                            } else if col_has(bprev, n, col as int, cand) {
                                let rw = choose|r2: int|
                                    0 <= r2 < n && #[trigger] cell(bprev, n, r2, col as int)
                                        == cand;
                                lemma_idx_bounds(n, rw, col as int);
                                lemma_idx_injective(n, rw, col as int, row as int, col as int);
                                assert(rw != row as int);
                                assert(b0[idx(n, rw, col as int)] == cand);
                                assert(cell(g, n, rw, col as int) == cand);
                                assert(same_unit(sl, rw, col as int, row as int, col as int));
                            } else {
                                assert(subgrid_has(bprev, n, sl, row as int, col as int, cand));
                                let (rw, cw) = choose|r2: int, c2: int|
                                    0 <= r2 < n && 0 <= c2 < n && same_subgrid(
                                        sl,
                                        row as int,
                                        col as int,
                                        r2,
                                        c2,
                                    ) && #[trigger] cell(bprev, n, r2, c2) == cand;
                                lemma_idx_bounds(n, rw, cw);
                                lemma_idx_injective(n, rw, cw, row as int, col as int);
                                assert(rw != row as int || cw != col as int);
                                assert(b0[idx(n, rw, cw)] == cand);
                                assert(cell(g, n, rw, cw) == cand);
                                assert(same_unit(sl, rw, cw, row as int, col as int));
                            }
                            assert(false);
                        } else {
                            assert(t + 1 <= jw < numbers@.len() && numbers@[jw] == g[pos]);
                        }
                    }
                }
            }
            t = t + 1;
        }
        self.set(row, col, 0);
        proof {
            assert(self@ =~= b0);
            // All candidates failed: the pending set is empty, so no
            // completion exists at all.
            assert forall|g: Seq<u32>| #[trigger] completion_of(g, b0, n, sl, pos) implies false by {
                let jw = choose|j: int|
                    t <= j < numbers@.len() && numbers@[j] == g[pos];
                assert(t <= jw < numbers@.len());
            }
        }
        false
    }

    /// Runs the backtracking fill in place starting at `(0, 0)` and returns
    /// whether a complete filling was achieved. It succeeds exactly when the
    /// non-zero cells already placed can be extended to a full grid — in
    /// particular always on an all-zero board — and then every cell holds a
    /// value in `1..=N`, every row, column and subgrid is free of repeats,
    /// and the pre-filled cells are untouched. On failure the board is left
    /// exactly as it was.
    pub fn generate(&mut self) -> (r: bool)
        requires
            old(self).wf(),
            no_conflicts(old(self)@, old(self).spec_size(), old(self).spec_subgrid_len()),
        ensures
            final(self).wf(),
            final(self).spec_size() == old(self).spec_size(),
            final(self).spec_subgrid_len() == old(self).spec_subgrid_len(),
            no_conflicts(final(self)@, old(self).spec_size(), old(self).spec_subgrid_len()),
            forall|p: int|
                0 <= p < old(self)@.len() && old(self)@[p] != 0 ==> final(self)@[p] == old(
                    self,
                )@[p],
            r ==> complete(final(self)@, old(self).spec_size()),
            r ==> completion_of(
                final(self)@,
                old(self)@,
                old(self).spec_size(),
                old(self).spec_subgrid_len(),
                0,
            ),
            r == (exists|g: Seq<u32>|
                completion_of(
                    g,
                    old(self)@,
                    old(self).spec_size(),
                    old(self).spec_subgrid_len(),
                    0,
                )),
            (forall|p: int| 0 <= p < old(self)@.len() ==> old(self)@[p] == 0) ==> r,
            !r ==> final(self)@ == old(self)@,
    {
        proof {
            let ghost n = old(self).spec_size();
            assert(0 <= n * n) by (nonlinear_arith);
        }
        let r = self.solve(0, 0);
        proof {
            let n = old(self).spec_size();
            let sl = old(self).spec_subgrid_len();
            assert(idx(n, 0, 0) == 0);
            if r {
                assert(completion_of(self@, old(self)@, n, sl, 0));
            } else {
                assert forall|g: Seq<u32>| #[trigger] completion_of(
                    g,
                    old(self)@,
                    n,
                    sl,
                    0,
                ) implies false by {
                    assert(completion_of(g, old(self)@, n, sl, idx(n, 0, 0)));
                }
                if forall|p: int| 0 <= p < old(self)@.len() ==> old(self)@[p] == 0 {
                    lemma_empty_board_completion(old(self)@, n, sl);
                    assert(false);
                }
            }
        }
        r
    }
}

} // verus!
