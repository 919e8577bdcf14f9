use sudoku::board::Sudoku;

/// True when `values` holds each of `1..=n` exactly once.
fn holds_each_value_once(values: &[u32], n: usize) -> bool {
    if values.len() != n {
        return false;
    }
    let mut seen = vec![false; n + 1];
    for &v in values {
        if v == 0 || v as usize > n {
            return false;
        }
        if seen[v as usize] {
            return false;
        }
        seen[v as usize] = true;
    }
    true
}

/// True when every row, column and subgrid of the board holds each of
/// `1..=n` exactly once.
fn board_is_valid_and_complete(s: &Sudoku, n: usize, sl: usize) -> bool {
    for r in 0..n {
        let row: Vec<u32> = (0..n).map(|c| s.get(r, c)).collect();
        if !holds_each_value_once(&row, n) {
            return false;
        }
    }
    for c in 0..n {
        let col: Vec<u32> = (0..n).map(|r| s.get(r, c)).collect();
        if !holds_each_value_once(&col, n) {
            return false;
        }
    }
    for si in 0..sl {
        for sj in 0..sl {
            let mut vals = Vec::new();
            for i in 0..sl {
                for j in 0..sl {
                    vals.push(s.get(si * sl + i, sj * sl + j));
                }
            }
            if !holds_each_value_once(&vals, n) {
                return false;
            }
        }
    }
    true
}

// The sweeps below stop at 9: a single naive backtracking run on an empty
// 16 x 16 board usually finishes quickly but its running time has a heavy
// tail, and the test harness allows each test only a short slot.
#[test]
fn generate_fills_every_cell_for_square_sizes() {
    for &n in &[1usize, 4, 9] {
        let mut s = Sudoku::new(n);
        assert!(s.generate());
        assert_eq!(s.size(), n);
        for r in 0..n {
            for c in 0..n {
                assert_ne!(s.get(r, c), 0);
            }
        }
    }
}

#[test]
fn generated_boards_satisfy_the_sudoku_constraints() {
    for &(n, sl) in &[(1usize, 1usize), (4, 2), (9, 3)] {
        let mut s = Sudoku::new(n);
        assert!(s.generate());
        assert!(board_is_valid_and_complete(&s, n, sl));
    }
}

#[test]
fn single_cell_board_is_filled_with_one() {
    let mut s = Sudoku::new(1);
    assert!(s.generate());
    assert_eq!(s.get(0, 0), 1);
}

#[test]
fn repeated_generation_stays_valid_and_varies() {
    let mut a = Sudoku::new(9);
    assert!(a.generate());
    assert!(board_is_valid_and_complete(&a, 9, 3));
    let mut differed = false;
    for _ in 0..3 {
        let mut b = Sudoku::new(9);
        assert!(b.generate());
        assert!(board_is_valid_and_complete(&b, 9, 3));
        let same = (0..9).all(|r| (0..9).all(|c| a.get(r, c) == b.get(r, c)));
        if !same {
            differed = true;
            break;
        }
    }
    assert!(differed);
}

#[test]
fn end_to_end_nine_by_nine() {
    let mut s = Sudoku::new(9);
    assert!(s.generate());
    assert!(board_is_valid_and_complete(&s, 9, 3));
}
