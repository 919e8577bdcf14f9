use sudoku::board::Sudoku;

#[test]
fn is_valid_accepts_every_value_on_an_empty_board() {
    let s = Sudoku::new(9);
    for v in 1..=9u32 {
        for r in 0..9 {
            for c in 0..9 {
                assert!(s.is_valid(v, r, c));
            }
        }
    }
}

#[test]
fn is_valid_rejects_a_duplicate_after_undo_then_redo() {
    let mut s = Sudoku::new(9);
    s.set(0, 3, 5);
    s.set(0, 3, 0);
    s.set(0, 3, 5);
    assert!(!s.is_valid(5, 0, 0));
    assert!(!s.is_valid(5, 4, 3));
    assert!(!s.is_valid(5, 1, 4));
    assert!(s.is_valid(5, 4, 4));
    assert!(s.is_valid(4, 0, 0));
}

#[test]
fn is_valid_at_a_prefilled_position() {
    let mut s = Sudoku::new(9);
    s.set(2, 2, 7);
    assert!(s.is_valid(3, 2, 2));
    assert!(!s.is_valid(7, 2, 2));
    assert!(!s.is_valid(7, 2, 8));
    assert!(!s.is_valid(7, 8, 2));
    assert!(s.is_valid(7, 8, 8));
}

#[test]
fn set_and_get_round_trip() {
    let mut s = Sudoku::new(4);
    assert_eq!(s.get(3, 1), 0);
    s.set(3, 1, 4);
    assert_eq!(s.get(3, 1), 4);
    assert_eq!(s.get(1, 3), 0);
    s.set(3, 1, 0);
    assert_eq!(s.get(3, 1), 0);
}
