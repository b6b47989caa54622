use tetris_engine::board::Board;
use tetris_engine::board::Cell;
use tetris_engine::collision::does_piece_fit;

#[test]
fn new_board_borders_and_empty_interior() {
    let b = Board::new();
    for y in 0..18 {
        assert_eq!(b.get(0, y), Cell::Border);
        assert_eq!(b.get(11, y), Cell::Border);
    }
    for x in 0..12 {
        assert_eq!(b.get(x, 17), Cell::Border);
    }
    for x in 1..11 {
        for y in 0..17 {
            assert_eq!(b.get(x, y), Cell::Empty);
        }
    }
}

#[test]
fn lock_piece_writes_mask_cells() {
    let mut b = Board::new();
    // shape 0 at rotation 0 occupies local column 2, rows 0..4
    b.lock_piece(0, 0, 4, 10);
    for y in 10..14 {
        assert_eq!(b.get(6, y), Cell::Locked);
    }
    assert_eq!(b.get(5, 10), Cell::Empty);
    assert_eq!(b.get(7, 10), Cell::Empty);
    assert_eq!(b.get(6, 9), Cell::Empty);
    assert_eq!(b.get(6, 14), Cell::Empty);
}

#[test]
fn detect_full_row_and_poked_row() {
    let mut b = Board::new();
    for x in 1..11 {
        b.set(x, 16, Cell::Locked);
    }
    let rows = b.detect_full_rows(13, 17);
    assert_eq!(rows, vec![16]);
    // emptying exactly one interior cell removes the row from the result
    b.set(5, 16, Cell::Empty);
    let rows = b.detect_full_rows(13, 17);
    assert!(rows.is_empty());
}

#[test]
fn detect_reports_rows_ascending() {
    let mut b = Board::new();
    for x in 1..11 {
        b.set(x, 14, Cell::Locked);
        b.set(x, 16, Cell::Locked);
    }
    let rows = b.detect_full_rows(0, 17);
    assert_eq!(rows, vec![14, 16]);
}

#[test]
fn clear_rows_empties_interior() {
    let mut b = Board::new();
    for x in 1..11 {
        b.set(x, 16, Cell::Locked);
    }
    b.clear_rows(&vec![16]);
    for x in 1..11 {
        assert_eq!(b.get(x, 16), Cell::Empty);
    }
    assert_eq!(b.get(0, 16), Cell::Border);
    assert_eq!(b.get(11, 16), Cell::Border);
}

#[test]
fn collapse_shifts_rows_down() {
    let mut b = Board::new();
    b.set(3, 10, Cell::Locked);
    b.collapse_rows_down(&vec![12]);
    assert_eq!(b.get(3, 11), Cell::Locked);
    assert_eq!(b.get(3, 10), Cell::Empty);
    // a fresh empty top row appears
    for x in 1..11 {
        assert_eq!(b.get(x, 0), Cell::Empty);
    }
}

#[test]
fn collapse_leaves_rows_below_cleared_row() {
    let mut b = Board::new();
    b.set(4, 15, Cell::Locked);
    b.collapse_rows_down(&vec![12]);
    // row 15 is below the cleared row 12 and does not move
    assert_eq!(b.get(4, 15), Cell::Locked);
}

#[test]
fn piece_fits_on_empty_board() {
    let b = Board::new();
    assert!(does_piece_fit(&b, 1, 0, 6, 0));
    assert!(does_piece_fit(&b, 0, 0, 4, 10));
}

#[test]
fn piece_rejected_on_border() {
    let b = Board::new();
    // shape 0 at rotation 0 sits in local column 2: x = 9 puts it on column 11
    assert!(!does_piece_fit(&b, 0, 0, 9, 5));
    // and x = -2 puts it on column 0
    assert!(!does_piece_fit(&b, 0, 0, -2, 5));
    // the floor row rejects a piece reaching row 17
    assert!(!does_piece_fit(&b, 0, 0, 4, 14));
}

#[test]
fn piece_rejected_on_locked_cell() {
    let mut b = Board::new();
    b.set(8, 5, Cell::Locked);
    assert!(!does_piece_fit(&b, 0, 0, 6, 5));
    assert!(does_piece_fit(&b, 0, 0, 5, 5));
}

#[test]
fn lock_then_same_position_unfit() {
    let mut b = Board::new();
    assert!(does_piece_fit(&b, 4, 2, 5, 8));
    b.lock_piece(4, 2, 5, 8);
    assert!(!does_piece_fit(&b, 4, 2, 5, 8));
}
