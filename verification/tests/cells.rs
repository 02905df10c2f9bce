use minesweeper::cell::{Cell, MINE};

#[test]
fn new_cell_is_covered_and_unflagged() {
    let cell = Cell::new(3);
    assert_eq!(cell.content(), 3);
    assert!(!cell.is_opened());
    assert!(!cell.is_flagged());
    assert!(!cell.is_mine());
}

#[test]
fn default_cell_holds_zero() {
    let cell = Cell::default();
    assert_eq!(cell, Cell::new(0));
    assert_eq!(cell.content(), 0);
    assert!(!cell.is_opened());
    assert!(!cell.is_flagged());
}

#[test]
fn mine_content_is_nine() {
    assert_eq!(MINE, 9);
    assert!(Cell::new(9).is_mine());
    assert!(!Cell::new(8).is_mine());
}

#[test]
fn getters_read_the_fields() {
    let cell = Cell { content: 5, opened: true, flagged: false };
    assert_eq!(cell.content(), 5);
    assert!(cell.is_opened());
    assert!(!cell.is_flagged());
    let cell = Cell { content: 0, opened: false, flagged: true };
    assert!(cell.is_flagged());
    assert!(!cell.is_opened());
}
