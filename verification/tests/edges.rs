use minesweeper::board::Board;

#[test]
fn a_board_without_cells_takes_every_call() {
    let mut board = Board::<0, 0, 3>::blank();
    assert_eq!(board.spaces_left(), 0);
    assert_eq!(board.mines(), 0);
    assert_eq!(board.flags_left(), 0);
    assert!(board.can_flag_all());
    assert_eq!(board.free_cells(&vec![(0, 0)]), 0);
    board.randomize(&vec![]);
    board.set_nums();
    board.reveal_all();
    board.flag_all();
    board.clear();
    assert_eq!(board.spaces_left(), 0);
    assert_eq!(board.flags_left(), 0);
    assert_eq!(
        board.draw(),
        "\x1b[90m\u{250F}\x08\u{2513}\x1b[0m\n\r\x1b[1A\x1b[90m\r\u{2517}\x08\u{251B}\x1b[0m"
    );
}

#[test]
fn a_board_with_rows_but_no_columns_has_no_cells() {
    let mut board = Board::<3, 0, 1>::blank();
    assert_eq!(board.spaces_left(), 0);
    board.randomize(&vec![]);
    assert_eq!(board.mines(), 0);
    assert_eq!(board.flags_left(), 0);
    let row = "\x1b[90m\u{2503}\n\r\u{2523}\x08\u{252B}\x1b[0m\n\r";
    let top = "\x1b[90m\u{250F}\x08\u{2513}\x1b[0m\n\r";
    let bottom = "\x1b[1A\x1b[90m\r\u{2517}\x08\u{251B}\x1b[0m";
    let expected = format!("{}{}{}{}{}", top, row, row, row, bottom);
    assert_eq!(board.draw(), expected);
}

#[test]
fn a_single_cell_with_a_mine_is_lost_at_once() {
    let mut board = Board::<1, 1, 1>::blank();
    board.randomize(&vec![]);
    board.set_nums();
    assert!(board.cell_at(0, 0).is_mine());
    assert!(board.open(0, 0));
    assert_eq!(board.spaces_left(), 0);
}

#[test]
fn a_single_cell_kept_free_is_won_at_once() {
    let mut board = Board::<1, 1, 1>::blank();
    board.randomize(&vec![(0, 0)]);
    board.set_nums();
    assert!(!board.cell_at(0, 0).is_mine());
    assert_eq!(board.cell_at(0, 0).content(), 0);
    assert!(!board.open(0, 0));
    assert_eq!(board.spaces_left(), 0);
}

#[test]
fn a_board_full_of_mines_numbers_nothing() {
    let mut board = Board::<2, 2, 4>::blank();
    board.randomize(&vec![]);
    board.set_nums();
    for r in 0..2 {
        for c in 0..2 {
            assert_eq!(board.cell_at(r, c).content(), 9);
        }
    }
    assert!(board.open(1, 0));
    assert_eq!(board.spaces_left(), 3);
}

#[test]
fn opening_every_cell_of_a_board_without_mines_never_hits() {
    let mut board = Board::<4, 5, 0>::blank();
    board.randomize(&vec![]);
    board.set_nums();
    assert!(!board.open(3, 4));
    assert_eq!(board.spaces_left(), 0);
    for r in 0..4 {
        for c in 0..5 {
            assert!(board.cell_at(r, c).is_opened());
            assert!(!board.open(r, c));
        }
    }
    assert_eq!(board.spaces_left(), 0);
}

#[test]
fn a_long_corridor_opens_in_one_go() {
    let mut board = Board::<1, 400, 0>::blank();
    board.set_nums();
    assert!(!board.open(0, 0));
    assert_eq!(board.spaces_left(), 0);
}
