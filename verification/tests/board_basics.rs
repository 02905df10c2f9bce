use minesweeper::board::Board;
use minesweeper::cell::Cell;
use minesweeper::difficulty::{Beginner, Expert, Medium};

fn all_but(rows: usize, cols: usize, keep: (usize, usize)) -> Vec<(usize, usize)> {
    let mut list = Vec::new();
    for r in 0..rows {
        for c in 0..cols {
            if (r, c) != keep {
                list.push((r, c));
            }
        }
    }
    list
}

#[test]
fn blank_board_has_fresh_cells_and_full_counters() {
    let board = Board::<3, 4, 5>::blank();
    assert_eq!(board.rows(), 3);
    assert_eq!(board.columns(), 4);
    assert_eq!(board.mines(), 5);
    assert_eq!(board.flags_left(), 5);
    assert_eq!(board.spaces_left(), 12);
    for r in 0..3 {
        for c in 0..4 {
            assert_eq!(*board.cell_at(r, c), Cell::default());
        }
    }
}

#[test]
fn indexing_by_position_reads_the_cell() {
    let mut board = Board::<2, 3, 1>::blank();
    assert_eq!(board.place_mine(&vec![], 5), (1, 2));
    board.set_nums();
    assert_eq!(board[(1, 2)].content(), 9);
    assert_eq!(board[(0, 1)].content(), 1);
    assert_eq!(board[(0, 0)].content(), 0);
    assert!(!board.open(0, 0));
    assert!(board[(1, 0)].is_opened());
    assert!(!board[(1, 2)].is_opened());
    for r in 0..2 {
        for c in 0..3 {
            assert_eq!(board[(r, c)], *board.cell_at(r, c));
        }
    }
}

#[test]
fn blank_caps_the_mine_count_at_the_number_of_cells() {
    let board = Board::<2, 2, 10>::blank();
    assert_eq!(board.mines(), 4);
    assert_eq!(board.flags_left(), 4);
    assert_eq!(board.spaces_left(), 4);
    let board = Board::<2, 2, 4>::blank();
    assert_eq!(board.mines(), 4);
    assert_eq!(board.flags_left(), 4);
    let board = Board::<2, 2, 3>::blank();
    assert_eq!(board.mines(), 3);
    assert_eq!(board.flags_left(), 3);
}

#[test]
fn the_capped_mine_count_holds_through_every_operation() {
    let mut board = Board::<2, 2, 9>::blank();
    assert_eq!((board.mines(), board.flags_left()), (4, 4));
    board.randomize(&vec![]);
    assert_eq!((board.mines(), board.flags_left()), (4, 4));
    for r in 0..2 {
        for c in 0..2 {
            assert!(board.cell_at(r, c).is_mine());
        }
    }
    board.set_nums();
    assert_eq!((board.mines(), board.flags_left()), (4, 4));
    // every cell holds a mine, so the board is won before a cell is opened
    assert_eq!(board.spaces_left(), board.mines());
    board.toggle_flag(0, 0);
    assert_eq!((board.mines(), board.flags_left()), (4, 3));
    board.toggle_flag(0, 0);
    assert!(board.can_flag_all());
    board.flag_all();
    assert_eq!((board.mines(), board.flags_left()), (4, 0));
    board.reveal_all();
    assert_eq!((board.mines(), board.flags_left()), (4, 0));
    board.clear();
    assert_eq!((board.mines(), board.flags_left()), (4, 4));
}

#[test]
fn can_flag_all_tells_whether_the_mines_cover_what_would_be_flagged() {
    let mut board = Board::<3, 3, 1>::blank();
    assert!(!board.can_flag_all());
    board.place_mine(&all_but(3, 3, (0, 0)), 0);
    board.set_nums();
    assert!(!board.open(1, 1));
    assert!(!board.can_flag_all());
    assert!(!board.open(2, 2));
    assert_eq!(board.spaces_left(), 1);
    assert!(board.can_flag_all());
    board.flag_all();
    assert!(board.can_flag_all());
    // a revealed flag still counts, and the covered cells come on top
    let mut lost = Board::<1, 3, 1>::blank();
    lost.place_mine(&vec![], 0);
    lost.set_nums();
    lost.toggle_flag(0, 1);
    assert!(!lost.can_flag_all());
    lost.reveal_all();
    assert!(lost.can_flag_all());
    let full = Board::<2, 2, 4>::blank();
    assert!(full.can_flag_all());
    let roomy = Board::<2, 2, 3>::blank();
    assert!(!roomy.can_flag_all());
}

#[test]
fn presets_have_the_classic_sizes() {
    let b = Beginner::blank();
    assert_eq!((b.rows(), b.columns(), b.mines()), (9, 9, 10));
    assert_eq!((b.flags_left(), b.spaces_left()), (10, 81));
    let m = Medium::blank();
    assert_eq!((m.rows(), m.columns(), m.mines()), (16, 16, 40));
    assert_eq!((m.flags_left(), m.spaces_left()), (40, 256));
    let e = Expert::blank();
    assert_eq!((e.rows(), e.columns(), e.mines()), (16, 30, 99));
    assert_eq!((e.flags_left(), e.spaces_left()), (99, 480));
}

#[test]
fn clear_gives_back_a_blank_board() {
    let mut board = Board::<3, 3, 2>::blank();
    board.place_mine(&all_but(3, 3, (0, 0)), 0);
    board.place_mine(&all_but(3, 3, (2, 2)), 0);
    board.set_nums();
    board.toggle_flag(0, 0);
    board.open(2, 0);
    assert_ne!(board.spaces_left(), 9);
    assert_eq!(board.flags_left(), 1);
    board.clear();
    assert_eq!(board.flags_left(), 2);
    assert_eq!(board.spaces_left(), 9);
    for r in 0..3 {
        for c in 0..3 {
            let cell = board.cell_at(r, c);
            assert_eq!(cell.content(), 0);
            assert!(!cell.is_opened());
            assert!(!cell.is_flagged());
        }
    }
}

#[test]
fn adjs_of_a_corner_are_three() {
    assert_eq!(Board::<3, 3, 1>::adjs(0, 0), vec![(0, 1), (1, 0), (1, 1)]);
    assert_eq!(Board::<3, 3, 1>::adjs(2, 2), vec![(1, 1), (1, 2), (2, 1)]);
    assert_eq!(Board::<3, 3, 1>::adjs(0, 2), vec![(0, 1), (1, 1), (1, 2)]);
    assert_eq!(Board::<3, 3, 1>::adjs(2, 0), vec![(1, 0), (1, 1), (2, 1)]);
}

#[test]
fn adjs_of_an_edge_are_five() {
    assert_eq!(Board::<3, 3, 1>::adjs(0, 1), vec![(0, 0), (0, 2), (1, 0), (1, 1), (1, 2)]);
    assert_eq!(Board::<3, 3, 1>::adjs(1, 0), vec![(0, 0), (0, 1), (1, 1), (2, 0), (2, 1)]);
    assert_eq!(Board::<3, 3, 1>::adjs(1, 2), vec![(0, 1), (0, 2), (1, 1), (2, 1), (2, 2)]);
    assert_eq!(Board::<3, 3, 1>::adjs(2, 1), vec![(1, 0), (1, 1), (1, 2), (2, 0), (2, 2)]);
}

#[test]
fn adjs_of_an_inner_cell_are_eight_in_reading_order() {
    assert_eq!(
        Board::<9, 9, 10>::adjs(4, 5),
        vec![(3, 4), (3, 5), (3, 6), (4, 4), (4, 6), (5, 4), (5, 5), (5, 6)]
    );
}

#[test]
fn adjs_on_narrow_boards() {
    assert_eq!(Board::<1, 1, 0>::adjs(0, 0), Vec::<(usize, usize)>::new());
    assert_eq!(Board::<1, 3, 0>::adjs(0, 1), vec![(0, 0), (0, 2)]);
    assert_eq!(Board::<3, 1, 0>::adjs(1, 0), vec![(0, 0), (2, 0)]);
    assert_eq!(Board::<3, 1, 0>::adjs(2, 0), vec![(1, 0)]);
}

#[test]
fn reveal_all_opens_every_cell_and_keeps_flags() {
    let mut board = Board::<3, 3, 2>::blank();
    board.place_mine(&all_but(3, 3, (0, 0)), 0);
    board.place_mine(&all_but(3, 3, (2, 2)), 0);
    board.set_nums();
    board.toggle_flag(0, 1);
    assert!(board.open(0, 0));
    board.reveal_all();
    assert_eq!(board.spaces_left(), 0);
    assert_eq!(board.flags_left(), 1);
    for r in 0..3 {
        for c in 0..3 {
            assert!(board.cell_at(r, c).is_opened());
            assert_eq!(board.cell_at(r, c).is_flagged(), (r, c) == (0, 1));
        }
    }
    assert_eq!(board.cell_at(0, 0).content(), 9);
    assert_eq!(board.cell_at(1, 1).content(), 2);
    assert_eq!(board.cell_at(2, 0).content(), 0);
}

#[test]
fn flag_all_flags_what_is_still_covered() {
    let mut board = Board::<3, 3, 1>::blank();
    board.place_mine(&all_but(3, 3, (0, 0)), 0);
    board.set_nums();
    assert!(!board.open(2, 2));
    assert_eq!(board.spaces_left(), 1);
    board.flag_all();
    assert_eq!(board.flags_left(), 0);
    assert_eq!(board.spaces_left(), 1);
    for r in 0..3 {
        for c in 0..3 {
            let cell = board.cell_at(r, c);
            assert_eq!(cell.is_flagged(), (r, c) == (0, 0));
            assert_eq!(cell.is_opened(), (r, c) != (0, 0));
        }
    }
}

#[test]
fn flag_all_keeps_flags_already_placed() {
    let mut board = Board::<2, 2, 4>::blank();
    board.toggle_flag(0, 1);
    assert_eq!(board.flags_left(), 3);
    board.flag_all();
    assert_eq!(board.flags_left(), 0);
    assert_eq!(board.spaces_left(), 4);
    for r in 0..2 {
        for c in 0..2 {
            assert!(board.cell_at(r, c).is_flagged());
            assert!(!board.cell_at(r, c).is_opened());
        }
    }
}
