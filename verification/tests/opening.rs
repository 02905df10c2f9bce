use minesweeper::board::Board;

fn all_but(rows: usize, cols: usize, keep: (usize, usize)) -> Vec<(usize, usize)> {
    let mut list = Vec::new();
    for r in 0..rows {
        for c in 0..cols {
            if (r, c) != keep {
                list.push((r, c));
            }
        }
    }
    list
}

fn laid<const R: usize, const C: usize, const M: usize>(
    mines: &[(usize, usize)],
) -> Board<R, C, M> {
    let mut board = Board::<R, C, M>::blank();
    for &spot in mines {
        assert_eq!(board.place_mine(&all_but(R, C, spot), 0), spot);
    }
    board.set_nums();
    board
}

fn opened<const R: usize, const C: usize, const M: usize>(
    board: &Board<R, C, M>,
) -> Vec<(usize, usize)> {
    let mut list = Vec::new();
    for r in 0..R {
        for c in 0..C {
            if board.cell_at(r, c).is_opened() {
                list.push((r, c));
            }
        }
    }
    list
}

fn flagged<const R: usize, const C: usize, const M: usize>(
    board: &Board<R, C, M>,
) -> Vec<(usize, usize)> {
    let mut list = Vec::new();
    for r in 0..R {
        for c in 0..C {
            if board.cell_at(r, c).is_flagged() {
                list.push((r, c));
            }
        }
    }
    list
}

fn counters_agree<const R: usize, const C: usize, const M: usize>(board: &Board<R, C, M>) {
    assert_eq!(board.spaces_left(), R * C - opened(board).len());
    assert_eq!(board.flags_left() + flagged(board).len(), board.mines());
}

#[test]
fn opening_a_flagged_cell_changes_nothing() {
    let mut board = laid::<3, 3, 1>(&[(0, 0)]);
    board.toggle_flag(2, 2);
    assert!(!board.open(2, 2));
    assert_eq!(opened(&board), vec![]);
    assert_eq!(flagged(&board), vec![(2, 2)]);
    assert_eq!(board.spaces_left(), 9);
    assert_eq!(board.flags_left(), 0);
}

#[test]
fn opening_a_flagged_mine_is_safe() {
    let mut board = laid::<3, 3, 1>(&[(0, 0)]);
    board.toggle_flag(0, 0);
    assert!(!board.open(0, 0));
    assert_eq!(opened(&board), vec![]);
    assert_eq!(board.spaces_left(), 9);
}

#[test]
fn opening_a_mine_opens_that_cell_only() {
    let mut board = laid::<3, 3, 2>(&[(0, 0), (2, 2)]);
    assert!(!board.open(2, 0));
    let before = opened(&board);
    assert!(board.open(0, 0));
    let mut expected = before.clone();
    expected.push((0, 0));
    expected.sort();
    assert_eq!(opened(&board), expected);
    assert_eq!(board.spaces_left(), 9 - expected.len());
    counters_agree(&board);
    board.reveal_all();
    assert_eq!(opened(&board).len(), 9);
    assert_eq!(board.spaces_left(), 0);
}

#[test]
fn opening_an_open_mine_again_reports_it_again() {
    let mut board = laid::<2, 2, 1>(&[(1, 1)]);
    assert!(board.open(1, 1));
    assert_eq!(board.spaces_left(), 3);
    assert!(board.open(1, 1));
    assert_eq!(board.spaces_left(), 3);
    assert_eq!(opened(&board), vec![(1, 1)]);
}

#[test]
fn opening_a_number_opens_that_cell_only() {
    let mut board = laid::<3, 3, 1>(&[(0, 0)]);
    assert!(!board.open(1, 1));
    assert_eq!(opened(&board), vec![(1, 1)]);
    assert_eq!(board.spaces_left(), 8);
    assert!(!board.open(1, 1));
    assert_eq!(opened(&board), vec![(1, 1)]);
    assert_eq!(board.spaces_left(), 8);
}

#[test]
fn opening_a_blank_cell_opens_the_blank_area_and_its_border() {
    // 9 1 0 0 0
    // 1 1 0 1 1
    // 0 0 0 1 9
    // 1 1 0 1 1
    // 9 1 0 0 0
    let mut board = laid::<5, 5, 3>(&[(0, 0), (2, 4), (4, 0)]);
    assert!(!board.open(2, 2));
    let mut expected = Vec::new();
    for r in 0..5 {
        for c in 0..5 {
            if ![(0, 0), (2, 4), (4, 0)].contains(&(r, c)) {
                expected.push((r, c));
            }
        }
    }
    assert_eq!(opened(&board), expected);
    assert_eq!(board.spaces_left(), 3);
    counters_agree(&board);
}

#[test]
fn a_wall_of_numbers_stops_the_cascade() {
    // 0 1 9 1 0
    // 0 1 1 1 0
    let mut board = laid::<2, 5, 1>(&[(0, 2)]);
    assert!(!board.open(0, 0));
    assert_eq!(opened(&board), vec![(0, 0), (0, 1), (1, 0), (1, 1)]);
    assert_eq!(board.spaces_left(), 6);
    assert!(!board.open(1, 4));
    assert_eq!(
        opened(&board),
        vec![(0, 0), (0, 1), (0, 3), (0, 4), (1, 0), (1, 1), (1, 3), (1, 4)]
    );
    assert_eq!(board.spaces_left(), 2);
}

#[test]
fn a_cascade_goes_round_flagged_cells() {
    // 0 0 0
    // 0 0 0
    // 0 0 0
    let mut board = Board::<3, 3, 2>::blank();
    board.set_nums();
    board.toggle_flag(1, 1);
    assert!(!board.open(0, 0));
    // every cell touches the flag, so nothing spreads
    assert_eq!(opened(&board), vec![(0, 0)]);
    assert_eq!(flagged(&board), vec![(1, 1)]);
    counters_agree(&board);
}

#[test]
fn a_flag_next_to_a_blank_cell_holds_the_cascade_back() {
    // 0 0 0 0
    let mut board = Board::<1, 4, 1>::blank();
    board.set_nums();
    board.toggle_flag(0, 2);
    assert!(!board.open(0, 0));
    // (0,0) spreads to (0,1); (0,1) counts one flag and shows 0, so it does not spread
    assert_eq!(opened(&board), vec![(0, 0), (0, 1)]);
    assert!(!board.cell_at(0, 2).is_opened());
    assert!(!board.cell_at(0, 3).is_opened());
}

#[test]
fn opening_a_satisfied_number_opens_its_hidden_neighbours() {
    // 9 1 0
    // 1 1 0
    // 0 0 0
    let mut board = laid::<3, 3, 1>(&[(0, 0)]);
    assert!(!board.open(1, 1));
    board.toggle_flag(0, 0);
    assert!(!board.open(1, 1));
    assert_eq!(opened(&board).len(), 8);
    assert!(!board.cell_at(0, 0).is_opened());
    assert_eq!(board.spaces_left(), 1);
    counters_agree(&board);
}

#[test]
fn a_wrong_flag_lets_the_cascade_find_a_mine_and_stop_there() {
    // 9 1 0
    // 1 2 1
    // 0 1 9
    let mut board = laid::<3, 3, 2>(&[(0, 0), (2, 2)]);
    assert!(!board.open(1, 1));
    board.toggle_flag(0, 0);
    board.toggle_flag(0, 1);
    assert_eq!(board.flags_left(), 0);
    assert!(board.open(1, 1));
    // (0,2) and (1,0) open without spreading; (1,2) counts one flag and spreads
    // to (2,1) and then to the mine at (2,2); (2,0) is never reached
    assert_eq!(opened(&board), vec![(0, 2), (1, 0), (1, 1), (1, 2), (2, 1), (2, 2)]);
    assert_eq!(flagged(&board), vec![(0, 0), (0, 1)]);
    assert_eq!(board.spaces_left(), 3);
    counters_agree(&board);
}

#[test]
fn a_mine_first_in_reading_order_ends_the_cascade_at_once() {
    // 9 1 0
    // 1 2 1
    // 0 1 9
    let mut board = laid::<3, 3, 2>(&[(0, 0), (2, 2)]);
    assert!(!board.open(1, 1));
    board.toggle_flag(0, 1);
    board.toggle_flag(0, 2);
    assert!(board.open(1, 1));
    assert_eq!(opened(&board), vec![(0, 0), (1, 1)]);
    assert_eq!(board.spaces_left(), 7);
}

#[test]
fn safe_start_on_a_small_board_ends_in_a_win() {
    let mut board = Board::<3, 3, 1>::blank();
    let mut avoid = all_but(3, 3, (0, 0));
    avoid.retain(|&spot| spot != (2, 2));
    avoid.push((2, 2));
    board.randomize(&avoid);
    board.set_nums();
    assert!(board.cell_at(0, 0).is_mine());
    assert!(!board.open(2, 2));
    let mut expected = all_but(3, 3, (0, 0));
    expected.sort();
    assert_eq!(opened(&board), expected);
    assert_eq!(board.spaces_left(), 1);
    assert_eq!(board.spaces_left(), board.mines());
    board.flag_all();
    assert_eq!(flagged(&board), vec![(0, 0)]);
    assert_eq!(board.flags_left(), 0);
    assert_eq!(board.spaces_left(), 1);
}

#[test]
fn counters_agree_with_the_cells_through_a_random_game() {
    for _ in 0..20 {
        let mut board = Board::<9, 9, 10>::blank();
        let mut avoid = Board::<9, 9, 10>::adjs(4, 4);
        avoid.push((4, 4));
        board.randomize(&avoid);
        board.set_nums();
        counters_agree(&board);
        assert!(!board.open(4, 4));
        assert!(opened(&board).len() >= 9);
        counters_agree(&board);
        for r in 0..9 {
            for c in 0..9 {
                if (r + c) % 3 == 0 {
                    board.toggle_flag(r, c);
                } else {
                    board.open(r, c);
                }
                counters_agree(&board);
                for spot in flagged(&board) {
                    assert!(!board.cell_at(spot.0, spot.1).is_opened());
                }
            }
        }
    }
}
