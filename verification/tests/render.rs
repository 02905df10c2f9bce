use minesweeper::board::render::glyph_of;
use minesweeper::board::Board;
use minesweeper::cell::Cell;

#[test]
fn glyphs_follow_the_state_of_the_cell() {
    assert_eq!(glyph_of(&Cell::new(0)), "\u{25A0}");
    assert_eq!(glyph_of(&Cell::new(9)), "\u{25A0}");
    let flagged = Cell { content: 3, opened: false, flagged: true };
    assert_eq!(glyph_of(&flagged), "\x1b[33m\u{2691}\x1b[0m");
    assert_eq!(glyph_of(&Cell { content: 0, opened: true, flagged: false }), " ");
    assert_eq!(glyph_of(&Cell { content: 1, opened: true, flagged: false }), "\x1b[94m1\x1b[0m");
    assert_eq!(glyph_of(&Cell { content: 2, opened: true, flagged: false }), "\x1b[32m2\x1b[0m");
    assert_eq!(glyph_of(&Cell { content: 3, opened: true, flagged: false }), "\x1b[91m3\x1b[0m");
    assert_eq!(glyph_of(&Cell { content: 4, opened: true, flagged: false }), "\x1b[35m4\x1b[0m");
    assert_eq!(glyph_of(&Cell { content: 5, opened: true, flagged: false }), "\x1b[33m5\x1b[0m");
    assert_eq!(glyph_of(&Cell { content: 6, opened: true, flagged: false }), "\x1b[96m6\x1b[0m");
    assert_eq!(glyph_of(&Cell { content: 7, opened: true, flagged: false }), "\x1b[30m7\x1b[0m");
    assert_eq!(glyph_of(&Cell { content: 8, opened: true, flagged: false }), "\x1b[90m8\x1b[0m");
    let mine = Cell { content: 9, opened: true, flagged: false };
    assert_eq!(glyph_of(&mine), "\x1b[91;1m\u{273B}\x1b[0m");
    assert_eq!(glyph_of(&Cell { content: 10, opened: true, flagged: false }), " ");
    // an open cell shows what it holds even under a flag
    assert_eq!(glyph_of(&Cell { content: 1, opened: true, flagged: true }), "\x1b[94m1\x1b[0m");
}

#[test]
fn a_single_covered_cell_is_drawn_in_a_box() {
    let board = Board::<1, 1, 0>::blank();
    let expected = String::new()
        + "\x1b[90m\u{250F}\u{2501}\u{2501}\u{2501}\u{2533}\x08\u{2513}\x1b[0m\n\r"
        + "\x1b[90m\u{2503}\x1b[0m \u{25A0}\x1b[90m \x1b[0m"
        + "\x1b[90m\u{2503}\n\r\u{2523}\u{2501}\u{2501}\u{2501}\u{254B}\x08\u{252B}\x1b[0m\n\r"
        + "\x1b[1A\x1b[90m\r\u{2517}\u{2501}\u{2501}\u{2501}\u{253B}\x08\u{251B}\x1b[0m";
    assert_eq!(board.draw(), expected);
}

#[test]
fn a_board_in_play_is_drawn_row_by_row() {
    let mut board = Board::<2, 2, 1>::blank();
    assert_eq!(board.place_mine(&vec![], 0), (0, 0));
    board.set_nums();
    assert!(!board.open(1, 1));
    board.toggle_flag(0, 0);
    let cell = |text: &str| format!("\x1b[90m\u{2503}\x1b[0m {}\x1b[90m \x1b[0m", text);
    let rule = |joint: &str| format!("\u{2501}\u{2501}\u{2501}{}", joint).repeat(2);
    let row_end =
        format!("\x1b[90m\u{2503}\n\r\u{2523}{}\x08\u{252B}\x1b[0m\n\r", rule("\u{254B}"));
    let expected = format!("\x1b[90m\u{250F}{}\x08\u{2513}\x1b[0m\n\r", rule("\u{2533}"))
        + &cell("\x1b[33m\u{2691}\x1b[0m")
        + &cell("\u{25A0}")
        + &row_end
        + &cell("\u{25A0}")
        + &cell("\x1b[94m1\x1b[0m")
        + &row_end
        + &format!("\x1b[1A\x1b[90m\r\u{2517}{}\x08\u{251B}\x1b[0m", rule("\u{253B}"));
    assert_eq!(board.draw(), expected);
}

#[test]
fn a_lost_board_shows_its_mines() {
    let mut board = Board::<1, 2, 1>::blank();
    assert_eq!(board.place_mine(&vec![], 1), (0, 1));
    board.set_nums();
    assert!(board.open(0, 1));
    board.reveal_all();
    let frame = board.draw();
    assert!(frame.contains("\x1b[94m1\x1b[0m"));
    assert!(frame.contains("\x1b[91;1m\u{273B}\x1b[0m"));
    assert!(!frame.contains("\u{25A0}"));
}
