//! What holds of every board, whatever moves were played on it.

use vstd::prelude::*;
use crate::board::Board;
use crate::cell::MINE;
use crate::grid::{
    around_with, cells_with, exclusive, in_grid, lemma_around_with_finite, lemma_cells_with_finite,
    lemma_span_len, numbered, rectangular, span, unavoided, with_flagged, Grid, Mark, Pos,
};
use crate::rules::{
    chord_flags, chord_targets, chorded, flags_after_toggle, lemma_around_with_before_len, spreads,
    toggled,
};

verus! {

/// The counters of a well-formed board stay in their ranges: no more flags
/// in hand than the board has mines, and as many spaces left as cells are
/// covered.
pub proof fn law_counters_in_range<const ROWS: usize, const COLUMNS: usize, const MINES: usize>(
    board: Board<ROWS, COLUMNS, MINES>,
)
    requires
        board.wf(),
    ensures
        board.spec_flags_left() + cells_with(board@, Mark::Flag).len() == Board::<
            ROWS,
            COLUMNS,
            MINES,
        >::mine_count(),
        board.spec_flags_left() <= Board::<ROWS, COLUMNS, MINES>::mine_count(),
        Board::<ROWS, COLUMNS, MINES>::mine_count() <= MINES,
        Board::<ROWS, COLUMNS, MINES>::mine_count() <= ROWS * COLUMNS,
        board.spec_spaces_left() + cells_with(board@, Mark::Open).len() == ROWS * COLUMNS,
        board.spec_spaces_left() == cells_with(board@, Mark::Closed).len(),
{
    let g = board@;
    let open = cells_with(g, Mark::Open);
    let closed = cells_with(g, Mark::Closed);
    lemma_cells_with_finite(g, Mark::Open, ROWS as int, COLUMNS as int);
    lemma_cells_with_finite(g, Mark::Closed, ROWS as int, COLUMNS as int);
    lemma_span_len(ROWS as int, COLUMNS as int);
    assert(open.disjoint(closed));
    assert(open.union(closed) =~= span(ROWS as int, COLUMNS as int));
    vstd::set_lib::lemma_set_disjoint_lens(open, closed);
}

/// Once the cells are numbered, the mines are where they were, and every
/// cell without a mine holds the number of mines that touch it, at most 8,
/// at the edges and in the corners as anywhere else.
pub proof fn law_numbers_count_mines(g: Grid, h: Grid, rows: int, cols: int)
    requires
        rectangular(g, rows, cols),
        rectangular(h, rows, cols),
        forall|r: int, c: int|
            0 <= r < rows && 0 <= c < cols ==> #[trigger] h[r][c] == numbered(g, r, c),
    ensures
        cells_with(h, Mark::Mine) == cells_with(g, Mark::Mine),
        forall|r: int, c: int|
            0 <= r < rows && 0 <= c < cols && (#[trigger] h[r][c]).content != MINE
                ==> h[r][c].content == around_with(h, r, c, Mark::Mine).len() && h[r][c].content
                <= 8,
{
    assert forall|r: int, c: int| 0 <= r < rows && 0 <= c < cols implies ((
    #[trigger] h[r][c]).content == MINE) == (g[r][c].content == MINE) by {
        lemma_around_with_finite(g, r, c, Mark::Mine);
    }
    assert(cells_with(h, Mark::Mine) =~= cells_with(g, Mark::Mine));
    assert forall|r: int, c: int|
        0 <= r < rows && 0 <= c < cols && (#[trigger] h[r][c]).content != MINE implies {
            &&& h[r][c].content == around_with(h, r, c, Mark::Mine).len()
            &&& h[r][c].content <= 8
        } by {
        lemma_around_with_finite(g, r, c, Mark::Mine);
        assert(around_with(h, r, c, Mark::Mine) =~= around_with(g, r, c, Mark::Mine));
    }
}

/// On a grid without flags an opening spreads from exactly the cells that
/// hold 0: what opens is the connected blank area and the numbers that
/// border it.
pub proof fn law_blank_cells_spread(g: Grid, p: Pos)
    requires
        in_grid(g, p),
        cells_with(g, Mark::Flag) == Set::<Pos>::empty(),
    ensures
        spreads(g, p) <==> g[p.0][p.1].content == 0,
{
    assert(around_with(g, p.0, p.1, Mark::Flag) =~= Set::<Pos>::empty()) by {
        assert forall|q: Pos| !around_with(g, p.0, p.1, Mark::Flag).contains(q) by {
            if around_with(g, p.0, p.1, Mark::Flag).contains(q) {
                assert(cells_with(g, Mark::Flag).contains(q));
            }
        }
    }
}

/// A chord with enough flags in hand flags exactly the hidden neighbours,
/// and takes one flag from the hand for each.
pub proof fn law_chord_flags_hidden_neighbours(g: Grid, flags: int, r: int, c: int)
    requires
        in_grid(g, (r, c)),
        chorded(g, r, c),
        around_with(g, r, c, Mark::Hidden).len() <= flags,
    ensures
        toggled(g, flags, r, c) == with_flagged(g, around_with(g, r, c, Mark::Hidden)),
        flags_after_toggle(g, flags, r, c) == flags - around_with(g, r, c, Mark::Hidden).len(),
{
    assert forall|q: Pos|
        chord_flags(g, flags, r, c, q) == around_with(g, r, c, Mark::Hidden).contains(q) by {
        lemma_around_with_before_len(g, r, c, Mark::Hidden, q);
    }
    assert(chord_targets(g, flags, r, c) =~= around_with(g, r, c, Mark::Hidden));
}

/// With no flag in hand a toggle on an open cell, chorded or not, places none.
pub proof fn law_no_flag_without_flags(g: Grid, r: int, c: int)
    requires
        in_grid(g, (r, c)),
        g[r][c].opened,
    ensures
        toggled(g, 0, r, c) == g,
        flags_after_toggle(g, 0, r, c) == 0,
{
    if chorded(g, r, c) {
        assert(chord_targets(g, 0, r, c) =~= Set::<Pos>::empty());
        assert(with_flagged(g, chord_targets(g, 0, r, c)) =~~= g);
    }
}

/// When the player has won, with as many cells covered as the board has
/// mines and no flag on an open cell, every covered cell may be flagged.
pub proof fn law_win_allows_flag_all<const ROWS: usize, const COLUMNS: usize, const MINES: usize>(
    board: Board<ROWS, COLUMNS, MINES>,
)
    requires
        board.wf(),
        exclusive(board@),
        board.spec_spaces_left() == Board::<ROWS, COLUMNS, MINES>::mine_count(),
    ensures
        cells_with(board@, Mark::ToFlag).len() <= Board::<ROWS, COLUMNS, MINES>::mine_count(),
{
    law_counters_in_range(board);
    let g = board@;
    assert(cells_with(g, Mark::ToFlag) =~= cells_with(g, Mark::Closed));
}

/// A list of cells to avoid takes at most one cell each from the room there
/// is for mines, and an empty list takes none: then the mines laid number
/// the smaller of the board's mine count and its cells.
pub proof fn law_room_for_mines(rows: int, cols: int, avoid: Seq<Pos>)
    requires
        0 <= rows,
        0 <= cols,
    ensures
        unavoided(rows, cols, avoid).finite(),
        unavoided(rows, cols, avoid).len() >= rows * cols - avoid.len(),
        unavoided(rows, cols, avoid).len() <= rows * cols,
        avoid.len() == 0 ==> unavoided(rows, cols, avoid).len() == rows * cols,
    decreases avoid.len(),
{
    lemma_span_len(rows, cols);
    vstd::set_lib::lemma_len_subset(unavoided(rows, cols, avoid), span(rows, cols));
    if avoid.len() == 0 {
        assert(unavoided(rows, cols, avoid) =~= span(rows, cols));
    } else {
        let rest = avoid.drop_last();
        let last = avoid.last();
        law_room_for_mines(rows, cols, rest);
        assert(unavoided(rows, cols, avoid) =~= unavoided(rows, cols, rest).remove(last)) by {
            assert forall|p: Pos| avoid.contains(p) == (rest.contains(p) || p == last) by {
                if avoid.contains(p) {
                    let i = choose|i: int| 0 <= i < avoid.len() && avoid[i] == p;
                    if i < rest.len() {
                        assert(rest[i] == p);
                    }
                }
                if rest.contains(p) {
                    let i = choose|i: int| 0 <= i < rest.len() && rest[i] == p;
                    assert(avoid[i] == p);
                }
                if p == last {
                    assert(avoid[avoid.len() - 1] == p);
                }
            }
        }
    }
}

} // verus!
