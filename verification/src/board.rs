//! The board: its storage, its counters, and the operations that keep them in step.

use vstd::prelude::*;
use crate::cell::Cell;
use crate::grid::{
    adjacent, all_blank, around_with, around_with_upto, before, cells_with, cells_with_before,
    exclusive, has, is_neighbour_list_before, lemma_around_with_ends, lemma_around_with_step,
    lemma_cells_with_before, lemma_cells_with_before_step, lemma_neighbour_list_unique,
    lemma_neighbours, lemma_span_len, lists_neighbours, neighbours, positions, put, rectangular,
    sound_contents, span, Grid, Mark, Pos,
};

mod flag;
mod mines;
mod open;
pub mod render;

verus! {

/// A `ROWS` by `COLUMNS` minefield for `MINES` mines, or for as many as it
/// has cells if that is fewer.
pub struct Board<const ROWS: usize, const COLUMNS: usize, const MINES: usize> {
    board: Vec<Vec<Cell>>,
    flags_left: usize,
    spaces_left: usize,
}

impl<const ROWS: usize, const COLUMNS: usize, const MINES: usize> View for Board<
    ROWS,
    COLUMNS,
    MINES,
> {
    type V = Grid;

    closed spec fn view(&self) -> Grid {
        Seq::new(self.board@.len(), |r: int| self.board@[r]@)
    }
}

impl<const ROWS: usize, const COLUMNS: usize, const MINES: usize>
    std::ops::Index<(usize, usize)> for Board<ROWS, COLUMNS, MINES>
{
    type Output = Cell;

    /// The cell at row `idx.0`, column `idx.1`.
    fn index(&self, idx: (usize, usize)) -> (cell: &Cell)
        ensures
            *cell == self@[idx.0 as int][idx.1 as int],
    {
        self.cell_at(idx.0, idx.1)
    }
}

impl<const ROWS: usize, const COLUMNS: usize, const MINES: usize>
    vstd::std_specs::core::IndexSpecImpl<(usize, usize)> for Board<ROWS, COLUMNS, MINES>
{
    open spec fn index_req(&self, idx: &(usize, usize)) -> bool {
        self.shaped() && idx.0 < ROWS && idx.1 < COLUMNS
    }
}

impl<const ROWS: usize, const COLUMNS: usize, const MINES: usize> Board<ROWS, COLUMNS, MINES> {
    /// The flags the player may still place.
    pub closed spec fn spec_flags_left(&self) -> usize {
        self.flags_left
    }

    /// The cells that are still covered.
    pub closed spec fn spec_spaces_left(&self) -> usize {
        self.spaces_left
    }

    /// The number of mines the board holds: `MINES`, capped at the number of
    /// its cells.
    pub open spec fn mine_count() -> int {
        vstd::math::min(MINES as int, ROWS * COLUMNS)
    }

    /// The grid has the board's dimensions.
    pub open spec fn shaped(&self) -> bool {
        &&& rectangular(self@, ROWS as int, COLUMNS as int)
        &&& ROWS * COLUMNS <= usize::MAX
    }

    /// The board is well formed: it has its dimensions, every cell holds a
    /// count or a mine, and both counters agree with the cells.
    pub open spec fn wf(&self) -> bool {
        &&& self.shaped()
        &&& sound_contents(self@)
        &&& self.spec_flags_left() + cells_with(self@, Mark::Flag).len() == Self::mine_count()
        &&& self.spec_spaces_left() + cells_with(self@, Mark::Open).len() == ROWS * COLUMNS
    }

    /// A board on which nothing has happened yet.
    pub fn blank() -> (board: Self)
        requires
            ROWS * COLUMNS <= usize::MAX,
        ensures
            board.wf(),
            all_blank(board@),
            exclusive(board@),
            board.spec_flags_left() == Self::mine_count(),
            board.spec_spaces_left() == ROWS * COLUMNS,
    {
        let mut rows: Vec<Vec<Cell>> = Vec::new();
        for r in 0..ROWS
            invariant
                rows@.len() == r,
                forall|i: int| 0 <= i < r ==> (#[trigger] rows@[i])@.len() == COLUMNS,
                forall|i: int, j: int|
                    0 <= i < r && 0 <= j < COLUMNS ==> #[trigger] rows@[i]@[j] == Cell::blank(),
        {
            let mut row: Vec<Cell> = Vec::new();
            for c in 0..COLUMNS
                invariant
                    row@.len() == c,
                    forall|j: int| 0 <= j < c ==> #[trigger] row@[j] == Cell::blank(),
            {
                row.push(Cell::default());
            }
            rows.push(row);
        }
        let board = Board { board: rows, flags_left: Self::capped(), spaces_left: ROWS * COLUMNS };
        proof {
            assert(cells_with(board@, Mark::Flag) =~= Set::<Pos>::empty());
            assert(cells_with(board@, Mark::Open) =~= Set::<Pos>::empty());
        }
        board
    }

    /// The number of rows.
    pub fn rows(&self) -> (n: usize)
        ensures
            n == ROWS,
    {
        ROWS
    }

    /// The number of columns.
    pub fn columns(&self) -> (n: usize)
        ensures
            n == COLUMNS,
    {
        COLUMNS
    }

    /// The number of mines the board holds.
    pub fn mines(&self) -> (n: usize)
        ensures
            n == Self::mine_count(),
    {
        Self::capped()
    }

    /// `MINES`, capped at the number of cells.
    fn capped() -> (n: usize)
        ensures
            n == Self::mine_count(),
    {
        match ROWS.checked_mul(COLUMNS) {
            Some(cells) => if MINES < cells {
                MINES
            } else {
                cells
            },
            None => MINES,
        }
    }

    /// The flags the player may still place.
    #[verifier::when_used_as_spec(spec_flags_left)]
    pub fn flags_left(&self) -> (n: usize)
        ensures
            n == self.spec_flags_left(),
    {
        self.flags_left
    }

    /// The cells that are still covered.
    #[verifier::when_used_as_spec(spec_spaces_left)]
    pub fn spaces_left(&self) -> (n: usize)
        ensures
            n == self.spec_spaces_left(),
    {
        self.spaces_left
    }

    /// The cell at row `r`, column `c`.
    pub fn cell_at(&self, r: usize, c: usize) -> (cell: &Cell)
        requires
            self.shaped(),
            r < ROWS,
            c < COLUMNS,
        ensures
            *cell == self@[r as int][c as int],
    {
        assert(self@[r as int] == self.board@[r as int]@);
        &self.board[r][c]
    }

    /// Replaces the cell at row `r`, column `c`; the counters are left as they are.
    fn set_cell(&mut self, r: usize, c: usize, cell: Cell)
        requires
            old(self).shaped(),
            r < ROWS,
            c < COLUMNS,
        ensures
            final(self).shaped(),
            final(self)@ == put(old(self)@, (r as int, c as int), cell),
            final(self).spec_flags_left() == old(self).spec_flags_left(),
            final(self).spec_spaces_left() == old(self).spec_spaces_left(),
    {
        assert(self@[r as int] == self.board@[r as int]@);
        self.board[r][c] = cell;
        proof {
            assert(self@ =~~= put(old(self)@, (r as int, c as int), cell));
        }
    }

    /// Whether `cell` has the property `m`.
    fn marked(cell: &Cell, m: Mark) -> (b: bool)
        ensures
            b == has(*cell, m),
    {
        match m {
            Mark::Mine => cell.is_mine(),
            Mark::Flag => cell.flagged,
            Mark::Open => cell.opened,
            Mark::Closed => !cell.opened,
            Mark::Hidden => !cell.opened && !cell.flagged,
            Mark::ToFlag => cell.flagged || !cell.opened,
        }
    }

    /// Puts every cell back to its fresh state and resets both counters.
    pub fn clear(&mut self)
        requires
            old(self).wf(),
        ensures
            final(self).wf(),
            all_blank(final(self)@),
            exclusive(final(self)@),
            final(self).spec_flags_left() == Self::mine_count(),
            final(self).spec_spaces_left() == ROWS * COLUMNS,
    {
        for r in 0..ROWS
            invariant
                self.shaped(),
                forall|i: int, j: int|
                    0 <= i < r && 0 <= j < COLUMNS ==> #[trigger] self@[i][j] == Cell::blank(),
        {
            for c in 0..COLUMNS
                invariant
                    r < ROWS,
                    self.shaped(),
                    forall|i: int, j: int|
                        0 <= i < ROWS && 0 <= j < COLUMNS && before((i, j), (r as int, c as int))
                            ==> #[trigger] self@[i][j] == Cell::blank(),
            {
                self.set_cell(r, c, Cell::default());
            }
        }
        proof {
            assert(cells_with(self@, Mark::Flag) =~= Set::<Pos>::empty());
            assert(cells_with(self@, Mark::Open) =~= Set::<Pos>::empty());
        }
        self.refresh_vals();
    }

    /// Opens every cell, flagged or not.
    pub fn reveal_all(&mut self)
        requires
            old(self).wf(),
        ensures
            final(self).wf(),
            forall|r: int, c: int|
                0 <= r < ROWS && 0 <= c < COLUMNS ==> #[trigger] final(self)@[r][c] == (Cell {
                    opened: true,
                    ..old(self)@[r][c]
                }),
            final(self).spec_flags_left() == old(self).spec_flags_left(),
            final(self).spec_spaces_left() == 0,
    {
        let ghost g = self@;
        for r in 0..ROWS
            invariant
                self.shaped(),
                rectangular(g, ROWS as int, COLUMNS as int),
                forall|i: int, j: int|
                    0 <= i < ROWS && 0 <= j < COLUMNS ==> #[trigger] self@[i][j] == if i < r {
                        Cell { opened: true, ..g[i][j] }
                    } else {
                        g[i][j]
                    },
        {
            for c in 0..COLUMNS
                invariant
                    r < ROWS,
                    self.shaped(),
                    rectangular(g, ROWS as int, COLUMNS as int),
                    forall|i: int, j: int|
                        0 <= i < ROWS && 0 <= j < COLUMNS ==> #[trigger] self@[i][j] == if before(
                            (i, j),
                            (r as int, c as int),
                        ) {
                            Cell { opened: true, ..g[i][j] }
                        } else {
                            g[i][j]
                        },
            {
                let cell = *self.cell_at(r, c);
                self.set_cell(r, c, Cell { opened: true, ..cell });
            }
        }
        proof {
            assert(cells_with(self@, Mark::Flag) =~= cells_with(g, Mark::Flag));
            assert(cells_with(self@, Mark::Open) =~= span(ROWS as int, COLUMNS as int));
            lemma_span_len(ROWS as int, COLUMNS as int);
        }
        self.refresh_vals();
    }

    /// Whether every covered cell can be flagged: whether the board holds at
    /// least as many mines as cells would carry a flag then.
    pub fn can_flag_all(&self) -> (ok: bool)
        requires
            self.wf(),
        ensures
            ok == (cells_with(self@, Mark::ToFlag).len() <= Self::mine_count()),
    {
        self.count_with(Mark::ToFlag) <= self.mines()
    }

    /// Flags every cell that is still covered.
    pub fn flag_all(&mut self)
        requires
            old(self).wf(),
            cells_with(old(self)@, Mark::ToFlag).len() <= Self::mine_count(),
        ensures
            final(self).wf(),
            forall|r: int, c: int|
                0 <= r < ROWS && 0 <= c < COLUMNS ==> #[trigger] final(self)@[r][c] == (Cell {
                    flagged: old(self)@[r][c].flagged || !old(self)@[r][c].opened,
                    ..old(self)@[r][c]
                }),
            final(self).spec_spaces_left() == old(self).spec_spaces_left(),
            exclusive(old(self)@) ==> exclusive(final(self)@),
    {
        let ghost g = self@;
        for r in 0..ROWS
            invariant
                self.shaped(),
                rectangular(g, ROWS as int, COLUMNS as int),
                forall|i: int, j: int|
                    0 <= i < ROWS && 0 <= j < COLUMNS ==> #[trigger] self@[i][j] == if i < r {
                        Cell { flagged: g[i][j].flagged || !g[i][j].opened, ..g[i][j] }
                    } else {
                        g[i][j]
                    },
        {
            for c in 0..COLUMNS
                invariant
                    r < ROWS,
                    self.shaped(),
                    rectangular(g, ROWS as int, COLUMNS as int),
                    forall|i: int, j: int|
                        0 <= i < ROWS && 0 <= j < COLUMNS ==> #[trigger] self@[i][j] == if before(
                            (i, j),
                            (r as int, c as int),
                        ) {
                            Cell { flagged: g[i][j].flagged || !g[i][j].opened, ..g[i][j] }
                        } else {
                            g[i][j]
                        },
            {
                let cell = *self.cell_at(r, c);
                if !cell.opened {
                    self.set_cell(r, c, Cell { flagged: true, ..cell });
                }
            }
        }
        proof {
            assert(cells_with(self@, Mark::Flag) =~= cells_with(g, Mark::ToFlag));
            assert(cells_with(self@, Mark::Open) =~= cells_with(g, Mark::Open));
        }
        self.refresh_vals();
    }

    /// The neighbours of row `r`, column `c`, in reading order.
    pub fn adjs(r: usize, c: usize) -> (adjs: Vec<(usize, usize)>)
        requires
            r < ROWS,
            c < COLUMNS,
        ensures
            positions(adjs@) == neighbours(r as int, c as int, ROWS as int, COLUMNS as int),
            lists_neighbours(adjs@, r as int, c as int, ROWS as int, COLUMNS as int),
            adjs@.len() <= 8,
    {
        let mut adjs = Vec::<(usize, usize)>::new();
        let lbndr = if r == 0 { r } else { r - 1 };
        let lbndc = if c == 0 { c } else { c - 1 };
        let ubndr = if r + 1 < ROWS { r + 2 } else { ROWS };
        let ubndc = if c + 1 < COLUMNS { c + 2 } else { COLUMNS };
        let ghost (rows, cols) = (ROWS as int, COLUMNS as int);
        for adjr in lbndr..ubndr
            invariant
                r < ROWS,
                c < COLUMNS,
                lbndr == if r == 0 { 0 } else { r - 1 },
                lbndc == if c == 0 { 0 } else { c - 1 },
                ubndr == if r + 1 < ROWS { r + 2 } else { ROWS as int },
                ubndc == if c + 1 < COLUMNS { c + 2 } else { COLUMNS as int },
                (rows, cols) == (ROWS as int, COLUMNS as int),
                adjs@.len() <= 3 * (adjr - lbndr),
                adjr > r ==> adjs@.len() < 3 * (adjr - lbndr),
                is_neighbour_list_before(
                    positions(adjs@),
                    r as int,
                    c as int,
                    rows,
                    cols,
                    (adjr as int, lbndc as int),
                ),
        {
            for adjc in lbndc..ubndc
                invariant
                    r < ROWS,
                    c < COLUMNS,
                    lbndr <= adjr < ubndr,
                    lbndr == if r == 0 { 0 } else { r - 1 },
                    lbndc == if c == 0 { 0 } else { c - 1 },
                    ubndr == if r + 1 < ROWS { r + 2 } else { ROWS as int },
                    ubndc == if c + 1 < COLUMNS { c + 2 } else { COLUMNS as int },
                    (rows, cols) == (ROWS as int, COLUMNS as int),
                    adjs@.len() <= 3 * (adjr - lbndr) + (adjc - lbndc),
                    adjr > r || (adjr == r && adjc > c) ==> adjs@.len() < 3 * (adjr - lbndr) + (
                    adjc - lbndc),
                    is_neighbour_list_before(
                        positions(adjs@),
                        r as int,
                        c as int,
                        rows,
                        cols,
                        (adjr as int, adjc as int),
                    ),
            {
                let ghost was = positions(adjs@);
                if !(adjr == r && adjc == c) {
                    adjs.push((adjr, adjc));
                }
                proof {
                    let now = positions(adjs@);
                    let spot = (adjr as int, adjc as int);
                    assert forall|i: int| 0 <= i < was.len() implies now[i] == was[i] by {}
                    assert forall|p: Pos|
                        span(rows, cols).contains(p) && adjacent(p, (r as int, c as int)) && before(
                            p,
                            (adjr as int, adjc + 1),
                        ) implies now.contains(p) by {
                        if p == spot {
                            assert(now[was.len() as int] == p);
                        } else {
                            assert(was.contains(p));
                            let i = choose|i: int| 0 <= i < was.len() && was[i] == p;
                            assert(now[i] == p);
                        }
                    }
                }
            }
            proof {
                // no neighbour lies between the end of this row's stretch and
                // the start of the next row's
                let now = positions(adjs@);
                assert forall|p: Pos|
                    span(rows, cols).contains(p) && adjacent(p, (r as int, c as int)) && before(
                        p,
                        (adjr + 1, lbndc as int),
                    ) implies now.contains(p) by {
                    assert(before(p, (adjr as int, ubndc as int)));
                }
            }
        }
        proof {
            lemma_neighbours(r as int, c as int, ROWS as int, COLUMNS as int);
            lemma_neighbour_list_unique(
                positions(adjs@),
                neighbours(r as int, c as int, ROWS as int, COLUMNS as int),
                r as int,
                c as int,
                ROWS as int,
                COLUMNS as int,
            );
        }
        adjs
    }

    /// How many neighbours of row `r`, column `c` have the property `m`;
    /// `adjs` is the list of those neighbours.
    fn count_around(&self, r: usize, c: usize, adjs: &Vec<(usize, usize)>, m: Mark) -> (n: u8)
        requires
            self.shaped(),
            r < ROWS,
            c < COLUMNS,
            lists_neighbours(adjs@, r as int, c as int, ROWS as int, COLUMNS as int),
        ensures
            n == around_with(self@, r as int, c as int, m).len(),
            n <= 8,
    {
        let mut n: u8 = 0;
        proof {
            lemma_around_with_ends(
                self@,
                adjs@,
                r as int,
                c as int,
                ROWS as int,
                COLUMNS as int,
                m,
            );
        }
        for i in 0..adjs.len()
            invariant
                self.shaped(),
                r < ROWS,
                c < COLUMNS,
                lists_neighbours(adjs@, r as int, c as int, ROWS as int, COLUMNS as int),
                around_with_upto(self@, adjs@, i as int, m).finite(),
                n == around_with_upto(self@, adjs@, i as int, m).len(),
                n <= 8,
        {
            proof {
                lemma_around_with_step(
                    self@,
                    adjs@,
                    r as int,
                    c as int,
                    ROWS as int,
                    COLUMNS as int,
                    i as int,
                    m,
                );
                assert(span(ROWS as int, COLUMNS as int).contains(positions(adjs@)[i as int]));
            }
            let adj = adjs[i];
            if Self::marked(self.cell_at(adj.0, adj.1), m) {
                n += 1;
            }
        }
        n
    }

    /// How many cells have the property `m`.
    fn count_with(&self, m: Mark) -> (n: usize)
        requires
            self.shaped(),
        ensures
            n == cells_with(self@, m).len(),
    {
        let mut n: usize = 0;
        let ghost g = self@;
        let ghost (rows, cols) = (ROWS as int, COLUMNS as int);
        proof {
            assert(cells_with_before(g, m, (0, 0)) =~= Set::<Pos>::empty());
        }
        for r in 0..ROWS
            invariant
                self@ == g,
                self.shaped(),
                (rows, cols) == (ROWS as int, COLUMNS as int),
                n == cells_with_before(g, m, (r as int, 0)).len(),
        {
            for c in 0..COLUMNS
                invariant
                    r < ROWS,
                    self@ == g,
                    self.shaped(),
                    (rows, cols) == (ROWS as int, COLUMNS as int),
                    n == cells_with_before(g, m, (r as int, c as int)).len(),
            {
                proof {
                    let (ri, ci) = (r as int, c as int);
                    lemma_cells_with_before_step(g, m, rows, cols, ri, ci);
                    lemma_cells_with_before(g, m, rows, cols, ri, ci);
                    lemma_cells_with_before(g, m, rows, cols, ri, ci + 1);
                    assert(ri * COLUMNS + ci + 1 <= ROWS * COLUMNS) by (nonlinear_arith)
                        requires
                            0 <= ri < ROWS,
                            0 <= ci < COLUMNS,
                    ;
                }
                if Self::marked(self.cell_at(r, c), m) {
                    n += 1;
                }
            }
            proof {
                if COLUMNS == 0 {
                    assert(cells_with_before(g, m, (r as int, 0)) =~= cells_with_before(
                        g,
                        m,
                        (r as int + 1, 0),
                    ));
                } else {
                    lemma_cells_with_before_step(g, m, rows, cols, r as int, cols - 1);
                }
            }
        }
        proof {
            lemma_cells_with_before(g, m, rows, cols, rows, 0);
        }
        n
    }

    /// Recounts both counters from the cells.
    fn refresh_vals(&mut self)
        requires
            old(self).shaped(),
            sound_contents(old(self)@),
            cells_with(old(self)@, Mark::Flag).len() <= Self::mine_count(),
        ensures
            final(self)@ == old(self)@,
            final(self).wf(),
    {
        self.flags_left = Self::capped();
        self.spaces_left = ROWS * COLUMNS;
        let ghost g = self@;
        proof {
            assert(cells_with_before(g, Mark::Flag, (0, 0)) =~= Set::<Pos>::empty());
            assert(cells_with_before(g, Mark::Open, (0, 0)) =~= Set::<Pos>::empty());
        }
        for r in 0..ROWS
            invariant
                self@ == g,
                self.shaped(),
                cells_with(g, Mark::Flag).len() <= Self::mine_count(),
                self.flags_left + cells_with_before(g, Mark::Flag, (r as int, 0)).len()
                    == Self::mine_count(),
                self.spaces_left + cells_with_before(g, Mark::Open, (r as int, 0)).len() == ROWS
                    * COLUMNS,
        {
            for c in 0..COLUMNS
                invariant
                    r < ROWS,
                    self@ == g,
                    self.shaped(),
                    cells_with(g, Mark::Flag).len() <= Self::mine_count(),
                    self.flags_left + cells_with_before(g, Mark::Flag, (r as int, c as int)).len()
                        == Self::mine_count(),
                    self.spaces_left + cells_with_before(
                        g,
                        Mark::Open,
                        (r as int, c as int),
                    ).len() == ROWS * COLUMNS,
            {
                proof {
                    let (ri, ci) = (r as int, c as int);
                    let (rows, cols) = (ROWS as int, COLUMNS as int);
                    lemma_cells_with_before_step(g, Mark::Flag, rows, cols, ri, ci);
                    lemma_cells_with_before_step(g, Mark::Open, rows, cols, ri, ci);
                    lemma_cells_with_before(g, Mark::Flag, rows, cols, ri, ci);
                    lemma_cells_with_before(g, Mark::Open, rows, cols, ri, ci);
                    lemma_cells_with_before(g, Mark::Flag, rows, cols, ri, ci + 1);
                    assert(ri * COLUMNS + ci + 1 <= ROWS * COLUMNS) by (nonlinear_arith)
                        requires
                            0 <= ri < ROWS,
                            0 <= ci < COLUMNS,
                    ;
                }
                if self.board[r][c].flagged {
                    self.flags_left -= 1;
                }
                if self.board[r][c].opened {
                    self.spaces_left -= 1;
                }
            }
            proof {
                if COLUMNS == 0 {
                    assert(cells_with_before(g, Mark::Flag, (r as int, 0)) =~= cells_with_before(
                        g,
                        Mark::Flag,
                        (r as int + 1, 0),
                    ));
                    assert(cells_with_before(g, Mark::Open, (r as int, 0)) =~= cells_with_before(
                        g,
                        Mark::Open,
                        (r as int + 1, 0),
                    ));
                } else {
                    lemma_cells_with_before_step(
                        g,
                        Mark::Flag,
                        ROWS as int,
                        COLUMNS as int,
                        r as int,
                        COLUMNS as int - 1,
                    );
                    lemma_cells_with_before_step(
                        g,
                        Mark::Open,
                        ROWS as int,
                        COLUMNS as int,
                        r as int,
                        COLUMNS as int - 1,
                    );
                }
            }
        }
        proof {
            lemma_cells_with_before(g, Mark::Flag, ROWS as int, COLUMNS as int, ROWS as int, 0);
            lemma_cells_with_before(g, Mark::Open, ROWS as int, COLUMNS as int, ROWS as int, 0);
        }
    }
}

} // verus!
