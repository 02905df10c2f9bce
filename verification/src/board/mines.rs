//! Laying the mines and numbering the cells around them.

use vstd::prelude::*;
use vstd::pervasive::unreached;
use crate::board::Board;
use crate::cell::{Cell, MINE};
use crate::chance::random_below;
use crate::grid::{
    around_with, before, cells_with, exclusive, free_cells, free_cells_before, fresh_or_mine,
    lemma_around_with_finite, lemma_free_cells_before, lemma_free_cells_before_step, lemma_lay_mine,
    lemma_mines_and_free, numbered, positions, put, rectangular, unavoided, Mark, Pos,
};

verus! {

impl<const ROWS: usize, const COLUMNS: usize, const MINES: usize> Board<ROWS, COLUMNS, MINES> {
    /// Whether row `r`, column `c` is on the list `avoid`.
    fn listed(avoid: &Vec<(usize, usize)>, r: usize, c: usize) -> (found: bool)
        ensures
            found == positions(avoid@).contains((r as int, c as int)),
    {
        let ghost ps = positions(avoid@);
        for i in 0..avoid.len()
            invariant
                ps == positions(avoid@),
                forall|j: int| 0 <= j < i ==> #[trigger] ps[j] != (r as int, c as int),
        {
            let spot = avoid[i];
            if spot.0 == r && spot.1 == c {
                assert(ps[i as int] == (r as int, c as int));
                return true;
            }
        }
        false
    }

    /// How many cells could take a mine: those that hold none and are not on
    /// the list `avoid`. Entries of `avoid` off the grid count for nothing.
    pub fn free_cells(&self, avoid: &Vec<(usize, usize)>) -> (n: usize)
        requires
            self.wf(),
        ensures
            n == free_cells(self@, positions(avoid@)).len(),
    {
        let mut n: usize = 0;
        let ghost g = self@;
        let ghost ps = positions(avoid@);
        proof {
            lemma_free_cells_before(g, ps, ROWS as int, COLUMNS as int, 0, 0);
        }
        for r in 0..ROWS
            invariant
                self@ == g,
                self.shaped(),
                ps == positions(avoid@),
                n == free_cells_before(g, ps, (r as int, 0)).len(),
        {
            for c in 0..COLUMNS
                invariant
                    r < ROWS,
                    self@ == g,
                    self.shaped(),
                    ps == positions(avoid@),
                    n == free_cells_before(g, ps, (r as int, c as int)).len(),
            {
                proof {
                    let (ri, ci) = (r as int, c as int);
                    lemma_free_cells_before_step(g, ps, ROWS as int, COLUMNS as int, ri, ci);
                    lemma_free_cells_before(g, ps, ROWS as int, COLUMNS as int, ri, ci);
                    lemma_free_cells_before(g, ps, ROWS as int, COLUMNS as int, ri, ci + 1);
                }
                if !self.cell_at(r, c).is_mine() && !Self::listed(avoid, r, c) {
                    n += 1;
                }
            }
            proof {
                if COLUMNS == 0 {
                    assert(free_cells_before(g, ps, (r as int, 0)) =~= free_cells_before(
                        g,
                        ps,
                        (r as int + 1, 0),
                    ));
                } else {
                    lemma_free_cells_before_step(
                        g,
                        ps,
                        ROWS as int,
                        COLUMNS as int,
                        r as int,
                        COLUMNS as int - 1,
                    );
                }
            }
        }
        proof {
            lemma_free_cells_before(g, ps, ROWS as int, COLUMNS as int, ROWS as int, 0);
        }
        n
    }

    /// Lays a mine on the free cell that has exactly `k` free cells before
    /// it in reading order, and says where it went.
    pub fn place_mine(&mut self, avoid: &Vec<(usize, usize)>, k: usize) -> (spot: (usize, usize))
        requires
            old(self).wf(),
            k < free_cells(old(self)@, positions(avoid@)).len(),
        ensures
            final(self).wf(),
            free_cells(old(self)@, positions(avoid@)).contains((spot.0 as int, spot.1 as int)),
            free_cells_before(
                old(self)@,
                positions(avoid@),
                (spot.0 as int, spot.1 as int),
            ).len() == k,
            final(self)@ == put(
                old(self)@,
                (spot.0 as int, spot.1 as int),
                Cell { content: MINE, ..old(self)@[spot.0 as int][spot.1 as int] },
            ),
            final(self).spec_flags_left() == old(self).spec_flags_left(),
            final(self).spec_spaces_left() == old(self).spec_spaces_left(),
            exclusive(old(self)@) ==> exclusive(final(self)@),
    {
        let mut seen: usize = 0;
        let ghost g = self@;
        let ghost ps = positions(avoid@);
        proof {
            lemma_free_cells_before(g, ps, ROWS as int, COLUMNS as int, 0, 0);
        }
        for r in 0..ROWS
            invariant
                self@ == g,
                *self == *old(self),
                self.wf(),
                ps == positions(avoid@),
                k < free_cells(g, ps).len(),
                seen == free_cells_before(g, ps, (r as int, 0)).len(),
                seen <= k,
        {
            for c in 0..COLUMNS
                invariant
                    r < ROWS,
                    self@ == g,
                    *self == *old(self),
                    self.wf(),
                    ps == positions(avoid@),
                    k < free_cells(g, ps).len(),
                    seen == free_cells_before(g, ps, (r as int, c as int)).len(),
                    seen <= k,
            {
                proof {
                    let (ri, ci) = (r as int, c as int);
                    lemma_free_cells_before_step(g, ps, ROWS as int, COLUMNS as int, ri, ci);
                    lemma_free_cells_before(g, ps, ROWS as int, COLUMNS as int, ri, ci);
                }
                let cell = *self.cell_at(r, c);
                if !cell.is_mine() && !Self::listed(avoid, r, c) {
                    if seen == k {
                        proof {
                            let p = (r as int, c as int);
                            let mine = Cell { content: MINE, ..cell };
                            assert(cells_with(put(g, p, mine), Mark::Flag) =~= cells_with(
                                g,
                                Mark::Flag,
                            ));
                            assert(cells_with(put(g, p, mine), Mark::Open) =~= cells_with(
                                g,
                                Mark::Open,
                            ));
                        }
                        self.set_cell(r, c, Cell { content: MINE, ..cell });
                        return (r, c);
                    }
                    seen += 1;
                }
            }
            proof {
                if COLUMNS == 0 {
                    assert(free_cells_before(g, ps, (r as int, 0)) =~= free_cells_before(
                        g,
                        ps,
                        (r as int + 1, 0),
                    ));
                } else {
                    lemma_free_cells_before_step(
                        g,
                        ps,
                        ROWS as int,
                        COLUMNS as int,
                        r as int,
                        COLUMNS as int - 1,
                    );
                }
            }
        }
        proof {
            lemma_free_cells_before(g, ps, ROWS as int, COLUMNS as int, ROWS as int, 0);
        }
        unreached()
    }

    /// Clears the board and lays the mines at random, none of them on a cell
    /// of the list `avoid`. A draw picks one of the cells that can still take
    /// a mine, each with the same chance, until the board holds its mines or
    /// no such cell is left.
    pub fn randomize(&mut self, avoid: &Vec<(usize, usize)>)
        requires
            old(self).wf(),
        ensures
            final(self).wf(),
            forall|r: int, c: int|
                0 <= r < ROWS && 0 <= c < COLUMNS ==> fresh_or_mine(#[trigger] final(self)@[r][c]),
            forall|r: int, c: int|
                0 <= r < ROWS && 0 <= c < COLUMNS && positions(avoid@).contains((r, c))
                    ==> (#[trigger] final(self)@[r][c]).content != MINE,
            cells_with(final(self)@, Mark::Mine).len() == vstd::math::min(
                Self::mine_count(),
                unavoided(ROWS as int, COLUMNS as int, positions(avoid@)).len() as int,
            ),
            exclusive(final(self)@),
            final(self).spec_flags_left() == Self::mine_count(),
            final(self).spec_spaces_left() == ROWS * COLUMNS,
    {
        self.clear();
        let ghost ps = positions(avoid@);
        let ghost room = unavoided(ROWS as int, COLUMNS as int, ps).len();
        let mut mines = self.mines();
        let ghost target = mines;
        let mut free = self.free_cells(avoid);
        proof {
            assert(cells_with(self@, Mark::Mine) =~= Set::<Pos>::empty());
            lemma_mines_and_free(self@, ps, ROWS as int, COLUMNS as int);
        }
        while mines > 0 && free > 0
            invariant
                self.wf(),
                ps == positions(avoid@),
                room == unavoided(ROWS as int, COLUMNS as int, ps).len(),
                room <= ROWS * COLUMNS,
                target == Self::mine_count(),
                forall|r: int, c: int|
                    0 <= r < ROWS && 0 <= c < COLUMNS ==> fresh_or_mine(#[trigger] self@[r][c]),
                forall|r: int, c: int|
                    0 <= r < ROWS && 0 <= c < COLUMNS && ps.contains((r, c)) ==> (
                    #[trigger] self@[r][c]).content != MINE,
                free == free_cells(self@, ps).len(),
                cells_with(self@, Mark::Mine).len() + free == room,
                cells_with(self@, Mark::Mine).len() + mines == target,
            decreases mines,
        {
            let k = random_below(free);
            let ghost g = self@;
            let spot = self.place_mine(avoid, k);
            proof {
                let p = (spot.0 as int, spot.1 as int);
                lemma_lay_mine(g, ps, p, ROWS as int, COLUMNS as int);
            }
            mines -= 1;
            free -= 1;
        }
        proof {
            assert(cells_with(self@, Mark::Flag) =~= Set::<Pos>::empty());
            assert(cells_with(self@, Mark::Open) =~= Set::<Pos>::empty());
        }
        self.refresh_vals();
    }

    /// Writes into every cell without a mine the number of mines that touch it.
    pub fn set_nums(&mut self)
        requires
            old(self).wf(),
        ensures
            final(self).wf(),
            forall|r: int, c: int|
                0 <= r < ROWS && 0 <= c < COLUMNS ==> #[trigger] final(self)@[r][c] == numbered(
                    old(self)@,
                    r,
                    c,
                ),
            final(self).spec_flags_left() == old(self).spec_flags_left(),
            final(self).spec_spaces_left() == old(self).spec_spaces_left(),
            exclusive(old(self)@) ==> exclusive(final(self)@),
    {
        let ghost g = self@;
        for r in 0..ROWS
            invariant
                self.shaped(),
                rectangular(g, ROWS as int, COLUMNS as int),
                self.spec_flags_left() == old(self).spec_flags_left(),
                self.spec_spaces_left() == old(self).spec_spaces_left(),
                forall|i: int, j: int|
                    0 <= i < ROWS && 0 <= j < COLUMNS ==> #[trigger] self@[i][j] == if i < r {
                        numbered(g, i, j)
                    } else {
                        g[i][j]
                    },
        {
            for c in 0..COLUMNS
                invariant
                    r < ROWS,
                    self.shaped(),
                    rectangular(g, ROWS as int, COLUMNS as int),
                    self.spec_flags_left() == old(self).spec_flags_left(),
                    self.spec_spaces_left() == old(self).spec_spaces_left(),
                    forall|i: int, j: int|
                        0 <= i < ROWS && 0 <= j < COLUMNS ==> #[trigger] self@[i][j] == if before(
                            (i, j),
                            (r as int, c as int),
                        ) {
                            numbered(g, i, j)
                        } else {
                            g[i][j]
                        },
            {
                let cell = *self.cell_at(r, c);
                if !cell.is_mine() {
                    let adjs = Self::adjs(r, c);
                    let n = self.count_around(r, c, &adjs, Mark::Mine);
                    proof {
                        assert forall|i: int, j: int|
                            0 <= i < ROWS && 0 <= j < COLUMNS implies (self@[i][j].content == MINE)
                            == (g[i][j].content == MINE) by {
                            lemma_around_with_finite(g, i, j, Mark::Mine);
                        }
                        assert(around_with(self@, r as int, c as int, Mark::Mine)
                            =~= around_with(g, r as int, c as int, Mark::Mine));
                    }
                    self.set_cell(r, c, Cell { content: n, ..cell });
                }
            }
        }
        proof {
            assert(cells_with(self@, Mark::Flag) =~= cells_with(g, Mark::Flag));
            assert(cells_with(self@, Mark::Open) =~= cells_with(g, Mark::Open));
            assert forall|r: int, c: int| 0 <= r < ROWS && 0 <= c < COLUMNS implies (
            #[trigger] self@[r][c]).content <= MINE by {
                lemma_around_with_finite(g, r, c, Mark::Mine);
            }
        }
    }
}

} // verus!
