//! Placing and lifting flags.

use vstd::prelude::*;
use crate::board::Board;
use crate::cell::Cell;
use crate::grid::{
    around_with_upto, before, cells_with, exclusive, lemma_around_with_ends, lemma_around_with_step,
    lemma_cells_with_finite, lemma_put_cells_with, lists_neighbours, positions, put, rectangular,
    span, Mark,
};
use crate::rules::{chord_flags, flags_after_toggle, lemma_around_with_upto_is_before, toggled};

verus! {

impl<const ROWS: usize, const COLUMNS: usize, const MINES: usize> Board<ROWS, COLUMNS, MINES> {
    /// Toggles the flag at row `r`, column `c`. A covered cell loses its flag
    /// or, if a flag is in hand, gains one. An open cell that shows as many
    /// mines as it has covered neighbours has its hidden neighbours flagged,
    /// in reading order, for as long as flags last.
    pub fn toggle_flag(&mut self, r: usize, c: usize)
        requires
            old(self).wf(),
            r < ROWS,
            c < COLUMNS,
        ensures
            final(self).wf(),
            final(self)@ == toggled(
                old(self)@,
                old(self).spec_flags_left() as int,
                r as int,
                c as int,
            ),
            final(self).spec_flags_left() == flags_after_toggle(
                old(self)@,
                old(self).spec_flags_left() as int,
                r as int,
                c as int,
            ),
            final(self).spec_spaces_left() == old(self).spec_spaces_left(),
            exclusive(old(self)@) ==> exclusive(final(self)@),
        decreases
                (if old(self)@[r as int][c as int].opened {
                    1nat
                } else {
                    0nat
                }),
    {
        let ghost g = self@;
        let ghost flags = self.flags_left as int;
        let ghost here = (r as int, c as int);
        let cell = *self.cell_at(r, c);
        proof {
            lemma_cells_with_finite(g, Mark::Flag, ROWS as int, COLUMNS as int);
        }
        if !cell.opened {
            if cell.flagged {
                proof {
                    let lifted = Cell { flagged: false, ..cell };
                    lemma_put_cells_with(g, here, lifted, Mark::Flag);
                    assert(cells_with(g, Mark::Flag).contains(here));
                    assert(cells_with(put(g, here, lifted), Mark::Open) =~= cells_with(
                        g,
                        Mark::Open,
                    ));
                }
                self.set_cell(r, c, Cell { flagged: false, ..cell });
                self.flags_left += 1;
            } else if self.flags_left > 0 {
                proof {
                    let set = Cell { flagged: true, ..cell };
                    lemma_put_cells_with(g, here, set, Mark::Flag);
                    assert(cells_with(put(g, here, set), Mark::Open) =~= cells_with(
                        g,
                        Mark::Open,
                    ));
                }
                self.set_cell(r, c, Cell { flagged: true, ..cell });
                self.flags_left -= 1;
            }
        } else {
            let adjs = Self::adjs(r, c);
            let closed = self.count_around(r, c, &adjs, Mark::Closed);
            if closed == cell.content {
                let ghost ps = positions(adjs@);
                proof {
                    lemma_around_with_ends(
                        g,
                        adjs@,
                        r as int,
                        c as int,
                        ROWS as int,
                        COLUMNS as int,
                        Mark::Hidden,
                    );
                }
                for i in 0..adjs.len()
                    invariant
                        self.wf(),
                        r < ROWS,
                        c < COLUMNS,
                        here == (r as int, c as int),
                        g == old(self)@,
                        g[r as int][c as int].opened,
                        ps == positions(adjs@),
                        rectangular(g, ROWS as int, COLUMNS as int),
                        lists_neighbours(adjs@, r as int, c as int, ROWS as int, COLUMNS as int),
                        self.spec_spaces_left() == old(self).spec_spaces_left(),
                        around_with_upto(g, adjs@, i as int, Mark::Hidden).finite(),
                        self.flags_left == flags - vstd::math::min(
                            flags,
                            around_with_upto(g, adjs@, i as int, Mark::Hidden).len() as int,
                        ),
                        forall|a: int, b: int|
                            0 <= a < ROWS && 0 <= b < COLUMNS ==> #[trigger] self@[a][b]
                                == if around_with_upto(g, adjs@, i as int, Mark::Hidden).contains(
                                (a, b),
                            ) && chord_flags(g, flags, r as int, c as int, (a, b)) {
                                Cell { flagged: true, ..g[a][b] }
                            } else {
                                g[a][b]
                            },
                {
                    let adj = adjs[i];
                    let ghost spot = (adj.0 as int, adj.1 as int);
                    proof {
                        assert(ps[i as int] == spot);
                        assert(span(ROWS as int, COLUMNS as int).contains(ps[i as int]));
                        // the hidden neighbours passed so far are those before `spot`,
                        // and `spot` is not among them
                        lemma_around_with_step(
                            g,
                            adjs@,
                            r as int,
                            c as int,
                            ROWS as int,
                            COLUMNS as int,
                            i as int,
                            Mark::Hidden,
                        );
                        lemma_around_with_upto_is_before(
                            g,
                            adjs@,
                            r as int,
                            c as int,
                            ROWS as int,
                            COLUMNS as int,
                            i as int,
                            Mark::Hidden,
                        );
                        assert(self@[spot.0][spot.1] == g[spot.0][spot.1]);
                    }
                    let there = *self.cell_at(adj.0, adj.1);
                    if !(there.opened || there.flagged) {
                        self.toggle_flag(adj.0, adj.1);
                    }
                }
                proof {
                    let end = toggled(g, flags, r as int, c as int);
                    assert forall|a: int, b: int|
                        0 <= a < ROWS && 0 <= b < COLUMNS implies #[trigger] self@[a][b]
                        == end[a][b] by {}
                    assert(self@ =~~= end);
                }
            }
        }
    }
}

} // verus!
