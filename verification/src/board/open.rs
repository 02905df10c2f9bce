//! Opening cells.

use vstd::prelude::*;
use vstd::set_lib::lemma_len_subset;
use crate::board::Board;
use crate::cell::{Cell, MINE};
use crate::grid::{
    adjacent, cells_with, exclusive, in_grid, lemma_cells_with_finite, lemma_put_cells_with,
    lemma_span_len, lists_neighbours, positions, put, rectangular, span, with_opened, Mark, Pos,
};
use crate::rules::{
    cascade, cascade_each, extends, fresh, fuel_for, lemma_covered_is_run_out, lemma_exclusive_kept,
    lemma_extends, lemma_opened_region, lemma_region_start, lemma_region_step, lemma_run_out_covers,
    passed, region, run_out, settled, spreads, uncovered,
};

verus! {

impl<const ROWS: usize, const COLUMNS: usize, const MINES: usize> Board<ROWS, COLUMNS, MINES> {
    /// Opens the cell at row `r`, column `c`, and says whether a mine came
    /// to light. A flag locks its cell. From a cell that shows as many mines
    /// as it has flagged neighbours the opening spreads to every hidden
    /// neighbour, and on from there; it stops at the first mine it uncovers.
    ///
    /// The contract says it twice over. By what is reached: only cells of
    /// the region of the start are opened; a mine comes to light exactly if
    /// the region holds one; if none does, the whole region is open
    /// afterwards. And step by step: the outcome is that of `cascade`, which
    /// also fixes how far the opening got when it ran into a mine.
    pub fn open(&mut self, r: usize, c: usize) -> (hit: bool)
        requires
            old(self).wf(),
            r < ROWS,
            c < COLUMNS,
        ensures
            final(self).wf(),
            extends(old(self)@, final(self)@),
            final(self).spec_flags_left() == old(self).spec_flags_left(),
            final(self).spec_spaces_left() <= old(self).spec_spaces_left(),
            old(self)@[r as int][c as int].flagged ==> !hit && final(self)@ == old(self)@
                && final(self).spec_spaces_left() == old(self).spec_spaces_left(),
            !old(self)@[r as int][c as int].flagged && old(self)@[r as int][c as int].content
                == MINE ==> hit && final(self)@ == uncovered(old(self)@, (r as int, c as int)),
            forall|q: Pos|
                fresh(old(self)@, final(self)@, q) ==> #[trigger] region(
                    old(self)@,
                    (r as int, c as int),
                ).contains(q),
            hit <==> exists|q: Pos|
                #[trigger] region(old(self)@, (r as int, c as int)).contains(q)
                    && old(self)@[q.0][q.1].content == MINE,
            hit ==> exists|q: Pos|
                #[trigger] region(old(self)@, (r as int, c as int)).contains(q)
                    && old(self)@[q.0][q.1].content == MINE && final(self)@[q.0][q.1].opened,
            !hit ==> final(self)@ == with_opened(
                old(self)@,
                region(old(self)@, (r as int, c as int)),
            ),
            exclusive(old(self)@) ==> exclusive(final(self)@),
            forall|fuel: nat|
                fuel >= fuel_for(
                    old(self)@,
                    (r as int, c as int),
                    old(self).spec_spaces_left() as nat,
                ) ==> #[trigger] cascade(old(self)@, (r as int, c as int), fuel) == (
                    final(self)@,
                    hit,
                ),
        decreases
                old(self).spec_spaces_left(),
                (if old(self)@[r as int][c as int].opened {
                    1nat
                } else {
                    0nat
                }),
    {
        let ghost g = self@;
        let ghost here = (r as int, c as int);
        let ghost least = fuel_for(g, here, self.spaces_left as nat);
        let cell = *self.cell_at(r, c);
        proof {
            lemma_region_start(g, here);
            lemma_cells_with_finite(g, Mark::Open, ROWS as int, COLUMNS as int);
        }
        if cell.flagged {
            proof {
                assert(self@ =~~= with_opened(g, region(g, here)));
            }
            return false;
        }
        if !cell.opened {
            proof {
                let shown = Cell { opened: true, ..cell };
                lemma_put_cells_with(g, here, shown, Mark::Open);
                assert(cells_with(put(g, here, shown), Mark::Flag) =~= cells_with(g, Mark::Flag));
                lemma_span_len(ROWS as int, COLUMNS as int);
                lemma_len_subset(cells_with(g, Mark::Open).insert(here), span(
                    ROWS as int,
                    COLUMNS as int,
                ));
            }
            self.set_cell(r, c, Cell { opened: true, ..cell });
            self.spaces_left -= 1;
        }
        let ghost g1 = self@;
        proof {
            assert(g1 =~~= uncovered(g, here));
            assert(least > 0);
            assert(extends(g, g1));
            assert forall|q: Pos| fresh(g, g1, q) implies q == here by {}
        }
        if cell.content == MINE {
            return true;
        }
        let adjs = Self::adjs(r, c);
        let flags = self.count_around(r, c, &adjs, Mark::Flag);
        proof {
            lemma_extends(g, g1);
            assert(spreads(g1, here) == spreads(g, here));
        }
        if cell.content == flags {
            let ghost ps = positions(adjs@);
            for i in 0..adjs.len()
                invariant
                    self.wf(),
                    least == fuel_for(g, here, old(self).spec_spaces_left() as nat),
                    least > 0,
                    forall|fuel: nat|
                        fuel >= least ==> #[trigger] cascade(g, here, fuel) == cascade_each(
                            self@,
                            ps,
                            i as nat,
                            (fuel - 1) as nat,
                        ),
                    r < ROWS,
                    c < COLUMNS,
                    here == (r as int, c as int),
                    g == old(self)@,
                    ps == positions(adjs@),
                    rectangular(g, ROWS as int, COLUMNS as int),
                    lists_neighbours(adjs@, r as int, c as int, ROWS as int, COLUMNS as int),
                    extends(g, self@),
                    !g[r as int][c as int].flagged,
                    g[r as int][c as int].content != MINE,
                    spreads(g, here),
                    self@[r as int][c as int].opened,
                    self.spec_flags_left() == old(self).spec_flags_left(),
                    self.spec_spaces_left() <= old(self).spec_spaces_left(),
                    !g[r as int][c as int].opened ==> self.spec_spaces_left() < old(
                        self,
                    ).spec_spaces_left(),
                    forall|q: Pos| fresh(g, self@, q) ==> #[trigger] region(g, here).contains(q),
                    forall|x: Pos| #[trigger]
                        passed(g, self@, here, x) && x != here ==> self@[x.0][x.1].content != MINE
                            && settled(self@, x),
                    forall|j: int|
                        0 <= j < i && !g[(#[trigger] ps[j]).0][ps[j].1].flagged
                            ==> self@[ps[j].0][ps[j].1].opened,
            {
                let adj = adjs[i];
                let ghost spot = (adj.0 as int, adj.1 as int);
                let ghost now = self@;
                proof {
                    assert(ps[i as int] == spot);
                    assert(span(ROWS as int, COLUMNS as int).contains(ps[i as int]));
                    assert(adjacent(ps[i as int], here));
                }
                let there = *self.cell_at(adj.0, adj.1);
                if !(there.flagged || there.opened) {
                    let hit = self.open(adj.0, adj.1);
                    proof {
                        let next = self@;
                        assert forall|fuel: nat| fuel >= least implies #[trigger] cascade(
                            g,
                            here,
                            fuel,
                        ) == (if hit {
                            (next, true)
                        } else {
                            cascade_each(next, ps, (i + 1) as nat, (fuel - 1) as nat)
                        }) by {
                            let rest = (fuel - 1) as nat;
                            assert(cascade(now, spot, rest) == (next, hit));
                            assert(cascade_each(now, ps, i as nat, rest) == (if hit {
                                (next, true)
                            } else {
                                cascade_each(next, ps, (i + 1) as nat, rest)
                            }));
                        }
                        lemma_extends(now, next);
                        lemma_region_start(now, spot);
                        assert forall|q: Pos| fresh(g, next, q) implies #[trigger] region(
                            g,
                            here,
                        ).contains(q) by {
                            if !fresh(g, now, q) {
                                assert(fresh(now, next, q));
                                assert(region(now, spot).contains(q));
                                lemma_region_step(g, now, here, spot, q);
                            }
                        }
                        lemma_exclusive_kept(g, next, here);
                        if hit {
                            let q = choose|q: Pos|
                                #[trigger] region(now, spot).contains(q) && now[q.0][q.1].content
                                    == MINE && next[q.0][q.1].opened;
                            assert(in_grid(now, q));
                            assert(region(g, here).contains(q) && g[q.0][q.1].content == MINE
                                && next[q.0][q.1].opened);
                        } else {
                            assert forall|q: Pos| #[trigger]
                                region(now, spot).contains(q) implies next[q.0][q.1].opened
                                && next[q.0][q.1].content != MINE by {
                                assert(in_grid(now, q));
                            }
                            lemma_covered_is_run_out(now, next, spot);
                            assert forall|x: Pos| #[trigger]
                                passed(g, next, here, x) && x != here implies next[x.0][x.1].content
                                != MINE && settled(next, x) by {
                                if fresh(g, now, x) {
                                    assert(passed(g, now, here, x));
                                    assert(in_grid(now, x));
                                } else {
                                    assert(fresh(now, next, x));
                                    assert(passed(now, next, spot, x));
                                }
                            }
                            assert(next[spot.0][spot.1].opened);
                        }
                    }
                    if hit {
                        return true;
                    }
                } else {
                    proof {
                        assert forall|fuel: nat| fuel >= least implies #[trigger] cascade(
                            g,
                            here,
                            fuel,
                        ) == cascade_each(now, ps, (i + 1) as nat, (fuel - 1) as nat) by {
                            let rest = (fuel - 1) as nat;
                            assert(cascade_each(now, ps, i as nat, rest) == cascade_each(
                                now,
                                ps,
                                (i + 1) as nat,
                                rest,
                            ));
                        }
                    }
                }
            }
            proof {
                let end = self@;
                assert forall|fuel: nat| fuel >= least implies #[trigger] cascade(g, here, fuel)
                    == (end, false) by {
                    assert(cascade_each(end, ps, adjs@.len() as nat, (fuel - 1) as nat) == (
                        end,
                        false,
                    ));
                }
                assert(settled(end, here)) by {
                    assert forall|y: Pos|
                        in_grid(end, y) && #[trigger] adjacent(y, here)
                            && !end[y.0][y.1].flagged implies end[y.0][y.1].opened by {
                        assert(span(ROWS as int, COLUMNS as int).contains(y));
                        assert(ps.contains(y));
                        let j = choose|j: int| 0 <= j < ps.len() && ps[j] == y;
                        assert(!g[ps[j].0][ps[j].1].flagged);
                    }
                }
                assert(run_out(g, end, here)) by {
                    assert forall|x: Pos| #[trigger] passed(g, end, here, x) implies {
                        &&& end[x.0][x.1].content != MINE
                        &&& settled(end, x)
                    } by {}
                }
                assert forall|q: Pos| #[trigger] region(g, here).contains(q) implies {
                    &&& end[q.0][q.1].opened
                    &&& g[q.0][q.1].content != MINE
                } by {
                    lemma_run_out_covers(g, end, here, q);
                }
                lemma_opened_region(g, end, here);
            }
            false
        } else {
            proof {
                assert(!spreads(g, here));
                lemma_opened_region(g, g1, here);
            }
            false
        }
    }
}

} // verus!
