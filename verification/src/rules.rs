//! What the player's moves do to a grid, stated on the model.

use vstd::prelude::*;
use vstd::set_lib::lemma_len_subset;
use crate::cell::{Cell, MINE};
use crate::grid::{
    adjacent, around_with, around_with_upto, before, exclusive, has, in_grid,
    lemma_around_with_finite, lists_neighbours, neighbours, positions, put, rectangular, span,
    with_flagged, with_opened, Grid, Mark, Pos,
};

verus! {

/// The neighbours of `(r, c)` with the property `m` that reading order
/// reaches before `q`.
pub open spec fn around_with_before(g: Grid, r: int, c: int, m: Mark, q: Pos) -> Set<Pos> {
    Set::new(
        |p: Pos| in_grid(g, p) && adjacent(p, (r, c)) && has(g[p.0][p.1], m) && before(p, q),
    )
}

/// The cell at `(r, c)` is open and shows exactly as many mines as it has
/// covered neighbours, so each of those must hide a mine.
pub open spec fn chorded(g: Grid, r: int, c: int) -> bool {
    g[r][c].opened && around_with(g, r, c, Mark::Closed).len() == g[r][c].content
}

/// Whether a chord on `(r, c)` with `flags` flags in hand puts a flag on
/// `q`: `q` is a hidden neighbour, and fewer than `flags` hidden neighbours
/// come before it in reading order.
pub open spec fn chord_flags(g: Grid, flags: int, r: int, c: int, q: Pos) -> bool {
    &&& around_with(g, r, c, Mark::Hidden).contains(q)
    &&& around_with_before(g, r, c, Mark::Hidden, q).len() < flags
}

/// The cells that a chord on `(r, c)` with `flags` flags in hand puts a flag on.
pub open spec fn chord_targets(g: Grid, flags: int, r: int, c: int) -> Set<Pos> {
    Set::new(|q: Pos| chord_flags(g, flags, r, c, q))
}

/// The grid after the player toggles the flag at `(r, c)` with `flags`
/// flags in hand. On a covered cell the flag comes off, or goes on if a
/// flag is in hand. On an open cell that is chorded, the hidden neighbours
/// are flagged in reading order for as long as flags last.
pub open spec fn toggled(g: Grid, flags: int, r: int, c: int) -> Grid {
    if !g[r][c].opened {
        if g[r][c].flagged {
            put(g, (r, c), Cell { flagged: false, ..g[r][c] })
        } else if flags > 0 {
            put(g, (r, c), Cell { flagged: true, ..g[r][c] })
        } else {
            g
        }
    } else if chorded(g, r, c) {
        with_flagged(g, chord_targets(g, flags, r, c))
    } else {
        g
    }
}

/// The flags in hand after the player toggles the flag at `(r, c)`.
pub open spec fn flags_after_toggle(g: Grid, flags: int, r: int, c: int) -> int {
    if !g[r][c].opened {
        if g[r][c].flagged {
            flags + 1
        } else if flags > 0 {
            flags - 1
        } else {
            flags
        }
    } else if chorded(g, r, c) {
        flags - vstd::math::min(flags, around_with(g, r, c, Mark::Hidden).len() as int)
    } else {
        flags
    }
}

/// An opening at `p` spreads to the neighbours of `p`: the cell holds no
/// mine and shows exactly as many mines as it has flagged neighbours.
pub open spec fn spreads(g: Grid, p: Pos) -> bool {
    &&& g[p.0][p.1].content != MINE
    &&& around_with(g, p.0, p.1, Mark::Flag).len() == g[p.0][p.1].content
}

/// `g` with the cell at `p` open.
pub open spec fn uncovered(g: Grid, p: Pos) -> Grid {
    put(g, p, Cell { opened: true, ..g[p.0][p.1] })
}

/// Fuel that is enough for an opening at `p` on a grid with `covered`
/// covered cells: one unit for each cell that can still be opened, and one
/// for the start if it is open already.
pub open spec fn fuel_for(g: Grid, p: Pos, covered: nat) -> nat {
    if g[p.0][p.1].opened {
        covered + 1
    } else {
        covered
    }
}

/// The grid after the player opens `p`, and whether a mine came to light.
/// A flagged cell stays shut. Any other cell is opened; if it holds a mine
/// that ends it; if the opening spreads from it, its neighbours are taken
/// in reading order. `fuel` bounds how deep the opening may nest; each
/// nesting opens a cell, so one more than the number of covered cells is
/// always enough.
pub open spec fn cascade(g: Grid, p: Pos, fuel: nat) -> (Grid, bool)
    decreases fuel, 0nat,
{
    if g[p.0][p.1].flagged {
        (g, false)
    } else {
        let h = uncovered(g, p);
        if g[p.0][p.1].content == MINE {
            (h, true)
        } else if spreads(g, p) && fuel > 0 {
            cascade_each(
                h,
                neighbours(p.0, p.1, g.len() as int, g[p.0].len() as int),
                0,
                (fuel - 1) as nat,
            )
        } else {
            (h, false)
        }
    }
}

/// The same for the cells of `list` from the `i`-th on, one after the
/// other: a hidden one is opened, which may spread; the first mine ends it.
pub open spec fn cascade_each(g: Grid, list: Seq<Pos>, i: nat, fuel: nat) -> (Grid, bool)
    decreases fuel, 1 + list.len() - i,
{
    if i >= list.len() {
        (g, false)
    } else if has(g[list[i as int].0][list[i as int].1], Mark::Hidden) {
        let (h, hit) = cascade(g, list[i as int], fuel);
        if hit {
            (h, true)
        } else {
            cascade_each(h, list, i + 1, fuel)
        }
    } else {
        cascade_each(g, list, i + 1, fuel)
    }
}

/// `h` is `g` with some more cells opened: same shape, same contents, same
/// flags, and nothing closed again.
pub open spec fn extends(g: Grid, h: Grid) -> bool {
    &&& h.len() == g.len()
    &&& forall|r: int| 0 <= r < g.len() ==> (#[trigger] h[r]).len() == g[r].len()
    &&& forall|r: int, c: int|
        in_grid(g, (r, c)) ==> (#[trigger] h[r][c]).content == g[r][c].content && h[r][c].flagged
            == g[r][c].flagged && (g[r][c].opened ==> h[r][c].opened)
}

/// The cell at `q` was opened on the way from `g` to `h`.
pub open spec fn fresh(g: Grid, h: Grid, q: Pos) -> bool {
    in_grid(g, q) && h[q.0][q.1].opened && !g[q.0][q.1].opened
}

/// An opening at the first cell of `path` can travel along it: the first
/// cell is unflagged, every later cell is hidden, and each cell but the last
/// spreads to the next, which touches it.
pub open spec fn carries(g: Grid, path: Seq<Pos>) -> bool {
    &&& path.len() > 0
    &&& forall|i: int| 0 <= i < path.len() ==> in_grid(g, #[trigger] path[i])
    &&& !g[path[0].0][path[0].1].flagged
    &&& forall|i: int|
        0 < i < path.len() ==> has(g[(#[trigger] path[i]).0][path[i].1], Mark::Hidden)
    &&& forall|i: int|
        0 <= i < path.len() - 1 ==> spreads(g, #[trigger] path[i]) && adjacent(
            path[i + 1],
            path[i],
        )
}

/// An opening at `p` reaches `q`.
pub open spec fn reaches(g: Grid, p: Pos, q: Pos) -> bool {
    exists|path: Seq<Pos>| #[trigger] carries(g, path) && path[0] == p && path.last() == q
}

/// Every cell that an opening at `p` reaches: `p` itself unless it is
/// flagged, and, wherever a reached cell spreads, its hidden neighbours.
pub open spec fn region(g: Grid, p: Pos) -> Set<Pos> {
    Set::new(|q: Pos| reaches(g, p, q))
}

/// Nothing is left to do around `x`: if an opening spreads from it, all its
/// unflagged neighbours are open.
pub open spec fn settled(g: Grid, x: Pos) -> bool {
    spreads(g, x) ==> forall|y: Pos|
        in_grid(g, y) && #[trigger] adjacent(y, x) && !g[y.0][y.1].flagged ==> g[y.0][y.1].opened
}

/// The opening at `p` that led from `g` to `h` passed through `x`: it is
/// `p` itself or was opened on the way.
pub open spec fn passed(g: Grid, h: Grid, p: Pos, x: Pos) -> bool {
    fresh(g, h, x) || x == p
}

/// An opening at `p` has run its course from `g` to `h`: every cell it
/// passed through holds no mine and is settled.
pub open spec fn run_out(g: Grid, h: Grid, p: Pos) -> bool {
    forall|x: Pos| #[trigger] passed(g, h, p, x) ==> h[x.0][x.1].content != MINE && settled(h, x)
}

/// After `n` steps along the list of neighbours, the marked neighbours passed
/// are those that come before the next one on the list.
pub proof fn lemma_around_with_upto_is_before(
    g: Grid,
    list: Seq<(usize, usize)>,
    r: int,
    c: int,
    rows: int,
    cols: int,
    n: int,
    m: Mark,
)
    requires
        rectangular(g, rows, cols),
        lists_neighbours(list, r, c, rows, cols),
        0 <= n < list.len(),
    ensures
        around_with_upto(g, list, n, m) == around_with_before(g, r, c, m, positions(list)[n]),
{
    let ps = positions(list);
    let a = around_with_upto(g, list, n, m);
    let b = around_with_before(g, r, c, m, ps[n]);
    assert(a =~= b) by {
        assert forall|p: Pos| a.contains(p) implies b.contains(p) by {
            let i = choose|i: int| 0 <= i < n && #[trigger] ps[i] == p;
            assert(before(ps[i], ps[n]));
            assert(adjacent(ps[i], (r, c)));
        }
        assert forall|p: Pos| b.contains(p) implies a.contains(p) by {
            assert(span(rows, cols).contains(p));
            assert(ps.contains(p));
            let k = choose|k: int| 0 <= k < ps.len() && ps[k] == p;
            if k > n {
                assert(before(ps[n], ps[k]));
            }
            assert(0 <= k < n && ps[k] == p);
        }
    }
}

/// Among the marked neighbours, fewer come before one of them than there
/// are in all.
pub proof fn lemma_around_with_before_len(g: Grid, r: int, c: int, m: Mark, q: Pos)
    ensures
        around_with_before(g, r, c, m, q).finite(),
        around_with_before(g, r, c, m, q).len() <= around_with(g, r, c, m).len(),
        around_with(g, r, c, m).contains(q) ==> around_with_before(g, r, c, m, q).len()
            < around_with(g, r, c, m).len(),
{
    lemma_around_with_finite(g, r, c, m);
    let all = around_with(g, r, c, m);
    let part = around_with_before(g, r, c, m, q);
    lemma_len_subset(part, all);
    if all.contains(q) {
        assert(part.subset_of(all.remove(q)));
        lemma_len_subset(part, all.remove(q));
    }
}

/// Opening cells changes neither what spreads nor, once settled, what is settled.
pub proof fn lemma_extends(g: Grid, h: Grid)
    requires
        extends(g, h),
    ensures
        forall|x: Pos| in_grid(g, x) ==> in_grid(h, x),
        forall|x: Pos| in_grid(h, x) ==> in_grid(g, x),
        forall|x: Pos| in_grid(g, x) ==> #[trigger] spreads(h, x) == spreads(g, x),
        forall|x: Pos| in_grid(g, x) && #[trigger] settled(g, x) ==> settled(h, x),
{
    assert forall|x: Pos| in_grid(g, x) implies #[trigger] spreads(h, x) == spreads(g, x) by {
        assert(around_with(h, x.0, x.1, Mark::Flag) =~= around_with(g, x.0, x.1, Mark::Flag));
    }
}


/// An unflagged cell reaches itself; a flagged cell reaches nothing; what is
/// reached other than the start was hidden; a mine reaches only itself.
pub proof fn lemma_region_start(g: Grid, p: Pos)
    requires
        in_grid(g, p),
    ensures
        !g[p.0][p.1].flagged ==> region(g, p).contains(p),
        g[p.0][p.1].flagged ==> region(g, p) == Set::<Pos>::empty(),
        forall|q: Pos|
            #[trigger] region(g, p).contains(q) ==> in_grid(g, q) && !g[q.0][q.1].flagged && (q == p
                || !g[q.0][q.1].opened),
        !spreads(g, p) && !g[p.0][p.1].flagged ==> region(g, p) == set![p],
{
    if !g[p.0][p.1].flagged {
        let path = seq![p];
        assert(carries(g, path) && path[0] == p && path.last() == p);
    }
    assert forall|q: Pos| #[trigger] region(g, p).contains(q) implies {
        &&& in_grid(g, q)
        &&& !g[q.0][q.1].flagged
        &&& q == p || !g[q.0][q.1].opened
        &&& !g[p.0][p.1].flagged
        &&& !spreads(g, p) ==> q == p
    } by {
        let path = choose|path: Seq<Pos>| #[trigger]
            carries(g, path) && path[0] == p && path.last() == q;
        let last = path.len() - 1;
        assert(path[last] == q);
        if last > 0 {
            assert(spreads(g, path[0]));
        }
    }
    if g[p.0][p.1].flagged {
        assert(region(g, p) =~= Set::<Pos>::empty());
    }
    if !spreads(g, p) && !g[p.0][p.1].flagged {
        assert(region(g, p) =~= set![p]);
    }
}

/// What a hidden neighbour of a spreading cell reaches on a grid with more
/// cells open, the cell itself reaches on the grid as it was.
pub proof fn lemma_region_step(g: Grid, h: Grid, p: Pos, n: Pos, q: Pos)
    requires
        extends(g, h),
        in_grid(g, p),
        in_grid(g, n),
        !g[p.0][p.1].flagged,
        spreads(g, p),
        adjacent(n, p),
        has(h[n.0][n.1], Mark::Hidden),
        region(h, n).contains(q),
    ensures
        region(g, p).contains(q),
{
    lemma_extends(g, h);
    let tail = choose|path: Seq<Pos>| #[trigger]
        carries(h, path) && path[0] == n && path.last() == q;
    let path = seq![p] + tail;
    assert(path[0] == p);
    assert(path.last() == q) by {
        assert(path[path.len() - 1] == tail[tail.len() - 1]);
    }
    assert(carries(g, path)) by {
        assert forall|i: int| 0 <= i < path.len() implies in_grid(g, #[trigger] path[i]) by {
            if i > 0 {
                assert(path[i] == tail[i - 1]);
                assert(in_grid(h, tail[i - 1]));
            }
        }
        assert forall|i: int| 0 < i < path.len() implies has(
            g[(#[trigger] path[i]).0][path[i].1],
            Mark::Hidden,
        ) by {
            assert(path[i] == tail[i - 1]);
            assert(in_grid(h, tail[i - 1]));
            if i > 1 {
                assert(has(h[tail[i - 1].0][tail[i - 1].1], Mark::Hidden));
            }
        }
        assert forall|i: int| 0 <= i < path.len() - 1 implies spreads(g, #[trigger] path[i])
            && adjacent(path[i + 1], path[i]) by {
            assert(path[i + 1] == tail[i]);
            if i > 0 {
                assert(path[i] == tail[i - 1]);
                assert(in_grid(h, tail[i - 1]));
                assert(spreads(h, tail[i - 1]));
            }
        }
    }
}

/// Where a reached cell spreads, its hidden neighbours are reached too.
pub proof fn lemma_region_grows(g: Grid, p: Pos, x: Pos, y: Pos)
    requires
        region(g, p).contains(x),
        spreads(g, x),
        in_grid(g, y),
        adjacent(y, x),
        has(g[y.0][y.1], Mark::Hidden),
    ensures
        region(g, p).contains(y),
{
    let head = choose|path: Seq<Pos>| #[trigger]
        carries(g, path) && path[0] == p && path.last() == x;
    let path = head.push(y);
    assert(path[0] == head[0]);
    assert(path.last() == y);
    assert(carries(g, path)) by {
        assert forall|i: int| 0 <= i < path.len() implies in_grid(g, #[trigger] path[i]) by {
            if i < head.len() {
                assert(path[i] == head[i]);
            }
        }
        assert forall|i: int| 0 < i < path.len() implies has(
            g[(#[trigger] path[i]).0][path[i].1],
            Mark::Hidden,
        ) by {
            if i < head.len() {
                assert(path[i] == head[i]);
            }
        }
        assert forall|i: int| 0 <= i < path.len() - 1 implies spreads(g, #[trigger] path[i])
            && adjacent(path[i + 1], path[i]) by {
            assert(path[i] == head[i]);
            if i + 1 < head.len() {
                assert(path[i + 1] == head[i + 1]);
            } else {
                assert(head[i] == x);
            }
        }
    }
}

/// Once an opening at `p` has run its course, every cell it reaches is open
/// and holds no mine.
pub proof fn lemma_run_out_covers(g: Grid, h: Grid, p: Pos, q: Pos)
    requires
        extends(g, h),
        in_grid(g, p),
        h[p.0][p.1].opened,
        run_out(g, h, p),
        region(g, p).contains(q),
    ensures
        h[q.0][q.1].opened,
        h[q.0][q.1].content != MINE,
        passed(g, h, p, q),
{
    let path = choose|path: Seq<Pos>| #[trigger]
        carries(g, path) && path[0] == p && path.last() == q;
    lemma_run_out_along(g, h, p, path, path.len() - 1);
}

/// The same for each cell of a path that carries the opening.
proof fn lemma_run_out_along(g: Grid, h: Grid, p: Pos, path: Seq<Pos>, i: int)
    requires
        extends(g, h),
        in_grid(g, p),
        h[p.0][p.1].opened,
        run_out(g, h, p),
        carries(g, path),
        path[0] == p,
        0 <= i < path.len(),
    ensures
        h[path[i].0][path[i].1].opened,
        h[path[i].0][path[i].1].content != MINE,
        passed(g, h, p, path[i]),
    decreases i,
{
    lemma_extends(g, h);
    if i == 0 {
        assert(passed(g, h, p, p));
    } else {
        lemma_run_out_along(g, h, p, path, i - 1);
        let x = path[i - 1];
        let y = path[i];
        assert(in_grid(g, x) && in_grid(g, y));
        assert(spreads(g, x) && adjacent(path[i - 1 + 1], path[i - 1]));
        assert(passed(g, h, p, x));
        assert(settled(h, x));
        assert(adjacent(y, x));
        assert(has(g[y.0][y.1], Mark::Hidden));
        assert(h[y.0][y.1].opened);
        assert(passed(g, h, p, y));
    }
}

/// If an opening at an unflagged `p` led from `g` to `h`, opened cells of
/// the region only, and left the whole region open and free of mines, then
/// it has run its course.
pub proof fn lemma_covered_is_run_out(g: Grid, h: Grid, p: Pos)
    requires
        extends(g, h),
        in_grid(g, p),
        !g[p.0][p.1].flagged,
        forall|q: Pos| fresh(g, h, q) ==> #[trigger] region(g, p).contains(q),
        forall|q: Pos| #[trigger]
            region(g, p).contains(q) ==> h[q.0][q.1].opened && h[q.0][q.1].content != MINE,
    ensures
        run_out(g, h, p),
{
    lemma_extends(g, h);
    lemma_region_start(g, p);
    assert forall|x: Pos| #[trigger] passed(g, h, p, x) implies h[x.0][x.1].content != MINE
        && settled(h, x) by {
        assert(region(g, p).contains(x));
        if spreads(h, x) {
            assert forall|y: Pos|
                in_grid(h, y) && #[trigger] adjacent(y, x)
                    && !h[y.0][y.1].flagged implies h[y.0][y.1].opened by {
                if !g[y.0][y.1].opened {
                    lemma_region_grows(g, p, x, y);
                }
            }
        }
    }
}

/// A grid that differs from `g` by opened cells of the region of `p` only
/// keeps open cells and flags apart if `g` did.
pub proof fn lemma_exclusive_kept(g: Grid, h: Grid, p: Pos)
    requires
        extends(g, h),
        in_grid(g, p),
        forall|q: Pos| fresh(g, h, q) ==> #[trigger] region(g, p).contains(q),
    ensures
        exclusive(g) ==> exclusive(h),
{
    if exclusive(g) {
        assert forall|r: int, c: int| in_grid(h, (r, c)) implies !((#[trigger] h[r][c]).opened
            && h[r][c].flagged) by {
            assert(in_grid(g, (r, c)));
            if !g[r][c].opened && h[r][c].opened {
                assert(fresh(g, h, (r, c)));
                assert(region(g, p).contains((r, c)));
            }
        }
    }
}

/// A grid that differs from `g` by opened cells of the region of `p` only,
/// and has the whole region open, is `g` with the region opened.
pub proof fn lemma_opened_region(g: Grid, h: Grid, p: Pos)
    requires
        extends(g, h),
        in_grid(g, p),
        forall|q: Pos| fresh(g, h, q) ==> #[trigger] region(g, p).contains(q),
        forall|q: Pos| #[trigger] region(g, p).contains(q) ==> h[q.0][q.1].opened,
    ensures
        h == with_opened(g, region(g, p)),
{
    let k = with_opened(g, region(g, p));
    assert forall|r: int, c: int| in_grid(g, (r, c)) implies #[trigger] h[r][c] == k[r][c] by {
        if !region(g, p).contains((r, c)) {
            assert(!fresh(g, h, (r, c)));
        }
    }
    assert(h =~~= k);
}

} // verus!
