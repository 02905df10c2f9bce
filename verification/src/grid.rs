//! The mathematical model of a board: a grid of cells, positions on it, and
//! the sets of positions that the rules count.

use vstd::prelude::*;
use vstd::set_lib::*;
use crate::cell::{Cell, MINE};

verus! {

/// The cells of a board, row by row.
pub type Grid = Seq<Seq<Cell>>;

/// A row index and a column index.
pub type Pos = (int, int);

/// A property of a cell that the rules count or collect.
#[derive(Clone, Copy, Debug, PartialEq, Eq)]
pub enum Mark {
    /// A mine lies under the cell.
    Mine,
    /// The cell carries a flag.
    Flag,
    /// The cell has been revealed.
    Open,
    /// The cell has not been revealed.
    Closed,
    /// The cell is neither revealed nor flagged.
    Hidden,
    /// The cell carries a flag or is not revealed: it carries a flag once
    /// every covered cell has been flagged.
    ToFlag,
}

/// Whether `cell` has the property `m`.
pub open spec fn has(cell: Cell, m: Mark) -> bool {
    match m {
        Mark::Mine => cell.content == MINE,
        Mark::Flag => cell.flagged,
        Mark::Open => cell.opened,
        Mark::Closed => !cell.opened,
        Mark::Hidden => !cell.opened && !cell.flagged,
        Mark::ToFlag => cell.flagged || !cell.opened,
    }
}

/// Every row of `g` has `cols` cells and there are `rows` of them.
pub open spec fn rectangular(g: Grid, rows: int, cols: int) -> bool {
    &&& g.len() == rows
    &&& forall|r: int| 0 <= r < rows ==> (#[trigger] g[r]).len() == cols
}

/// Whether `p` names a cell of `g`.
pub open spec fn in_grid(g: Grid, p: Pos) -> bool {
    0 <= p.0 < g.len() && 0 <= p.1 < g[p.0].len()
}

/// Whether `p` and `q` are distinct and touch, sideways or diagonally.
pub open spec fn adjacent(p: Pos, q: Pos) -> bool {
    &&& p != q
    &&& -1 <= p.0 - q.0 <= 1
    &&& -1 <= p.1 - q.1 <= 1
}

/// Reading order: `p` comes strictly before `q` when rows are read top to
/// bottom and each row left to right.
pub open spec fn before(p: Pos, q: Pos) -> bool {
    p.0 < q.0 || (p.0 == q.0 && p.1 < q.1)
}

/// The positions of `g` whose cell has the property `m`.
pub open spec fn cells_with(g: Grid, m: Mark) -> Set<Pos> {
    Set::new(|p: Pos| in_grid(g, p) && has(g[p.0][p.1], m))
}

/// The neighbours of `(r, c)` in `g` whose cell has the property `m`.
pub open spec fn around_with(g: Grid, r: int, c: int, m: Mark) -> Set<Pos> {
    Set::new(|p: Pos| in_grid(g, p) && adjacent(p, (r, c)) && has(g[p.0][p.1], m))
}

/// The positions with the property `m` that reading order reaches before `q`.
pub open spec fn cells_with_before(g: Grid, m: Mark, q: Pos) -> Set<Pos> {
    Set::new(|p: Pos| in_grid(g, p) && has(g[p.0][p.1], m) && before(p, q))
}

/// All positions in the first `cols` columns that reading order reaches
/// before `q`, however many rows there are.
pub open spec fn span_before(cols: int, q: Pos) -> Set<Pos> {
    Set::new(|p: Pos| 0 <= p.0 && 0 <= p.1 < cols && before(p, q))
}

/// All positions of a `rows` by `cols` grid.
pub open spec fn span(rows: int, cols: int) -> Set<Pos> {
    Set::new(|p: Pos| 0 <= p.0 < rows && 0 <= p.1 < cols)
}

/// `g` with the cell at `p` replaced by `cell`.
pub open spec fn put(g: Grid, p: Pos, cell: Cell) -> Grid {
    g.update(p.0, g[p.0].update(p.1, cell))
}

/// `g` with every cell at a position of `s` opened.
pub open spec fn with_opened(g: Grid, s: Set<Pos>) -> Grid {
    Seq::new(
        g.len(),
        |r: int|
            Seq::new(
                g[r].len(),
                |c: int|
                    if s.contains((r, c)) {
                        Cell { opened: true, ..g[r][c] }
                    } else {
                        g[r][c]
                    },
            ),
    )
}

/// `g` with a flag on every cell at a position of `s`.
pub open spec fn with_flagged(g: Grid, s: Set<Pos>) -> Grid {
    Seq::new(
        g.len(),
        |r: int|
            Seq::new(
                g[r].len(),
                |c: int|
                    if s.contains((r, c)) {
                        Cell { flagged: true, ..g[r][c] }
                    } else {
                        g[r][c]
                    },
            ),
    )
}

/// Every cell of `g` holds a neighbour count from 0 to 8 or a mine.
pub open spec fn sound_contents(g: Grid) -> bool {
    forall|r: int, c: int| in_grid(g, (r, c)) ==> (#[trigger] g[r][c]).content <= MINE
}

/// No cell of `g` is both open and flagged.
pub open spec fn exclusive(g: Grid) -> bool {
    forall|r: int, c: int| in_grid(g, (r, c)) ==> !((#[trigger] g[r][c]).opened && g[r][c].flagged)
}

/// Every cell of `g` is covered, unflagged and holds 0.
pub open spec fn all_blank(g: Grid) -> bool {
    forall|r: int, c: int| in_grid(g, (r, c)) ==> #[trigger] g[r][c] == Cell::blank()
}

/// The eight positions around `(r, c)`, on the grid or not.
pub open spec fn ring(r: int, c: int) -> Set<Pos> {
    set![
        (r - 1, c - 1),
        (r - 1, c),
        (r - 1, c + 1),
        (r, c - 1),
        (r, c + 1),
        (r + 1, c - 1),
        (r + 1, c),
        (r + 1, c + 1),
    ]
}

/// A list of cells as positions.
pub open spec fn positions(list: Seq<(usize, usize)>) -> Seq<Pos> {
    Seq::new(list.len(), |i: int| (list[i].0 as int, list[i].1 as int))
}

/// `ps` holds exactly the neighbours of `(r, c)` on a `rows` by `cols`
/// grid, each once, in reading order.
pub open spec fn is_neighbour_list(ps: Seq<Pos>, r: int, c: int, rows: int, cols: int) -> bool {
    &&& forall|i: int|
        0 <= i < ps.len() ==> span(rows, cols).contains(#[trigger] ps[i]) && adjacent(ps[i], (r, c))
    &&& forall|i: int, j: int| 0 <= i < j < ps.len() ==> before(#[trigger] ps[i], #[trigger] ps[j])
    &&& forall|p: Pos| span(rows, cols).contains(p) && adjacent(p, (r, c)) ==> ps.contains(p)
}

/// The same of a list of cells.
pub open spec fn lists_neighbours(
    list: Seq<(usize, usize)>,
    r: int,
    c: int,
    rows: int,
    cols: int,
) -> bool {
    is_neighbour_list(positions(list), r, c, rows, cols)
}

/// `p` alone if it lies on a `rows` by `cols` grid, else nothing.
pub open spec fn on_grid(p: Pos, rows: int, cols: int) -> Seq<Pos> {
    if span(rows, cols).contains(p) {
        seq![p]
    } else {
        Seq::empty()
    }
}

/// The neighbours of `(r, c)` on a `rows` by `cols` grid, in reading order.
pub open spec fn neighbours(r: int, c: int, rows: int, cols: int) -> Seq<Pos> {
    on_grid((r - 1, c - 1), rows, cols) + on_grid((r - 1, c), rows, cols) + on_grid(
        (r - 1, c + 1),
        rows,
        cols,
    ) + on_grid((r, c - 1), rows, cols) + on_grid((r, c + 1), rows, cols) + on_grid(
        (r + 1, c - 1),
        rows,
        cols,
    ) + on_grid((r + 1, c), rows, cols) + on_grid((r + 1, c + 1), rows, cols)
}

/// `ps` holds exactly the neighbours of `(r, c)` that come before `q`,
/// each once, in reading order.
pub open spec fn is_neighbour_list_before(
    ps: Seq<Pos>,
    r: int,
    c: int,
    rows: int,
    cols: int,
    q: Pos,
) -> bool {
    &&& forall|i: int|
        0 <= i < ps.len() ==> span(rows, cols).contains(#[trigger] ps[i]) && adjacent(ps[i], (r, c))
            && before(ps[i], q)
    &&& forall|i: int, j: int| 0 <= i < j < ps.len() ==> before(#[trigger] ps[i], #[trigger] ps[j])
    &&& forall|p: Pos|
        span(rows, cols).contains(p) && adjacent(p, (r, c)) && before(p, q) ==> ps.contains(p)
}

/// The marked neighbours of `(r, c)` that a walk along `list` has passed
/// after `n` steps.
pub open spec fn around_with_upto(g: Grid, list: Seq<(usize, usize)>, n: int, m: Mark) -> Set<Pos> {
    Set::new(
        |p: Pos|
            in_grid(g, p) && has(g[p.0][p.1], m) && exists|i: int|
                0 <= i < n && #[trigger] positions(list)[i] == p,
    )
}

/// The positions of `g` where a mine may still go: not mined already and not
/// on the list `avoid`.
pub open spec fn free_cells(g: Grid, avoid: Seq<Pos>) -> Set<Pos> {
    Set::new(|p: Pos| in_grid(g, p) && g[p.0][p.1].content != MINE && !avoid.contains(p))
}

/// The free positions that reading order reaches before `q`.
pub open spec fn free_cells_before(g: Grid, avoid: Seq<Pos>, q: Pos) -> Set<Pos> {
    Set::new(
        |p: Pos|
            in_grid(g, p) && g[p.0][p.1].content != MINE && !avoid.contains(p) && before(p, q),
    )
}

/// What a cell holds once the mines around it have been counted: a mine
/// stays as it is, any other cell gets the number of mines that touch it.
pub open spec fn numbered(g: Grid, r: int, c: int) -> Cell {
    if g[r][c].content == MINE {
        g[r][c]
    } else {
        Cell { content: around_with(g, r, c, Mark::Mine).len() as u8, ..g[r][c] }
    }
}

/// The positions of a `rows` by `cols` grid that are not on the list `avoid`.
pub open spec fn unavoided(rows: int, cols: int, avoid: Seq<Pos>) -> Set<Pos> {
    Set::new(|p: Pos| 0 <= p.0 < rows && 0 <= p.1 < cols && !avoid.contains(p))
}

/// A cell as mine laying leaves it: covered and unflagged, holding 0 or a mine.
pub open spec fn fresh_or_mine(cell: Cell) -> bool {
    cell == Cell::blank() || cell == (Cell { content: MINE, ..Cell::blank() })
}

/// The positions before `(r, c)` in a grid `cols` wide number `r * cols + c`.
pub proof fn lemma_span_before_len(cols: int, r: int, c: int)
    requires
        0 <= r,
        0 <= c <= cols,
    ensures
        span_before(cols, (r, c)).finite(),
        span_before(cols, (r, c)).len() == r * cols + c,
    decreases r, c,
{
    let s = span_before(cols, (r, c));
    if c > 0 {
        lemma_span_before_len(cols, r, c - 1);
        let t = span_before(cols, (r, c - 1));
        assert(s =~= t.insert((r, c - 1)));
    } else if r > 0 {
        lemma_span_before_len(cols, r - 1, cols);
        let t = span_before(cols, (r - 1, cols));
        assert(s =~= t);
        assert(r * cols == (r - 1) * cols + cols) by (nonlinear_arith);
    } else {
        assert(s =~= Set::<Pos>::empty());
        assert(r * cols == 0) by (nonlinear_arith)
            requires
                r == 0,
        ;
    }
}

/// A `rows` by `cols` grid has `rows * cols` positions.
pub proof fn lemma_span_len(rows: int, cols: int)
    requires
        0 <= rows,
        0 <= cols,
    ensures
        span(rows, cols).finite(),
        span(rows, cols).len() == rows * cols,
{
    lemma_span_before_len(cols, rows, 0);
    assert(span(rows, cols) =~= span_before(cols, (rows, 0)));
}

/// The positions with a given property form a finite set no larger than the grid.
pub proof fn lemma_cells_with_finite(g: Grid, m: Mark, rows: int, cols: int)
    requires
        rectangular(g, rows, cols),
        0 <= cols,
    ensures
        cells_with(g, m).finite(),
        cells_with(g, m).len() <= rows * cols,
        cells_with(g, m).subset_of(span(rows, cols)),
{
    lemma_span_len(rows, cols);
    lemma_len_subset(cells_with(g, m), span(rows, cols));
}

/// What reading order has passed is finite, lies inside the whole and inside
/// the span passed so far.
pub proof fn lemma_cells_with_before(g: Grid, m: Mark, rows: int, cols: int, r: int, c: int)
    requires
        rectangular(g, rows, cols),
        0 <= r,
        0 <= c <= cols,
    ensures
        cells_with_before(g, m, (r, c)).finite(),
        cells_with_before(g, m, (r, c)).len() <= cells_with(g, m).len(),
        cells_with_before(g, m, (r, c)).len() <= r * cols + c,
        r >= rows ==> cells_with_before(g, m, (r, c)) == cells_with(g, m),
{
    lemma_cells_with_finite(g, m, rows, cols);
    lemma_span_before_len(cols, r, c);
    lemma_len_subset(cells_with_before(g, m, (r, c)), cells_with(g, m));
    lemma_len_subset(cells_with_before(g, m, (r, c)), span_before(cols, (r, c)));
    if r >= rows {
        assert(cells_with_before(g, m, (r, c)) =~= cells_with(g, m));
    }
}

/// Moving reading order one cell to the right takes in the cell just passed,
/// if it has the property.
pub proof fn lemma_cells_with_before_step(g: Grid, m: Mark, rows: int, cols: int, r: int, c: int)
    requires
        rectangular(g, rows, cols),
        0 <= r < rows,
        0 <= c < cols,
    ensures
        cells_with_before(g, m, (r, c + 1)) == if has(g[r][c], m) {
            cells_with_before(g, m, (r, c)).insert((r, c))
        } else {
            cells_with_before(g, m, (r, c))
        },
        !cells_with_before(g, m, (r, c)).contains((r, c)),
        c + 1 == cols ==> cells_with_before(g, m, (r, c + 1)) == cells_with_before(
            g,
            m,
            (r + 1, 0),
        ),
{
    if has(g[r][c], m) {
        assert(cells_with_before(g, m, (r, c + 1)) =~= cells_with_before(g, m, (r, c)).insert(
            (r, c),
        ));
    } else {
        assert(cells_with_before(g, m, (r, c + 1)) =~= cells_with_before(g, m, (r, c)));
    }
    if c + 1 == cols {
        assert(cells_with_before(g, m, (r, c + 1)) =~= cells_with_before(g, m, (r + 1, 0)));
    }
}


/// Replacing one cell puts its position into, or takes it out of, each set
/// of marked positions, and touches no other member.
pub proof fn lemma_put_cells_with(g: Grid, p: Pos, cell: Cell, m: Mark)
    requires
        in_grid(g, p),
    ensures
        cells_with(put(g, p, cell), m) == if has(cell, m) {
            cells_with(g, m).insert(p)
        } else {
            cells_with(g, m).remove(p)
        },
{
    let h = put(g, p, cell);
    if has(cell, m) {
        assert(cells_with(h, m) =~= cells_with(g, m).insert(p)) by {
            assert forall|q: Pos| cells_with(h, m).contains(q) == cells_with(g, m).insert(
                p,
            ).contains(q) by {
                if in_grid(g, q) {
                    assert(h[q.0][q.1] == if q == p {
                        cell
                    } else {
                        g[q.0][q.1]
                    });
                }
            }
        }
    } else {
        assert(cells_with(h, m) =~= cells_with(g, m).remove(p)) by {
            assert forall|q: Pos| cells_with(h, m).contains(q) == cells_with(g, m).remove(
                p,
            ).contains(q) by {
                if in_grid(g, q) {
                    assert(h[q.0][q.1] == if q == p {
                        cell
                    } else {
                        g[q.0][q.1]
                    });
                }
            }
        }
    }
}

/// A cell has at most eight marked neighbours.
pub proof fn lemma_around_with_finite(g: Grid, r: int, c: int, m: Mark)
    ensures
        around_with(g, r, c, m).finite(),
        around_with(g, r, c, m).len() <= 8,
{
    let ring = ring(r, c);
    assert(ring.finite());
    assert(ring.len() <= 8);
    assert(around_with(g, r, c, m).subset_of(ring)) by {
        assert forall|p: Pos| around_with(g, r, c, m).contains(p) implies ring.contains(p) by {
            let dr = p.0 - r;
            let dc = p.1 - c;
            assert(p == (r + dr, c + dc));
        }
    }
    lemma_len_subset(around_with(g, r, c, m), ring);
}

/// Two lists of the neighbours of one cell are the same list.
pub proof fn lemma_neighbour_list_unique(
    a: Seq<Pos>,
    b: Seq<Pos>,
    r: int,
    c: int,
    rows: int,
    cols: int,
)
    requires
        is_neighbour_list(a, r, c, rows, cols),
        is_neighbour_list(b, r, c, rows, cols),
    ensures
        a == b,
{
    lemma_sorted_prefix(a, b, r, c, rows, cols, a.len() as int);
    lemma_sorted_prefix(b, a, r, c, rows, cols, b.len() as int);
    assert(a =~= b);
}

/// Two lists of the neighbours of one cell agree on their first `n` places.
proof fn lemma_sorted_prefix(a: Seq<Pos>, b: Seq<Pos>, r: int, c: int, rows: int, cols: int, n: int)
    requires
        is_neighbour_list(a, r, c, rows, cols),
        is_neighbour_list(b, r, c, rows, cols),
        0 <= n <= a.len(),
    ensures
        n <= b.len(),
        forall|i: int| 0 <= i < n ==> a[i] == b[i],
    decreases n,
{
    if n > 0 {
        lemma_sorted_prefix(a, b, r, c, rows, cols, n - 1);
        let x = a[n - 1];
        assert(b.contains(x));
        let j = choose|j: int| 0 <= j < b.len() && b[j] == x;
        if j < n - 1 {
            assert(a[j] == b[j]);
            assert(before(a[j], a[n - 1]));
        }
        let y = b[n - 1];
        assert(a.contains(y));
        let k = choose|k: int| 0 <= k < a.len() && a[k] == y;
        if k < n - 1 {
            assert(a[k] == b[k]);
            assert(before(b[k], b[n - 1]));
        }
        if j > n - 1 {
            assert(before(b[n - 1], b[j]));
        }
        if k > n - 1 {
            assert(before(a[n - 1], a[k]));
        }
    }
}

/// A list of the neighbours before `q`, with `q` added if it is on the
/// grid, is a list of the neighbours before `next`, if `q` is the only
/// neighbour from `q` up to `next`.
proof fn lemma_neighbour_list_grows(
    ps: Seq<Pos>,
    r: int,
    c: int,
    rows: int,
    cols: int,
    q: Pos,
    next: Pos,
)
    requires
        is_neighbour_list_before(ps, r, c, rows, cols, q),
        adjacent(q, (r, c)),
        before(q, next),
        forall|p: Pos| adjacent(p, (r, c)) && before(p, next) && !before(p, q) ==> p == q,
    ensures
        is_neighbour_list_before(ps + on_grid(q, rows, cols), r, c, rows, cols, next),
        (ps + on_grid(q, rows, cols)).len() <= ps.len() + 1,
{
    let qs = ps + on_grid(q, rows, cols);
    assert forall|i: int| 0 <= i < ps.len() implies qs[i] == ps[i] by {}
    assert forall|p: Pos|
        span(rows, cols).contains(p) && adjacent(p, (r, c)) && before(p, next) implies qs.contains(
        p,
    ) by {
        if before(p, q) {
            assert(ps.contains(p));
            let i = choose|i: int| 0 <= i < ps.len() && ps[i] == p;
            assert(qs[i] == p);
        } else {
            assert(p == q);
            assert(qs[ps.len() as int] == p);
        }
    }
}

/// The neighbours as listed are a list of the neighbours.
pub proof fn lemma_neighbours(r: int, c: int, rows: int, cols: int)
    ensures
        is_neighbour_list(neighbours(r, c, rows, cols), r, c, rows, cols),
        neighbours(r, c, rows, cols).len() <= 8,
{
    let t0 = Seq::<Pos>::empty() + on_grid((r - 1, c - 1), rows, cols);
    let t1 = t0 + on_grid((r - 1, c), rows, cols);
    let t2 = t1 + on_grid((r - 1, c + 1), rows, cols);
    let t3 = t2 + on_grid((r, c - 1), rows, cols);
    let t4 = t3 + on_grid((r, c + 1), rows, cols);
    let t5 = t4 + on_grid((r + 1, c - 1), rows, cols);
    let t6 = t5 + on_grid((r + 1, c), rows, cols);
    let t7 = t6 + on_grid((r + 1, c + 1), rows, cols);
    assert(is_neighbour_list_before(Seq::<Pos>::empty(), r, c, rows, cols, (r - 1, c - 1)));
    lemma_neighbour_list_grows(Seq::<Pos>::empty(), r, c, rows, cols, (r - 1, c - 1), (r - 1, c));
    lemma_neighbour_list_grows(t0, r, c, rows, cols, (r - 1, c), (r - 1, c + 1));
    lemma_neighbour_list_grows(t1, r, c, rows, cols, (r - 1, c + 1), (r, c - 1));
    lemma_neighbour_list_grows(t2, r, c, rows, cols, (r, c - 1), (r, c + 1));
    lemma_neighbour_list_grows(t3, r, c, rows, cols, (r, c + 1), (r + 1, c - 1));
    lemma_neighbour_list_grows(t4, r, c, rows, cols, (r + 1, c - 1), (r + 1, c));
    lemma_neighbour_list_grows(t5, r, c, rows, cols, (r + 1, c), (r + 1, c + 1));
    lemma_neighbour_list_grows(t6, r, c, rows, cols, (r + 1, c + 1), (r + 2, c));
    assert(t0 =~= on_grid((r - 1, c - 1), rows, cols));
    assert(t7 == neighbours(r, c, rows, cols));
}

/// One more step along the list takes in the cell stepped over, if it is marked.
pub proof fn lemma_around_with_step(
    g: Grid,
    list: Seq<(usize, usize)>,
    r: int,
    c: int,
    rows: int,
    cols: int,
    n: int,
    m: Mark,
)
    requires
        rectangular(g, rows, cols),
        lists_neighbours(list, r, c, rows, cols),
        0 <= n < list.len(),
    ensures
        around_with_upto(g, list, n, m).finite(),
        around_with_upto(g, list, n, m).len() <= 8,
        !around_with_upto(g, list, n, m).contains(positions(list)[n]),
        around_with_upto(g, list, n + 1, m) == if has(
            g[positions(list)[n].0][positions(list)[n].1],
            m,
        ) {
            around_with_upto(g, list, n, m).insert(positions(list)[n])
        } else {
            around_with_upto(g, list, n, m)
        },
        around_with_upto(g, list, n + 1, m).finite(),
        around_with_upto(g, list, n + 1, m).len() <= 8,
{
    let ps = positions(list);
    let a = around_with_upto(g, list, n, m);
    let b = around_with_upto(g, list, n + 1, m);
    lemma_around_with_finite(g, r, c, m);
    assert(a.subset_of(around_with(g, r, c, m)));
    assert(b.subset_of(around_with(g, r, c, m)));
    lemma_len_subset(a, around_with(g, r, c, m));
    lemma_len_subset(b, around_with(g, r, c, m));
    if a.contains(ps[n]) {
        let i = choose|i: int| 0 <= i < n && #[trigger] ps[i] == ps[n];
        assert(before(ps[i], ps[n]));
    }
    assert(span(rows, cols).contains(ps[n]));
    if has(g[ps[n].0][ps[n].1], m) {
        assert(b =~= a.insert(ps[n])) by {
            assert forall|p: Pos| b.contains(p) implies a.insert(ps[n]).contains(p) by {
                let i = choose|i: int| 0 <= i < n + 1 && #[trigger] ps[i] == p;
                if i < n {
                    assert(a.contains(p));
                }
            }
            assert forall|p: Pos| a.insert(ps[n]).contains(p) implies b.contains(p) by {
                if p == ps[n] {
                    assert(ps[n] == p);
                } else {
                    let i = choose|i: int| 0 <= i < n && #[trigger] ps[i] == p;
                    assert(0 <= i < n + 1 && ps[i] == p);
                }
            }
        }
    } else {
        assert(b =~= a) by {
            assert forall|p: Pos| b.contains(p) implies a.contains(p) by {
                let i = choose|i: int| 0 <= i < n + 1 && #[trigger] ps[i] == p;
                assert(i < n);
            }
            assert forall|p: Pos| a.contains(p) implies b.contains(p) by {
                let i = choose|i: int| 0 <= i < n && #[trigger] ps[i] == p;
                assert(0 <= i < n + 1 && ps[i] == p);
            }
        }
    }
}

/// A walk along the whole list has passed every marked neighbour, and
/// before its first step none.
pub proof fn lemma_around_with_ends(
    g: Grid,
    list: Seq<(usize, usize)>,
    r: int,
    c: int,
    rows: int,
    cols: int,
    m: Mark,
)
    requires
        rectangular(g, rows, cols),
        lists_neighbours(list, r, c, rows, cols),
    ensures
        around_with_upto(g, list, 0, m) == Set::<Pos>::empty(),
        around_with_upto(g, list, list.len() as int, m) == around_with(g, r, c, m),
{
    let ps = positions(list);
    assert(around_with_upto(g, list, 0, m) =~= Set::<Pos>::empty());
    assert(around_with_upto(g, list, list.len() as int, m) =~= around_with(g, r, c, m)) by {
        assert forall|p: Pos| around_with(g, r, c, m).contains(p) implies around_with_upto(
            g,
            list,
            list.len() as int,
            m,
        ).contains(p) by {
            assert(span(rows, cols).contains(p));
            assert(ps.contains(p));
            let i = choose|i: int| 0 <= i < ps.len() && ps[i] == p;
            assert(0 <= i < list.len() && ps[i] == p);
        }
        assert forall|p: Pos|
            around_with_upto(g, list, list.len() as int, m).contains(p) implies around_with(
            g,
            r,
            c,
            m,
        ).contains(p) by {
            let i = choose|i: int| 0 <= i < list.len() && #[trigger] ps[i] == p;
            assert(adjacent(ps[i], (r, c)));
        }
    }
}

/// The free positions are finite, and so is every part of them that reading
/// order has passed; past the last row that part is the whole.
pub proof fn lemma_free_cells_before(g: Grid, avoid: Seq<Pos>, rows: int, cols: int, r: int, c: int)
    requires
        rectangular(g, rows, cols),
        0 <= r,
        0 <= c <= cols,
    ensures
        free_cells(g, avoid).finite(),
        free_cells(g, avoid).len() <= rows * cols,
        free_cells_before(g, avoid, (r, c)).finite(),
        free_cells_before(g, avoid, (r, c)).len() <= free_cells(g, avoid).len(),
        r >= rows ==> free_cells_before(g, avoid, (r, c)) == free_cells(g, avoid),
        r == 0 && c == 0 ==> free_cells_before(g, avoid, (r, c)) == Set::<Pos>::empty(),
{
    lemma_span_len(rows, cols);
    lemma_len_subset(free_cells(g, avoid), span(rows, cols));
    lemma_len_subset(free_cells_before(g, avoid, (r, c)), free_cells(g, avoid));
    if r >= rows {
        assert(free_cells_before(g, avoid, (r, c)) =~= free_cells(g, avoid));
    }
    if r == 0 && c == 0 {
        assert(free_cells_before(g, avoid, (r, c)) =~= Set::<Pos>::empty());
    }
}

/// Moving reading order one cell to the right takes in the cell just passed,
/// if it is free.
pub proof fn lemma_free_cells_before_step(
    g: Grid,
    avoid: Seq<Pos>,
    rows: int,
    cols: int,
    r: int,
    c: int,
)
    requires
        rectangular(g, rows, cols),
        0 <= r < rows,
        0 <= c < cols,
    ensures
        free_cells_before(g, avoid, (r, c + 1)) == if free_cells(g, avoid).contains((r, c)) {
            free_cells_before(g, avoid, (r, c)).insert((r, c))
        } else {
            free_cells_before(g, avoid, (r, c))
        },
        !free_cells_before(g, avoid, (r, c)).contains((r, c)),
        c + 1 == cols ==> free_cells_before(g, avoid, (r, c + 1)) == free_cells_before(
            g,
            avoid,
            (r + 1, 0),
        ),
{
    if free_cells(g, avoid).contains((r, c)) {
        assert(free_cells_before(g, avoid, (r, c + 1)) =~= free_cells_before(
            g,
            avoid,
            (r, c),
        ).insert((r, c)));
    } else {
        assert(free_cells_before(g, avoid, (r, c + 1)) =~= free_cells_before(g, avoid, (r, c)));
    }
    if c + 1 == cols {
        assert(free_cells_before(g, avoid, (r, c + 1)) =~= free_cells_before(
            g,
            avoid,
            (r + 1, 0),
        ));
    }
}

/// Laying a mine on a free cell takes that cell, and no other, out of the
/// free positions and adds it to the mines.
pub proof fn lemma_lay_mine(g: Grid, avoid: Seq<Pos>, p: Pos, rows: int, cols: int)
    requires
        rectangular(g, rows, cols),
        free_cells(g, avoid).contains(p),
    ensures
        free_cells(put(g, p, Cell { content: MINE, ..g[p.0][p.1] }), avoid) == free_cells(
            g,
            avoid,
        ).remove(p),
        free_cells(put(g, p, Cell { content: MINE, ..g[p.0][p.1] }), avoid).len() == free_cells(
            g,
            avoid,
        ).len() - 1,
        cells_with(put(g, p, Cell { content: MINE, ..g[p.0][p.1] }), Mark::Mine) == cells_with(
            g,
            Mark::Mine,
        ).insert(p),
        cells_with(put(g, p, Cell { content: MINE, ..g[p.0][p.1] }), Mark::Mine).len()
            == cells_with(g, Mark::Mine).len() + 1,
{
    let cell = Cell { content: MINE, ..g[p.0][p.1] };
    let h = put(g, p, cell);
    lemma_put_cells_with(g, p, cell, Mark::Mine);
    lemma_cells_with_finite(g, Mark::Mine, rows, cols);
    lemma_free_cells_before(g, avoid, rows, cols, 0, 0);
    assert forall|q: Pos| in_grid(g, q) implies h[q.0][q.1] == if q == p {
        cell
    } else {
        g[q.0][q.1]
    } by {}
    assert(free_cells(h, avoid) =~= free_cells(g, avoid).remove(p));
}

/// On a grid that mine laying has worked on, the mines and the free
/// positions together are the positions off the list, and share none.
pub proof fn lemma_mines_and_free(g: Grid, avoid: Seq<Pos>, rows: int, cols: int)
    requires
        rectangular(g, rows, cols),
        0 <= cols,
        forall|p: Pos| in_grid(g, p) && g[p.0][p.1].content == MINE ==> !avoid.contains(p),
    ensures
        unavoided(rows, cols, avoid).finite(),
        unavoided(rows, cols, avoid).len() <= rows * cols,
        cells_with(g, Mark::Mine).len() + free_cells(g, avoid).len() == unavoided(
            rows,
            cols,
            avoid,
        ).len(),
{
    let mines = cells_with(g, Mark::Mine);
    let free = free_cells(g, avoid);
    let all = unavoided(rows, cols, avoid);
    lemma_span_len(rows, cols);
    lemma_len_subset(all, span(rows, cols));
    lemma_cells_with_finite(g, Mark::Mine, rows, cols);
    lemma_free_cells_before(g, avoid, rows, cols, 0, 0);
    assert(mines.disjoint(free));
    assert(mines.union(free) =~= all);
    lemma_set_disjoint_lens(mines, free);
}

} // verus!
