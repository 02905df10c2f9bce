//! The board as text for a terminal: a boxed grid, one glyph per cell.

use vstd::prelude::*;
use vstd::string::StringExecFns;
use crate::board::Board;
use crate::cell::Cell;
use crate::grid::Grid;

verus! {

/// The upper left corner of the box.
pub const UL: &'static str = "\u{250F}";

/// The upper right corner.
pub const UR: &'static str = "\u{2513}";

/// The lower left corner.
pub const DL: &'static str = "\u{2517}";

/// The lower right corner.
pub const DR: &'static str = "\u{251B}";

/// A joint on the left edge.
pub const LT: &'static str = "\u{2523}";

/// A joint on the right edge.
pub const RT: &'static str = "\u{252B}";

/// A joint on the top edge.
pub const UT: &'static str = "\u{2533}";

/// A joint on the bottom edge.
pub const DT: &'static str = "\u{253B}";

/// A horizontal stroke.
pub const HL: &'static str = "\u{2501}";

/// A vertical stroke.
pub const VL: &'static str = "\u{2503}";

/// A crossing inside the box.
pub const QD: &'static str = "\u{254B}";

/// A mine, in bright red.
pub const MINE: &'static str = "\x1b[91;1m\u{273B}\x1b[0m";

/// A covered cell.
pub const CELL: &'static str = "\u{25A0}";

/// A flag, in yellow.
pub const FLAG: &'static str = "\x1b[33m\u{2691}\x1b[0m";

/// Switches to the grey the box is drawn in.
pub const GREY: &'static str = "\x1b[90m";

/// Switches colours off.
pub const PLAIN: &'static str = "\x1b[0m";

/// Steps one character back, over the joint that a rule ends with.
pub const BACK: &'static str = "\x08";

/// The text that stands for a cell: its number in colour once it is open
/// (nothing for 0, a mine for a mine), else its flag, else a covered square.
pub open spec fn glyph(cell: Cell) -> Seq<char> {
    if cell.opened {
        if cell.content == 1 {
            "\x1b[94m1\x1b[0m"@
        } else if cell.content == 2 {
            "\x1b[32m2\x1b[0m"@
        } else if cell.content == 3 {
            "\x1b[91m3\x1b[0m"@
        } else if cell.content == 4 {
            "\x1b[35m4\x1b[0m"@
        } else if cell.content == 5 {
            "\x1b[33m5\x1b[0m"@
        } else if cell.content == 6 {
            "\x1b[96m6\x1b[0m"@
        } else if cell.content == 7 {
            "\x1b[30m7\x1b[0m"@
        } else if cell.content == 8 {
            "\x1b[90m8\x1b[0m"@
        } else if cell.content == 9 {
            MINE@
        } else {
            " "@
        }
    } else if cell.flagged {
        FLAG@
    } else {
        CELL@
    }
}

/// A horizontal rule over `n` columns: three strokes and `joint` for each.
pub open spec fn rule(n: nat, joint: Seq<char>) -> Seq<char>
    decreases n,
{
    if n == 0 {
        Seq::empty()
    } else {
        rule((n - 1) as nat, joint) + (HL@ + HL@ + HL@ + joint)
    }
}

/// A cell behind its vertical stroke, with a blank on either side.
pub open spec fn cell_text(cell: Cell) -> Seq<char> {
    GREY@ + VL@ + PLAIN@ + " "@ + glyph(cell) + GREY@ + " "@ + PLAIN@
}

/// The first `n` cells of a row.
pub open spec fn cells_text(row: Seq<Cell>, n: nat) -> Seq<char>
    decreases n,
{
    if n == 0 {
        Seq::empty()
    } else {
        cells_text(row, (n - 1) as nat) + cell_text(row[n - 1])
    }
}

/// What closes a row of `n` cells on the right, and the rule under it.
pub open spec fn row_end(n: nat) -> Seq<char> {
    GREY@ + VL@ + "\n\r"@ + LT@ + rule(n, QD@) + BACK@ + RT@ + "\x1b[0m\n\r"@
}

/// One row of the frame.
pub open spec fn row_text(row: Seq<Cell>) -> Seq<char> {
    cells_text(row, row.len()) + row_end(row.len())
}

/// The first `n` rows.
pub open spec fn rows_text(g: Grid, n: nat) -> Seq<char>
    decreases n,
{
    if n == 0 {
        Seq::empty()
    } else {
        rows_text(g, (n - 1) as nat) + row_text(g[n - 1])
    }
}

/// The top of the box over `n` columns.
pub open spec fn top_text(n: nat) -> Seq<char> {
    GREY@ + UL@ + rule(n, UT@) + BACK@ + UR@ + PLAIN@ + "\n\r"@
}

/// The bottom of the box, drawn over the rule under the last row.
pub open spec fn bottom_text(n: nat) -> Seq<char> {
    "\x1b[1A\x1b[90m\r"@ + DL@ + rule(n, DT@) + BACK@ + DR@ + PLAIN@
}

/// The whole frame for a grid `cols` wide.
pub open spec fn frame_text(g: Grid, cols: nat) -> Seq<char> {
    top_text(cols) + rows_text(g, g.len()) + bottom_text(cols)
}

/// The text that stands for `cell`.
pub fn glyph_of(cell: &Cell) -> (text: &'static str)
    ensures
        text@ == glyph(*cell),
{
    if cell.opened {
        match cell.content {
            0 => " ",
            1 => "\x1b[94m1\x1b[0m",
            2 => "\x1b[32m2\x1b[0m",
            3 => "\x1b[91m3\x1b[0m",
            4 => "\x1b[35m4\x1b[0m",
            5 => "\x1b[33m5\x1b[0m",
            6 => "\x1b[96m6\x1b[0m",
            7 => "\x1b[30m7\x1b[0m",
            8 => "\x1b[90m8\x1b[0m",
            9 => MINE,
            _ => " ",
        }
    } else if cell.flagged {
        FLAG
    } else {
        CELL
    }
}

/// Appends a horizontal rule over `n` columns to `out`.
fn push_rule(out: &mut String, n: usize, joint: &str)
    ensures
        final(out)@ == old(out)@ + rule(n as nat, joint@),
{
    let ghost start = out@;
    assert(out@ =~= start + rule(0, joint@));
    for i in 0..n
        invariant
            out@ == start + rule(i as nat, joint@),
    {
        out.append(HL);
        out.append(HL);
        out.append(HL);
        out.append(joint);
        assert(out@ =~= start + rule((i + 1) as nat, joint@));
    }
}

/// Appends one cell to `out`.
fn push_cell(out: &mut String, cell: &Cell)
    ensures
        final(out)@ == old(out)@ + cell_text(*cell),
{
    let repr = glyph_of(cell);
    out.append(GREY);
    out.append(VL);
    out.append(PLAIN);
    out.append(" ");
    out.append(repr);
    out.append(GREY);
    out.append(" ");
    out.append(PLAIN);
    assert(out@ =~= old(out)@ + cell_text(*cell));
}

/// Appends the end of a row of `n` cells to `out`.
fn push_row_end(out: &mut String, n: usize)
    ensures
        final(out)@ == old(out)@ + row_end(n as nat),
{
    out.append(GREY);
    out.append(VL);
    out.append("\n\r");
    out.append(LT);
    push_rule(out, n, QD);
    out.append(BACK);
    out.append(RT);
    out.append("\x1b[0m\n\r");
    assert(out@ =~= old(out)@ + row_end(n as nat));
}

/// Appends the top of the box to `out`.
fn push_top(out: &mut String, n: usize)
    ensures
        final(out)@ == old(out)@ + top_text(n as nat),
{
    out.append(GREY);
    out.append(UL);
    push_rule(out, n, UT);
    out.append(BACK);
    out.append(UR);
    out.append(PLAIN);
    out.append("\n\r");
    assert(out@ =~= old(out)@ + top_text(n as nat));
}

/// Appends the bottom of the box to `out`.
fn push_bottom(out: &mut String, n: usize)
    ensures
        final(out)@ == old(out)@ + bottom_text(n as nat),
{
    out.append("\x1b[1A\x1b[90m\r");
    out.append(DL);
    push_rule(out, n, DT);
    out.append(BACK);
    out.append(DR);
    out.append(PLAIN);
    assert(out@ =~= old(out)@ + bottom_text(n as nat));
}

impl<const ROWS: usize, const COLUMNS: usize, const MINES: usize> Board<ROWS, COLUMNS, MINES> {
    /// The board as one frame of text, ready to be written to a terminal.
    pub fn draw(&self) -> (frame: String)
        requires
            self.wf(),
        ensures
            frame@ == frame_text(self@, COLUMNS as nat),
    {
        let mut out = String::new();
        push_top(&mut out, COLUMNS);
        let ghost top = out@;
        let ghost g = self@;
        assert(out@ =~= top + rows_text(g, 0));
        for r in 0..ROWS
            invariant
                self.wf(),
                g == self@,
                out@ == top + rows_text(g, r as nat),
        {
            let ghost start = out@;
            let ghost row = g[r as int];
            assert(out@ =~= start + cells_text(row, 0));
            for c in 0..COLUMNS
                invariant
                    r < ROWS,
                    self.wf(),
                    g == self@,
                    row == g[r as int],
                    out@ == start + cells_text(row, c as nat),
            {
                push_cell(&mut out, self.cell_at(r, c));
                assert(out@ =~= start + cells_text(row, (c + 1) as nat));
            }
            push_row_end(&mut out, COLUMNS);
            assert(out@ =~= top + rows_text(g, (r + 1) as nat)) by {
                assert(row.len() == COLUMNS);
                assert(out@ =~= start + row_text(row));
            }
        }
        push_bottom(&mut out, COLUMNS);
        assert(top =~= top_text(COLUMNS as nat));
        out
    }
}

} // verus!
