//! The board as text: nine rows of cells in three bands, with a rule between
//! the bands.

use crate::board::{recognized, SudokuBoard};
use crate::cell::{CellValue, PLACEHOLDER};
use vstd::prelude::*;
use vstd::string::StringExecFns;

verus! {

/// The row of cells that the line `l` shows; lines 3 and 7 are rules.
pub open spec fn row_of_line(l: int) -> int {
    if l < 3 {
        l
    } else if l < 7 {
        l - 1
    } else {
        l - 2
    }
}

/// The character at place `k` of the line that shows row `r`. Each cell takes
/// one character, cells are set apart by a space, and after every third cell
/// stands a bar: `1 2 3 | 4 5 6 | 7 8 9 |`.
pub open spec fn row_char(g: Seq<CellValue>, r: int, k: int) -> char {
    let m = k % 8;
    if m == 0 || m == 2 || m == 4 {
        g[r * 9 + 3 * (k / 8) + m / 2].glyph()
    } else if m == 6 {
        '|'
    } else {
        ' '
    }
}

/// The character at place `p` of the rendered board.
pub open spec fn rendered_char(g: Seq<CellValue>, p: int) -> char {
    let l = p / 24;
    let k = p % 24;
    if k == 23 {
        '\n'
    } else if l == 3 || l == 7 {
        '-'
    } else {
        row_char(g, row_of_line(l), k)
    }
}

/// The rendered board: eleven lines of twenty-three characters, set apart by
/// line breaks. Lines 3 and 7 are rules of dashes; the others show the nine
/// rows in order.
pub open spec fn rendered(g: Seq<CellValue>) -> Seq<char> {
    Seq::new(263, |p: int| rendered_char(g, p))
}

/// The place in the rendered board at which the cell at index `i` is shown.
pub open spec fn place_of(i: int) -> int {
    let r = i / 9;
    let c = i % 9;
    24 * (r + r / 3) + 8 * (c / 3) + 2 * (c % 3)
}

/// Every cell is shown at its place by its glyph.
pub proof fn lemma_rendered_cell(g: Seq<CellValue>, i: int)
    requires
        0 <= i < 81,
    ensures
        0 <= place_of(i) < 263,
        rendered(g)[place_of(i)] == g[i].glyph(),
{
    let r = i / 9;
    let c = i % 9;
    let p = place_of(i);
    let k = 8 * (c / 3) + 2 * (c % 3);
    assert(0 <= k < 23);
    assert(p / 24 == r + r / 3 && p % 24 == k);
    assert(row_of_line(r + r / 3) == r);
    assert(k / 8 == c / 3 && k % 8 == 2 * (c % 3));
}

/// A board built from text shows, at the place of each cell, the digit that
/// the text gave the cell, and the placeholder glyph where the text held a
/// placeholder.
pub proof fn lemma_round_trip(text: Seq<char>, g: Seq<CellValue>, i: int)
    requires
        recognized(text).len() >= 81,
        g.len() == 81,
        forall|k: int| 0 <= k < 81 ==> Some(#[trigger] g[k]) == CellValue::parsed(recognized(text)[k]),
        0 <= i < 81,
    ensures
        rendered(g)[place_of(i)] == (if '1' <= recognized(text)[i] <= '9' {
            recognized(text)[i]
        } else {
            PLACEHOLDER
        }),
{
    lemma_rendered_cell(g, i);
    assert(Some(g[i]) == CellValue::parsed(recognized(text)[i]));
}

/// Whether place `p` of the rendered board shows a cell.
pub open spec fn is_place(p: int) -> bool {
    let l = p / 24;
    let k = p % 24;
    k != 23 && l != 3 && l != 7 && (k % 8 == 0 || k % 8 == 2 || k % 8 == 4)
}

/// The number of cells that the rendered board shows before place `p`.
pub open spec fn cells_before(p: int) -> int {
    let l = p / 24;
    let k = p % 24;
    let rows = if l <= 3 {
        l
    } else if l <= 7 {
        l - 1
    } else {
        l - 2
    };
    let m = k % 8;
    let in_row = if l == 3 || l == 7 {
        0
    } else {
        3 * (k / 8) + if m >= 5 {
            3
        } else {
            (m + 1) / 2
        }
    };
    9 * rows + in_row
}

/// The cells are shown in order, and what stands between them is no cell.
pub proof fn lemma_cells_before(g: Seq<CellValue>, p: int)
    requires
        0 <= p < 263,
    ensures
        0 <= cells_before(p) <= 81,
        cells_before(0) == 0,
        is_place(p) ==> cells_before(p) < 81 && place_of(cells_before(p)) == p && cells_before(
            p + 1,
        ) == cells_before(p) + 1 && rendered_char(g, p) == g[cells_before(p)].glyph(),
        !is_place(p) ==> cells_before(p + 1) == cells_before(p) && CellValue::parsed(
            rendered_char(g, p),
        ) is None,
{
    let l = p / 24;
    let k = p % 24;
    assert(0 <= l <= 10 && 0 <= k < 24);
    if k == 23 {
        assert((p + 1) / 24 == l + 1 && (p + 1) % 24 == 0);
    } else {
        assert((p + 1) / 24 == l && (p + 1) % 24 == k + 1);
        if is_place(p) {
            let i = cells_before(p);
            let r = row_of_line(l);
            let c = 3 * (k / 8) + (k % 8) / 2;
            assert(i == 9 * r + c);
            assert(0 <= c < 9 && 0 <= r < 9);
            assert(i / 9 == r && i % 9 == c);
            assert(r + r / 3 == l);
            assert(c / 3 == k / 8 && c % 3 == (k % 8) / 2);
        }
    }
}

/// The cells of a proper grid are shown by characters that read back as
/// cells: a fixed cell as itself, an undetermined one as a cell with every
/// candidate.
pub proof fn lemma_glyph_reads_back(cell: CellValue)
    requires
        cell.proper(),
    ensures
        CellValue::parsed(cell.glyph()) == Some(
            if cell is Fixed {
                cell
            } else {
                CellValue::Candidates(crate::digits::DigitSet::all())
            },
        ),
{
}

/// What is recognized in the first `p` characters of a rendered board are
/// the glyphs of the cells shown there.
pub proof fn lemma_read_back_upto(g: Seq<CellValue>, p: int)
    requires
        crate::grid::proper_grid(g),
        0 <= p <= 263,
    ensures
        recognized(rendered(g).take(p)) == Seq::new(
            cells_before(p) as nat,
            |i: int| g[i].glyph(),
        ),
        0 <= cells_before(p) <= 81,
    decreases p,
{
    let text = rendered(g).take(p);
    if p == 0 {
        lemma_cells_before(g, 0);
        assert(recognized(text) =~= Seq::new(0nat, |i: int| g[i].glyph()));
    } else {
        lemma_read_back_upto(g, p - 1);
        lemma_cells_before(g, p - 1);
        assert(text.drop_last() =~= rendered(g).take(p - 1));
        assert(text.last() == rendered_char(g, p - 1));
        if is_place(p - 1) {
            let i = cells_before(p - 1);
            assert(g[i].proper());
            lemma_glyph_reads_back(g[i]);
            assert(recognized(text) =~= Seq::new(cells_before(p) as nat, |i: int| g[i].glyph()));
        } else {
            assert(recognized(text) =~= Seq::new(cells_before(p) as nat, |i: int| g[i].glyph()));
        }
    }
}

/// Rendered text reads back as the board it shows: it holds eighty-one
/// cells, every fixed cell as its digit and every undetermined cell as a
/// placeholder.
pub proof fn lemma_read_back(g: Seq<CellValue>, i: int)
    requires
        crate::grid::proper_grid(g),
        0 <= i < 81,
    ensures
        recognized(rendered(g)).len() == 81,
        recognized(rendered(g))[i] == g[i].glyph(),
        CellValue::parsed(recognized(rendered(g))[i]) == Some(
            if g[i] is Fixed {
                g[i]
            } else {
                CellValue::Candidates(crate::digits::DigitSet::all())
            },
        ),
{
    lemma_read_back_upto(g, 263);
    assert(rendered(g).take(263) =~= rendered(g));
    assert(cells_before(263) == 81);
    lemma_glyph_reads_back(g[i]);
}

/// The text of one glyph.
fn glyph_text(cell: &CellValue) -> (t: &'static str)
    ensures
        t@ == seq![cell.glyph()],
{
    proof {
        reveal_strlit("0");
        reveal_strlit("1");
        reveal_strlit("2");
        reveal_strlit("3");
        reveal_strlit("4");
        reveal_strlit("5");
        reveal_strlit("6");
        reveal_strlit("7");
        reveal_strlit("8");
        reveal_strlit("9");
        reveal_strlit("?");
    }
    let t = match *cell {
        CellValue::Candidates(_) => "0",
        CellValue::Fixed(x) => match x {
            1 => "1",
            2 => "2",
            3 => "3",
            4 => "4",
            5 => "5",
            6 => "6",
            7 => "7",
            8 => "8",
            9 => "9",
            _ => "?",
        },
    };
    assert(t@ =~= seq![cell.glyph()]);
    t
}

impl SudokuBoard {
    /// Renders the board as eleven lines: the nine rows, each cell as its
    /// digit or as the placeholder glyph, with a bar after every third cell,
    /// and a rule of dashes after the third and after the sixth row.
    pub fn render(&self) -> (out: String)
        ensures
            out@ == rendered(self@),
    {
        let mut out = String::new();
        let mut p: usize = 0;
        while p < 263
            invariant
                p <= 263,
                out@ == rendered(self@).take(p as int),
            decreases 263 - p,
        {
            proof {
                reveal_strlit("\n");
                reveal_strlit("-");
                reveal_strlit("|");
                reveal_strlit(" ");
            }
            let l = p / 24;
            let k = p % 24;
            let piece: &str = if k == 23 {
                "\n"
            } else if l == 3 || l == 7 {
                "-"
            } else {
                let r = if l < 3 {
                    l
                } else if l < 7 {
                    l - 1
                } else {
                    l - 2
                };
                let m = k % 8;
                if m == 0 || m == 2 || m == 4 {
                    glyph_text(&self.cells[r * 9 + 3 * (k / 8) + m / 2])
                } else if m == 6 {
                    "|"
                } else {
                    " "
                }
            };
            assert(piece@ =~= seq![rendered(self@)[p as int]]);
            out.append(piece);
            assert(out@ =~= rendered(self@).take(p + 1));
            p = p + 1;
        }
        assert(out@ =~= rendered(self@));
        out
    }
}

} // verus!
