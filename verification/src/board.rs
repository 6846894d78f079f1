//! The board: eighty-one cells and the count of those still undetermined.

use crate::cell::CellValue;
use crate::digits::DigitSet;
use crate::error::SudokuError;
use crate::geometry::Point;
use crate::grid::{open_count, open_upto, propagated, proper_grid, solvable};
use vstd::prelude::*;
use vstd::std_specs::iter::IteratorSpec;

verus! {

/// A 9x9 sudoku board: its cells, the count of those still undetermined,
/// whether the initial check has run, and whether the board has been found to
/// have no solution.
#[derive(Clone, Copy, Debug)]
pub struct SudokuBoard {
    pub(crate) cells: [CellValue; 81],
    pub(crate) empty_count: usize,
    pub(crate) initialized: bool,
    pub(crate) contradicted: bool,
}

impl View for SudokuBoard {
    type V = Seq<CellValue>;

    open(crate) spec fn view(&self) -> Seq<CellValue> {
        self.cells@
    }
}

/// The characters of `text` that denote a cell, in order.
pub open spec fn recognized(text: Seq<char>) -> Seq<char>
    decreases text.len(),
{
    if text.len() == 0 {
        Seq::empty()
    } else if CellValue::parsed(text.last()) is Some {
        recognized(text.drop_last()).push(text.last())
    } else {
        recognized(text.drop_last())
    }
}

/// The recognized characters of a prefix are a prefix of the recognized
/// characters.
pub proof fn lemma_recognized_prefix(text: Seq<char>, n: int)
    requires
        0 <= n <= text.len(),
    ensures
        recognized(text.take(n)).len() <= recognized(text).len(),
        recognized(text.take(n)) == recognized(text).take(recognized(text.take(n)).len() as int),
    decreases text.len() - n,
{
    if n == text.len() {
        assert(text.take(n) =~= text);
        assert(recognized(text) =~= recognized(text).take(recognized(text).len() as int));
    } else {
        lemma_recognized_prefix(text, n + 1);
        let longer = text.take(n + 1);
        assert(longer.drop_last() =~= text.take(n));
        let m = recognized(text.take(n)).len() as int;
        assert(recognized(text.take(n)) =~= recognized(longer).take(m));
        assert(recognized(longer).take(m) =~= recognized(text).take(m));
    }
}

impl SudokuBoard {
    /// Whether the initial check has run on this board.
    pub open(crate) spec fn is_initialized(self) -> bool {
        self.initialized
    }

    /// Whether the board has been found to have no solution.
    pub open(crate) spec fn is_contradicted(self) -> bool {
        self.contradicted
    }

    /// The running count of undetermined cells.
    pub open(crate) spec fn empty_cells(self) -> nat {
        self.empty_count as nat
    }

    /// The board is well formed: its cells are proper and its count of
    /// undetermined cells is right. Once the initial check has run, either
    /// every fixed digit has been ruled out of the cells around it, or the
    /// board is marked as contradicted; and a board that is marked so has no
    /// solution.
    pub open spec fn wf(self) -> bool {
        &&& proper_grid(self@)
        &&& self.empty_cells() == open_count(self@)
        &&& self.is_initialized() && !self.is_contradicted() ==> propagated(self@)
        &&& self.is_contradicted() ==> self.is_initialized() && !solvable(self@)
    }

    /// The running count is the number of undetermined cells; an initialized
    /// board is propagated unless it is contradicted, and a contradicted
    /// board has no solution.
    pub proof fn lemma_wf(self)
        requires
            self.wf(),
        ensures
            self.empty_cells() == open_count(self@),
            self.empty_cells() <= 81,
            self.is_initialized() && !self.is_contradicted() ==> propagated(self@),
            self.is_contradicted() ==> self.is_initialized() && !solvable(self@),
    {
        crate::grid::lemma_open_upto_bound(self@, 81);
    }

    /// A well-formed board is determined by its cells and its two flags.
    pub proof fn lemma_same(self, other: SudokuBoard)
        requires
            self.wf(),
            other.wf(),
            self@ == other@,
            self.is_initialized() == other.is_initialized(),
            self.is_contradicted() == other.is_contradicted(),
        ensures
            self == other,
    {
        assert(self.cells =~= other.cells);
    }

    /// Builds a board from text. The characters that denote a cell are taken
    /// in order, nine to a row, until eighty-one cells are placed; all other
    /// characters are passed over. Text with fewer cells is refused.
    pub fn new(text: &str) -> (r: Result<SudokuBoard, SudokuError>)
        ensures
            match r {
                Ok(board) => {
                    &&& recognized(text@).len() >= 81
                    &&& board.wf()
                    &&& !board.is_initialized()
                    &&& !board.is_contradicted()
                    &&& forall|k: int|
                        0 <= k < 81 ==> Some(#[trigger] board@[k]) == CellValue::parsed(
                            recognized(text@)[k],
                        )
                },
                Err(e) => e == SudokuError::ParseError && recognized(text@).len() < 81,
            },
    {
        let mut cells: [CellValue; 81] = [CellValue::Fixed(1); 81];
        let mut placed: usize = 0;
        let mut empty: usize = 0;
        let mut chars = text.chars();
        let ghost mut pos: int = 0;
        assert(text@.take(0) =~= Seq::<char>::empty());
        loop
            invariant_except_break
                placed < 81,
            invariant
                0 <= pos <= text@.len(),
                chars.remaining() == text@.skip(pos),
                chars.obeys_prophetic_iter_laws(),
                empty <= placed <= 81,
                placed == recognized(text@.take(pos)).len(),
                placed <= recognized(text@).len(),
                recognized(text@.take(pos)) == recognized(text@).take(placed as int),
                empty == open_upto(cells@, placed as int),
                forall|k: int| 0 <= k < 81 ==> (#[trigger] cells@[k]).proper(),
                forall|k: int|
                    0 <= k < placed ==> Some(#[trigger] cells@[k]) == CellValue::parsed(
                        recognized(text@)[k],
                    ),
            ensures
                placed == 81 || placed == recognized(text@).len(),
            decreases text@.len() - pos,
        {
            match chars.next() {
                None => {
                    proof {
                        assert(text@.take(pos) =~= text@);
                    }
                    break ;
                },
                Some(c) => {
                    proof {
                        assert(text@.skip(pos)[0] == text@[pos]);
                        assert(text@.skip(pos).drop_first() =~= text@.skip(pos + 1));
                        assert(text@.take(pos + 1).drop_last() =~= text@.take(pos));
                        lemma_recognized_prefix(text@, pos + 1);
                        pos = pos + 1;
                    }
                    match CellValue::parse(c) {
                        None => {},
                        Some(cell) => {
                            proof {
                                DigitSet::lemma_all();
                                assert(recognized(text@.take(pos)).last() == c);
                                assert(recognized(text@)[placed as int] == c);
                                crate::grid::lemma_open_upto_update(
                                    cells@,
                                    placed as int,
                                    cell,
                                    placed as int,
                                );
                            }
                            if let CellValue::Candidates(_) = cell {
                                empty = empty + 1;
                            }
                            cells[placed] = cell;
                            placed = placed + 1;
                            if placed == 81 {
                                break ;
                            }
                        },
                    }
                },
            }
        }
        if placed < 81 {
            return Err(SudokuError::ParseError);
        }
        Ok(SudokuBoard { cells, empty_count: empty, initialized: false, contradicted: false })
    }

    /// Whether no cell is left undetermined.
    pub fn is_solved(&self) -> (b: bool)
        requires
            self.wf(),
        ensures
            b == (open_count(self@) == 0),
    {
        self.empty_count == 0
    }

    /// The number of undetermined cells.
    pub fn empty_count(&self) -> (n: usize)
        requires
            self.wf(),
        ensures
            n == open_count(self@),
            n <= 81,
    {
        proof {
            crate::grid::lemma_open_upto_bound(self@, 81);
        }
        self.empty_count
    }

    /// Whether the initial check has run on this board.
    pub fn initialized(&self) -> (b: bool)
        ensures
            b == self.is_initialized(),
    {
        self.initialized
    }

    /// Whether the board has been found to have no solution.
    pub fn contradicted(&self) -> (b: bool)
        ensures
            b == self.is_contradicted(),
    {
        self.contradicted
    }

    /// The cell at `point`.
    pub fn cell(&self, point: Point) -> (c: CellValue)
        requires
            point.in_grid(),
        ensures
            c == self@[point.spec_index()],
    {
        self.cells[point.index()]
    }
}

} // verus!
