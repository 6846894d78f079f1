//! The choice of the next guess when narrowing has come to a halt.

use crate::board::SudokuBoard;
use crate::cell::CellValue;
use crate::geometry::{adjacent, adjacent_cells, Point};
use crate::grid::{lemma_open_upto_zero, open_count, proper_grid};
use vstd::prelude::*;

verus! {

/// The cell at `i` is undetermined and lists `d`: the pair can be guessed.
pub open spec fn guessable(g: Seq<CellValue>, i: int, d: int) -> bool {
    0 <= i < 81 && 1 <= d <= 9 && g[i].is_open() && g[i].allows(d)
}

/// The cell at `j` is undetermined and lists `d`.
pub open spec fn touched(g: Seq<CellValue>, j: int, d: int) -> bool {
    g[j].is_open() && g[j].allows(d)
}

/// Among the first `n` cells adjacent to `i`, the number of undetermined
/// cells that list `d` and have exactly two candidates: those that placing
/// `d` at `i` would fix.
pub open spec fn forced_upto(g: Seq<CellValue>, i: int, d: int, n: int) -> nat
    decreases n,
{
    if n <= 0 {
        0
    } else {
        forced_upto(g, i, d, n - 1) + if touched(g, adjacent(i)[n - 1], d) && g[adjacent(
            i,
        )[n - 1]].width() == 2 {
            1nat
        } else {
            0nat
        }
    }
}

/// Among the first `n` cells adjacent to `i`, the number of undetermined
/// cells that list `d`: those that placing `d` at `i` would take `d` from.
pub open spec fn removed_upto(g: Seq<CellValue>, i: int, d: int, n: int) -> nat
    decreases n,
{
    if n <= 0 {
        0
    } else {
        removed_upto(g, i, d, n - 1) + if touched(g, adjacent(i)[n - 1], d) {
            1nat
        } else {
            0nat
        }
    }
}

/// The number of cells that placing `d` at `i` would fix at once.
pub open spec fn forced(g: Seq<CellValue>, i: int, d: int) -> nat {
    forced_upto(g, i, d, 20)
}

/// The number of cells that placing `d` at `i` would take a candidate from.
pub open spec fn removed(g: Seq<CellValue>, i: int, d: int) -> nat {
    removed_upto(g, i, d, 20)
}

/// The guess `(i, d)` is strictly better than `(j, e)`: its cell has fewer
/// candidates; or as many, and it fixes more cells; or as many of both, and
/// it takes a candidate from more cells.
pub open spec fn better(g: Seq<CellValue>, i: int, d: int, j: int, e: int) -> bool {
    ||| g[i].width() < g[j].width()
    ||| g[i].width() == g[j].width() && forced(g, i, d) > forced(g, j, e)
    ||| g[i].width() == g[j].width() && forced(g, i, d) == forced(g, j, e) && removed(g, i, d)
        > removed(g, j, e)
}

/// `(i, d)` comes before `(j, e)` when the cells are scanned row by row and
/// the digits of each cell in rising order.
pub open spec fn earlier(i: int, d: int, j: int, e: int) -> bool {
    i < j || (i == j && d < e)
}

/// Among the guesses that come before `(i, d)` in the scan, `(bi, bd)` is
/// the first of the best.
pub open spec fn best_before(g: Seq<CellValue>, bi: int, bd: int, i: int, d: int) -> bool {
    &&& guessable(g, bi, bd)
    &&& earlier(bi, bd, i, d)
    &&& forall|j: int, e: int|
        #[trigger] guessable(g, j, e) && earlier(j, e, i, d) ==> if earlier(j, e, bi, bd) {
            better(g, bi, bd, j, e)
        } else {
            !better(g, j, e, bi, bd)
        }
}

/// `(i, d)` is the guess to make: the first of the best among all guesses.
pub open spec fn best_guess(g: Seq<CellValue>, i: int, d: int) -> bool {
    best_before(g, i, d, 81, 0)
}

/// The guess that the heuristic makes in a grid.
pub open spec fn guess_model(g: Seq<CellValue>) -> (int, int) {
    choose|p: (int, int)| best_guess(g, p.0, p.1)
}

/// A guess that is the first of the best is the guess that is made.
pub proof fn lemma_guess_model(g: Seq<CellValue>, i: int, d: int)
    requires
        best_guess(g, i, d),
    ensures
        guess_model(g) == (i, d),
{
    let p = (i, d);
    assert(best_guess(g, p.0, p.1));
    let q = guess_model(g);
    lemma_best_guess_unique(g, i, d, q.0, q.1);
}

/// There is at most one guess to make.
pub proof fn lemma_best_guess_unique(g: Seq<CellValue>, i: int, d: int, j: int, e: int)
    requires
        best_guess(g, i, d),
        best_guess(g, j, e),
    ensures
        i == j && d == e,
{
    assert(guessable(g, i, d) && guessable(g, j, e));
}

impl SudokuBoard {
    /// Counts, among the cells around the cell at `i`, those that list `d`
    /// and have two candidates, and those that list `d`.
    fn impact(&self, around: &Vec<Point>, d: u8, Ghost(i): Ghost<int>) -> (r: (usize, usize))
        requires
            0 <= i < 81,
            around@.len() == 20,
            forall|k: int|
                0 <= k < 20 ==> (#[trigger] around@[k]).in_grid() && around@[k].spec_index()
                    == adjacent(i)[k],
        ensures
            r.0 == forced(self@, i, d as int),
            r.1 == removed(self@, i, d as int),
            r.0 <= 20,
            r.1 <= 20,
    {
        let mut hits: usize = 0;
        let mut fixes: usize = 0;
        let mut k: usize = 0;
        while k < 20
            invariant
                k <= 20,
                0 <= i < 81,
                around@.len() == 20,
                forall|m: int|
                    0 <= m < 20 ==> (#[trigger] around@[m]).in_grid() && around@[m].spec_index()
                        == adjacent(i)[m],
                fixes == forced_upto(self@, i, d as int, k as int),
                hits == removed_upto(self@, i, d as int, k as int),
                fixes <= k,
                hits <= k,
            decreases 20 - k,
        {
            if let CellValue::Candidates(s) = self.cells[around[k].index()] {
                if s.contains(d) {
                    hits = hits + 1;
                    if s.len() == 2 {
                        fixes = fixes + 1;
                    }
                }
            }
            k = k + 1;
        }
        (fixes, hits)
    }

    /// Picks the cell and the digit to guess next.
    ///
    /// Every undetermined cell and each of its candidates is considered, the
    /// cells row by row and the digits in rising order. A guess is better
    /// when its cell has fewer candidates; among those, when more of the
    /// cells around it would be fixed at once; among those, when more of the
    /// cells around it would lose a candidate. Of several best guesses the
    /// first is taken.
    pub fn guess(&self) -> (r: (Point, u8))
        requires
            self.wf(),
            open_count(self@) > 0,
        ensures
            r.0.in_grid(),
            best_guess(self@, r.0.spec_index(), r.1 as int),
            guess_model(self@) == (r.0.spec_index(), r.1 as int),
    {
        let ghost g = self@;
        let mut found = false;
        let mut best_i: usize = 0;
        let mut best_d: u8 = 0;
        let mut best_width: usize = 0;
        let mut best_forced: usize = 0;
        let mut best_removed: usize = 0;
        let mut i: usize = 0;
        while i < 81
            invariant
                i <= 81,
                g == self@,
                proper_grid(g),
                !found ==> forall|j: int, e: int| #[trigger]
                    guessable(g, j, e) ==> !earlier(j, e, i as int, 0),
                found ==> best_before(g, best_i as int, best_d as int, i as int, 0),
                found ==> best_width == g[best_i as int].width() && best_forced == forced(
                    g,
                    best_i as int,
                    best_d as int,
                ) && best_removed == removed(g, best_i as int, best_d as int),
            decreases 81 - i,
        {
            if let CellValue::Candidates(s) = self.cells[i] {
                let width = s.len();
                proof {
                    s.lemma_bounded();
                }
                if !found || width <= best_width {
                    let around = adjacent_cells(Point::at(i));
                    let mut d: u8 = 1;
                    while d <= 9
                        invariant
                            1 <= d <= 10,
                            i < 81,
                            g == self@,
                            proper_grid(g),
                            g[i as int] == CellValue::Candidates(s),
                            width == s@.len(),
                            around@.len() == 20,
                            forall|k: int|
                                0 <= k < 20 ==> (#[trigger] around@[k]).in_grid()
                                    && around@[k].spec_index() == adjacent(i as int)[k],
                            !found ==> forall|j: int, e: int| #[trigger]
                                guessable(g, j, e) ==> !earlier(j, e, i as int, d as int),
                            found ==> best_before(
                                g,
                                best_i as int,
                                best_d as int,
                                i as int,
                                d as int,
                            ),
                            found ==> best_width == g[best_i as int].width() && best_forced
                                == forced(g, best_i as int, best_d as int) && best_removed
                                == removed(g, best_i as int, best_d as int),
                        decreases 10 - d,
                    {
                        if s.contains(d) {
                            let (fixes, hits) = self.impact(&around, d, Ghost(i as int));
                            if !found || width < best_width || (width == best_width && (fixes
                                > best_forced || (fixes == best_forced && hits > best_removed))) {
                                found = true;
                                best_i = i;
                                best_d = d;
                                best_width = width;
                                best_forced = fixes;
                                best_removed = hits;
                            }
                        }
                        d = d + 1;
                    }
                }
            }
            i = i + 1;
        }
        proof {
            if !found {
                lemma_open_upto_zero(g, 81);
                let k = choose|k: int| 0 <= k < 81 && !((#[trigger] g[k]) is Fixed);
                assert(g[k].proper());
                let s = g[k]->Candidates_0;
                s.lemma_bounded();
                crate::cell::lemma_second_member(s@, 0);
                let e = choose|e: int| s@.contains(e) && e != 0;
                assert(guessable(g, k, e));
            }
        }
        proof {
            lemma_guess_model(g, best_i as int, best_d as int);
        }
        (Point::at(best_i), best_d)
    }
}

} // verus!
