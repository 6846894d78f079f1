//! The search: propagation and narrowing as far as they go, then a guess on a
//! copy of the board, taken over when it works out and ruled out when not.

use crate::board::SudokuBoard;
use crate::cell::{CellValue, Elimination};
use crate::grid::{
    assigned, closure, digits_of, fill_model, filled, fresh, lemma_assigned_solutions,
    lemma_closure_keeps_solutions, lemma_complete_is_solution, lemma_eliminate_keeps_propagated,
    lemma_eliminate_keeps_solutions, lemma_fill_keeps_propagated, lemma_open_upto_bound,
    lemma_refines_counts, lemma_refines_fill, lemma_refines_self, lemma_refines_trans,
    lemma_unsettled_unsolvable, open_count, proper_grid, refines, solvable, solves, weight,
};
use crate::guess::guess_model;
use crate::narrow::narrow_full_model;
use vstd::prelude::*;

verus! {

/// What narrowing makes of a propagated grid that is to be solved: a grid
/// without undetermined cells is left as it is.
pub open spec fn narrowed_model(g: Seq<CellValue>) -> Option<Seq<CellValue>> {
    if open_count(g) == 0 {
        Some(g)
    } else {
        narrow_full_model(g)
    }
}

/// The grid that solving arrives at, if it arrives at one.
///
/// A board that is not initialized is propagated first. Then narrowing is
/// run, and where it leaves cells undetermined the search takes over.
pub open spec fn solve_model(g: Seq<CellValue>, initialized: bool) -> Option<Seq<CellValue>>
    decreases weight(g), 1nat,
{
    let checked = if initialized {
        Some(g)
    } else {
        closure(g, Set::full())
    };
    match checked {
        None => None,
        Some(g1) => match narrowed_model(g1) {
            None => None,
            Some(g2) => if open_count(g2) == 0 {
                Some(g2)
            } else if weight(g2) <= weight(g) {
                search_model(g2)
            } else {
                None
            },
        },
    }
}

/// The grid that the search arrives at from a grid on which narrowing has
/// come to a halt.
///
/// The guess of the heuristic is tried on a copy: the digit is put in its
/// cell, and the copy is solved. Where that works out the copy is the result.
/// Where not, the digit is ruled out of the cell; if that fixes the cell,
/// its digit is propagated and narrowing is run again; and the search goes
/// on.
pub open spec fn search_model(g: Seq<CellValue>) -> Option<Seq<CellValue>>
    decreases weight(g), 0nat,
{
    let i = guess_model(g).0;
    let d = guess_model(g).1;
    let branch = match fill_model(g, i, d) {
        None => None,
        Some(t) => if weight(t) < weight(g) {
            solve_model(t, true)
        } else {
            None
        },
    };
    let next = g.update(i, g[i].without(d));
    if branch is Some {
        branch
    } else if weight(next) >= weight(g) {
        None
    } else if next[i] is Fixed {
        match fill_model(next, i, next[i]->Fixed_0 as int) {
            None => None,
            Some(c) => match narrowed_model(c) {
                None => None,
                Some(c2) => if open_count(c2) == 0 {
                    Some(c2)
                } else if weight(c2) < weight(g) {
                    search_model(c2)
                } else {
                    None
                },
            },
        }
    } else {
        search_model(next)
    }
}

/// A solved board of a puzzle with a single solution holds that solution.
pub proof fn lemma_unique_solution(g: Seq<CellValue>, c: Seq<CellValue>, s: Seq<int>)
    requires
        solves(s, g),
        forall|t: Seq<int>| solves(t, g) ==> t == s,
        solves(digits_of(c), g),
        c == filled(digits_of(c)),
    ensures
        c == filled(s),
{
}

impl SudokuBoard {
    /// Puts the cells back as they were saved, and marks the board as
    /// contradicted.
    fn give_up(&mut self, saved: SudokuBoard)
        requires
            saved.wf(),
            !solvable(saved@),
        ensures
            final(self).wf(),
            final(self)@ == saved@,
            final(self).is_initialized(),
            final(self).is_contradicted(),
    {
        *self = saved;
        self.initialized = true;
        self.contradicted = true;
    }

    /// Solves the board, or finds that it has no solution.
    ///
    /// The result is `true` exactly when the puzzle has a solution. The board
    /// is then complete and holds one: no two cells of a row, a column or a
    /// box hold the same digit, every digit that was fixed is kept, and every
    /// other cell holds one of the candidates it had. Where the puzzle has
    /// several solutions, the board holds the one that the search of
    /// `solve_model` comes upon first.
    ///
    /// Where the puzzle has no solution, the cells are left as they were, and
    /// the board is marked as contradicted. Either way the board is
    /// initialized afterwards.
    pub fn solve(&mut self) -> (ok: bool)
        requires
            old(self).wf(),
        ensures
            final(self).wf(),
            ok == solvable(old(self)@),
            !old(self).is_contradicted() ==> solve_model(old(self)@, old(self).is_initialized())
                == (if ok {
                Some(final(self)@)
            } else {
                None
            }),
            final(self).is_initialized(),
            final(self).is_contradicted() == !ok,
            refines(final(self)@, old(self)@),
            !ok ==> final(self)@ == old(self)@,
            open_count(final(self)@) == 0 <==> ok || open_count(old(self)@) == 0,
            ok ==> {
                &&& open_count(final(self)@) == 0
                &&& solves(digits_of(final(self)@), old(self)@)
                &&& final(self)@ == filled(digits_of(final(self)@))
            },
        decreases old(self).empty_cells(),
    {
        proof {
            lemma_refines_self(self@);
        }
        if self.contradicted {
            return false;
        }
        let saved = *self;
        let ghost goal = solve_model(old(self)@, old(self).is_initialized());
        if !self.initialized {
            let ghost given = self@;
            match self.initial_check() {
                Err(_) => {
                    proof {
                        lemma_unsettled_unsolvable(given, Set::full());
                    }
                    return false;
                },
                Ok(_) => {
                    proof {
                        assert forall|s: Seq<int>| solves(s, self@) <==> solves(s, given) by {
                            lemma_closure_keeps_solutions(given, Set::full(), self@, s);
                        }
                    }
                },
            }
        }
        if self.is_solved() {
            proof {
                lemma_complete_is_solution(self@);
                assert(solves(digits_of(self@), old(self)@));
            }
            return true;
        }
        let ghost checked = self@;
        match self.narrow_full() {
            Err(_) => {
                self.give_up(saved);
                return false;
            },
            Ok(solved) => {
                proof {
                    lemma_refines_trans(self@, checked, old(self)@);
                    lemma_refines_counts(self@, old(self)@, 81);
                }
                if solved {
                    proof {
                        lemma_complete_is_solution(self@);
                        assert(solves(digits_of(self@), old(self)@));
                    }
                    return true;
                }
            },
        }
        loop
            invariant
                self.wf(),
                self.is_initialized(),
                !self.is_contradicted(),
                saved == *old(self),
                saved.wf(),
                open_count(self@) > 0,
                refines(self@, old(self)@),
                proper_grid(old(self)@),
                old(self).empty_cells() == open_count(old(self)@),
                forall|s: Seq<int>| solves(s, self@) <==> solves(s, old(self)@),
                search_model(self@) == goal,
                goal == solve_model(old(self)@, old(self).is_initialized()),
            decreases weight(self@),
        {
            let ghost cur = self@;
            let (point, digit) = self.guess();
            let idx = point.index();
            let mut trial = *self;
            proof {
                lemma_refines_counts(cur, old(self)@, 81);
                assert forall|s: Seq<int>|
                    solves(s, assigned(cur, idx as int, digit as int)) <==> solves(s, cur)
                        && s[idx as int] == digit by {
                    lemma_assigned_solutions(cur, idx as int, digit as int, s);
                }
                crate::grid::lemma_open_upto_update(cur, idx as int, CellValue::Fixed(digit), 81);
                crate::grid::lemma_weight_upto_update(cur, idx as int, CellValue::Fixed(digit), 81);
                assert(cur[idx as int].proper());
            }
            let branch = match trial.fill_space(point, digit) {
                Err(_) => {
                    proof {
                        lemma_unsettled_unsolvable(
                            assigned(cur, idx as int, digit as int),
                            fresh(cur, idx as int),
                        );
                    }
                    false
                },
                Ok(_) => {
                    let ghost filled = trial@;
                    proof {
                        lemma_refines_fill(cur, idx as int, digit as int, filled);
                        lemma_refines_counts(filled, assigned(cur, idx as int, digit as int), 81);
                        assert(weight(filled) < weight(cur));
                        assert forall|s: Seq<int>| solves(s, filled) <==> solves(
                            s,
                            assigned(cur, idx as int, digit as int),
                        ) by {
                            lemma_closure_keeps_solutions(
                                assigned(cur, idx as int, digit as int),
                                fresh(cur, idx as int),
                                filled,
                                s,
                            );
                        }
                    }
                    let found = trial.solve();
                    proof {
                        if found {
                            lemma_refines_trans(trial@, filled, cur);
                            lemma_refines_trans(trial@, cur, old(self)@);
                        } else {
                            assert forall|s: Seq<int>| !solves(
                                s,
                                assigned(cur, idx as int, digit as int),
                            ) by {
                                if solves(s, assigned(cur, idx as int, digit as int)) {
                                    assert(solves(s, filled));
                                }
                            }
                        }
                    }
                    found
                },
            };
            if branch {
                *self = trial;
                proof {
                    assert(solves(digits_of(self@), old(self)@));
                }
                return true;
            }
            proof {
                assert forall|s: Seq<int>| solves(s, cur) implies s[idx as int] != digit by {
                    if s[idx as int] == digit {
                        assert(solves(s, assigned(cur, idx as int, digit as int)));
                    }
                }
                lemma_eliminate_keeps_solutions(cur, idx as int, digit as int);
                cur[idx as int].lemma_without(digit as int);
                lemma_open_upto_bound(cur, 81);
            }
            let mut cell = self.cells[idx];
            match cell.eliminate(digit) {
                Elimination::Contradiction => {
                    self.give_up(saved);
                    return false;
                },
                Elimination::AlreadyEliminated => {},
                Elimination::Eliminated => {
                    self.cells[idx] = cell;
                    proof {
                        lemma_eliminate_keeps_propagated(cur, idx as int, digit as int);
                        lemma_refines_trans(self@, cur, old(self)@);
                    }
                },
                Elimination::BecameFixed(forced) => {
                    self.cells[idx] = cell;
                    self.empty_count = self.empty_count - 1;
                    self.initialized = false;
                    let ghost next = self@;
                    proof {
                        assert(next =~= cur.update(idx as int, cur[idx as int].without(digit as int)));
                        assert(next =~= assigned(cur, idx as int, forced as int));
                        assert(assigned(next, idx as int, forced as int) =~= next);
                        assert(fresh(next, idx as int) =~= fresh(cur, idx as int));
                        lemma_refines_trans(next, cur, old(self)@);
                    }
                    match self.fill_space(point, forced) {
                        Err(_) => {
                            proof {
                                lemma_unsettled_unsolvable(next, fresh(next, idx as int));
                                assert(!solvable(old(self)@)) by {
                                    if solvable(old(self)@) {
                                        let s = choose|s: Seq<int>| solves(s, old(self)@);
                                        assert(solves(s, next));
                                    }
                                }
                            }
                            self.give_up(saved);
                            return false;
                        },
                        Ok(_) => {
                            proof {
                                lemma_fill_keeps_propagated(
                                    cur,
                                    idx as int,
                                    forced as int,
                                    self@,
                                );
                                assert forall|s: Seq<int>| solves(s, self@) <==> solves(
                                    s,
                                    next,
                                ) by {
                                    lemma_closure_keeps_solutions(
                                        next,
                                        fresh(next, idx as int),
                                        self@,
                                        s,
                                    );
                                }
                                lemma_refines_trans(self@, next, old(self)@);
                                lemma_refines_counts(self@, next, 81);
                            }
                            self.initialized = true;
                        },
                    }
                    if self.is_solved() {
                        proof {
                            lemma_complete_is_solution(self@);
                            assert(solves(digits_of(self@), old(self)@));
                        }
                        return true;
                    }
                    let ghost filled = self@;
                    match self.narrow_full() {
                        Err(_) => {
                            proof {
                                assert(!solvable(old(self)@)) by {
                                    if solvable(old(self)@) {
                                        let s = choose|s: Seq<int>| solves(s, old(self)@);
                                        assert(solves(s, filled));
                                    }
                                }
                            }
                            self.give_up(saved);
                            return false;
                        },
                        Ok(solved) => {
                            proof {
                                lemma_refines_trans(self@, filled, old(self)@);
                                lemma_refines_counts(self@, filled, 81);
                                assert(weight(self@) < weight(cur));
                            }
                            if solved {
                                proof {
                                    lemma_complete_is_solution(self@);
                                    assert(solves(digits_of(self@), old(self)@));
                                }
                                return true;
                            }
                        },
                    }
                },
            }
        }
    }
}

} // verus!
