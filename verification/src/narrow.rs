//! Narrowing by units: a digit that has a single place left in a row, a
//! column or a box is put there.

use crate::board::SudokuBoard;
use crate::cell::CellValue;
use crate::error::SudokuError;
use crate::geometry::{
    all_units, lemma_peers_share_unit, lemma_unit, peers, place_in_unit, shared_unit, unit_cell,
};
use crate::grid::{
    assigned, fill_model, fresh, lemma_assigned_solutions, lemma_closure_keeps_solutions,
    lemma_open_upto_bound, lemma_refines_counts, lemma_refines_fill, lemma_refines_self,
    lemma_refines_trans, lemma_unit_has_digit, lemma_unsettled_unsolvable, open_count,
    proper_grid, refines, solvable, solves,
};
use vstd::prelude::*;

verus! {

/// The `k`-th cell of unit `u` is fixed to `d`.
pub open spec fn holds_at(g: Seq<CellValue>, u: int, d: int, k: int) -> bool {
    g[unit_cell(u, k)] == CellValue::Fixed(d as u8)
}

/// The `k`-th cell of unit `u` is undetermined and lists `d`.
pub open spec fn lists_at(g: Seq<CellValue>, u: int, d: int, k: int) -> bool {
    g[unit_cell(u, k)].is_open() && g[unit_cell(u, k)].allows(d)
}

/// Some cell of unit `u` is fixed to `d`.
pub open spec fn unit_holds(g: Seq<CellValue>, u: int, d: int) -> bool {
    exists|k: int| 0 <= k < 9 && #[trigger] holds_at(g, u, d, k)
}

/// The number of undetermined cells among the first `n` of unit `u` that
/// list `d`.
pub open spec fn place_count(g: Seq<CellValue>, u: int, d: int, n: int) -> nat
    decreases n,
{
    if n <= 0 {
        0
    } else {
        place_count(g, u, d, n - 1) + if lists_at(g, u, d, n - 1) {
            1nat
        } else {
            0nat
        }
    }
}

/// The last of the first `n` cells of unit `u` that is undetermined and
/// lists `d`; -1 if there is none.
pub open spec fn last_place(g: Seq<CellValue>, u: int, d: int, n: int) -> int
    decreases n,
{
    if n <= 0 {
        -1
    } else if lists_at(g, u, d, n - 1) {
        n - 1
    } else {
        last_place(g, u, d, n - 1)
    }
}

/// What narrowing does for one unit and one digit. Nothing, when the unit
/// holds the digit or has two or more places for it; the digit is put in its
/// place when there is exactly one; and there is no result when no place is
/// left.
pub open spec fn narrow_step(g: Seq<CellValue>, u: int, d: int) -> Option<Seq<CellValue>> {
    if unit_holds(g, u, d) {
        Some(g)
    } else if place_count(g, u, d, 9) == 0 {
        None
    } else if place_count(g, u, d, 9) == 1 {
        fill_model(g, unit_cell(u, last_place(g, u, d, 9)), d)
    } else {
        Some(g)
    }
}

/// The unit of the `t`-th step of a narrowing pass.
pub open spec fn step_unit(t: int) -> int {
    t / 9
}

/// The digit of the `t`-th step of a narrowing pass.
pub open spec fn step_digit(t: int) -> int {
    t % 9 + 1
}

/// What the steps of a narrowing pass from the `t`-th on make of a grid.
pub open spec fn narrow_from(g: Seq<CellValue>, t: int) -> Option<Seq<CellValue>>
    decreases 243 - t,
{
    if t < 0 || t >= 243 {
        Some(g)
    } else {
        match narrow_step(g, step_unit(t), step_digit(t)) {
            None => None,
            Some(next) => narrow_from(next, t + 1),
        }
    }
}

/// What one narrowing pass makes of a grid: the units are taken in order,
/// and for each unit the digits from 1 to 9.
pub open spec fn narrow_model(g: Seq<CellValue>) -> Option<Seq<CellValue>> {
    narrow_from(g, 0)
}

/// Unit `u` needs nothing done for `d`: it holds the digit, or has two or
/// more places for it.
pub open spec fn at_rest(g: Seq<CellValue>, u: int, d: int) -> bool {
    unit_holds(g, u, d) || place_count(g, u, d, 9) >= 2
}

/// A narrowing pass finds nothing to do in the grid.
pub open spec fn stalled(g: Seq<CellValue>) -> bool {
    forall|t: int| 0 <= t < 243 ==> #[trigger] at_rest(g, step_unit(t), step_digit(t))
}

/// What narrowing passes make of a grid when they are repeated until one
/// fixes no cell, or no cell is left undetermined.
pub open spec fn narrow_full_model(g: Seq<CellValue>) -> Option<Seq<CellValue>>
    decreases open_count(g),
{
    match narrow_model(g) {
        None => None,
        Some(next) => if open_count(next) >= open_count(g) || open_count(next) == 0 {
            Some(next)
        } else {
            narrow_full_model(next)
        },
    }
}

/// In a propagated grid no unit holds a digit twice.
pub proof fn lemma_unit_holds_once(g: Seq<CellValue>, u: int, d: int, k: int, m: int)
    requires
        crate::grid::propagated(g),
        0 <= u < 27,
        0 <= k < 9,
        0 <= m < 9,
        k != m,
        holds_at(g, u, d, k),
    ensures
        !holds_at(g, u, d, m),
{
    lemma_unit(u, k, m);
    assert(Set::<int>::full().contains(unit_cell(u, k)));
    assert(crate::grid::clear_of(g, unit_cell(u, k), unit_cell(u, m)));
}

/// A grid whose cells are all fixed, and in which no unit holds a digit
/// twice, is propagated and is its own solution.
pub proof fn lemma_complete_valid(g: Seq<CellValue>)
    requires
        proper_grid(g),
        open_count(g) == 0,
        forall|u: int, d: int, k: int, m: int|
            0 <= u < 27 && 0 <= k < 9 && 0 <= m < 9 && k != m && #[trigger] holds_at(g, u, d, k)
                ==> !#[trigger] holds_at(g, u, d, m),
    ensures
        crate::grid::propagated(g),
        solves(crate::grid::digits_of(g), g),
        solvable(g),
{
    crate::grid::lemma_open_upto_zero(g, 81);
    assert forall|i: int, j: int| #[trigger] peers(i, j) implies crate::grid::clear_of(g, i, j) by {
        lemma_peers_share_unit(i, j);
        let u = shared_unit(i, j);
        let k = place_in_unit(u, i);
        let m = place_in_unit(u, j);
        assert(g[i] is Fixed && g[j] is Fixed);
        let d = g[i]->Fixed_0 as int;
        assert(holds_at(g, u, d, k));
        assert(!holds_at(g, u, d, m));
    }
    crate::grid::lemma_complete_is_solution(g);
}

/// What the count of places says about the places themselves.
pub proof fn lemma_places(g: Seq<CellValue>, u: int, d: int, n: int)
    requires
        0 <= n <= 9,
    ensures
        place_count(g, u, d, n) <= n,
        place_count(g, u, d, n) == 0 <==> forall|k: int|
            0 <= k < n ==> !#[trigger] lists_at(g, u, d, k),
        place_count(g, u, d, n) >= 1 ==> 0 <= last_place(g, u, d, n) < n && lists_at(
            g,
            u,
            d,
            last_place(g, u, d, n),
        ),
        place_count(g, u, d, n) == 1 ==> forall|k: int|
            0 <= k < n && #[trigger] lists_at(g, u, d, k) ==> k == last_place(g, u, d, n),
    decreases n,
{
    if n > 0 {
        lemma_places(g, u, d, n - 1);
    }
}

/// A pass over a stalled grid leaves it as it is.
pub proof fn lemma_stalled_pass(g: Seq<CellValue>, t: int)
    requires
        stalled(g),
        0 <= t <= 243,
    ensures
        narrow_from(g, t) == Some(g),
    decreases 243 - t,
{
    if t < 243 {
        assert(at_rest(g, step_unit(t), step_digit(t)));
        lemma_stalled_pass(g, t + 1);
    }
}

/// Where a unit lacks a digit and has no place for it, the grid has no
/// solution; where it has one place, every solution puts the digit there.
pub proof fn lemma_single_place(g: Seq<CellValue>, u: int, d: int, s: Seq<int>)
    requires
        g.len() == 81,
        0 <= u < 27,
        1 <= d <= 9,
        !unit_holds(g, u, d),
        place_count(g, u, d, 9) <= 1,
        solves(s, g),
    ensures
        place_count(g, u, d, 9) == 1,
        s[unit_cell(u, last_place(g, u, d, 9))] == d,
{
    lemma_unit_has_digit(s, u, d);
    let k = choose|k: int| 0 <= k < 9 && s[#[trigger] unit_cell(u, k)] == d;
    lemma_unit(u, k, k);
    lemma_places(g, u, d, 9);
    let cell = g[unit_cell(u, k)];
    assert(cell.allows(d));
    if cell is Fixed {
        assert(holds_at(g, u, d, k));
    } else {
        assert(lists_at(g, u, d, k));
    }
}

impl SudokuBoard {
    /// On a board that has passed the initial check no row, column or box
    /// holds a digit twice.
    pub proof fn lemma_units_distinct(self, u: int, d: int, k: int, m: int)
        requires
            self.wf(),
            self.is_initialized(),
            !self.is_contradicted(),
            0 <= u < 27,
            0 <= k < 9,
            0 <= m < 9,
            k != m,
        ensures
            !(holds_at(self@, u, d, k) && holds_at(self@, u, d, m)),
    {
        if holds_at(self@, u, d, k) {
            lemma_unit_holds_once(self@, u, d, k, m);
        }
    }

    /// One narrowing pass. For each unit and each digit that no cell of the
    /// unit is fixed to: when a single undetermined cell of the unit lists
    /// the digit, the cell is fixed to it and the assignment propagated; when
    /// none does, the board is unsolvable.
    ///
    /// The result counts the cells that the pass fixed. It is zero exactly
    /// when the pass found nothing to do, and the board is then unchanged.
    /// When the pass fails, the board is left as it was before the pass.
    pub fn narrow(&mut self) -> (r: Result<usize, SudokuError>)
        requires
            old(self).wf(),
        ensures
            final(self).wf(),
            refines(final(self)@, old(self)@),
            match r {
                Ok(n) => {
                    &&& narrow_model(old(self)@) == Some(final(self)@)
                    &&& n == open_count(old(self)@) - open_count(final(self)@)
                    &&& final(self).is_initialized() == old(self).is_initialized()
                    &&& final(self).is_contradicted() == old(self).is_contradicted()
                    &&& forall|s: Seq<int>| solves(s, final(self)@) <==> solves(s, old(self)@)
                    &&& n == 0 <==> stalled(old(self)@)
                    &&& n == 0 ==> *final(self) == *old(self)
                },
                Err(e) => {
                    &&& e == SudokuError::Unsolvable
                    &&& narrow_model(old(self)@) is None
                    &&& !solvable(old(self)@)
                    &&& *final(self) == *old(self)
                },
            },
    {
        let saved = *self;
        let units = all_units();
        let start = self.empty_count;
        let mut t: usize = 0;
        proof {
            lemma_open_upto_bound(self@, 81);
            lemma_refines_self(self@);
        }
        while t < 243
            invariant
                t <= 243,
                units@.len() == 27,
                forall|u: int| 0 <= u < 27 ==> (#[trigger] units@[u])@.len() == 9,
                forall|u: int, k: int|
                    0 <= u < 27 && 0 <= k < 9 ==> (#[trigger] units@[u]@[k]).in_grid()
                        && units@[u]@[k].spec_index() == unit_cell(u, k),
                self.wf(),
                old(self).wf(),
                start == open_count(old(self)@),
                self.empty_count <= start,
                saved == *old(self),
                self.is_initialized() == old(self).is_initialized(),
                self.is_contradicted() == old(self).is_contradicted(),
                narrow_from(self@, t as int) == narrow_model(old(self)@),
                refines(self@, old(self)@),
                forall|s: Seq<int>| solves(s, self@) <==> solves(s, old(self)@),
                self.empty_count == start ==> *self == *old(self) && forall|q: int|
                    0 <= q < t ==> #[trigger] at_rest(old(self)@, step_unit(q), step_digit(q)),
                self.empty_count < start ==> !stalled(old(self)@),
            decreases 243 - t,
        {
            let u = t / 9;
            let d = (t % 9 + 1) as u8;
            let ghost cur = self@;
            let mut held = false;
            let mut count: usize = 0;
            let mut place: usize = 0;
            let mut k: usize = 0;
            while k < 9
                invariant
                    k <= 9,
                    u < 27,
                    1 <= d <= 9,
                    cur == self@,
                    proper_grid(cur),
                    units@.len() == 27,
                    units@[u as int]@.len() == 9,
                    forall|m: int|
                        0 <= m < 9 ==> (#[trigger] units@[u as int]@[m]).in_grid()
                            && units@[u as int]@[m].spec_index() == unit_cell(u as int, m),
                    held <==> exists|m: int|
                        0 <= m < k && #[trigger] holds_at(cur, u as int, d as int, m),
                    count == place_count(cur, u as int, d as int, k as int),
                    count <= k,
                    count > 0 ==> place == last_place(cur, u as int, d as int, k as int),
                decreases 9 - k,
            {
                let p = units[u][k];
                proof {
                    lemma_unit(u as int, k as int, k as int);
                    assert(cur[unit_cell(u as int, k as int)].proper());
                }
                match self.cells[p.index()] {
                    CellValue::Fixed(x) => {
                        if x == d {
                            held = true;
                            assert(holds_at(cur, u as int, d as int, k as int));
                        }
                    },
                    CellValue::Candidates(s) => {
                        if s.contains(d) {
                            count = count + 1;
                            place = k;
                        }
                    },
                }
                k = k + 1;
            }
            proof {
                lemma_places(cur, u as int, d as int, 9);
                assert(held == unit_holds(cur, u as int, d as int));
                assert(u as int == step_unit(t as int) && d as int == step_digit(t as int));
            }
            if !held {
                if count == 0 {
                    proof {
                        assert forall|s: Seq<int>| !solves(s, cur) by {
                            if solves(s, cur) {
                                lemma_single_place(cur, u as int, d as int, s);
                            }
                        }
                        assert(!at_rest(cur, step_unit(t as int), step_digit(t as int)));
                    }
                    *self = saved;
                    return Err(SudokuError::Unsolvable);
                } else if count == 1 {
                    let target = units[u][place];
                    let ghost idx = unit_cell(u as int, place as int);
                    proof {
                        lemma_unit(u as int, place as int, place as int);
                        assert(lists_at(cur, u as int, d as int, place as int));
                        assert(!at_rest(cur, step_unit(t as int), step_digit(t as int)));
                        assert forall|s: Seq<int>| solves(s, cur) implies s[idx] == d by {
                            lemma_single_place(cur, u as int, d as int, s);
                        }
                        assert forall|s: Seq<int>|
                            solves(s, assigned(cur, idx, d as int)) <==> solves(s, cur) by {
                            lemma_assigned_solutions(cur, idx, d as int, s);
                        }
                        crate::grid::lemma_open_upto_update(
                            cur,
                            idx,
                            CellValue::Fixed(d),
                            81,
                        );
                    }
                    match self.fill_space(target, d) {
                        Ok(_) => {
                            proof {
                                assert forall|s: Seq<int>| solves(s, self@) <==> solves(
                                    s,
                                    old(self)@,
                                ) by {
                                    lemma_closure_keeps_solutions(
                                        assigned(cur, idx, d as int),
                                        fresh(cur, idx),
                                        self@,
                                        s,
                                    );
                                }
                                lemma_refines_fill(cur, idx, d as int, self@);
                                lemma_refines_trans(self@, cur, old(self)@);
                                lemma_refines_counts(self@, cur, 81);
                                lemma_refines_counts(self@, assigned(cur, idx, d as int), 81);
                            }
                        },
                        Err(_) => {
                            proof {
                                lemma_unsettled_unsolvable(
                                    assigned(cur, idx, d as int),
                                    fresh(cur, idx),
                                );
                                assert forall|s: Seq<int>| !solves(s, cur) by {
                                    if solves(s, cur) {
                                        assert(solves(s, assigned(cur, idx, d as int)));
                                    }
                                }
                            }
                            *self = saved;
                            return Err(SudokuError::Unsolvable);
                        },
                    }
                }
            }
            t = t + 1;
        }
        proof {
            if self.empty_count == start {
                assert forall|q: int| 0 <= q < 243 implies #[trigger] at_rest(
                    old(self)@,
                    step_unit(q),
                    step_digit(q),
                ) by {}
            }
            if stalled(old(self)@) {
                lemma_stalled_pass(old(self)@, 0);
            }
        }
        Ok(start - self.empty_count)
    }

    /// Repeats narrowing passes until one fixes no cell or no cell is left
    /// undetermined; at least one pass is made. The result says whether no
    /// cell is left undetermined. When a pass fails, the board is left as it
    /// was before the first pass.
    pub fn narrow_full(&mut self) -> (r: Result<bool, SudokuError>)
        requires
            old(self).wf(),
        ensures
            final(self).wf(),
            refines(final(self)@, old(self)@),
            match r {
                Ok(solved) => {
                    &&& narrow_full_model(old(self)@) == Some(final(self)@)
                    &&& solved == (open_count(final(self)@) == 0)
                    &&& solved || stalled(final(self)@)
                    &&& final(self).is_initialized() == old(self).is_initialized()
                    &&& final(self).is_contradicted() == old(self).is_contradicted()
                    &&& forall|s: Seq<int>| solves(s, final(self)@) <==> solves(s, old(self)@)
                },
                Err(e) => {
                    &&& e == SudokuError::Unsolvable
                    &&& narrow_full_model(old(self)@) is None
                    &&& !solvable(old(self)@)
                    &&& *final(self) == *old(self)
                },
            },
    {
        let saved = *self;
        proof {
            lemma_refines_self(self@);
        }
        loop
            invariant
                self.wf(),
                saved == *old(self),
                saved.wf(),
                narrow_full_model(self@) == narrow_full_model(old(self)@),
                self.is_initialized() == old(self).is_initialized(),
                self.is_contradicted() == old(self).is_contradicted(),
                refines(self@, old(self)@),
                forall|s: Seq<int>| solves(s, self@) <==> solves(s, old(self)@),
            decreases self.empty_count,
        {
            let ghost cur = self@;
            match self.narrow() {
                Err(_) => {
                    proof {
                        assert forall|s: Seq<int>| !solves(s, old(self)@) by {
                            if solves(s, old(self)@) {
                                assert(solves(s, cur));
                            }
                        }
                    }
                    *self = saved;
                    return Err(SudokuError::Unsolvable);
                },
                Ok(n) => {
                    proof {
                        lemma_refines_trans(self@, cur, old(self)@);
                    }
                    let solved = self.is_solved();
                    if n == 0 || solved {
                        return Ok(solved);
                    }
                },
            }
        }
    }
}

} // verus!
