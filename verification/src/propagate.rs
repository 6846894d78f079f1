//! Propagation: ruling the digit of every fixed cell out of the cells around
//! it, and fixing the cells that are left with a single candidate.

use crate::board::SudokuBoard;
use crate::cell::{CellValue, Elimination};
use crate::error::SudokuError;
use crate::geometry::{
    adjacent, adjacent_cells, lemma_adjacent_is_peer, lemma_peer_is_adjacent, peers, slot, Point,
};
use crate::grid::{
    assigned, clear_of, closure, fresh, is_closure, lemma_closure_is, lemma_closure_none,
    lemma_eliminate_step, lemma_fill_keeps_propagated, lemma_open_upto_bound,
    lemma_open_upto_update, lemma_refines_self, open_count, proper_grid, refines, settles,
};
use vstd::prelude::*;

verus! {

/// Whether the cell at `i` waits in the queue.
spec fn pending(queue: Seq<(usize, u8)>, i: int) -> bool {
    exists|k: int| 0 <= k < queue.len() && (#[trigger] queue[k]).0 == i
}

/// Every fixed source cell has been propagated to each of its peers, or
/// waits in the queue, or is the cell at `i0` whose first `done` adjacent
/// cells have been visited.
spec fn frontier(
    cur: Seq<CellValue>,
    sources: Set<int>,
    queue: Seq<(usize, u8)>,
    i0: int,
    done: int,
) -> bool {
    forall|i: int, j: int|
        sources.contains(i) && #[trigger] peers(i, j) ==> clear_of(cur, i, j) || pending(queue, i)
            || (i == i0 && slot(i0, j) >= done)
}

/// Every entry of the queue names a fixed source cell and its digit.
spec fn queue_ok(cur: Seq<CellValue>, sources: Set<int>, queue: Seq<(usize, u8)>) -> bool {
    forall|k: int|
        0 <= k < queue.len() ==> {
            &&& (#[trigger] queue[k]).0 < 81
            &&& sources.contains(queue[k].0 as int)
            &&& cur[queue[k].0 as int] == CellValue::Fixed(queue[k].1)
        }
}

/// One elimination keeps the frontier: the visited peer is clear, and a cell
/// that became fixed waits in the queue.
proof fn lemma_frontier_step(
    cur: Seq<CellValue>,
    sources: Set<int>,
    queue: Seq<(usize, u8)>,
    i0: int,
    d0: int,
    m: int,
    after: Seq<(usize, u8)>,
)
    requires
        proper_grid(cur),
        0 <= i0 < 81,
        0 <= m < 20,
        1 <= d0 <= 9,
        cur[i0] == CellValue::Fixed(d0 as u8),
        frontier(cur, sources, queue, i0, m),
        cur[adjacent(i0)[m]].outcome(d0) != Elimination::Contradiction,
        cur[adjacent(i0)[m]].outcome(d0) is BecameFixed ==> after == queue.push(
            (adjacent(i0)[m] as usize, cur[adjacent(i0)[m]].outcome(d0)->BecameFixed_0),
        ),
        !(cur[adjacent(i0)[m]].outcome(d0) is BecameFixed) ==> after == queue,
    ensures
        frontier(
            cur.update(adjacent(i0)[m], cur[adjacent(i0)[m]].without(d0)),
            sources,
            after,
            i0,
            m + 1,
        ),
{
    let j0 = adjacent(i0)[m];
    lemma_adjacent_is_peer(i0, m);
    cur[j0].lemma_without(d0);
    let next = cur.update(j0, cur[j0].without(d0));
    assert forall|i: int, j: int| sources.contains(i) && #[trigger] peers(i, j) implies clear_of(
        next,
        i,
        j,
    ) || pending(after, i) || (i == i0 && slot(i0, j) >= m + 1) by {
        if pending(queue, i) {
            let k = choose|k: int| 0 <= k < queue.len() && (#[trigger] queue[k]).0 == i;
            assert(after[k].0 == i);
        } else if i == j0 {
            if cur[j0].is_open() {
                if next[j0] is Fixed {
                    let w = next[j0]->Fixed_0;
                    assert(cur[j0].outcome(d0) == Elimination::BecameFixed(w));
                    assert(after[queue.len() as int].0 == i);
                }
            } else {
                assert(clear_of(cur, i, j));
                cur[j].lemma_without(d0);
            }
        } else if i == i0 && slot(i0, j) >= m {
            if slot(i0, j) == m {
                lemma_peer_is_adjacent(i0, j);
                assert(j == j0);
            }
        } else {
            assert(clear_of(cur, i, j));
            if j == j0 && cur[i] is Fixed {
                assert(!cur[j0].allows(cur[i]->Fixed_0 as int));
            }
        }
    }
}

impl SudokuBoard {
    /// Works the queue off: rules the digit of each queued cell out of the
    /// cells around it, and queues every cell that becomes fixed by that.
    fn propagate(
        &mut self,
        queue: Vec<(usize, u8)>,
        Ghost(base): Ghost<Seq<CellValue>>,
        Ghost(sources): Ghost<Set<int>>,
    ) -> (r: Result<usize, SudokuError>)
        requires
            proper_grid(old(self)@),
            old(self).empty_cells() == open_count(old(self)@),
            !old(self).is_initialized(),
            !old(self).is_contradicted(),
            refines(old(self)@, base),
            forall|c: Seq<CellValue>| #[trigger] settles(base, sources, c) ==> refines(c, old(self)@),
            forall|i: int| 0 <= i < 81 && base[i].is_open() ==> sources.contains(i),
            queue_ok(old(self)@, sources, queue@),
            frontier(old(self)@, sources, queue@, -1, 0),
        ensures
            final(self).wf(),
            !final(self).is_initialized(),
            !final(self).is_contradicted(),
            match r {
                Ok(n) => is_closure(base, sources, final(self)@) && n == open_count(old(self)@)
                    - open_count(final(self)@),
                Err(e) => {
                    &&& e == SudokuError::Unsolvable
                    &&& forall|c: Seq<CellValue>| !settles(base, sources, c)
                    &&& *final(self) == *old(self)
                },
            },
    {
        let saved = *self;
        let start = self.empty_count;
        let mut queue = queue;
        proof {
            lemma_open_upto_bound(self@, 81);
        }
        while queue.len() > 0
            invariant
                proper_grid(self@),
                self.empty_cells() == open_count(self@),
                self.empty_count <= start,
                start == open_count(old(self)@),
                saved == *old(self),
                proper_grid(saved@),
                saved.empty_cells() == open_count(saved@),
                !saved.is_initialized(),
                !saved.is_contradicted(),
                !self.is_initialized(),
                !self.is_contradicted(),
                refines(self@, base),
                forall|c: Seq<CellValue>| #[trigger] settles(base, sources, c) ==> refines(c, self@),
                forall|i: int| 0 <= i < 81 && base[i].is_open() ==> sources.contains(i),
                queue_ok(self@, sources, queue@),
                frontier(self@, sources, queue@, -1, 0),
            decreases self.empty_count + queue.len(),
        {
            let ghost before = queue@;
            let (i0, d0) = queue.pop().unwrap();
            assert(before[before.len() - 1] == (i0, d0));
            assert(self@[i0 as int].proper());
            let around = adjacent_cells(Point::at(i0));
            proof {
                assert forall|i: int, j: int| sources.contains(i) && #[trigger] peers(
                    i,
                    j,
                ) implies clear_of(self@, i, j) || pending(queue@, i) || (i == i0 && slot(
                    i0 as int,
                    j,
                ) >= 0) by {
                    if pending(before, i) && i != i0 {
                        let k = choose|k: int|
                            0 <= k < before.len() && (#[trigger] before[k]).0 == i;
                        assert(queue@[k].0 == i);
                    }
                    if i == i0 {
                        lemma_peer_is_adjacent(i, j);
                    }
                }
            }
            let ghost measure = self.empty_count + before.len();
            let mut m: usize = 0;
            while m < 20
                invariant
                    m <= 20,
                    i0 < 81,
                    1 <= d0 <= 9,
                    sources.contains(i0 as int),
                    self@[i0 as int] == CellValue::Fixed(d0),
                    around@.len() == 20,
                    forall|k: int|
                        0 <= k < 20 ==> (#[trigger] around@[k]).in_grid()
                            && around@[k].spec_index() == adjacent(i0 as int)[k],
                    proper_grid(self@),
                    self.empty_cells() == open_count(self@),
                    self.empty_count <= start,
                    start == open_count(old(self)@),
                    saved == *old(self),
                    proper_grid(saved@),
                    saved.empty_cells() == open_count(saved@),
                    !saved.is_initialized(),
                    !saved.is_contradicted(),
                    !self.is_initialized(),
                    !self.is_contradicted(),
                    refines(self@, base),
                    forall|c: Seq<CellValue>| #[trigger]
                        settles(base, sources, c) ==> refines(c, self@),
                    forall|i: int| 0 <= i < 81 && base[i].is_open() ==> sources.contains(i),
                    queue_ok(self@, sources, queue@),
                    frontier(self@, sources, queue@, i0 as int, m as int),
                    self.empty_count + queue@.len() + 1 == measure,
                decreases 20 - m,
            {
                let j = around[m].index();
                let ghost cur = self@;
                let ghost waiting = queue@;
                proof {
                    lemma_adjacent_is_peer(i0 as int, m as int);
                    lemma_eliminate_step(base, sources, cur, i0 as int, d0 as int, j as int);
                    cur[j as int].lemma_without(d0 as int);
                    lemma_open_upto_bound(cur, 81);
                }
                let mut cell = self.cells[j];
                match cell.eliminate(d0) {
                    Elimination::Contradiction => {
                        *self = saved;
                        return Err(SudokuError::Unsolvable);
                    },
                    Elimination::BecameFixed(w) => {
                        proof {
                            if base[j as int] is Fixed {
                                crate::grid::lemma_refines_fixed(cur, base, j as int);
                            }
                        }
                        self.cells[j] = cell;
                        self.empty_count = self.empty_count - 1;
                        queue.push((j, w));
                    },
                    Elimination::Eliminated => {
                        self.cells[j] = cell;
                    },
                    Elimination::AlreadyEliminated => {
                        assert(cur.update(j as int, cur[j as int].without(d0 as int)) =~= cur);
                    },
                }
                proof {
                    assert(self@ =~= cur.update(j as int, cur[j as int].without(d0 as int)));
                    lemma_frontier_step(
                        cur,
                        sources,
                        waiting,
                        i0 as int,
                        d0 as int,
                        m as int,
                        queue@,
                    );
                    assert forall|k: int| 0 <= k < queue@.len() implies {
                        &&& (#[trigger] queue@[k]).0 < 81
                        &&& sources.contains(queue@[k].0 as int)
                        &&& self@[queue@[k].0 as int] == CellValue::Fixed(queue@[k].1)
                    } by {
                        if k < waiting.len() {
                            assert(queue@[k] == waiting[k]);
                        }
                    }
                }
                m = m + 1;
            }
            proof {
                assert forall|i: int, j: int| sources.contains(i) && #[trigger] peers(
                    i,
                    j,
                ) implies clear_of(self@, i, j) || pending(queue@, i) by {
                    if i == i0 {
                        lemma_peer_is_adjacent(i, j);
                    }
                }
            }
        }
        proof {
            assert forall|i: int, j: int| sources.contains(i) && #[trigger] peers(
                i,
                j,
            ) implies clear_of(self@, i, j) by {
                assert(!pending(queue@, i));
            }
        }
        Ok(start - self.empty_count)
    }

    /// Propagates the digits that the board was given. This runs once: on
    /// a board that is initialized already it does nothing.
    ///
    /// Every fixed cell rules its digit out of the cells around it, and so
    /// does every cell that becomes fixed by that. On success the board is the
    /// widest propagated narrowing of what it was. It fails exactly when
    /// there is no such narrowing: when a digit would have to be ruled out of
    /// a cell that is fixed to it. The cells are then left as they were
    /// given, and the board is marked as contradicted. Either way the board
    /// is initialized afterwards.
    pub fn initial_check(&mut self) -> (r: Result<(), SudokuError>)
        requires
            old(self).wf(),
        ensures
            final(self).wf(),
            refines(final(self)@, old(self)@),
            old(self).is_initialized() ==> r is Ok && *final(self) == *old(self),
            !old(self).is_initialized() ==> match r {
                Ok(_) => {
                    &&& final(self).is_initialized()
                    &&& !final(self).is_contradicted()
                    &&& is_closure(old(self)@, Set::full(), final(self)@)
                    &&& closure(old(self)@, Set::full()) == Some(final(self)@)
                },
                Err(e) => {
                    &&& e == SudokuError::Unsolvable
                    &&& closure(old(self)@, Set::full()) is None
                    &&& final(self)@ == old(self)@
                    &&& final(self).is_initialized()
                    &&& final(self).is_contradicted()
                },
            },
    {
        proof {
            lemma_refines_self(self@);
        }
        if self.initialized {
            return Ok(());
        }
        let mut queue: Vec<(usize, u8)> = Vec::new();
        let mut i: usize = 0;
        while i < 81
            invariant
                i <= 81,
                self.wf(),
                *self == *old(self),
                queue_ok(self@, Set::full(), queue@),
                forall|k: int|
                    0 <= k < i && (#[trigger] self@[k]) is Fixed ==> pending(queue@, k),
            decreases 81 - i,
        {
            let ghost waiting = queue@;
            if let CellValue::Fixed(d) = self.cells[i] {
                queue.push((i, d));
                assert(queue@[waiting.len() as int].0 == i);
            }
            proof {
                assert forall|k: int| 0 <= k < i + 1 && (#[trigger] self@[k]) is Fixed implies pending(
                    queue@,
                    k,
                ) by {
                    if k < i {
                        let q = choose|q: int|
                            0 <= q < waiting.len() && (#[trigger] waiting[q]).0 == k;
                        assert(queue@[q].0 == k);
                    }
                }
            }
            i = i + 1;
        }
        let ghost base = self@;
        proof {
            lemma_refines_self(base);
        }
        match self.propagate(queue, Ghost(base), Ghost(Set::full())) {
            Ok(_) => {
                self.initialized = true;
                proof {
                    lemma_closure_is(base, Set::full(), self@);
                }
                Ok(())
            },
            Err(e) => {
                proof {
                    lemma_closure_none(base, Set::full());
                    crate::grid::lemma_unsettled_unsolvable(base, Set::full());
                }
                self.initialized = true;
                self.contradicted = true;
                Err(e)
            },
        }
    }

    /// Fixes the cell at `point` to `value` and propagates.
    ///
    /// A cell fixed to another digit refuses the assignment, and so does an
    /// undetermined cell without `value` among its candidates; the board is
    /// then unchanged. Otherwise `value` is ruled out of the cells around
    /// `point`, and every cell that is left with one candidate is fixed and
    /// propagated in turn. On success the board is the widest narrowing of the
    /// assigned board in which `point` and all newly fixed cells are
    /// propagated, and the result counts the cells that were undetermined
    /// before and are fixed now. It fails as unsolvable exactly when there is
    /// no such narrowing. Whenever it fails, the board is left as it was.
    pub fn fill_space(&mut self, point: Point, value: u8) -> (r: Result<usize, SudokuError>)
        requires
            old(self).wf(),
            point.in_grid(),
        ensures
            final(self).wf(),
            refines(final(self)@, old(self)@),
            match r {
                Ok(n) => {
                    &&& old(self)@[point.spec_index()].allows(value as int)
                    &&& is_closure(
                        assigned(old(self)@, point.spec_index(), value as int),
                        fresh(old(self)@, point.spec_index()),
                        final(self)@,
                    )
                    &&& crate::grid::fill_model(old(self)@, point.spec_index(), value as int)
                        == Some(final(self)@)
                    &&& n == open_count(old(self)@) - open_count(final(self)@)
                    &&& final(self).is_initialized() == old(self).is_initialized()
                    &&& final(self).is_contradicted() == old(self).is_contradicted()
                },
                Err(SudokuError::Overwrite) => {
                    &&& old(self)@[point.spec_index()] is Fixed
                    &&& !old(self)@[point.spec_index()].allows(value as int)
                    &&& *final(self) == *old(self)
                },
                Err(SudokuError::InvalidAssignment) => {
                    &&& old(self)@[point.spec_index()] is Candidates
                    &&& !old(self)@[point.spec_index()].allows(value as int)
                    &&& *final(self) == *old(self)
                },
                Err(SudokuError::Unsolvable) => {
                    &&& old(self)@[point.spec_index()].allows(value as int)
                    &&& crate::grid::fill_model(old(self)@, point.spec_index(), value as int)
                        is None
                    &&& *final(self) == *old(self)
                },
                Err(SudokuError::ParseError) => false,
            },
    {
        proof {
            lemma_refines_self(self@);
        }
        let idx = point.index();
        let saved = *self;
        let start = self.empty_count;
        let ghost before = self@;
        let ghost base = assigned(before, idx as int, value as int);
        let ghost sources = fresh(before, idx as int);
        assert(before[idx as int].proper());
        match self.cells[idx] {
            CellValue::Fixed(x) => {
                if x != value {
                    return Err(SudokuError::Overwrite);
                }
                assert(base =~= before);
            },
            CellValue::Candidates(s) => {
                if !s.contains(value) {
                    return Err(SudokuError::InvalidAssignment);
                }
                proof {
                    s.lemma_bounded();
                    lemma_open_upto_update(before, idx as int, CellValue::Fixed(value), 81);
                }
                self.cells[idx] = CellValue::Fixed(value);
                self.empty_count = self.empty_count - 1;
            },
        }
        let was_initialized = self.initialized;
        let was_contradicted = self.contradicted;
        self.initialized = false;
        self.contradicted = false;
        let mut queue: Vec<(usize, u8)> = Vec::new();
        queue.push((idx, value));
        proof {
            assert(self@ =~= base);
            lemma_refines_self(base);
            assert(queue@[0].0 == idx);
            assert(pending(queue@, idx as int));
        }
        match self.propagate(queue, Ghost(base), Ghost(sources)) {
            Ok(_) => {
                self.initialized = was_initialized;
                self.contradicted = was_contradicted;
                proof {
                    lemma_closure_is(base, sources, self@);
                    if was_initialized && !was_contradicted {
                        lemma_fill_keeps_propagated(before, idx as int, value as int, self@);
                    }
                    crate::grid::lemma_refines_fill(before, idx as int, value as int, self@);
                    assert forall|s: Seq<int>| crate::grid::solves(s, self@) implies crate::grid::solves(
                        s,
                        before,
                    ) by {
                        crate::grid::lemma_closure_keeps_solutions(base, sources, self@, s);
                        crate::grid::lemma_assigned_solutions(before, idx as int, value as int, s);
                    }
                    if crate::grid::solvable(self@) {
                        let s = choose|s: Seq<int>| crate::grid::solves(s, self@);
                        assert(crate::grid::solves(s, before));
                    }
                    lemma_open_upto_bound(self@, 81);
                }
                Ok(start - self.empty_count)
            },
            Err(e) => {
                proof {
                    lemma_closure_none(base, sources);
                }
                *self = saved;
                Err(e)
            },
        }
    }
}

} // verus!
