//! The mathematical model of a board: a sequence of eighty-one cells, what it
//! means for one grid to be a narrowing of another, and what a solution is.

use crate::cell::CellValue;
use crate::cell::Elimination;
use crate::digits::{all_digits, lemma_all_digits};
use crate::geometry::{lemma_unit, peers, unit_cell};
use vstd::prelude::*;
use vstd::set_lib::lemma_len_subset;

verus! {

/// A grid has eighty-one proper cells.
pub open spec fn proper_grid(g: Seq<CellValue>) -> bool {
    &&& g.len() == 81
    &&& forall|i: int| 0 <= i < 81 ==> (#[trigger] g[i]).proper()
}

/// `c` narrows `g`: whatever a cell of `c` allows, the same cell of `g` allows.
pub open spec fn refines(c: Seq<CellValue>, g: Seq<CellValue>) -> bool {
    &&& c.len() == 81
    &&& g.len() == 81
    &&& forall|i: int, d: int| 0 <= i < 81 && #[trigger] c[i].allows(d) ==> g[i].allows(d)
}

/// The digit of a fixed cell has been ruled out of the cell at `j`.
pub open spec fn clear_of(g: Seq<CellValue>, i: int, j: int) -> bool {
    g[i] is Fixed ==> !g[j].allows(g[i]->Fixed_0 as int)
}

/// Every fixed cell in `sources` has had its digit ruled out of all its peers.
pub open spec fn stable(g: Seq<CellValue>, sources: Set<int>) -> bool {
    forall|i: int, j: int| sources.contains(i) && #[trigger] peers(i, j) ==> clear_of(g, i, j)
}

/// Every fixed cell has had its digit ruled out of all its peers.
pub open spec fn propagated(g: Seq<CellValue>) -> bool {
    stable(g, Set::full())
}

/// `c` is a proper narrowing of `base` in which the fixed cells of `sources`
/// have been propagated.
pub open spec fn settles(base: Seq<CellValue>, sources: Set<int>, c: Seq<CellValue>) -> bool {
    &&& proper_grid(c)
    &&& refines(c, base)
    &&& stable(c, sources)
}

/// `c` is the widest grid that settles `base`: every other one narrows it.
pub open spec fn is_closure(base: Seq<CellValue>, sources: Set<int>, c: Seq<CellValue>) -> bool {
    &&& settles(base, sources, c)
    &&& forall|other: Seq<CellValue>| #[trigger]
        settles(base, sources, other) ==> refines(other, c)
}

/// The widest grid that settles `base`, if any grid does. It is what
/// propagation from the fixed cells of `sources` arrives at; there is none
/// exactly when propagation runs into a contradiction.
pub open spec fn closure(base: Seq<CellValue>, sources: Set<int>) -> Option<Seq<CellValue>> {
    if exists|c: Seq<CellValue>| settles(base, sources, c) {
        Some(choose|c: Seq<CellValue>| is_closure(base, sources, c))
    } else {
        None
    }
}

/// The number of undetermined cells among the first `n`.
pub open spec fn open_upto(g: Seq<CellValue>, n: int) -> nat
    decreases n,
{
    if n <= 0 {
        0
    } else {
        open_upto(g, n - 1) + if g[n - 1].is_open() {
            1nat
        } else {
            0nat
        }
    }
}

/// The number of undetermined cells of a grid.
pub open spec fn open_count(g: Seq<CellValue>) -> nat {
    open_upto(g, 81)
}

/// The number of candidates in the first `n` cells.
pub open spec fn weight_upto(g: Seq<CellValue>, n: int) -> nat
    decreases n,
{
    if n <= 0 {
        0
    } else {
        weight_upto(g, n - 1) + g[n - 1].width()
    }
}

/// The number of candidates in all undetermined cells together.
pub open spec fn weight(g: Seq<CellValue>) -> nat {
    weight_upto(g, 81)
}

/// A complete assignment of digits in which no two peers hold the same digit.
pub open spec fn is_solution(s: Seq<int>) -> bool {
    &&& s.len() == 81
    &&& forall|i: int| 0 <= i < 81 ==> 1 <= #[trigger] s[i] <= 9
    &&& forall|i: int, j: int| #[trigger] peers(i, j) ==> s[i] != s[j]
}

/// Every cell of `g` allows the digit that `s` gives it.
pub open spec fn agrees(g: Seq<CellValue>, s: Seq<int>) -> bool {
    &&& g.len() == 81
    &&& s.len() == 81
    &&& forall|i: int| 0 <= i < 81 ==> (#[trigger] g[i]).allows(s[i])
}

/// `s` is a solution of the puzzle that `g` poses.
pub open spec fn solves(s: Seq<int>, g: Seq<CellValue>) -> bool {
    is_solution(s) && agrees(g, s)
}

/// Whether the puzzle that `g` poses has a solution.
pub open spec fn solvable(g: Seq<CellValue>) -> bool {
    exists|s: Seq<int>| solves(s, g)
}

/// The grid in which every cell is fixed to the digit that `s` gives it.
pub open spec fn filled(s: Seq<int>) -> Seq<CellValue> {
    Seq::new(81, |i: int| CellValue::Fixed(s[i] as u8))
}

/// The digits of a grid whose cells are all fixed.
pub open spec fn digits_of(g: Seq<CellValue>) -> Seq<int> {
    Seq::new(81, |i: int| g[i]->Fixed_0 as int)
}

/// Narrowing is reflexive.
pub proof fn lemma_refines_self(g: Seq<CellValue>)
    requires
        g.len() == 81,
    ensures
        refines(g, g),
{
}

/// Narrowing is transitive.
pub proof fn lemma_refines_trans(a: Seq<CellValue>, b: Seq<CellValue>, c: Seq<CellValue>)
    requires
        refines(a, b),
        refines(b, c),
    ensures
        refines(a, c),
{
    assert forall|i: int, d: int| 0 <= i < 81 && #[trigger] a[i].allows(d) implies c[i].allows(
        d,
    ) by {
        assert(b[i].allows(d));
    }
}

/// Proper grids that narrow each other are equal.
pub proof fn lemma_refines_antisym(a: Seq<CellValue>, b: Seq<CellValue>)
    requires
        proper_grid(a),
        proper_grid(b),
        refines(a, b),
        refines(b, a),
    ensures
        a == b,
{
    assert forall|i: int| 0 <= i < 81 implies a[i] == b[i] by {
        assert forall|d: int| a[i].allows(d) == b[i].allows(d) by {
            if a[i].allows(d) {
                assert(b[i].allows(d));
            }
            if b[i].allows(d) {
                assert(a[i].allows(d));
            }
        }
        a[i].lemma_same(b[i]);
    }
    assert(a =~= b);
}

/// In a proper narrowing, a cell over a fixed cell is that fixed cell.
pub proof fn lemma_refines_fixed(c: Seq<CellValue>, g: Seq<CellValue>, i: int)
    requires
        proper_grid(c),
        refines(c, g),
        0 <= i < 81,
        g[i] is Fixed,
    ensures
        c[i] == g[i],
        1 <= g[i]->Fixed_0 <= 9,
{
    let d = g[i]->Fixed_0 as int;
    assert forall|e: int| #[trigger] c[i].allows(e) implies e == d by {
        assert(g[i].allows(e));
    }
    c[i].lemma_pinned(d);
}

/// A grid has at most one widest settling grid.
pub proof fn lemma_closure_unique(
    base: Seq<CellValue>,
    sources: Set<int>,
    a: Seq<CellValue>,
    b: Seq<CellValue>,
)
    requires
        is_closure(base, sources, a),
        is_closure(base, sources, b),
    ensures
        a == b,
{
    assert(settles(base, sources, a));
    assert(settles(base, sources, b));
    lemma_refines_antisym(a, b);
}

/// The widest settling grid, once found, is the closure.
pub proof fn lemma_closure_is(base: Seq<CellValue>, sources: Set<int>, c: Seq<CellValue>)
    requires
        is_closure(base, sources, c),
    ensures
        closure(base, sources) == Some(c),
{
    assert(settles(base, sources, c));
    let k = choose|k: Seq<CellValue>| is_closure(base, sources, k);
    lemma_closure_unique(base, sources, c, k);
}

/// Where no grid settles `base`, there is no closure.
pub proof fn lemma_closure_none(base: Seq<CellValue>, sources: Set<int>)
    requires
        forall|c: Seq<CellValue>| !settles(base, sources, c),
    ensures
        closure(base, sources) is None,
{
}

/// Some grid that settles `base` allows `d` at `i`.
pub open spec fn join_allows(base: Seq<CellValue>, sources: Set<int>, i: int, d: int) -> bool {
    exists|c: Seq<CellValue>| settles(base, sources, c) && #[trigger] c[i].allows(d)
}

/// The grid that allows in each cell what any grid that settles `base`
/// allows there.
pub open spec fn join(base: Seq<CellValue>, sources: Set<int>) -> Seq<CellValue> {
    Seq::new(81, |i: int| CellValue::of(Set::new(|d: int| join_allows(base, sources, i, d))))
}

/// Where any grid settles `base`, the join of all that do is the widest of
/// them: a grid that can be settled has a closure.
pub proof fn lemma_closure_exists(base: Seq<CellValue>, sources: Set<int>, witness: Seq<CellValue>)
    requires
        settles(base, sources, witness),
    ensures
        is_closure(base, sources, join(base, sources)),
        closure(base, sources) == Some(join(base, sources)),
{
    let j = join(base, sources);
    assert forall|i: int| 0 <= i < 81 implies (#[trigger] j[i]).proper() && (forall|e: int| #[trigger]
        j[i].allows(e) <==> join_allows(base, sources, i, e)) by {
        let allowed = Set::new(|d: int| join_allows(base, sources, i, d));
        assert(witness[i].proper());
        witness[i].lemma_allows();
        let d = choose|d: int| witness[i].allows(d);
        assert(join_allows(base, sources, i, d));
        CellValue::lemma_of(allowed, d);
        assert forall|e: int| #[trigger] j[i].allows(e) <==> join_allows(base, sources, i, e) by {
            if join_allows(base, sources, i, e) {
                let c = choose|c: Seq<CellValue>|
                    settles(base, sources, c) && #[trigger] c[i].allows(e);
                assert(c[i].proper());
                c[i].lemma_allows();
            }
        }
    }
    assert forall|i: int, d: int| 0 <= i < 81 && #[trigger] j[i].allows(d) implies base[i].allows(
        d,
    ) by {
        assert(join_allows(base, sources, i, d));
        let c = choose|c: Seq<CellValue>| settles(base, sources, c) && #[trigger] c[i].allows(d);
        assert(base[i].allows(d));
    }
    assert forall|i: int, k: int| sources.contains(i) && #[trigger] peers(i, k) implies clear_of(
        j,
        i,
        k,
    ) by {
        if j[i] is Fixed {
            let x = j[i]->Fixed_0 as int;
            if j[k].allows(x) {
                assert(join_allows(base, sources, k, x));
                let c = choose|c: Seq<CellValue>|
                    settles(base, sources, c) && #[trigger] c[k].allows(x);
                assert forall|e: int| #[trigger] c[i].allows(e) implies e == x by {
                    assert(join_allows(base, sources, i, e));
                    assert(j[i].allows(e));
                }
                assert(c[i].proper());
                c[i].lemma_pinned(x);
                assert(clear_of(c, i, k));
            }
        }
    }
    assert forall|other: Seq<CellValue>| #[trigger] settles(base, sources, other) implies refines(
        other,
        j,
    ) by {
        assert forall|i: int, d: int| 0 <= i < 81 && #[trigger] other[i].allows(d) implies j[i].allows(
            d,
        ) by {
            assert(join_allows(base, sources, i, d));
        }
    }
    lemma_closure_is(base, sources, j);
}

/// What `closure` gives is the widest grid that settles `base`.
pub proof fn lemma_closure_some(base: Seq<CellValue>, sources: Set<int>)
    requires
        closure(base, sources) is Some,
    ensures
        is_closure(base, sources, closure(base, sources)->0),
{
    let w = choose|c: Seq<CellValue>| settles(base, sources, c);
    lemma_closure_exists(base, sources, w);
}

/// The cells of a grid are undetermined in at most `n` of the first `n` places.
pub proof fn lemma_open_upto_bound(g: Seq<CellValue>, n: int)
    requires
        0 <= n,
    ensures
        open_upto(g, n) <= n,
    decreases n,
{
    if n > 0 {
        lemma_open_upto_bound(g, n - 1);
    }
}

/// Replacing one cell changes the count of undetermined cells by that cell
/// alone.
pub proof fn lemma_open_upto_update(g: Seq<CellValue>, i: int, c: CellValue, n: int)
    requires
        0 <= i < g.len(),
        0 <= n <= g.len(),
    ensures
        open_upto(g.update(i, c), n) + (if i < n && g[i].is_open() { 1nat } else { 0nat })
            == open_upto(g, n) + (if i < n && c.is_open() { 1nat } else { 0nat }),
    decreases n,
{
    if n > 0 {
        lemma_open_upto_update(g, i, c, n - 1);
    }
}

/// Replacing one cell changes the weight by that cell alone.
pub proof fn lemma_weight_upto_update(g: Seq<CellValue>, i: int, c: CellValue, n: int)
    requires
        0 <= i < g.len(),
        0 <= n <= g.len(),
    ensures
        weight_upto(g.update(i, c), n) + (if i < n { g[i].width() } else { 0nat }) == weight_upto(
            g,
            n,
        ) + (if i < n { c.width() } else { 0nat }),
    decreases n,
{
    if n > 0 {
        lemma_weight_upto_update(g, i, c, n - 1);
    }
}

/// A proper cell that narrows another is undetermined only if the other is,
/// and has no more candidates.
pub proof fn lemma_cell_narrower(c: CellValue, g: CellValue)
    requires
        c.proper(),
        g.proper(),
        forall|d: int| #[trigger] c.allows(d) ==> g.allows(d),
    ensures
        c.is_open() ==> g.is_open(),
        c.width() <= g.width(),
{
    match g {
        CellValue::Fixed(x) => {
            c.lemma_pinned(x as int);
        },
        CellValue::Candidates(t) => {
            match c {
                CellValue::Fixed(_) => {},
                CellValue::Candidates(s) => {
                    t.lemma_bounded();
                    assert forall|d: int| s@.contains(d) implies t@.contains(d) by {
                        assert(c.allows(d));
                    }
                    lemma_len_subset(s@, t@);
                },
            }
        },
    }
}

/// A proper narrowing has no more undetermined cells and no more weight.
pub proof fn lemma_refines_counts(c: Seq<CellValue>, g: Seq<CellValue>, n: int)
    requires
        proper_grid(c),
        proper_grid(g),
        refines(c, g),
        0 <= n <= 81,
    ensures
        open_upto(c, n) <= open_upto(g, n),
        weight_upto(c, n) <= weight_upto(g, n),
    decreases n,
{
    if n > 0 {
        lemma_refines_counts(c, g, n - 1);
        assert forall|d: int| #[trigger] c[n - 1].allows(d) implies g[n - 1].allows(d) by {}
        lemma_cell_narrower(c[n - 1], g[n - 1]);
    }
}

/// A grid without undetermined cells among the first `n` has only fixed
/// cells there, and the other way round.
pub proof fn lemma_open_upto_zero(g: Seq<CellValue>, n: int)
    requires
        0 <= n <= g.len(),
    ensures
        open_upto(g, n) == 0 <==> forall|i: int| 0 <= i < n ==> (#[trigger] g[i]) is Fixed,
    decreases n,
{
    if n > 0 {
        lemma_open_upto_zero(g, n - 1);
        if open_upto(g, n) == 0 {
            assert forall|i: int| 0 <= i < n implies (#[trigger] g[i]) is Fixed by {
                if i < n - 1 {
                } else {
                    assert(!g[n - 1].is_open());
                }
            }
        } else {
            if open_upto(g, n - 1) == 0 {
                assert(g[n - 1].is_open());
            }
        }
    }
}

/// A solution, written as a grid of fixed cells, settles every grid it agrees
/// with.
pub proof fn lemma_solution_settles(base: Seq<CellValue>, sources: Set<int>, s: Seq<int>)
    requires
        solves(s, base),
    ensures
        settles(base, sources, filled(s)),
        proper_grid(filled(s)),
        propagated(filled(s)),
{
    let f = filled(s);
    assert forall|i: int| 0 <= i < 81 implies (#[trigger] f[i]).proper() by {
        assert(1 <= s[i] <= 9);
    }
    assert forall|i: int, d: int| 0 <= i < 81 && #[trigger] f[i].allows(d) implies base[i].allows(
        d,
    ) by {
        assert(1 <= s[i] <= 9);
        assert(base[i].allows(s[i]));
    }
    assert forall|i: int, j: int| #[trigger] peers(i, j) implies clear_of(f, i, j) by {
        assert(1 <= s[i] <= 9);
        assert(1 <= s[j] <= 9);
        assert(s[i] != s[j]);
    }
}

/// A solution agrees with exactly the grids that its filled grid narrows.
pub proof fn lemma_agrees_refines(g: Seq<CellValue>, s: Seq<int>)
    requires
        is_solution(s),
        g.len() == 81,
    ensures
        agrees(g, s) <==> refines(filled(s), g),
{
    let f = filled(s);
    if agrees(g, s) {
        assert forall|i: int, d: int| 0 <= i < 81 && #[trigger] f[i].allows(d) implies g[i].allows(
            d,
        ) by {
            assert(1 <= s[i] <= 9);
            assert(g[i].allows(s[i]));
        }
    }
    if refines(f, g) {
        assert forall|i: int| 0 <= i < 81 implies (#[trigger] g[i]).allows(s[i]) by {
            assert(1 <= s[i] <= 9);
            assert(f[i].allows(s[i]));
        }
    }
}

/// The closure of a grid has the solutions of the grid.
pub proof fn lemma_closure_keeps_solutions(
    base: Seq<CellValue>,
    sources: Set<int>,
    c: Seq<CellValue>,
    s: Seq<int>,
)
    requires
        is_closure(base, sources, c),
    ensures
        solves(s, c) <==> solves(s, base),
{
    if solves(s, base) {
        lemma_solution_settles(base, sources, s);
        assert(refines(filled(s), c));
        lemma_agrees_refines(c, s);
    }
    if solves(s, c) {
        lemma_agrees_refines(c, s);
        lemma_refines_trans(filled(s), c, base);
        lemma_agrees_refines(base, s);
    }
}

/// A grid that no grid settles has no solution.
pub proof fn lemma_unsettled_unsolvable(base: Seq<CellValue>, sources: Set<int>)
    requires
        closure(base, sources) is None,
        base.len() == 81,
    ensures
        !solvable(base),
{
    if solvable(base) {
        let s = choose|s: Seq<int>| solves(s, base);
        lemma_solution_settles(base, sources, s);
    }
}

/// The grid in which the cell at `idx` has been fixed to `v`.
pub open spec fn assigned(g: Seq<CellValue>, idx: int, v: int) -> Seq<CellValue> {
    g.update(idx, CellValue::Fixed(v as u8))
}

/// The cells from which an assignment at `idx` propagates: the cell itself
/// and every cell that was undetermined before.
pub open spec fn fresh(g: Seq<CellValue>, idx: int) -> Set<int> {
    Set::new(|i: int| 0 <= i < 81 && (i == idx || g[i].is_open()))
}

/// What fixing the cell at `idx` to `v` and propagating makes of a grid;
/// nothing where that runs into a contradiction.
pub open spec fn fill_model(g: Seq<CellValue>, idx: int, v: int) -> Option<Seq<CellValue>> {
    closure(assigned(g, idx, v), fresh(g, idx))
}

/// One elimination during propagation. The fixed cell at `i0` holds `d0`
/// and belongs to the sources; `d0` is ruled out of its peer `j`. When that
/// contradicts, nothing settles `base`; otherwise everything that settles
/// `base` still narrows the grid after the step.
pub proof fn lemma_eliminate_step(
    base: Seq<CellValue>,
    sources: Set<int>,
    cur: Seq<CellValue>,
    i0: int,
    d0: int,
    j: int,
)
    requires
        proper_grid(cur),
        refines(cur, base),
        sources.contains(i0),
        1 <= d0 <= 9,
        peers(i0, j),
        cur[i0] == CellValue::Fixed(d0 as u8),
        forall|c: Seq<CellValue>| #[trigger] settles(base, sources, c) ==> refines(c, cur),
    ensures
        cur[j].outcome(d0) == Elimination::Contradiction ==> forall|c: Seq<CellValue>|
            !settles(base, sources, c),
        cur[j].outcome(d0) != Elimination::Contradiction ==> ({
            let next = cur.update(j, cur[j].without(d0));
            &&& proper_grid(next)
            &&& refines(next, cur)
            &&& refines(next, base)
            &&& clear_of(next, i0, j)
            &&& forall|c: Seq<CellValue>| #[trigger] settles(base, sources, c) ==> refines(c, next)
            &&& open_count(next) + (if cur[j].outcome(d0) is BecameFixed {
                1nat
            } else {
                0nat
            }) == open_count(cur)
        }),
{
    cur[j].lemma_without(d0);
    let next = cur.update(j, cur[j].without(d0));
    assert forall|c: Seq<CellValue>| #[trigger] settles(base, sources, c) implies !c[j].allows(d0)
        && c[i0] == cur[i0] by {
        assert(refines(c, cur));
        lemma_refines_fixed(c, cur, i0);
        assert(clear_of(c, i0, j));
    }
    if cur[j].outcome(d0) == Elimination::Contradiction {
        assert forall|c: Seq<CellValue>| !settles(base, sources, c) by {
            if settles(base, sources, c) {
                assert(refines(c, cur));
                lemma_refines_fixed(c, cur, j);
            }
        }
    } else {
        assert(proper_grid(next));
        assert forall|i: int, d: int| 0 <= i < 81 && #[trigger] next[i].allows(d) implies cur[i].allows(
            d,
        ) by {}
        lemma_refines_trans(next, cur, base);
        assert forall|c: Seq<CellValue>| #[trigger] settles(base, sources, c) implies refines(
            c,
            next,
        ) by {
            assert(refines(c, cur));
            assert forall|i: int, d: int| 0 <= i < 81 && #[trigger] c[i].allows(d) implies next[i].allows(
                d,
            ) by {
                assert(cur[i].allows(d));
            }
        }
        lemma_open_upto_update(cur, j, cur[j].without(d0), 81);
    }
}

/// Fixing an allowed digit in a propagated grid and propagating it leaves a
/// propagated grid.
pub proof fn lemma_fill_keeps_propagated(g: Seq<CellValue>, idx: int, v: int, c: Seq<CellValue>)
    requires
        proper_grid(g),
        propagated(g),
        0 <= idx < 81,
        g[idx].allows(v),
        is_closure(assigned(g, idx, v), fresh(g, idx), c),
    ensures
        propagated(c),
{
    let base = assigned(g, idx, v);
    assert(1 <= v <= 9) by {
        assert(g[idx].proper());
        if let CellValue::Candidates(s) = g[idx] {
            s.lemma_bounded();
        }
    }
    assert forall|i: int, j: int| #[trigger] peers(i, j) implies clear_of(c, i, j) by {
        if fresh(g, idx).contains(i) {
        } else {
            assert(base[i] == g[i]);
            lemma_refines_fixed(c, base, i);
            let d = g[i]->Fixed_0 as int;
            assert(Set::<int>::full().contains(i));
            assert(clear_of(g, i, j));
            if c[j].allows(d) {
                assert(base[j].allows(d));
            }
        }
    }
}

/// The solutions of a grid with one cell fixed are the solutions of the grid
/// that give the cell that digit.
pub proof fn lemma_assigned_solutions(g: Seq<CellValue>, idx: int, v: int, s: Seq<int>)
    requires
        g.len() == 81,
        0 <= idx < 81,
        1 <= v <= 9,
        g[idx].allows(v),
    ensures
        solves(s, assigned(g, idx, v)) <==> solves(s, g) && s[idx] == v,
{
    let base = assigned(g, idx, v);
    if solves(s, base) {
        assert(base[idx].allows(s[idx]));
        assert forall|i: int| 0 <= i < 81 implies (#[trigger] g[i]).allows(s[i]) by {
            assert(base[i].allows(s[i]));
        }
    }
    if solves(s, g) && s[idx] == v {
        assert forall|i: int| 0 <= i < 81 implies (#[trigger] base[i]).allows(s[i]) by {
            assert(g[i].allows(s[i]));
        }
    }
}

/// A propagated grid without undetermined cells is a solution of itself.
pub proof fn lemma_complete_is_solution(g: Seq<CellValue>)
    requires
        proper_grid(g),
        propagated(g),
        open_count(g) == 0,
    ensures
        solves(digits_of(g), g),
        filled(digits_of(g)) == g,
{
    let s = digits_of(g);
    lemma_open_upto_zero(g, 81);
    assert forall|i: int| 0 <= i < 81 implies 1 <= #[trigger] s[i] <= 9 && g[i].allows(s[i]) by {
        assert(g[i].proper());
        assert(g[i] is Fixed);
    }
    assert forall|i: int, j: int| #[trigger] peers(i, j) implies s[i] != s[j] by {
        assert(Set::<int>::full().contains(i));
        assert(clear_of(g, i, j));
        assert(g[i] is Fixed && g[j] is Fixed);
        assert(g[i].proper());
    }
    assert forall|i: int| 0 <= i < 81 implies filled(s)[i] == g[i] by {
        assert(g[i] is Fixed);
    }
    assert(filled(s) =~= g);
}

/// Ruling a digit out of one cell keeps a propagated grid propagated, as
/// long as the cell stays undetermined.
pub proof fn lemma_eliminate_keeps_propagated(g: Seq<CellValue>, idx: int, d: int)
    requires
        proper_grid(g),
        propagated(g),
        0 <= idx < 81,
        g[idx].without(d).is_open(),
    ensures
        propagated(g.update(idx, g[idx].without(d))),
{
    let next = g.update(idx, g[idx].without(d));
    g[idx].lemma_without(d);
    assert forall|i: int, j: int| #[trigger] peers(i, j) implies clear_of(next, i, j) by {
        assert(Set::<int>::full().contains(i));
        assert(clear_of(g, i, j));
    }
}

/// Ruling out of one cell a digit that no solution puts there keeps the
/// solutions, and takes one candidate from the grid.
pub proof fn lemma_eliminate_keeps_solutions(g: Seq<CellValue>, idx: int, d: int)
    requires
        proper_grid(g),
        0 <= idx < 81,
        g[idx].is_open(),
        g[idx].allows(d),
        forall|s: Seq<int>| solves(s, g) ==> s[idx] != d,
    ensures
        g[idx].outcome(d) != Elimination::Contradiction,
        proper_grid(g.update(idx, g[idx].without(d))),
        refines(g.update(idx, g[idx].without(d)), g),
        weight(g.update(idx, g[idx].without(d))) < weight(g),
        open_count(g.update(idx, g[idx].without(d))) + (if g[idx].outcome(d) is BecameFixed {
            1nat
        } else {
            0nat
        }) == open_count(g),
        forall|s: Seq<int>| solves(s, g.update(idx, g[idx].without(d))) <==> solves(s, g),
{
    let next = g.update(idx, g[idx].without(d));
    g[idx].lemma_without(d);
    assert(g[idx].proper());
    lemma_weight_upto_update(g, idx, g[idx].without(d), 81);
    lemma_open_upto_update(g, idx, g[idx].without(d), 81);
    assert forall|i: int, e: int| 0 <= i < 81 && #[trigger] next[i].allows(e) implies g[i].allows(
        e,
    ) by {}
    assert forall|s: Seq<int>| solves(s, next) <==> solves(s, g) by {
        if solves(s, next) {
            assert forall|i: int| 0 <= i < 81 implies (#[trigger] g[i]).allows(s[i]) by {
                assert(next[i].allows(s[i]));
            }
        }
        if solves(s, g) {
            assert forall|i: int| 0 <= i < 81 implies (#[trigger] next[i]).allows(s[i]) by {
                assert(g[i].allows(s[i]));
            }
        }
    }
}

/// The result of an assignment narrows the grid it was made in.
pub proof fn lemma_refines_fill(g: Seq<CellValue>, idx: int, v: int, c: Seq<CellValue>)
    requires
        g.len() == 81,
        0 <= idx < 81,
        g[idx].allows(v),
        1 <= v <= 9,
        refines(c, assigned(g, idx, v)),
    ensures
        refines(c, g),
{
    let base = assigned(g, idx, v);
    assert forall|i: int, d: int| 0 <= i < 81 && #[trigger] c[i].allows(d) implies g[i].allows(
        d,
    ) by {
        assert(base[i].allows(d));
    }
}

/// A grid in which two peers are fixed to the same digit has no solution.
pub proof fn lemma_clash_unsolvable(g: Seq<CellValue>, i: int, j: int)
    requires
        peers(i, j),
        g[i] is Fixed,
        g[i] == g[j],
    ensures
        !solvable(g),
{
    if solvable(g) {
        let s = choose|s: Seq<int>| solves(s, g);
        assert(g[i].allows(s[i]));
        assert(g[j].allows(s[j]));
    }
}

/// Some peer of the cell at `i` is fixed to `d`.
pub open spec fn sees(g: Seq<CellValue>, i: int, d: int) -> bool {
    exists|j: int| #[trigger] peers(i, j) && g[j] == CellValue::Fixed(d as u8)
}

/// A grid in which a cell has, for every digit, a peer fixed to that digit
/// has no solution.
pub proof fn lemma_starved_unsolvable(g: Seq<CellValue>, i: int)
    requires
        0 <= i < 81,
        forall|d: int| 1 <= d <= 9 ==> #[trigger] sees(g, i, d),
    ensures
        !solvable(g),
{
    if solvable(g) {
        let s = choose|s: Seq<int>| solves(s, g);
        let d = s[i];
        assert(1 <= d <= 9);
        assert(sees(g, i, d));
        let j = choose|j: int| #[trigger] peers(i, j) && g[j] == CellValue::Fixed(d as u8);
        assert(g[j].allows(s[j]));
    }
}

/// In a solution every unit holds every digit.
pub proof fn lemma_unit_has_digit(s: Seq<int>, u: int, d: int)
    requires
        is_solution(s),
        0 <= u < 27,
        1 <= d <= 9,
    ensures
        exists|k: int| 0 <= k < 9 && s[#[trigger] unit_cell(u, k)] == d,
{
    let vals = Seq::new(9, |k: int| s[unit_cell(u, k)]);
    assert forall|k: int, m: int| 0 <= k < 9 && 0 <= m < 9 && k != m implies vals[k] != vals[m] by {
        lemma_unit(u, k, m);
    }
    assert(vals.no_duplicates());
    vals.unique_seq_to_set();
    lemma_all_digits();
    if !(exists|k: int| 0 <= k < 9 && s[#[trigger] unit_cell(u, k)] == d) {
        let rest = all_digits().remove(d);
        assert forall|x: int| vals.to_set().contains(x) implies rest.contains(x) by {
            let k = choose|k: int| 0 <= k < 9 && vals[k] == x;
            lemma_unit(u, k, k);
            assert(1 <= s[unit_cell(u, k)] <= 9);
        }
        lemma_len_subset(vals.to_set(), rest);
    }
}

} // verus!
