//! Solutions built from a pattern. They show that a puzzle with two given
//! digits has a solution unless the two clash.

use crate::cell::CellValue;
use crate::geometry::{col_of, lemma_coords, peers, row_of};
use crate::grid::{is_solution, lemma_clash_unsolvable, solvable, solves};
use vstd::prelude::*;

verus! {

/// The third into which `pinned` sends the numbers of a third.
pub open spec fn pin_block(from: int, to: int, v: int, third: int) -> int {
    if third == from / 3 {
        0
    } else if to / 3 == from / 3 {
        if third < from / 3 {
            third + 1
        } else {
            third
        }
    } else if third == to / 3 {
        v / 3
    } else {
        3 - v / 3
    }
}

/// The place within its third to which `pinned` sends `y`.
pub open spec fn pin_within(from: int, to: int, v: int, y: int) -> int {
    if y / 3 == from / 3 {
        if to / 3 == from / 3 {
            if y == from {
                0
            } else if y == to {
                v
            } else {
                3 - v
            }
        } else {
            (y % 3 + 3 - from % 3) % 3
        }
    } else if y / 3 == to / 3 {
        (y % 3 + 3 - to % 3 + v % 3) % 3
    } else {
        y % 3
    }
}

/// A permutation of 0 to 8 that sends `from` to 0 and `to` to `v`, and the
/// numbers of each third (0 to 2, 3 to 5, 6 to 8) into one third. It is
/// meant for `to` different from `from`, and for `v` between 1 and 2 where
/// the two lie in one third, between 3 and 8 where they do not.
#[verifier::opaque]
pub open spec fn pinned(from: int, to: int, v: int, y: int) -> int {
    3 * pin_block(from, to, v, y / 3) + pin_within(from, to, v, y)
}

/// Whether `v` is a value that `pinned` can send `to` to.
pub open spec fn pin_fits(from: int, to: int, v: int) -> bool {
    &&& 0 <= from < 9
    &&& 0 <= to < 9
    &&& from != to
    &&& if from / 3 == to / 3 {
        1 <= v <= 2
    } else {
        3 <= v <= 8
    }
}

/// The thirds go to different thirds.
proof fn lemma_pin_block(from: int, to: int, v: int, third: int, other: int)
    requires
        pin_fits(from, to, v),
        0 <= third < 3,
        0 <= other < 3,
    ensures
        0 <= pin_block(from, to, v, third) < 3,
        third != other ==> pin_block(from, to, v, third) != pin_block(from, to, v, other),
{
    let f = from / 3;
    let t = to / 3;
    let w = v / 3;
    assert(0 <= f < 3 && 0 <= t < 3);
    if f != t {
        assert(1 <= w <= 2);
    }
}

/// The numbers of a third go to different places.
#[verifier::rlimit(50)]
proof fn lemma_pin_within(from: int, to: int, v: int, y: int, z: int)
    requires
        pin_fits(from, to, v),
        0 <= y < 9,
        0 <= z < 9,
        y / 3 == z / 3,
    ensures
        0 <= pin_within(from, to, v, y) < 3,
        y != z ==> pin_within(from, to, v, y) != pin_within(from, to, v, z),
{
    let a = y % 3;
    let b = z % 3;
    let f = from % 3;
    let t = to % 3;
    let w = v % 3;
    assert(0 <= a < 3 && 0 <= b < 3 && 0 <= f < 3 && 0 <= t < 3 && 0 <= w < 3);
    assert(y == 3 * (y / 3) + a && z == 3 * (z / 3) + b);
    if y / 3 == from / 3 {
        if to / 3 == from / 3 {
        } else {
            assert((a + 3 - f) % 3 == (if a >= f { a - f } else { a + 3 - f }));
            assert((b + 3 - f) % 3 == (if b >= f { b - f } else { b + 3 - f }));
        }
    } else if y / 3 == to / 3 {
        let ka = a + 3 - t + w;
        let kb = b + 3 - t + w;
        assert(1 <= ka < 8 && 1 <= kb < 8);
        assert(ka % 3 == (if ka >= 6 { ka - 6 } else if ka >= 3 { ka - 3 } else { ka }));
        assert(kb % 3 == (if kb >= 6 { kb - 6 } else if kb >= 3 { kb - 3 } else { kb }));
    }
}

/// `pinned` is a permutation that keeps the thirds together.
#[verifier::rlimit(50)]
pub proof fn lemma_pinned(from: int, to: int, v: int, y: int, z: int)
    requires
        pin_fits(from, to, v),
        0 <= y < 9,
        0 <= z < 9,
    ensures
        0 <= pinned(from, to, v, y) < 9,
        0 <= pinned(from, to, v, z) < 9,
        pinned(from, to, v, from) == 0,
        pinned(from, to, v, to) == v,
        y != z ==> pinned(from, to, v, y) != pinned(from, to, v, z),
        y / 3 == z / 3 <==> pinned(from, to, v, y) / 3 == pinned(from, to, v, z) / 3,
{
    reveal(pinned);
    lemma_pin_block(from, to, v, y / 3, z / 3);
    lemma_pin_block(from, to, v, z / 3, y / 3);
    lemma_pin_within(from, to, v, y, y);
    lemma_pin_within(from, to, v, z, z);
    if y / 3 == z / 3 {
        lemma_pin_within(from, to, v, y, z);
    }
    let by = pin_block(from, to, v, y / 3);
    let bz = pin_block(from, to, v, z / 3);
    let wy = pin_within(from, to, v, y);
    let wz = pin_within(from, to, v, z);
    assert((3 * by + wy) / 3 == by);
    assert((3 * bz + wz) / 3 == bz);
    assert(pin_block(from, to, v, from / 3) == 0);
    assert(pin_within(from, to, v, from) == 0) by {
        let f = from % 3;
        assert(0 <= f < 3);
    }
    assert(3 * pin_block(from, to, v, to / 3) + pin_within(from, to, v, to) == v) by {
        let t = to % 3;
        let w = v % 3;
        assert(0 <= t < 3 && 0 <= w < 3);
        if to / 3 != from / 3 {
            assert(v == 3 * (v / 3) + w);
            assert((t + 3 - t + w) % 3 == w);
        }
    }
}

/// The number that has the third of `z` as its place in a third, and the
/// other way round.
pub open spec fn turned(z: int) -> int {
    3 * (z % 3) + z / 3
}

/// The value that the row permutation gives the second row, so that the two
/// cells get the same digit.
pub open spec fn row_pin(same_band: bool, same_stack: bool) -> int {
    if same_band {
        1
    } else if same_stack {
        8
    } else {
        7
    }
}

/// The value that the column permutation gives the second column.
pub open spec fn col_pin(same_band: bool, same_stack: bool) -> int {
    if same_band {
        6
    } else if same_stack {
        1
    } else {
        4
    }
}

/// The digit at index `k` of a grid that gives the cells at `i` and at `j`
/// the digit `d`.
pub open spec fn pair_digit(i: int, j: int, d: int, k: int) -> int {
    let same_band = row_of(i) / 3 == row_of(j) / 3;
    let same_stack = col_of(i) / 3 == col_of(j) / 3;
    let a = turned(pinned(row_of(i), row_of(j), row_pin(same_band, same_stack), row_of(k)));
    let b = pinned(col_of(i), col_of(j), col_pin(same_band, same_stack), col_of(k));
    (a + b + d - 1) % 9 + 1
}

/// A grid that gives the cells at `i` and at `j` the digit `d`.
pub open spec fn pair_solution(i: int, j: int, d: int) -> Seq<int> {
    Seq::new(81, |k: int| pair_digit(i, j, d, k))
}

/// Two cells that are no peers hold the same digit in some solution.
#[verifier::rlimit(50)]
pub proof fn lemma_pair_solution(i: int, j: int, d: int)
    requires
        0 <= i < 81,
        0 <= j < 81,
        i != j,
        !peers(i, j),
        1 <= d <= 9,
    ensures
        is_solution(pair_solution(i, j, d)),
        pair_solution(i, j, d)[i] == d,
        pair_solution(i, j, d)[j] == d,
{
    let s = pair_solution(i, j, d);
    let same_band = row_of(i) / 3 == row_of(j) / 3;
    let same_stack = col_of(i) / 3 == col_of(j) / 3;
    let rv = row_pin(same_band, same_stack);
    let cv = col_pin(same_band, same_stack);
    let r1 = row_of(i);
    let r2 = row_of(j);
    let c1 = col_of(i);
    let c2 = col_of(j);
    lemma_coords(r1, c1);
    lemma_coords(r2, c2);
    assert(r1 != r2 && c1 != c2 && !(same_band && same_stack));
    assert(pin_fits(r1, r2, rv));
    assert(pin_fits(c1, c2, cv));
    lemma_pinned(r1, r2, rv, r1, r2);
    lemma_pinned(c1, c2, cv, c1, c2);
    assert(turned(rv) + cv == 9);
    assert(s[i] == d && s[j] == d) by {
        assert(turned(0) == 0);
        assert((9 + d - 1) % 9 + 1 == d);
    }
    assert forall|k: int| 0 <= k < 81 implies 1 <= #[trigger] s[k] <= 9 by {}
    assert forall|k: int, m: int| #[trigger] peers(k, m) implies s[k] != s[m] by {
        let x = row_of(k);
        let y = col_of(k);
        let x2 = row_of(m);
        let y2 = col_of(m);
        lemma_coords(x, y);
        lemma_coords(x2, y2);
        lemma_pinned(r1, r2, rv, x, x2);
        lemma_pinned(c1, c2, cv, y, y2);
        assert(x != x2 || y != y2);
        assert(x == x2 || y == y2 || (x / 3 == x2 / 3 && y / 3 == y2 / 3));
        let p = pinned(r1, r2, rv, x);
        let pb = pinned(r1, r2, rv, x2);
        let q = pinned(c1, c2, cv, y);
        let qb = pinned(c1, c2, cv, y2);
        lemma_sum_distinct(p, q, pb, qb, d);
    }
}

/// Two numbers that differ by less than nine leave different remainders.
proof fn lemma_mod_distinct(a: int, b: int)
    requires
        0 <= a,
        0 <= b,
        a != b,
        a - b < 9,
        b - a < 9,
    ensures
        a % 9 != b % 9,
{
    if a % 9 == b % 9 {
        let x = a / 9;
        let y = b / 9;
        assert(a == 9 * x + a % 9);
        assert(b == 9 * y + b % 9);
        assert(a - b == 9 * (x - y));
        if x > y {
            assert(a - b >= 9);
        } else if x < y {
            assert(b - a >= 9);
        }
    }
}

/// Turning is a permutation of 0 to 8.
proof fn lemma_turned(p: int, pb: int)
    requires
        0 <= p < 9,
        0 <= pb < 9,
    ensures
        0 <= turned(p) < 9,
        0 <= turned(pb) < 9,
        p != pb ==> turned(p) != turned(pb),
{
    assert(p == 3 * (p / 3) + p % 3);
    assert(pb == 3 * (pb / 3) + pb % 3);
}

/// Two cells of a row, a column or a box get different digits from the
/// pattern.
proof fn lemma_sum_distinct(p: int, q: int, pb: int, qb: int, d: int)
    requires
        0 <= p < 9,
        0 <= q < 9,
        0 <= pb < 9,
        0 <= qb < 9,
        1 <= d <= 9,
        p != pb || q != qb,
        p == pb || q == qb || (p / 3 == pb / 3 && q / 3 == qb / 3),
    ensures
        (turned(p) + q + d - 1) % 9 != (turned(pb) + qb + d - 1) % 9,
{
    lemma_turned(p, pb);
    let a = turned(p) + q + d - 1;
    let b = turned(pb) + qb + d - 1;
    if p == pb {
        assert(a - b == q - qb);
    } else if q == qb {
        assert(a - b == turned(p) - turned(pb));
    } else {
        let x = 3 * (p % 3) + q % 3;
        let y = 3 * (pb % 3) + qb % 3;
        assert(q == 3 * (q / 3) + q % 3);
        assert(qb == 3 * (qb / 3) + qb % 3);
        assert(p == 3 * (p / 3) + p % 3);
        assert(pb == 3 * (pb / 3) + pb % 3);
        assert(a - b == x - y);
        assert(0 <= x < 9 && 0 <= y < 9);
        assert(x != y);
    }
    lemma_mod_distinct(a, b);
}

/// A puzzle that gives two cells the same digit, and leaves every other cell
/// open to all digits, has a solution when the two cells are no peers.
pub proof fn lemma_two_givens_solvable(g: Seq<CellValue>, i: int, j: int, d: int)
    requires
        g.len() == 81,
        0 <= i < 81,
        0 <= j < 81,
        i != j,
        !peers(i, j),
        1 <= d <= 9,
        g[i].allows(d),
        g[j].allows(d),
        forall|k: int, e: int|
            0 <= k < 81 && k != i && k != j && 1 <= e <= 9 ==> #[trigger] g[k].allows(e),
    ensures
        solves(pair_solution(i, j, d), g),
        solvable(g),
{
    lemma_pair_solution(i, j, d);
    let s = pair_solution(i, j, d);
    assert forall|k: int| 0 <= k < 81 implies (#[trigger] g[k]).allows(s[k]) by {
        assert(1 <= s[k] <= 9);
    }
    assert(solves(s, g));
}

/// A puzzle that gives two cells the same digit, and leaves every other cell
/// open to all digits, has a solution exactly when the two cells are no
/// peers.
pub proof fn lemma_two_givens(g: Seq<CellValue>, i: int, j: int, d: int)
    requires
        g.len() == 81,
        0 <= i < 81,
        0 <= j < 81,
        i != j,
        1 <= d <= 9,
        g[i] == CellValue::Fixed(d as u8),
        g[j] == CellValue::Fixed(d as u8),
        forall|k: int, e: int|
            0 <= k < 81 && k != i && k != j && 1 <= e <= 9 ==> #[trigger] g[k].allows(e),
    ensures
        solvable(g) <==> !peers(i, j),
{
    if peers(i, j) {
        lemma_clash_unsolvable(g, i, j);
    } else {
        lemma_two_givens_solvable(g, i, j, d);
    }
}

} // verus!
