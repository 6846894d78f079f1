//! The shape of the grid: coordinates, the cells that share a row, a column or
//! a box with a cell, and the twenty-seven units.

use vstd::prelude::*;

verus! {

/// The number of cells in the grid.
pub const CELLS: usize = 81;

/// The number of units: nine rows, nine columns and nine boxes.
pub const UNITS: usize = 27;

/// The position of a cell.
#[derive(Clone, Copy, Debug, PartialEq, Eq, Structural)]
pub struct Point {
    pub row: usize,
    pub col: usize,
}

impl Point {
    /// Whether the point lies on the grid.
    pub open spec fn in_grid(self) -> bool {
        self.row < 9 && self.col < 9
    }

    /// The place of the point when the grid is read row by row.
    pub open spec fn spec_index(self) -> int {
        self.row * 9 + self.col
    }

    /// The point with the given row and column.
    pub fn new(row: usize, col: usize) -> (p: Point)
        ensures
            p.row == row,
            p.col == col,
    {
        Point { row, col }
    }

    /// The place of the point when the grid is read row by row.
    pub fn index(&self) -> (i: usize)
        requires
            self.in_grid(),
        ensures
            i == self.spec_index(),
            i < 81,
    {
        self.row * 9 + self.col
    }

    /// The point at a place of the row-by-row reading.
    pub fn at(i: usize) -> (p: Point)
        requires
            i < 81,
        ensures
            p.in_grid(),
            p.spec_index() == i,
            p.row == row_of(i as int),
            p.col == col_of(i as int),
    {
        Point { row: i / 9, col: i % 9 }
    }
}

/// The row of the cell at index `i`.
pub open spec fn row_of(i: int) -> int {
    i / 9
}

/// The column of the cell at index `i`.
pub open spec fn col_of(i: int) -> int {
    i % 9
}

/// The box of the cell at index `i`; boxes are numbered row by row.
pub open spec fn box_of(i: int) -> int {
    (i / 27) * 3 + (i % 9) / 3
}

/// Whether two different cells share a row, a column or a box.
pub open spec fn peers(i: int, j: int) -> bool {
    &&& 0 <= i < 81
    &&& 0 <= j < 81
    &&& i != j
    &&& (row_of(i) == row_of(j) || col_of(i) == col_of(j) || box_of(i) == box_of(j))
}

/// The `k`-th number of 0, 1, 2, ... when `gap` is left out.
pub open spec fn skipping(k: int, gap: int) -> int {
    if k < gap {
        k
    } else {
        k + 1
    }
}

/// The row of the `k`-th cell adjacent to the cell at index `i`.
pub open spec fn adjacent_row(i: int, k: int) -> int {
    let r = row_of(i);
    if k < 8 {
        r
    } else if k < 16 {
        skipping(k - 8, r)
    } else {
        r - r % 3 + skipping((k - 16) / 2, r % 3)
    }
}

/// The column of the `k`-th cell adjacent to the cell at index `i`.
pub open spec fn adjacent_col(i: int, k: int) -> int {
    let c = col_of(i);
    if k < 8 {
        skipping(k, c)
    } else if k < 16 {
        c
    } else {
        c - c % 3 + skipping((k - 16) % 2, c % 3)
    }
}

/// The cells adjacent to the cell at index `i`, in the order in which they
/// are visited: the eight others of its row, the eight others of its column,
/// and the four cells of its box that lie in another row and another column.
pub open spec fn adjacent(i: int) -> Seq<int> {
    Seq::new(20, |k: int| adjacent_row(i, k) * 9 + adjacent_col(i, k))
}

/// The position in `adjacent(i)` at which the peer `j` stands.
pub open spec fn slot(i: int, j: int) -> int {
    let r = row_of(i);
    let c = col_of(i);
    let rj = row_of(j);
    let cj = col_of(j);
    if rj == r {
        if cj < c {
            cj
        } else {
            cj - 1
        }
    } else if cj == c {
        8 + if rj < r {
            rj
        } else {
            rj - 1
        }
    } else {
        16 + 2 * (if rj % 3 < r % 3 {
            rj % 3
        } else {
            rj % 3 - 1
        }) + (if cj % 3 < c % 3 {
            cj % 3
        } else {
            cj % 3 - 1
        })
    }
}

/// The index of the `k`-th cell of unit `u`. Units 0 to 8 are the rows, 9 to
/// 17 the columns, 18 to 26 the boxes.
pub open spec fn unit_cell(u: int, k: int) -> int {
    if u < 9 {
        u * 9 + k
    } else if u < 18 {
        k * 9 + (u - 9)
    } else {
        (((u - 18) / 3) * 3 + k / 3) * 9 + ((u - 18) % 3) * 3 + k % 3
    }
}

/// The row, column and box of the cell in row `r` and column `c`.
pub proof fn lemma_coords(r: int, c: int)
    requires
        0 <= r < 9,
        0 <= c < 9,
    ensures
        0 <= r * 9 + c < 81,
        row_of(r * 9 + c) == r,
        col_of(r * 9 + c) == c,
        box_of(r * 9 + c) == (r / 3) * 3 + c / 3,
{
}

/// The adjacent cells lie on the grid, at the coordinates that
/// `adjacent_row` and `adjacent_col` give.
pub proof fn lemma_adjacent_coords(i: int, k: int)
    requires
        0 <= i < 81,
        0 <= k < 20,
    ensures
        0 <= adjacent_row(i, k) < 9,
        0 <= adjacent_col(i, k) < 9,
        0 <= adjacent(i)[k] < 81,
        row_of(adjacent(i)[k]) == adjacent_row(i, k),
        col_of(adjacent(i)[k]) == adjacent_col(i, k),
        k < 8 ==> adjacent_col(i, k) != col_of(i),
        8 <= k < 16 ==> adjacent_row(i, k) != row_of(i),
        16 <= k ==> adjacent_row(i, k) != row_of(i) && adjacent_col(i, k) != col_of(i)
            && adjacent_row(i, k) / 3 == row_of(i) / 3 && adjacent_col(i, k) / 3 == col_of(i) / 3,
{
    lemma_coords(adjacent_row(i, k), adjacent_col(i, k));
}

/// Every adjacent cell is a peer.
pub proof fn lemma_adjacent_is_peer(i: int, k: int)
    requires
        0 <= i < 81,
        0 <= k < 20,
    ensures
        peers(i, adjacent(i)[k]),
{
    lemma_adjacent_coords(i, k);
    lemma_coords(row_of(i), col_of(i));
    lemma_coords(adjacent_row(i, k), adjacent_col(i, k));
}

/// Every peer stands among the adjacent cells, at its slot.
pub proof fn lemma_peer_is_adjacent(i: int, j: int)
    requires
        peers(i, j),
    ensures
        0 <= slot(i, j) < 20,
        adjacent(i)[slot(i, j)] == j,
{
    let r = row_of(i);
    let c = col_of(i);
    let rj = row_of(j);
    let cj = col_of(j);
    lemma_coords(r, c);
    lemma_coords(rj, cj);
    assert(j == rj * 9 + cj);
    let k = slot(i, j);
    if rj == r {
        assert(adjacent_row(i, k) == rj && adjacent_col(i, k) == cj);
    } else if cj == c {
        assert(adjacent_row(i, k) == rj && adjacent_col(i, k) == cj);
    } else {
        assert(rj / 3 == r / 3 && cj / 3 == c / 3);
        let a = if rj % 3 < r % 3 {
            rj % 3
        } else {
            rj % 3 - 1
        };
        let b = if cj % 3 < c % 3 {
            cj % 3
        } else {
            cj % 3 - 1
        };
        assert(0 <= a < 2 && 0 <= b < 2);
        assert(k == 16 + 2 * a + b);
        assert((k - 16) / 2 == a && (k - 16) % 2 == b);
        assert(skipping(a, r % 3) == rj % 3);
        assert(skipping(b, c % 3) == cj % 3);
        assert(adjacent_row(i, k) == rj && adjacent_col(i, k) == cj);
    }
}

/// No cell stands twice among the adjacent cells.
pub proof fn lemma_adjacent_distinct(i: int, k: int, m: int)
    requires
        0 <= i < 81,
        0 <= k < 20,
        0 <= m < 20,
        k != m,
    ensures
        adjacent(i)[k] != adjacent(i)[m],
{
    lemma_adjacent_coords(i, k);
    lemma_adjacent_coords(i, m);
    if 16 <= k && 16 <= m {
        let a = (k - 16) / 2;
        let b = (k - 16) % 2;
        let a2 = (m - 16) / 2;
        let b2 = (m - 16) % 2;
        assert(a != a2 || b != b2);
        assert(adjacent_row(i, k) != adjacent_row(i, m) || adjacent_col(i, k) != adjacent_col(
            i,
            m,
        ));
    }
}

/// The cells of a unit lie on the grid, and two different ones are peers.
pub proof fn lemma_unit(u: int, k: int, m: int)
    requires
        0 <= u < 27,
        0 <= k < 9,
        0 <= m < 9,
    ensures
        0 <= unit_cell(u, k) < 81,
        k != m ==> peers(unit_cell(u, k), unit_cell(u, m)),
{
    lemma_unit_cell(u, k);
    lemma_unit_cell(u, m);
}

/// A unit that holds both of two peers: their row, else their column, else
/// their box.
pub open spec fn shared_unit(i: int, j: int) -> int {
    if row_of(i) == row_of(j) {
        row_of(i)
    } else if col_of(i) == col_of(j) {
        9 + col_of(i)
    } else {
        18 + box_of(i)
    }
}

/// The place of the cell at index `i` in unit `u`, when the unit holds it.
pub open spec fn place_in_unit(u: int, i: int) -> int {
    if u < 9 {
        col_of(i)
    } else if u < 18 {
        row_of(i)
    } else {
        (row_of(i) % 3) * 3 + col_of(i) % 3
    }
}

/// Two peers are two different cells of one unit.
pub proof fn lemma_peers_share_unit(i: int, j: int)
    requires
        peers(i, j),
    ensures
        0 <= shared_unit(i, j) < 27,
        0 <= place_in_unit(shared_unit(i, j), i) < 9,
        0 <= place_in_unit(shared_unit(i, j), j) < 9,
        place_in_unit(shared_unit(i, j), i) != place_in_unit(shared_unit(i, j), j),
        unit_cell(shared_unit(i, j), place_in_unit(shared_unit(i, j), i)) == i,
        unit_cell(shared_unit(i, j), place_in_unit(shared_unit(i, j), j)) == j,
{
    let u = shared_unit(i, j);
    lemma_coords(row_of(i), col_of(i));
    lemma_coords(row_of(j), col_of(j));
    if u >= 18 {
        let b = box_of(i);
        assert(box_of(j) == b);
        assert(b / 3 == row_of(i) / 3 && b % 3 == col_of(i) / 3);
        assert(b / 3 == row_of(j) / 3 && b % 3 == col_of(j) / 3);
        let ki = place_in_unit(u, i);
        let kj = place_in_unit(u, j);
        assert(ki / 3 == row_of(i) % 3 && ki % 3 == col_of(i) % 3);
        assert(kj / 3 == row_of(j) % 3 && kj % 3 == col_of(j) % 3);
    }
}

/// Where the `k`-th cell of a unit lies: in the unit's row, in its column, or
/// in its box.
proof fn lemma_unit_cell(u: int, k: int)
    requires
        0 <= u < 27,
        0 <= k < 9,
    ensures
        0 <= unit_cell(u, k) < 81,
        u < 9 ==> row_of(unit_cell(u, k)) == u && col_of(unit_cell(u, k)) == k,
        9 <= u < 18 ==> col_of(unit_cell(u, k)) == u - 9 && row_of(unit_cell(u, k)) == k,
        18 <= u ==> box_of(unit_cell(u, k)) == u - 18 && row_of(unit_cell(u, k)) % 3 == k / 3
            && col_of(unit_cell(u, k)) % 3 == k % 3,
{
    if u >= 18 {
        let b = u - 18;
        let r = (b / 3) * 3 + k / 3;
        let c = (b % 3) * 3 + k % 3;
        assert(0 <= r < 9 && 0 <= c < 9);
        assert(unit_cell(u, k) == r * 9 + c);
        assert(row_of(r * 9 + c) == r);
        assert(col_of(r * 9 + c) == c);
        assert((r * 9 + c) / 27 == b / 3);
        assert(c / 3 == b % 3);
    }
}

/// The cells around `point`: all that share its row, its column or its box,
/// without `point` itself.
pub fn adjacent_cells(point: Point) -> (cells: Vec<Point>)
    requires
        point.in_grid(),
    ensures
        cells@.len() == 20,
        forall|k: int|
            0 <= k < 20 ==> (#[trigger] cells@[k]).in_grid() && cells@[k].spec_index() == adjacent(
                point.spec_index(),
            )[k],
        cells@.no_duplicates(),
        forall|q: Point|
            q.in_grid() ==> (cells@.contains(q) <==> #[trigger] peers(
                point.spec_index(),
                q.spec_index(),
            )),
{
    let ghost i = point.spec_index();
    let mut cells: Vec<Point> = Vec::new();
    let mut col: usize = 0;
    while col < 9
        invariant
            point.in_grid(),
            i == point.spec_index(),
            col <= 9,
            cells@.len() == (if col <= point.col { col as int } else { col - 1 }),
            forall|k: int|
                0 <= k < cells@.len() ==> (#[trigger] cells@[k]).in_grid()
                    && cells@[k].spec_index() == adjacent(i)[k],
        decreases 9 - col,
    {
        if col != point.col {
            cells.push(Point { row: point.row, col });
        }
        col = col + 1;
    }
    let mut row: usize = 0;
    while row < 9
        invariant
            point.in_grid(),
            i == point.spec_index(),
            row <= 9,
            cells@.len() == 8 + (if row <= point.row { row as int } else { row - 1 }),
            forall|k: int|
                0 <= k < cells@.len() ==> (#[trigger] cells@[k]).in_grid()
                    && cells@[k].spec_index() == adjacent(i)[k],
        decreases 9 - row,
    {
        if row != point.row {
            cells.push(Point { row, col: point.col });
        }
        row = row + 1;
    }
    let top = point.row - point.row % 3;
    let left = point.col - point.col % 3;
    let mut dr: usize = 0;
    while dr < 3
        invariant
            point.in_grid(),
            i == point.spec_index(),
            top == point.row - point.row % 3,
            left == point.col - point.col % 3,
            dr <= 3,
            cells@.len() == 16 + 2 * (if dr <= point.row % 3 { dr as int } else { dr - 1 }),
            forall|k: int|
                0 <= k < cells@.len() ==> (#[trigger] cells@[k]).in_grid()
                    && cells@[k].spec_index() == adjacent(i)[k],
        decreases 3 - dr,
    {
        if dr != point.row % 3 {
            let mut dc: usize = 0;
            let ghost base = cells@.len();
            while dc < 3
                invariant
                    point.in_grid(),
                    i == point.spec_index(),
                    top == point.row - point.row % 3,
                    left == point.col - point.col % 3,
                    dr < 3,
                    dr != point.row % 3,
                    dc <= 3,
                    base == 16 + 2 * (if dr <= point.row % 3 { dr as int } else { dr - 1 }),
                    cells@.len() == base + (if dc <= point.col % 3 { dc as int } else { dc - 1 }),
                    forall|k: int|
                        0 <= k < cells@.len() ==> (#[trigger] cells@[k]).in_grid()
                            && cells@[k].spec_index() == adjacent(i)[k],
                decreases 3 - dc,
            {
                if dc != point.col % 3 {
                    cells.push(Point { row: top + dr, col: left + dc });
                }
                dc = dc + 1;
            }
        }
        dr = dr + 1;
    }
    proof {
        assert forall|k: int, m: int| 0 <= k < 20 && 0 <= m < 20 && k != m implies cells@[k]
            != cells@[m] by {
            lemma_adjacent_distinct(i, k, m);
        }
        assert forall|q: Point| q.in_grid() implies (cells@.contains(q) <==> #[trigger] peers(
            i,
            q.spec_index(),
        )) by {
            if cells@.contains(q) {
                let k = choose|k: int| 0 <= k < 20 && cells@[k] == q;
                lemma_adjacent_is_peer(i, k);
            }
            if peers(i, q.spec_index()) {
                lemma_peer_is_adjacent(i, q.spec_index());
                let k = slot(i, q.spec_index());
                assert(cells@[k].spec_index() == q.spec_index());
                assert(cells@[k].in_grid());
                assert(cells@[k] == q);
            }
        }
    }
    cells
}

/// The twenty-seven units, each with its nine cells: the rows, then the
/// columns, then the boxes.
pub fn all_units() -> (units: Vec<Vec<Point>>)
    ensures
        units@.len() == 27,
        forall|u: int| 0 <= u < 27 ==> (#[trigger] units@[u])@.len() == 9,
        forall|u: int, k: int|
            0 <= u < 27 && 0 <= k < 9 ==> (#[trigger] units@[u]@[k]).in_grid()
                && units@[u]@[k].spec_index() == unit_cell(u, k),
{
    let mut units: Vec<Vec<Point>> = Vec::new();
    let mut u: usize = 0;
    while u < 27
        invariant
            u <= 27,
            units@.len() == u,
            forall|w: int| 0 <= w < u ==> (#[trigger] units@[w])@.len() == 9,
            forall|w: int, k: int|
                0 <= w < u && 0 <= k < 9 ==> (#[trigger] units@[w]@[k]).in_grid()
                    && units@[w]@[k].spec_index() == unit_cell(w, k),
        decreases 27 - u,
    {
        let mut unit: Vec<Point> = Vec::new();
        let mut k: usize = 0;
        while k < 9
            invariant
                u < 27,
                k <= 9,
                unit@.len() == k,
                forall|m: int|
                    0 <= m < k ==> (#[trigger] unit@[m]).in_grid() && unit@[m].spec_index()
                        == unit_cell(u as int, m),
            decreases 9 - k,
        {
            let p = if u < 9 {
                Point { row: u, col: k }
            } else if u < 18 {
                Point { row: k, col: u - 9 }
            } else {
                Point { row: ((u - 18) / 3) * 3 + k / 3, col: ((u - 18) % 3) * 3 + k % 3 }
            };
            unit.push(p);
            k = k + 1;
        }
        units.push(unit);
        u = u + 1;
    }
    units
}

} // verus!
