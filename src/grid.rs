use vstd::prelude::*;
use vstd::set_lib::{lemma_int_range, lemma_len_subset, lemma_subset_equality, set_int_range};

verus! {

/// A 9×9 Sudoku board: each cell holds a digit or nothing.
pub type Board = [[Option<u8>; 9]; 9];

/// The cell at row `r`, column `c`.
pub open spec fn at(g: Board, r: int, c: int) -> Option<u8> {
    g[r][c]
}

/// The cell at position `i` of the row-major order (row `i / 9`, column `i % 9`).
pub open spec fn cell(g: Board, i: int) -> Option<u8> {
    at(g, i / 9, i % 9)
}

/// The cell at offset `z` (0 to 8, row-major) in the 3×3 box that holds `(r, c)`.
pub open spec fn box_cell(g: Board, r: int, c: int, z: int) -> Option<u8> {
    at(g, r - r % 3 + z / 3, c - c % 3 + z % 3)
}

/// The offset of `(r, c)` itself within its 3×3 box.
pub open spec fn box_offset(r: int, c: int) -> int {
    3 * (r % 3) + c % 3
}

/// Whether some other cell that shares row `r`, column `c` or the 3×3 box of
/// `(r, c)` already holds `d`. The cell `(r, c)` itself is not read.
pub open spec fn conflicts(g: Board, r: int, c: int, d: u8) -> bool {
    exists|x: int|
        #![trigger at(g, r, x)]
        #![trigger at(g, x, c)]
        #![trigger box_cell(g, r, c, x)]
        0 <= x < 9 && ((x != c && at(g, r, x) == Some(d)) || (x != r && at(g, x, c) == Some(d)) || (x
            != box_offset(r, c) && box_cell(g, r, c, x) == Some(d)))
}

/// Whether every cell holds a digit.
pub open spec fn full(g: Board) -> bool {
    forall|i: int| 0 <= i < 81 ==> (#[trigger] cell(g, i)) is Some
}

/// Whether `s` keeps every digit that `g` holds, in its place.
pub open spec fn extends(g: Board, s: Board) -> bool {
    forall|i: int| 0 <= i < 81 && (#[trigger] cell(g, i)) is Some ==> cell(s, i) == cell(g, i)
}

/// Whether the distinct positions `i` and `p` (row-major) share a row, a
/// column or a 3×3 box.
pub open spec fn peer(i: int, p: int) -> bool {
    i != p && (i / 9 == p / 9 || i % 9 == p % 9 || (i / 27 == p / 27 && i % 9 / 3 == p % 9 / 3))
}

/// Whether every digit of `g` lies between 1 and 9.
pub open spec fn in_range(g: Board) -> bool {
    forall|i: int|
        0 <= i < 81 ==> match #[trigger] cell(g, i) {
            Some(d) => 1 <= d <= 9,
            None => true,
        }
}

/// Whether the digits of `g` lie between 1 and 9 and no two cells of one row,
/// column or box hold the same digit.
pub open spec fn consistent(g: Board) -> bool {
    &&& in_range(g)
    &&& forall|i: int, p: int|
        0 <= i < 81 && 0 <= p < 81 && peer(i, p) && (#[trigger] cell(g, i)) is Some ==> #[trigger] cell(
            g,
            p,
        ) != cell(g, i)
}

/// The row-major position of the cell at offset `x` (0 to 8) of unit `u`:
/// units 0 to 8 are the rows, 9 to 17 the columns, 18 to 26 the boxes, each
/// read in row-major order.
pub open spec fn unit_pos(u: int, x: int) -> int {
    if u < 9 {
        9 * u + x
    } else if u < 18 {
        9 * x + (u - 9)
    } else {
        9 * (3 * ((u - 18) / 3) + x / 3) + 3 * ((u - 18) % 3) + x % 3
    }
}

/// Whether some cell of unit `u` of `g` holds `d`.
pub open spec fn unit_holds(g: Board, u: int, d: u8) -> bool {
    exists|x: int| 0 <= x < 9 && #[trigger] cell(g, unit_pos(u, x)) == Some(d)
}

/// The band of three rows that holds position `i` is `i / 27`.
pub proof fn lemma_box_row(i: int)
    requires
        0 <= i < 81,
    ensures
        i / 9 / 3 == i / 27,
{
    let r = i / 9;
    let c = i % 9;
    assert(i == 27 * (r / 3) + 9 * (r % 3) + c);
    assert(0 <= 9 * (r % 3) + c < 27);
}

/// Two different offsets of one unit are two cells that share a row, a column
/// or a box.
proof fn lemma_unit_peers(u: int, x: int, y: int)
    requires
        0 <= u < 27,
        0 <= x < 9,
        0 <= y < 9,
    ensures
        0 <= unit_pos(u, x) < 81,
        x != y ==> peer(unit_pos(u, x), unit_pos(u, y)),
{
    let p = unit_pos(u, x);
    let q = unit_pos(u, y);
    if u < 9 {
        assert(p / 9 == u && q / 9 == u);
    } else if u < 18 {
        assert(p % 9 == u - 9 && q % 9 == u - 9);
    } else {
        let b = u - 18;
        assert(p / 9 == 3 * (b / 3) + x / 3 && p % 9 == 3 * (b % 3) + x % 3);
        assert(q / 9 == 3 * (b / 3) + y / 3 && q % 9 == 3 * (b % 3) + y % 3);
        lemma_box_row(p);
        lemma_box_row(q);
        assert(p % 9 / 3 == b % 3 && q % 9 / 3 == b % 3);
        if x != y {
            assert(x == 3 * (x / 3) + x % 3 && y == 3 * (y / 3) + y % 3);
        }
    }
}

/// Nine different digits from 1 to 9 are all of them.
proof fn lemma_distinct_digits_cover(q: Seq<int>)
    requires
        q.len() == 9,
        forall|i: int| 0 <= i < 9 ==> 1 <= #[trigger] q[i] <= 9,
        q.no_duplicates(),
    ensures
        forall|d: int| 1 <= d <= 9 ==> q.contains(d),
{
    let all = set_int_range(1, 10);
    q.unique_seq_to_set();
    lemma_int_range(1, 10);
    assert(q.to_set().subset_of(all));
    lemma_len_subset(q.to_set(), all);
    lemma_subset_equality(q.to_set(), all);
    assert forall|d: int| 1 <= d <= 9 implies q.contains(d) by {
        assert(all.contains(d));
        assert(q.to_set().contains(d));
    }
}

/// Each row, column and box of a full consistent board holds every digit from
/// 1 to 9, and none twice.
pub proof fn lemma_full_consistent_units(s: Board)
    requires
        full(s),
        consistent(s),
    ensures
        forall|u: int, d: u8| 0 <= u < 27 && 1 <= d <= 9 ==> #[trigger] unit_holds(s, u, d),
        forall|u: int, x: int, y: int|
            0 <= u < 27 && 0 <= x < 9 && 0 <= y < 9 && x != y ==> #[trigger] cell(s, unit_pos(u, x))
                != #[trigger] cell(s, unit_pos(u, y)),
{
    assert forall|u: int, x: int, y: int|
        0 <= u < 27 && 0 <= x < 9 && 0 <= y < 9 && x != y implies #[trigger] cell(s, unit_pos(u, x))
        != #[trigger] cell(s, unit_pos(u, y)) by {
        lemma_unit_peers(u, x, y);
        lemma_unit_peers(u, y, x);
        assert(cell(s, unit_pos(u, x)) is Some);
    }
    assert forall|u: int, d: u8| 0 <= u < 27 && 1 <= d <= 9 implies #[trigger] unit_holds(s, u, d) by {
        let q = Seq::new(9, |x: int| cell(s, unit_pos(u, x))->0 as int);
        assert forall|i: int| 0 <= i < 9 implies 1 <= #[trigger] q[i] <= 9 by {
            lemma_unit_peers(u, i, i);
            assert(cell(s, unit_pos(u, i)) is Some);
        }
        assert forall|i: int, j: int| 0 <= i < 9 && 0 <= j < 9 && i != j implies q[i] != q[j] by {
            lemma_unit_peers(u, i, j);
            lemma_unit_peers(u, j, i);
            assert(cell(s, unit_pos(u, i)) is Some);
            assert(cell(s, unit_pos(u, j)) is Some);
            assert(cell(s, unit_pos(u, i)) != cell(s, unit_pos(u, j)));
        }
        lemma_distinct_digits_cover(q);
        assert(q.contains(d as int));
        let x = choose|x: int| 0 <= x < 9 && q[x] == d as int;
        lemma_unit_peers(u, x, x);
        assert(cell(s, unit_pos(u, x)) is Some);
        assert(cell(s, unit_pos(u, x)) == Some(d));
    }
}

/// The row-major position of the first empty cell at or after `i`; 81 when
/// there is none.
pub open spec fn gap_from(g: Board, i: int) -> int
    decreases 81 - i,
{
    if i < 0 || i >= 81 {
        81
    } else if cell(g, i) is None {
        i
    } else {
        gap_from(g, i + 1)
    }
}

/// The number of filled cells at or after row-major position `i`.
pub open spec fn filled_from(g: Board, i: int) -> int
    decreases 81 - i,
{
    if i < 0 || i >= 81 {
        0
    } else {
        (if cell(g, i) is Some {
            1int
        } else {
            0int
        }) + filled_from(g, i + 1)
    }
}

/// Counts the filled cells in row-major order up to the first empty one: the
/// measure of progress of a search. Every cell before the result is filled,
/// and the cell at the result, if any, is empty.
pub fn filled_before_gap(grid: &Board) -> (k: u8)
    ensures
        k == gap_from(*grid, 0),
        k <= 81,
        forall|j: int| 0 <= j < k ==> (#[trigger] cell(*grid, j)) is Some,
        k < 81 ==> cell(*grid, k as int) is None,
{
    let mut filled: u8 = 0;
    let mut i: usize = 0;
    while i < 81
        invariant
            i <= 81,
            filled == i,
            forall|j: int| 0 <= j < i ==> (#[trigger] cell(*grid, j)) is Some,
            gap_from(*grid, 0) == gap_from(*grid, i as int),
        decreases 81 - i,
    {
        if grid[i / 9][i % 9].is_none() {
            return filled;
        }
        filled += 1;
        i += 1;
    }
    filled
}

/// The progress measure lies between 0 and 81, never exceeds the number of
/// filled cells, and equals it when no filled cell follows the first empty
/// one.
pub proof fn lemma_progress_counts_filled(g: Board)
    ensures
        0 <= gap_from(g, 0) <= 81,
        gap_from(g, 0) <= filled_from(g, 0),
        (forall|j: int| gap_from(g, 0) <= j < 81 ==> (#[trigger] cell(g, j)) is None) ==> gap_from(g, 0)
            == filled_from(g, 0),
{
    lemma_gap_count(g, 0);
}

/// `lemma_progress_counts_filled` from position `i` on.
pub proof fn lemma_gap_count(g: Board, i: int)
    requires
        0 <= i <= 81,
    ensures
        i <= gap_from(g, i) <= 81,
        gap_from(g, i) - i <= filled_from(g, i),
        (forall|j: int| gap_from(g, i) <= j < 81 ==> (#[trigger] cell(g, j)) is None) ==> gap_from(g, i) - i
            == filled_from(g, i),
    decreases 81 - i,
{
    if i < 81 {
        lemma_gap_count(g, i + 1);
        lemma_empty_tail(g, i);
    }
}

/// Where every cell at or after `i` is empty, none of them counts.
proof fn lemma_empty_tail(g: Board, i: int)
    requires
        0 <= i <= 81,
    ensures
        (forall|j: int| i <= j < 81 ==> (#[trigger] cell(g, j)) is None) ==> filled_from(g, i) == 0,
    decreases 81 - i,
{
    if i < 81 {
        lemma_empty_tail(g, i + 1);
    }
}

/// Whether every digit of `grid` lies between 1 and 9, as a board must before
/// it is searched.
pub fn digits_in_range(grid: &Board) -> (r: bool)
    ensures
        r == in_range(*grid),
{
    let mut i: usize = 0;
    while i < 81
        invariant
            i <= 81,
            forall|j: int|
                0 <= j < i ==> match #[trigger] cell(*grid, j) {
                    Some(d) => 1 <= d <= 9,
                    None => true,
                },
        decreases 81 - i,
    {
        if let Some(d) = grid[i / 9][i % 9] {
            if d < 1 || d > 9 {
                assert(cell(*grid, i as int) == Some(d));
                return false;
            }
        }
        i += 1;
    }
    true
}

/// Whether `num` may be written at `(row, col)` without repeating a digit in its
/// row, its column or its 3×3 box. Only the other cells are read: what
/// `(row, col)` holds now does not matter.
pub fn valid(grid: &Board, row: usize, col: usize, num: u8) -> (r: bool)
    requires
        row < 9,
        col < 9,
    ensures
        r == !conflicts(*grid, row as int, col as int, num),
{
    let mut x: usize = 0;
    while x < 9
        invariant
            x <= 9,
            row < 9,
            col < 9,
            forall|y: int| 0 <= y < x && y != col ==> at(*grid, row as int, y) != Some(num),
        decreases 9 - x,
    {
        if x != col && grid[row][x] == Some(num) {
            assert(at(*grid, row as int, x as int) == Some(num));
            return false;
        }
        x += 1;
    }
    let mut x: usize = 0;
    while x < 9
        invariant
            x <= 9,
            col < 9,
            forall|y: int| 0 <= y < 9 && y != col ==> at(*grid, row as int, y) != Some(num),
            forall|y: int| 0 <= y < x && y != row ==> at(*grid, y, col as int) != Some(num),
        decreases 9 - x,
    {
        if x != row && grid[x][col] == Some(num) {
            assert(at(*grid, x as int, col as int) == Some(num));
            return false;
        }
        x += 1;
    }
    let start_row = row - row % 3;
    let start_col = col - col % 3;
    let own = 3 * (row % 3) + col % 3;
    let mut x: usize = 0;
    while x < 3
        invariant
            x <= 3,
            start_row == row - row % 3,
            start_col == col - col % 3,
            row < 9,
            col < 9,
            own == box_offset(row as int, col as int),
            forall|y: int| 0 <= y < 9 && y != col ==> at(*grid, row as int, y) != Some(num),
            forall|y: int| 0 <= y < 9 && y != row ==> at(*grid, y, col as int) != Some(num),
            forall|z: int|
                0 <= z < 3 * x && z != own ==> box_cell(*grid, row as int, col as int, z) != Some(num),
        decreases 3 - x,
    {
        let mut y: usize = 0;
        while y < 3
            invariant
                x < 3,
                y <= 3,
                start_row == row - row % 3,
                start_col == col - col % 3,
                row < 9,
                col < 9,
                own == box_offset(row as int, col as int),
                forall|z: int|
                    0 <= z < 3 * x + y && z != own ==> box_cell(*grid, row as int, col as int, z)
                        != Some(num),
            decreases 3 - y,
        {
            if 3 * x + y != own && grid[x + start_row][y + start_col] == Some(num) {
                assert((3 * x + y) / 3 == x && (3 * x + y) % 3 == y);
                assert(box_cell(*grid, row as int, col as int, 3 * x + y) == Some(num));
                assert(0 <= 3 * x + y < 9);
                return false;
            }
            assert((3 * x + y) / 3 == x && (3 * x + y) % 3 == y);
            y += 1;
        }
        x += 1;
    }
    true
}

} // verus!
