use vstd::prelude::*;
use vstd::array::spec_array_update;
use crate::grid::{
    Board, at, box_cell, box_offset, cell, gap_from, lemma_gap_count, conflicts, consistent, extends, filled_before_gap, full, in_range,
    lemma_box_row, lemma_full_consistent_units, peer, unit_holds, unit_pos, valid,
};

verus! {

/// `g` with the cell at row-major position `i` replaced by `v`.
pub open spec fn place(g: Board, i: int, v: Option<u8>) -> Board {
    spec_array_update(g, i / 9, spec_array_update(g[i / 9], i % 9, v))
}

/// What the backtracking search makes of `g` when it starts at row-major
/// position `i`: the first empty cell at or after `i` takes the smallest digit
/// that repeats nothing and from which the search of the rest succeeds.
/// `None` when no digit does; `g` itself once no cell is left empty.
pub open spec fn search(g: Board, i: int) -> Option<Board>
    decreases 81 - i, 11int,
{
    if i < 0 || i >= 81 {
        Some(g)
    } else if cell(g, i) is Some {
        search(g, i + 1)
    } else {
        try_digits(g, i, 1)
    }
}

/// The search at the empty cell `i`, trying the digits from `d` to 9 in order.
pub open spec fn try_digits(g: Board, i: int, d: int) -> Option<Board>
    decreases 81 - i, 10 - d,
{
    if i < 0 || i >= 81 || d < 1 || d > 9 {
        None
    } else if !conflicts(g, i / 9, i % 9, d as u8) && search(place(g, i, Some(d as u8)), i + 1) is Some {
        search(place(g, i, Some(d as u8)), i + 1)
    } else {
        try_digits(g, i, d + 1)
    }
}

/// The progress that the search from position `i` reports last: each step
/// reports the position of the first empty cell, 81 once there is none; a step
/// that tries no digit leaves its own report last.
pub open spec fn last_report(g: Board, i: int) -> int
    decreases 81 - i, 11int,
{
    if i < 0 || i >= 81 {
        81
    } else if cell(g, i) is Some {
        last_report(g, i + 1)
    } else {
        report_digits(g, i, 1, i)
    }
}

/// The last report while the digits from `d` are tried at the empty cell `i`,
/// `last` being the report made so far.
pub open spec fn report_digits(g: Board, i: int, d: int, last: int) -> int
    decreases 81 - i, 10 - d,
{
    if i < 0 || i >= 81 || d < 1 || d > 9 {
        last
    } else if !conflicts(g, i / 9, i % 9, d as u8) {
        if search(place(g, i, Some(d as u8)), i + 1) is Some {
            last_report(place(g, i, Some(d as u8)), i + 1)
        } else {
            report_digits(g, i, d + 1, last_report(place(g, i, Some(d as u8)), i + 1))
        }
    } else {
        report_digits(g, i, d + 1, last)
    }
}

/// Reading a cell after `place`: the placed cell holds `v`, the others are as
/// they were.
pub proof fn lemma_place_cell(g: Board, i: int, v: Option<u8>, j: int)
    requires
        0 <= i < 81,
        0 <= j < 81,
    ensures
        cell(place(g, i, v), j) == if j == i {
            v
        } else {
            cell(g, j)
        },
{
    broadcast use vstd::array::group_array_axioms;
    if j != i {
        assert(j / 9 != i / 9 || j % 9 != i % 9) by {
            if j / 9 == i / 9 && j % 9 == i % 9 {
                assert(j == 9 * (j / 9) + j % 9);
                assert(i == 9 * (i / 9) + i % 9);
            }
        }
    }
}

/// Placing a value and then putting back the old one gives the board back.
pub proof fn lemma_place_undo(g: Board, i: int, v: Option<u8>)
    requires
        0 <= i < 81,
    ensures
        place(place(g, i, v), i, cell(g, i)) == g,
{
    broadcast use vstd::array::group_array_axioms;
    let h = place(place(g, i, v), i, cell(g, i));
    assert forall|r: int| 0 <= r < 9 implies h[r] == g[r] by {
        assert(h[r] =~= g[r]);
    }
    assert(h =~= g);
}

/// A digit held by a cell that shares a row, column or box with position `i`
/// conflicts with writing that digit at `i`.
pub proof fn lemma_peer_conflicts(g: Board, i: int, p: int, d: u8)
    requires
        0 <= i < 81,
        0 <= p < 81,
        peer(i, p),
        cell(g, p) == Some(d),
    ensures
        conflicts(g, i / 9, i % 9, d),
{
    let r = i / 9;
    let c = i % 9;
    if p / 9 == r {
        assert(at(g, r, p % 9) == Some(d));
    } else if p % 9 == c {
        assert(at(g, p / 9, c) == Some(d));
    } else {
        let pr = p / 9;
        let pc = p % 9;
        lemma_box_row(i);
        lemma_box_row(p);
        assert(r / 3 == pr / 3);
        assert(c / 3 == pc / 3);
        let x = 3 * (pr % 3) + pc % 3;
        assert(x / 3 == pr % 3 && x % 3 == pc % 3);
        assert(r - r % 3 + pr % 3 == pr);
        assert(c - c % 3 + pc % 3 == pc);
        assert(box_cell(g, r, c, x) == Some(d));
    }
}

/// Writing at an empty cell a digit from 1 to 9 that conflicts with nothing
/// keeps a consistent board consistent.
pub proof fn lemma_place_consistent(g: Board, i: int, d: u8)
    requires
        consistent(g),
        0 <= i < 81,
        cell(g, i) is None,
        1 <= d <= 9,
        !conflicts(g, i / 9, i % 9, d),
    ensures
        consistent(place(g, i, Some(d))),
        extends(g, place(g, i, Some(d))),
{
    let h = place(g, i, Some(d));
    assert forall|j: int| 0 <= j < 81 implies cell(h, j) == if j == i {
        Some(d)
    } else {
        cell(g, j)
    } by {
        lemma_place_cell(g, i, Some(d), j);
    }
    assert(in_range(h));
    assert forall|a: int, b: int|
        0 <= a < 81 && 0 <= b < 81 && peer(a, b) && (#[trigger] cell(h, a)) is Some implies #[trigger] cell(
            h,
            b,
        ) != cell(h, a) by {
        if a == i && cell(g, b) == Some(d) {
            lemma_peer_conflicts(g, i, b, d);
        }
        if b == i && cell(g, a) == Some(d) {
            assert(peer(b, a));
            lemma_peer_conflicts(g, i, a, d);
        }
    }
}

/// A conflict at position `i` comes from a cell that shares a row, column or
/// box with it and holds the digit.
pub proof fn lemma_conflict_has_source(g: Board, i: int, d: u8)
    requires
        0 <= i < 81,
        conflicts(g, i / 9, i % 9, d),
    ensures
        exists|p: int| 0 <= p < 81 && peer(i, p) && #[trigger] cell(g, p) == Some(d),
{
    let r = i / 9;
    let c = i % 9;
    let x = choose|x: int|
        0 <= x < 9 && ((x != c && at(g, r, x) == Some(d)) || (x != r && at(g, x, c) == Some(d)) || (x
            != box_offset(r, c) && box_cell(g, r, c, x) == Some(d)));
    lemma_box_row(i);
    assert(i == 9 * r + c);
    if x != c && at(g, r, x) == Some(d) {
        let p = 9 * r + x;
        assert(p / 9 == r && p % 9 == x);
        assert(peer(i, p));
        assert(cell(g, p) == Some(d));
    } else if x != r && at(g, x, c) == Some(d) {
        let p = 9 * x + c;
        assert(p / 9 == x && p % 9 == c);
        assert(peer(i, p));
        assert(cell(g, p) == Some(d));
    } else {
        assert(x == 3 * (x / 3) + x % 3);
        let pr = r - r % 3 + x / 3;
        let pc = c - c % 3 + x % 3;
        let p = 9 * pr + pc;
        assert(0 <= pr < 9 && 0 <= pc < 9);
        assert(p / 9 == pr && p % 9 == pc);
        lemma_box_row(p);
        assert(pr / 3 == r / 3);
        assert(pc / 3 == c / 3);
        assert(p != i);
        assert(peer(i, p));
        assert(cell(g, p) == Some(d));
    }
}

/// A full consistent board that keeps the digits of `g` is no place for a
/// conflict at a cell that `g` leaves empty, with the digit that board holds
/// there.
proof fn lemma_completion_fits(g: Board, s: Board, i: int)
    requires
        0 <= i < 81,
        cell(g, i) is None,
        full(s),
        consistent(s),
        extends(g, s),
    ensures
        !conflicts(g, i / 9, i % 9, cell(s, i)->0),
{
    let e = cell(s, i)->0;
    if conflicts(g, i / 9, i % 9, e) {
        lemma_conflict_has_source(g, i, e);
        let p = choose|p: int| 0 <= p < 81 && peer(i, p) && #[trigger] cell(g, p) == Some(e);
        assert(cell(s, p) == Some(e));
        assert(cell(s, i) is Some);
    }
}

/// Where a consistent board has a full consistent completion, the search from
/// position `i`, all of whose earlier cells are filled, finds one.
proof fn lemma_search_complete(g: Board, i: int, s: Board)
    requires
        consistent(g),
        0 <= i <= 81,
        forall|j: int| 0 <= j < i ==> (#[trigger] cell(g, j)) is Some,
        full(s),
        consistent(s),
        extends(g, s),
    ensures
        search(g, i) is Some,
    decreases 81 - i, 11int,
{
    if i < 81 {
        if cell(g, i) is Some {
            lemma_search_complete(g, i + 1, s);
        } else {
            assert(cell(s, i) is Some);
            lemma_try_complete(g, i, 1, s);
        }
    }
}

/// The part of `lemma_search_complete` that tries the digits from `d` up to
/// the one that the completion holds at the empty cell `i`.
proof fn lemma_try_complete(g: Board, i: int, d: int, s: Board)
    requires
        consistent(g),
        0 <= i < 81,
        cell(g, i) is None,
        forall|j: int| 0 <= j < i ==> (#[trigger] cell(g, j)) is Some,
        full(s),
        consistent(s),
        extends(g, s),
        1 <= d <= cell(s, i)->0,
    ensures
        try_digits(g, i, d) is Some,
    decreases 81 - i, 10 - d,
{
    let e = cell(s, i)->0;
    assert(cell(s, i) is Some);
    assert(1 <= e <= 9);
    let h = place(g, i, Some(d as u8));
    if !conflicts(g, i / 9, i % 9, d as u8) && search(h, i + 1) is Some {
    } else if d < e {
        lemma_try_complete(g, i, d + 1, s);
    } else {
        lemma_completion_fits(g, s, i);
        lemma_place_consistent(g, i, d as u8);
        assert forall|j: int| 0 <= j < 81 implies cell(h, j) == if j == i {
            Some(d as u8)
        } else {
            cell(g, j)
        } by {
            lemma_place_cell(g, i, Some(d as u8), j);
        }
        assert(extends(h, s));
        lemma_search_complete(h, i + 1, s);
    }
}

/// What the search returns from position `i` of a board, all of whose cells
/// before `i` are filled, is a full board that keeps the digits of the first,
/// and a consistent one where the first is consistent.
pub proof fn lemma_search_sound(g: Board, i: int)
    requires
        0 <= i <= 81,
        forall|j: int| 0 <= j < i ==> (#[trigger] cell(g, j)) is Some,
    ensures
        search(g, i) matches Some(s) ==> full(s) && extends(g, s) && (consistent(g) ==> consistent(s)),
    decreases 81 - i, 11int,
{
    if i < 81 {
        if cell(g, i) is Some {
            lemma_search_sound(g, i + 1);
        } else {
            lemma_try_sound(g, i, 1);
        }
    }
}

/// The part of `lemma_search_sound` that tries the digits from `d` at the empty
/// cell `i`.
pub proof fn lemma_try_sound(g: Board, i: int, d: int)
    requires
        0 <= i < 81,
        cell(g, i) is None,
        forall|j: int| 0 <= j < i ==> (#[trigger] cell(g, j)) is Some,
    ensures
        try_digits(g, i, d) matches Some(s) ==> full(s) && extends(g, s) && (consistent(g)
            ==> consistent(s)),
    decreases 81 - i, 10 - d,
{
    if 1 <= d <= 9 {
        let h = place(g, i, Some(d as u8));
        if !conflicts(g, i / 9, i % 9, d as u8) && search(h, i + 1) is Some {
            if consistent(g) {
                lemma_place_consistent(g, i, d as u8);
            }
            assert forall|j: int| 0 <= j < 81 implies cell(h, j) == if j == i {
                Some(d as u8)
            } else {
                cell(g, j)
            } by {
                lemma_place_cell(g, i, Some(d as u8), j);
            }
            assert(extends(g, h));
            lemma_search_sound(h, i + 1);
        } else {
            lemma_try_sound(g, i, d + 1);
        }
    }
}

/// Writes `v` into the cell at `(row, col)`.
fn write_cell(grid: &mut Board, row: usize, col: usize, v: Option<u8>)
    requires
        row < 9,
        col < 9,
    ensures
        *final(grid) == place(*old(grid), row * 9 + col, v),
{
    assert((row * 9 + col) / 9 == row && (row * 9 + col) % 9 == col);
    let mut line = grid[row];
    line[col] = v;
    grid[row] = line;
    assert(*grid =~= place(*old(grid), row * 9 + col, v));
}

/// Skipping filled cells changes neither the search nor its last report.
proof fn lemma_search_skips(g: Board, i: int, k: int)
    requires
        0 <= i <= k <= 81,
        forall|j: int| i <= j < k ==> (#[trigger] cell(g, j)) is Some,
    ensures
        search(g, i) == search(g, k),
        last_report(g, i) == last_report(g, k),
    decreases k - i,
{
    if i < k {
        lemma_search_skips(g, i + 1, k);
    }
}

/// Where the last report of the search lies: from the first empty cell at or
/// after `i` up to 81.
pub proof fn lemma_report_bounds(g: Board, i: int)
    requires
        0 <= i <= 81,
    ensures
        gap_from(g, i) <= last_report(g, i) <= 81,
    decreases 81 - i, 11int,
{
    if i < 81 {
        if cell(g, i) is Some {
            lemma_report_bounds(g, i + 1);
        } else {
            lemma_report_digits_bounds(g, i, 1, i);
        }
    }
}

/// The part of `lemma_report_bounds` that tries the digits from `d` at the
/// empty cell `i`, with `last` reported so far.
proof fn lemma_report_digits_bounds(g: Board, i: int, d: int, last: int)
    requires
        0 <= i < 81,
        i <= last <= 81,
    ensures
        i <= report_digits(g, i, d, last) <= 81,
    decreases 81 - i, 10 - d,
{
    if 1 <= d <= 9 {
        let h = place(g, i, Some(d as u8));
        if !conflicts(g, i / 9, i % 9, d as u8) {
            lemma_report_bounds(h, i + 1);
            lemma_gap_count(h, i + 1);
            lemma_report_digits_bounds(g, i, d + 1, last_report(h, i + 1));
        } else {
            lemma_report_digits_bounds(g, i, d + 1, last);
        }
    }
}

/// The search of a board every cell of which before `start` is filled.
/// Each call sets `progress` to the number of filled cells that precede the
/// first empty one; what it holds at the end is `last_report`.
fn solve_from(grid: &mut Board, Ghost(start): Ghost<int>, progress: &mut u8) -> (solved: bool)
    requires
        0 <= start <= 81,
        forall|j: int| 0 <= j < start ==> cell(*old(grid), j) is Some,
    ensures
        search(*old(grid), start) == (if solved {
            Some(*final(grid))
        } else {
            None
        }),
        !solved ==> *final(grid) == *old(grid),
        (forall|j: int| start <= j < 81 ==> (#[trigger] cell(*old(grid), j)) is Some) ==> solved
            && *final(grid) == *old(grid),
        *final(progress) == last_report(*old(grid), start),
        solved ==> *final(progress) == 81,
    decreases 81 - start,
{
    let filled = filled_before_gap(grid);
    *progress = filled;
    let k = filled as usize;
    proof {
        if k < start {
            assert(cell(*grid, k as int) is Some);
        }
        lemma_search_skips(*grid, start, k as int);
    }
    if k == 81 {
        return true;
    }
    assert(cell(*grid, k as int) is None);
    let row = k / 9;
    let col = k % 9;
    assert(row * 9 + col == k);
    let ghost g0 = *grid;
    let mut num: u8 = 1;
    while num <= 9
        invariant
            1 <= num <= 10,
            start <= k < 81,
            row == k / 9,
            col == k % 9,
            row * 9 + col == k,
            *grid == g0,
            g0 == *old(grid),
            cell(g0, k as int) is None,
            forall|j: int| 0 <= j < k ==> cell(g0, j) is Some,
            search(g0, start) == try_digits(g0, k as int, num as int),
            last_report(g0, start) == report_digits(g0, k as int, num as int, *progress as int),
        decreases 10 - num,
    {
        if valid(grid, row, col, num) {
            write_cell(grid, row, col, Some(num));
            let ghost g1 = *grid;
            assert forall|j: int| 0 <= j < k + 1 implies cell(g1, j) is Some by {
                lemma_place_cell(g0, k as int, Some(num), j);
            }
            if solve_from(grid, Ghost(k + 1), progress) {
                return true;
            }
            write_cell(grid, row, col, None);
            proof {
                lemma_place_undo(g0, k as int, Some(num));
            }
        }
        num += 1;
    }
    false
}

/// Fills the empty cells of `grid` by backtracking: the first empty cell in
/// row-major order takes each digit from 1 to 9 in turn that repeats no digit
/// of its row, column or box, and the search goes on from there. Returns
/// whether the board was completed; when it was not, the board is left as it
/// came; when it was, the board is full and keeps every digit it was given. On
/// a consistent board the search succeeds exactly when the board has a
/// consistent completion, and what it returns is one. `progress` gets, at each
/// step, `filled_before_gap` of the board as it then stands (a share of 81);
/// it ends with the last such report.
pub fn solve_sudoku(grid: &mut Board, progress: &mut u8) -> (solved: bool)
    ensures
        search(*old(grid), 0) == (if solved {
            Some(*final(grid))
        } else {
            None
        }),
        !solved ==> *final(grid) == *old(grid),
        full(*old(grid)) ==> solved && *final(grid) == *old(grid),
        solved ==> full(*final(grid)) && extends(*old(grid), *final(grid)),
        consistent(*old(grid)) && solved ==> consistent(*final(grid)),
        consistent(*old(grid)) && !solved ==> forall|s: Board|
            #![trigger extends(*old(grid), s)]
            !(full(s) && consistent(s) && extends(*old(grid), s)),
        *final(progress) == last_report(*old(grid), 0),
        gap_from(*old(grid), 0) <= *final(progress) <= 81,
        solved ==> *final(progress) == 81,
{
    let ghost g = *grid;
    let solved = solve_from(grid, Ghost(0), progress);
    proof {
        lemma_search_sound(g, 0);
        lemma_report_bounds(g, 0);
        if consistent(g) {
            assert forall|s: Board| #![trigger extends(g, s)] !(full(s) && consistent(s) && extends(g, s)) || solved by {
                if full(s) && consistent(s) && extends(g, s) {
                    lemma_search_complete(g, 0, s);
                }
            }
        }
    }
    solved
}

} // verus!

verus! {

/// Whenever the search succeeds on a consistent board, the board it returns
/// is full, keeps every given digit in place, and holds in each row, column
/// and box each digit from 1 to 9 exactly once.
pub proof fn lemma_solution_is_valid(g: Board)
    requires
        consistent(g),
        search(g, 0) is Some,
    ensures
        full(search(g, 0)->0),
        consistent(search(g, 0)->0),
        extends(g, search(g, 0)->0),
        forall|u: int, d: u8|
            0 <= u < 27 && 1 <= d <= 9 ==> #[trigger] unit_holds(search(g, 0)->0, u, d),
        forall|u: int, x: int, y: int|
            0 <= u < 27 && 0 <= x < 9 && 0 <= y < 9 && x != y ==> #[trigger] cell(
                search(g, 0)->0,
                unit_pos(u, x),
            ) != #[trigger] cell(search(g, 0)->0, unit_pos(u, y)),
{
    lemma_search_sound(g, 0);
    lemma_full_consistent_units(search(g, 0)->0);
}

/// The search misses no solution: where a consistent board can be completed
/// to a full consistent board that keeps its digits, the search succeeds.
pub proof fn lemma_solution_is_found(g: Board, s: Board)
    requires
        consistent(g),
        full(s),
        consistent(s),
        extends(g, s),
    ensures
        search(g, 0) is Some,
{
    lemma_search_complete(g, 0, s);
}

/// A board with no empty cell is its own solution.
pub proof fn lemma_full_board_is_fixed(g: Board)
    requires
        full(g),
    ensures
        search(g, 0) == Some(g),
{
    lemma_search_skips_filled(g, 0);
}

/// Over filled cells the search moves on without change.
proof fn lemma_search_skips_filled(g: Board, i: int)
    requires
        0 <= i <= 81,
        forall|j: int| i <= j < 81 ==> (#[trigger] cell(g, j)) is Some,
    ensures
        search(g, i) == Some(g),
    decreases 81 - i,
{
    if i < 81 {
        lemma_search_skips_filled(g, i + 1);
    }
}

/// The search depends on the board alone: equal boards give equal outcomes.
pub proof fn lemma_search_deterministic(g1: Board, g2: Board)
    requires
        g1 == g2,
    ensures
        search(g1, 0) == search(g2, 0),
        last_report(g1, 0) == last_report(g2, 0),
{
}

} // verus!
