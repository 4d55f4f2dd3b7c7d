use vstd::prelude::*;
use vstd::string::StrSliceExecFns;
use crate::grid::{Board, cell};

verus! {

/// Whether `c` is one of the decimal digits `0` to `9`.
pub open spec fn is_digit(c: char) -> bool {
    '0' <= c && c <= '9'
}

/// The cell that a digit character stands for: `0` is an empty cell.
pub open spec fn digit_cell(c: char) -> Option<u8> {
    if c == '0' {
        None
    } else {
        Some((c as u32 - '0' as u32) as u8)
    }
}

/// Whether `s` is a puzzle written as 81 digits, row by row.
pub open spec fn is_puzzle_text(s: Seq<char>) -> bool {
    s.len() == 81 && forall|i: int| 0 <= i < 81 ==> is_digit(#[trigger] s[i])
}

/// Reads a puzzle written as 81 decimal digits in row-major order, `0` standing
/// for an empty cell. `None` when the text has another length or holds a
/// character that is not a digit.
pub fn board_from_digits(s: &str) -> (r: Option<Board>)
    ensures
        r is Some <==> is_puzzle_text(s@),
        r matches Some(b) ==> forall|i: int| 0 <= i < 81 ==> cell(b, i) == digit_cell(#[trigger] s@[i]),
{
    let n = s.unicode_len();
    if n != 81 {
        return None;
    }
    let mut board: Board = [[None; 9]; 9];
    let mut i: usize = 0;
    while i < 81
        invariant
            i <= 81,
            s@.len() == 81,
            forall|j: int| 0 <= j < i ==> is_digit(#[trigger] s@[j]),
            forall|j: int| 0 <= j < i ==> cell(board, j) == digit_cell(#[trigger] s@[j]),
        decreases 81 - i,
    {
        let c = s.get_char(i);
        if c < '0' || c > '9' {
            return None;
        }
        let v: Option<u8> = if c == '0' {
            None
        } else {
            Some((c as u32 - '0' as u32) as u8)
        };
        let row = i / 9;
        let col = i % 9;
        let ghost before = board;
        let mut line = board[row];
        line[col] = v;
        board[row] = line;
        proof {
            assert forall|j: int| 0 <= j <= i implies cell(board, j) == digit_cell(#[trigger] s@[j]) by {
                if j < i {
                    assert(j / 9 != row || j % 9 != col) by {
                        if j / 9 == row && j % 9 == col {
                            assert(j == 9 * (j / 9) + j % 9);
                            assert(i == 9 * row + col);
                        }
                    }
                    assert(cell(board, j) == cell(before, j));
                }
            }
        }
        i += 1;
    }
    Some(board)
}

} // verus!
