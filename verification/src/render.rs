//! The text that shows a board: nine lines of nine numbers, separated by
//! commas. An empty cell is shown as `0`.

use crate::board::{Board, Cells};
use crate::text::join;
use vstd::prelude::*;
use vstd::string::*;

verus! {

/// The character that writes the digit `d`.
pub open spec fn digit_char(d: nat) -> char
    recommends
        d < 10,
{
    if d == 0 {
        '0'
    } else if d == 1 {
        '1'
    } else if d == 2 {
        '2'
    } else if d == 3 {
        '3'
    } else if d == 4 {
        '4'
    } else if d == 5 {
        '5'
    } else if d == 6 {
        '6'
    } else if d == 7 {
        '7'
    } else if d == 8 {
        '8'
    } else {
        '9'
    }
}

/// The number `n` written in base ten, without leading zeros.
pub open spec fn decimal_text(n: nat) -> Seq<char>
    decreases n,
{
    if n < 10 {
        seq![digit_char(n)]
    } else {
        decimal_text(n / 10).push(digit_char(n % 10))
    }
}

/// The text of one cell: its value, or `0` for an empty cell.
pub open spec fn cell_text(cell: Option<usize>) -> Seq<char> {
    match cell {
        Some(value) => decimal_text(value as nat),
        None => decimal_text(0),
    }
}

/// The texts of the first `upto` cells of row `row`.
pub open spec fn row_texts(cells: Cells, row: int, upto: nat) -> Seq<Seq<char>> {
    Seq::new(upto, |k: int| cell_text(cells[9 * row + k]))
}

/// The line that shows row `row`: the texts of its nine cells with commas
/// between them.
pub open spec fn line_text(cells: Cells, row: int) -> Seq<char> {
    join(row_texts(cells, row, 9), ',')
}

/// The lines of the first `rows` rows, each closed by a line feed.
pub open spec fn lines_text(cells: Cells, rows: nat) -> Seq<char>
    decreases rows,
{
    if rows == 0 {
        Seq::<char>::empty()
    } else {
        lines_text(cells, (rows - 1) as nat) + line_text(cells, rows - 1).push('\n')
    }
}

/// The text that shows a board: its nine rows from the top, one line each.
pub open spec fn board_text(cells: Cells) -> Seq<char> {
    lines_text(cells, 9)
}

/// The text of the digit `d`.
fn digit_text(d: usize) -> (text: &'static str)
    requires
        d < 10,
    ensures
        text@ == seq![digit_char(d as nat)],
{
    proof {
        reveal_strlit("0");
        reveal_strlit("1");
        reveal_strlit("2");
        reveal_strlit("3");
        reveal_strlit("4");
        reveal_strlit("5");
        reveal_strlit("6");
        reveal_strlit("7");
        reveal_strlit("8");
        reveal_strlit("9");
    }
    if d == 0 {
        "0"
    } else if d == 1 {
        "1"
    } else if d == 2 {
        "2"
    } else if d == 3 {
        "3"
    } else if d == 4 {
        "4"
    } else if d == 5 {
        "5"
    } else if d == 6 {
        "6"
    } else if d == 7 {
        "7"
    } else if d == 8 {
        "8"
    } else {
        "9"
    }
}

/// Writes `n` in base ten at the end of `text`.
fn push_decimal(text: &mut String, n: usize)
    ensures
        final(text)@ == old(text)@ + decimal_text(n as nat),
    decreases n,
{
    if n >= 10 {
        push_decimal(text, n / 10);
    }
    text.append(digit_text(n % 10));
}

/// The text that shows `board`: nine lines, one for each row from the top,
/// each holding the row's nine values separated by commas and closed by a
/// line feed. An empty cell is shown as `0`.
pub fn render(board: &Board) -> (text: String)
    ensures
        text@ == board_text(board@),
{
    let mut text = String::new();
    let mut row: usize = 0;
    while row < 9
        invariant
            row <= 9,
            text@ == lines_text(board@, row as nat),
        decreases 9 - row,
    {
        let ghost above = text@;
        let mut col: usize = 0;
        while col < 9
            invariant
                row < 9,
                col <= 9,
                text@ == above + join(row_texts(board@, row as int, col as nat), ','),
            decreases 9 - col,
        {
            let ghost before = row_texts(board@, row as int, col as nat);
            let ghost after = row_texts(board@, row as int, (col + 1) as nat);
            if col > 0 {
                text.append(",");
            }
            let value = match board[row * 9 + col] {
                Some(value) => value,
                None => 0,
            };
            push_decimal(&mut text, value);
            proof {
                reveal_strlit(",");
                assert(after.drop_last() =~= before);
            }
            col += 1;
        }
        text.append("\n");
        proof {
            reveal_strlit("\n");
        }
        row += 1;
    }
    text
}

} // verus!
