//! Reading a square grid of any side from one to nine.

use crate::board::Cells;
use crate::text::{cells_of, chars_of, read_all, read_tokens, Token};
use vstd::prelude::*;

verus! {

/// The side of a square grid of `len` cells, for the sides from one to nine.
pub open spec fn side_of(len: nat) -> Option<usize> {
    if len == 1 {
        Some(1)
    } else if len == 4 {
        Some(2)
    } else if len == 9 {
        Some(3)
    } else if len == 16 {
        Some(4)
    } else if len == 25 {
        Some(5)
    } else if len == 36 {
        Some(6)
    } else if len == 49 {
        Some(7)
    } else if len == 64 {
        Some(8)
    } else if len == 81 {
        Some(9)
    } else {
        None
    }
}

/// The cells of a grid's text: the text is cut at the commas, and a token
/// gives its value where it is a number that fits in a machine word, and an
/// empty cell otherwise.
pub open spec fn grid_cells(text: Seq<char>) -> Cells {
    cells_of(read_all(text))
}

/// Whether some cell holds a value above `max_symbol`.
pub open spec fn has_symbol_above(cells: Cells, max_symbol: usize) -> bool {
    exists|i: int|
        0 <= i < cells.len() && match #[trigger] cells[i] {
            Some(value) => value > max_symbol,
            None => false,
        }
}

/// The message for a text whose number of tokens is not a square of a side
/// from one to nine.
pub open spec fn size_error() -> Seq<char> {
    "Game board must be a square of max size 9"@
}

/// The message for a text that holds a number above the grid's side.
pub open spec fn symbol_error() -> Seq<char> {
    "Board contains a symbol that is too large"@
}

/// `side_of` gives the side of a square: the number from one to nine whose
/// square is `len`, where there is one.
pub proof fn lemma_side_of(len: nat, side: usize)
    ensures
        side_of(len) == Some(side) <==> 1 <= side <= 9 && side * side == len,
{
    let s = side as int;
    assert(s == 1 ==> s * s == 1) by (nonlinear_arith);
    assert(s == 2 ==> s * s == 4) by (nonlinear_arith);
    assert(s == 3 ==> s * s == 9) by (nonlinear_arith);
    assert(s == 4 ==> s * s == 16) by (nonlinear_arith);
    assert(s == 5 ==> s * s == 25) by (nonlinear_arith);
    assert(s == 6 ==> s * s == 36) by (nonlinear_arith);
    assert(s == 7 ==> s * s == 49) by (nonlinear_arith);
    assert(s == 8 ==> s * s == 64) by (nonlinear_arith);
    assert(s == 9 ==> s * s == 81) by (nonlinear_arith);
}

/// The two messages differ, so a caller can tell the two failures apart.
pub proof fn lemma_errors_differ()
    ensures
        size_error() != symbol_error(),
{
    reveal_strlit("Game board must be a square of max size 9");
    reveal_strlit("Board contains a symbol that is too large");
    assert(size_error()[0] != symbol_error()[0]);
}

/// The side of a square grid of `len` cells, for the sides from one to nine.
fn board_side(len: usize) -> (side: Option<usize>)
    ensures
        side == side_of(len as nat),
{
    if len == 1 {
        Some(1)
    } else if len == 4 {
        Some(2)
    } else if len == 9 {
        Some(3)
    } else if len == 16 {
        Some(4)
    } else if len == 25 {
        Some(5)
    } else if len == 36 {
        Some(6)
    } else if len == 49 {
        Some(7)
    } else if len == 64 {
        Some(8)
    } else if len == 81 {
        Some(9)
    } else {
        None
    }
}

/// Reads a square grid from text: tokens separated by commas, each a number
/// or, where it is not a number, an empty cell. White space is not dropped:
/// a token that holds any is not a number. A number that does not fit in a
/// machine word gives an empty cell too.
///
/// The text is refused with `size_error` when the number of its tokens is
/// not the square of a side from one to nine, and otherwise with
/// `symbol_error` when one of its numbers is above the side. Otherwise the
/// cells are returned with the side.
pub fn parse(input: &str) -> (result: Result<(Vec<Option<usize>>, usize), &str>)
    ensures
        match side_of(grid_cells(input@).len()) {
            None => result matches Err(message) && message@ == size_error(),
            Some(side) => if has_symbol_above(grid_cells(input@), side) {
                result matches Err(message) && message@ == symbol_error()
            } else {
                result matches Ok(grid) && grid.0@ == grid_cells(input@) && grid.1 == side
            },
        },
{
    let chars = chars_of(input);
    let tokens = read_tokens(&chars);

    let max_symbol = match board_side(tokens.len()) {
        Some(side) => side,
        None => {
            return Err("Game board must be a square of max size 9");
        },
    };
    let mut game_board: Vec<Option<usize>> = Vec::new();
    let mut idx: usize = 0;
    while idx < tokens.len()
        invariant
            idx <= tokens.len(),
            tokens@ == read_all(input@),
            side_of(tokens@.len()) == Some(max_symbol),
            game_board@.len() == idx,
            forall|k: int|
                0 <= k < idx ==> game_board@[k] == grid_cells(input@)[k]
                    && match #[trigger] game_board@[k] {
                    Some(value) => value <= max_symbol,
                    None => true,
                },
        decreases tokens.len() - idx,
    {
        match tokens[idx] {
            Token::Number(value) => {
                if value > max_symbol {
                    assert(grid_cells(input@)[idx as int] == Some(value));
                    return Err("Board contains a symbol that is too large");
                }
                game_board.push(Some(value));
            },
            _ => {
                game_board.push(None);
            },
        }
        idx += 1;
    }
    Ok((game_board, max_symbol))
}

} // verus!
