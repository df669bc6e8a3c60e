//! The solver: reading a board from text, deriving boards, finding the
//! candidates of a cell, and the backtracking search.

pub use crate::board::Board;
use crate::board::{
    col_of, count_empty, empty_cells, is_consistent, is_empty_at, is_empty_cell, is_full,
    is_solved, is_symbol, lemma_count_empty_zero, lemma_empty_cells, lemma_fill_decreases,
    share_unit, spec_box_of, spec_col_of, spec_row_of, well_formed, with_cell, Cells,
};
use crate::constraints::{
    candidates, excluded, is_allowed, is_options_list, lemma_candidates, lemma_insert_listed,
    listed_cells, symbols,
};
use crate::search::{
    extends, is_completion, lemma_first_listed, lemma_most_constrained_exists,
    lemma_most_constrained_unique, lemma_search_meaning, most_constrained, search, try_values,
};
use crate::sequences::{indices, is_ascending};
use crate::text::{cells_of, read_all, read_tokens, strip_whitespace, without_whitespace, Token};
use vstd::prelude::*;

verus! {

/// The tokens of a board's text: white space is dropped, and the rest is
/// cut at the commas.
pub open spec fn board_tokens(text: Seq<char>) -> Seq<Token> {
    read_all(without_whitespace(text))
}

/// Whether a token may stand on a board: it is blank or a symbol from 1
/// to 9.
pub open spec fn is_valid_token(token: Token) -> bool {
    match token {
        Token::Blank => true,
        Token::Number(value) => is_symbol(value),
        Token::Overlong => false,
    }
}

/// Whether every token may stand on a board.
pub open spec fn all_valid(tokens: Seq<Token>) -> bool {
    forall|k: int| 0 <= k < tokens.len() ==> is_valid_token(#[trigger] tokens[k])
}

/// Whether a token is a number above nine.
pub open spec fn is_above_nine(token: Token) -> bool {
    match token {
        Token::Blank => false,
        Token::Number(value) => value > 9,
        Token::Overlong => true,
    }
}

/// Where no token is the number zero, some token may not stand on a board
/// exactly when some token is a number above nine.
pub proof fn lemma_invalid_without_zero(tokens: Seq<Token>)
    requires
        forall|k: int| 0 <= k < tokens.len() ==> #[trigger] tokens[k] != Token::Number(0),
    ensures
        !all_valid(tokens) <==> exists|k: int|
            0 <= k < tokens.len() && is_above_nine(#[trigger] tokens[k]),
{
    if !all_valid(tokens) {
        let k = choose|k: int| 0 <= k < tokens.len() && !is_valid_token(#[trigger] tokens[k]);
        assert(is_above_nine(tokens[k]));
    }
}

/// The message for a text that does not have eighty-one tokens.
pub open spec fn length_error() -> Seq<char> {
    "Board must be 81 symbols in length"@
}

/// The message for a text in which a number is not a symbol from 1 to 9.
pub open spec fn symbol_error() -> Seq<char> {
    "Board may only contain symbols 1 to 9 or blank squares"@
}

/// The two messages differ, so a caller can tell the two failures apart.
pub proof fn lemma_errors_differ()
    ensures
        length_error() != symbol_error(),
{
    reveal_strlit("Board must be 81 symbols in length");
    reveal_strlit("Board may only contain symbols 1 to 9 or blank squares");
    assert(length_error().len() != symbol_error().len());
}

/// Reads a board from text: eighty-one tokens separated by commas, white
/// space ignored, each token blank or a symbol from 1 to 9.
///
/// A token that is not a number stands for an empty cell. The text is
/// refused with `length_error` when it does not have exactly eighty-one
/// tokens, and otherwise with `symbol_error` when one of its numbers is not
/// a symbol from 1 to 9. Every board that is returned is well formed.
pub fn parse(input: &str) -> (result: Result<Board, &str>)
    ensures
        match result {
            Ok(board) => {
                &&& board_tokens(input@).len() == 81
                &&& all_valid(board_tokens(input@))
                &&& board@ == cells_of(board_tokens(input@))
                &&& well_formed(board@)
            },
            Err(message) => if board_tokens(input@).len() != 81 {
                message@ == length_error()
            } else {
                !all_valid(board_tokens(input@)) && message@ == symbol_error()
            },
        },
{
    let chars = strip_whitespace(input);
    let tokens = read_tokens(&chars);

    if tokens.len() != 81 {
        return Err("Board must be 81 symbols in length");
    }
    let mut board: Board = [None; 81];
    let mut idx: usize = 0;
    while idx < 81
        invariant
            idx <= 81,
            tokens@ == board_tokens(input@),
            tokens@.len() == 81,
            forall|k: int|
                0 <= k < idx ==> is_valid_token(#[trigger] tokens@[k]) && board@[k] == cells_of(
                    tokens@,
                )[k],
            forall|k: int| idx <= k < 81 ==> board@[k] is None,
        decreases 81 - idx,
    {
        match tokens[idx] {
            Token::Blank => {},
            Token::Number(value) => {
                if value < 1 || value > 9 {
                    return Err("Board may only contain symbols 1 to 9 or blank squares");
                }
                board[idx] = Some(value);
            },
            Token::Overlong => {
                return Err("Board may only contain symbols 1 to 9 or blank squares");
            },
        }
        idx += 1;
    }
    assert(board@ =~= cells_of(tokens@));
    Ok(board)
}

/// Returns a new board that differs from `board` in cell `cell` only, which
/// holds `new_val`. The board passed in is not touched. A `cell` outside the
/// board gives a plain copy.
pub fn change_board(board: &Board, cell: usize, new_val: usize) -> (out: Board)
    ensures
        out@ == with_cell(board@, cell as int, new_val),
        well_formed(board@) && is_symbol(new_val) ==> well_formed(out@),
{
    let mut out: Board = *board;
    if cell < 81 {
        out[cell] = Some(new_val);
    }
    out
}

/// Whether cell `j` lies in the part of the units of `idx` that a scan has
/// covered: the first `in_column` cells of its column, the first `in_row`
/// cells of its row and the first `in_box` cells of its box.
spec fn scanned(idx: int, j: int, in_column: int, in_row: int, in_box: int) -> bool {
    ||| spec_col_of(j) == spec_col_of(idx) && spec_row_of(j) < in_column
    ||| spec_row_of(j) == spec_row_of(idx) && spec_col_of(j) < in_row
    ||| spec_box_of(j) == spec_box_of(idx) && (spec_row_of(j) % 3) * 3 + spec_col_of(j) % 3
        < in_box
}

/// The `k`-th cell of the column of `idx`, from the top.
spec fn column_cell(idx: int, k: int) -> int {
    spec_col_of(idx) + 9 * k
}

/// The `k`-th cell of the row of `idx`, from the left.
spec fn row_cell(idx: int, k: int) -> int {
    idx - spec_col_of(idx) + k
}

/// The `k`-th cell of the box of `idx`, row by row.
spec fn box_cell(idx: int, k: int) -> int {
    idx - idx % 27 + (spec_col_of(idx) - spec_col_of(idx) % 3) + 9 * (k / 3) + k % 3
}

/// Scanning one more cell of the column covers exactly that cell in
/// addition.
proof fn lemma_column_step(idx: int, k: int)
    requires
        0 <= idx < 81,
        0 <= k < 9,
    ensures
        0 <= column_cell(idx, k) < 81,
        forall|w: int|
            0 <= w < 81 ==> (#[trigger] scanned(idx, w, k + 1, 0, 0) <==> scanned(idx, w, k, 0, 0)
                || w == column_cell(idx, k)),
{
}

/// Scanning one more cell of the row covers exactly that cell in addition.
proof fn lemma_row_step(idx: int, k: int)
    requires
        0 <= idx < 81,
        0 <= k < 9,
    ensures
        0 <= row_cell(idx, k) < 81,
        forall|w: int|
            0 <= w < 81 ==> (#[trigger] scanned(idx, w, 9, k + 1, 0) <==> scanned(idx, w, 9, k, 0)
                || w == row_cell(idx, k)),
{
}

/// Where the `k`-th cell of the box of `idx` lies.
proof fn lemma_box_cell(idx: int, k: int)
    requires
        0 <= idx < 81,
        0 <= k < 9,
    ensures
        0 <= box_cell(idx, k) < 81,
        spec_row_of(box_cell(idx, k)) == 3 * (spec_row_of(idx) / 3) + k / 3,
        spec_col_of(box_cell(idx, k)) == 3 * (spec_col_of(idx) / 3) + k % 3,
{
    let row = idx / 9;
    let column = idx % 9;
    assert(idx % 27 == 9 * (row % 3) + column);
    assert(box_cell(idx, k) == 9 * (3 * (row / 3) + k / 3) + (3 * (column / 3) + k % 3));
}

/// Scanning one more cell of the box covers exactly that cell in addition.
proof fn lemma_box_step(idx: int, k: int)
    requires
        0 <= idx < 81,
        0 <= k < 9,
    ensures
        0 <= box_cell(idx, k) < 81,
        forall|w: int|
            0 <= w < 81 ==> (#[trigger] scanned(idx, w, 9, 9, k + 1) <==> scanned(idx, w, 9, 9, k)
                || w == box_cell(idx, k)),
{
    lemma_box_cell(idx, k);
    let j = box_cell(idx, k);
    assert forall|w: int| 0 <= w < 81 implies (#[trigger] scanned(idx, w, 9, 9, k + 1) <==> scanned(
        idx,
        w,
        9,
        9,
        k,
    ) || w == j) by {
        let in_box = (spec_row_of(w) % 3) * 3 + spec_col_of(w) % 3;
        if spec_box_of(w) == spec_box_of(idx) && in_box == k {
            // same box and same place in it: the same row and the same column
            assert(spec_row_of(w) / 3 == spec_row_of(idx) / 3);
            assert(spec_col_of(w) / 3 == spec_col_of(idx) / 3);
            assert(spec_row_of(w) % 3 == k / 3);
            assert(spec_col_of(w) % 3 == k % 3);
            assert(spec_row_of(w) == spec_row_of(j));
            assert(spec_col_of(w) == spec_col_of(j));
            assert(w == j);
        }
        if w == j {
            assert(spec_box_of(w) == spec_box_of(idx));
            assert(in_box == k);
        }
    }
}

/// Whether `taken` marks exactly the symbols found in the scanned part.
spec fn marks_scanned(
    cells: Cells,
    taken: Seq<bool>,
    idx: int,
    in_column: int,
    in_row: int,
    in_box: int,
) -> bool {
    &&& taken.len() == 10
    &&& forall|value: usize|
        is_symbol(value) ==> (#[trigger] taken[value as int] <==> exists|j: int|
            0 <= j < 81 && scanned(idx, j, in_column, in_row, in_box) && #[trigger] cells[j]
                == Some(value))
}

/// Marking the value of the one cell that a step of the scan adds keeps the
/// marks in line with the scan.
proof fn lemma_marked(
    cells: Cells,
    before: Seq<bool>,
    after: Seq<bool>,
    idx: int,
    j: int,
    from: (int, int, int),
    to: (int, int, int),
)
    requires
        marks_scanned(cells, before, idx, from.0, from.1, from.2),
        0 <= j < 81,
        after.len() == 10,
        forall|value: usize|
            is_symbol(value) ==> (#[trigger] after[value as int] <==> before[value as int]
                || cells[j] == Some(value)),
        forall|w: int|
            0 <= w < 81 ==> (#[trigger] scanned(idx, w, to.0, to.1, to.2) <==> scanned(
                idx,
                w,
                from.0,
                from.1,
                from.2,
            ) || w == j),
    ensures
        marks_scanned(cells, after, idx, to.0, to.1, to.2),
{
    assert forall|value: usize| is_symbol(value) implies (#[trigger] after[value as int]
        <==> exists|w: int|
        0 <= w < 81 && scanned(idx, w, to.0, to.1, to.2) && #[trigger] cells[w] == Some(value)) by {
        if before[value as int] {
            let w = choose|w: int|
                0 <= w < 81 && scanned(idx, w, from.0, from.1, from.2) && #[trigger] cells[w]
                    == Some(value);
            assert(scanned(idx, w, to.0, to.1, to.2));
        }
        if cells[j] == Some(value) {
            assert(scanned(idx, j, to.0, to.1, to.2));
        }
    }
}

/// Once all of the three units is scanned, the marks are the excluded
/// symbols.
proof fn lemma_marks_excluded(cells: Cells, taken: Seq<bool>, idx: int)
    requires
        cells.len() == 81,
        0 <= idx < 81,
        marks_scanned(cells, taken, idx, 9, 9, 9),
    ensures
        forall|value: usize|
            is_symbol(value) ==> (#[trigger] taken[value as int] <==> excluded(cells, idx, value)),
{
    assert forall|value: usize| is_symbol(value) implies (#[trigger] taken[value as int]
        <==> excluded(cells, idx, value)) by {
        if taken[value as int] {
            let w = choose|w: int|
                0 <= w < 81 && scanned(idx, w, 9, 9, 9) && #[trigger] cells[w] == Some(value);
            assert(share_unit(idx, w));
        }
        if excluded(cells, idx, value) {
            let w = choose|w: int|
                0 <= w < 81 && share_unit(idx, w) && #[trigger] cells[w] == Some(value);
            assert(scanned(idx, w, 9, 9, 9));
        }
    }
}

/// Marks the value of cell `j`, if it holds a symbol.
fn mark(board: &Board, taken: &mut [bool; 10], j: usize)
    requires
        j < 81,
    ensures
        final(taken)@.len() == 10,
        forall|value: usize|
            is_symbol(value) ==> (#[trigger] final(taken)@[value as int] <==> old(
                taken,
            )@[value as int] || board@[j as int] == Some(value)),
{
    match board[j] {
        Some(value) => {
            if value <= 9 {
                taken[value] = true;
            }
        },
        None => {},
    }
}

/// The candidates of cell `cell_idx`: the symbols from 1 to 9 that no cell in
/// its row, its column or its box holds, in ascending order. The cell's own
/// value, if it has one, is excluded like any other.
pub fn get_cell_options(board: &Board, cell_idx: usize) -> (options: Vec<usize>)
    requires
        cell_idx < 81,
    ensures
        options@ == candidates(board@, cell_idx as int),
        is_ascending(options@),
        forall|value: usize| #[trigger]
            options@.contains(value) <==> is_symbol(value) && !excluded(
                board@,
                cell_idx as int,
                value,
            ),
{
    let ghost idx = cell_idx as int;
    let mut taken: [bool; 10] = [false; 10];

    // symbols taken in the column
    let column = col_of(cell_idx);
    let mut k: usize = 0;
    while k < 9
        invariant
            k <= 9,
            idx == cell_idx < 81,
            column == spec_col_of(idx),
            marks_scanned(board@, taken@, idx, k as int, 0, 0),
        decreases 9 - k,
    {
        let ghost before = taken@;
        proof {
            lemma_column_step(idx, k as int);
        }
        let cell = column + 9 * k;
        mark(board, &mut taken, cell);
        proof {
            lemma_marked(board@, before, taken@, idx, cell as int, (k as int, 0, 0), (k + 1, 0, 0));
        }
        k += 1;
    }

    // symbols taken in the row
    let row_start = cell_idx - column;
    let mut k: usize = 0;
    while k < 9
        invariant
            k <= 9,
            idx == cell_idx < 81,
            row_start == idx - spec_col_of(idx),
            marks_scanned(board@, taken@, idx, 9, k as int, 0),
        decreases 9 - k,
    {
        let ghost before = taken@;
        proof {
            lemma_row_step(idx, k as int);
        }
        let cell = row_start + k;
        mark(board, &mut taken, cell);
        proof {
            lemma_marked(board@, before, taken@, idx, cell as int, (9, k as int, 0), (9, k + 1, 0));
        }
        k += 1;
    }

    // symbols taken in the box
    let box_start = cell_idx - cell_idx % 27 + (column - column % 3);
    let mut k: usize = 0;
    while k < 9
        invariant
            k <= 9,
            idx == cell_idx < 81,
            box_start == box_cell(idx, 0),
            marks_scanned(board@, taken@, idx, 9, 9, k as int),
        decreases 9 - k,
    {
        let ghost before = taken@;
        proof {
            lemma_box_step(idx, k as int);
        }
        let cell = box_start + 9 * (k / 3) + k % 3;
        mark(board, &mut taken, cell);
        proof {
            lemma_marked(board@, before, taken@, idx, cell as int, (9, 9, k as int), (9, 9, k + 1));
        }
        k += 1;
    }

    proof {
        lemma_marks_excluded(board@, taken@, idx);
        symbols().take(0).lemma_filter_len(is_allowed(board@, idx));
    }

    // symbols that no related cell has taken
    let mut options: Vec<usize> = Vec::new();
    let mut candidate: usize = 1;
    while candidate <= 9
        invariant
            1 <= candidate <= 10,
            taken@.len() == 10,
            forall|value: usize|
                is_symbol(value) ==> (#[trigger] taken@[value as int] <==> excluded(
                    board@,
                    idx,
                    value,
                )),
            options@ == symbols().take(candidate - 1).filter(is_allowed(board@, idx)),
        decreases 10 - candidate,
    {
        proof {
            let seen = symbols().take(candidate - 1);
            seen.lemma_filter_push(candidate, is_allowed(board@, idx));
            assert(symbols().take(candidate as int) =~= seen.push(candidate));
        }
        if !taken[candidate] {
            options.push(candidate);
        }
        candidate += 1;
    }
    proof {
        assert(symbols().take(9) =~= symbols());
        lemma_candidates(board@, idx);
    }
    options
}

/// The indices of the empty cells of `board`, in ascending order.
pub fn get_empty_cells(board: &Board) -> (out: Vec<usize>)
    ensures
        out@ == empty_cells(board@),
        is_ascending(out@),
        forall|i: usize| #[trigger] out@.contains(i) <==> is_empty_cell(board@, i as int),
        out@.len() == 0 <==> is_full(board@),
{
    let mut out: Vec<usize> = Vec::new();
    let mut idx: usize = 0;
    proof {
        indices(81).take(0).lemma_filter_len(is_empty_at(board@));
    }
    while idx < 81
        invariant
            idx <= 81,
            out@ == indices(81).take(idx as int).filter(is_empty_at(board@)),
        decreases 81 - idx,
    {
        proof {
            let seen = indices(81).take(idx as int);
            seen.lemma_filter_push(idx, is_empty_at(board@));
            assert(indices(81).take(idx + 1) =~= seen.push(idx));
        }
        if board[idx].is_none() {
            out.push(idx);
        }
        idx += 1;
    }
    proof {
        assert(indices(81).take(81) =~= indices(81));
        lemma_empty_cells(board@);
    }
    out
}

/// Pairs each of `cells` with its candidates and orders the pairs by the
/// number of candidates, fewest first. Cells with equally many candidates
/// keep the order in which `cells` has them.
pub fn get_cells_options(board: &Board, cells: Vec<usize>) -> (out: Vec<(usize, Vec<usize>)>)
    requires
        forall|k: int| 0 <= k < cells.len() ==> cells[k] < 81,
    ensures
        is_options_list(board@, cells@, out@),
{
    let mut out: Vec<(usize, Vec<usize>)> = Vec::new();
    let mut next: usize = 0;
    proof {
        assert(listed_cells(out@) =~= cells@.take(0));
    }
    while next < cells.len()
        invariant
            next <= cells.len(),
            forall|k: int| 0 <= k < cells.len() ==> cells[k] < 81,
            is_options_list(board@, cells@.take(next as int), out@),
        decreases cells.len() - next,
    {
        let cell = cells[next];
        let options = get_cell_options(board, cell);
        let count = options.len();
        // the place behind every entry that has at most as many options
        let mut pos: usize = out.len();
        while pos > 0 && out[pos - 1].1.len() > count
            invariant
                pos <= out.len(),
                forall|k: int| pos <= k < out.len() ==> (#[trigger] out[k]).1@.len() > count,
            decreases pos,
        {
            pos -= 1;
        }
        proof {
            let listed = cells@.take(next as int);
            lemma_insert_listed(board@, listed, out@, pos as int, (cell, options));
            assert(cells@.take(next + 1) =~= cells@.take(next as int).push(cell));
        }
        out.insert(pos, (cell, options));
        next += 1;
    }
    assert(cells@.take(cells.len() as int) =~= cells@);
    out
}

/// Solves the puzzle by backtracking: the most constrained empty cell takes
/// each of its candidates in ascending order, and the first that leads to a
/// full board decides.
///
/// The result is a completion of `board`: it keeps every value of `board`
/// and gives each empty cell a symbol that occurs nowhere else in the cell's
/// row, column and box. `None` is returned exactly when `board` has no
/// completion. A full board is returned as it is.
pub fn solve(board: &Board) -> (result: Option<Board>)
    ensures
        match result {
            Some(solved) => search(board@) == Some(solved@),
            None => search(board@) is None,
        },
        result matches Some(solved) ==> is_completion(solved@, board@),
        result is None ==> forall|solved: Cells| !is_completion(solved, board@),
        is_full(board@) ==> result == Some(*board),
        well_formed(board@) ==> (result matches Some(solved) ==> well_formed(solved@) && (is_solved(
            solved@,
        ) <==> is_consistent(board@))),
        well_formed(board@) && is_consistent(board@) && result is None ==> forall|solved: Cells|
            !(#[trigger] extends(solved, board@) && is_solved(solved)),
    decreases count_empty(board@),
{
    proof {
        lemma_search_meaning(board@);
    }
    let empty_cells = get_empty_cells(board);

    if empty_cells.len() == 0 {
        return Some(*board);
    }
    let cells_options = get_cells_options(board, empty_cells);

    // the first cell in this order is the most constrained one
    let cell = cells_options[0].0;
    let options = &cells_options[0].1;
    proof {
        lemma_first_listed(board@, cells_options@);
        lemma_most_constrained_exists(board@);
        lemma_most_constrained_unique(board@, cell as int, most_constrained(board@));
    }
    let mut tried: usize = 0;
    while tried < options.len()
        invariant
            tried <= options.len(),
            is_empty_cell(board@, cell as int),
            search(board@) == try_values(board@, cell as int, options@, tried as int),
        decreases options.len() - tried,
    {
        let next_board = change_board(board, cell, options[tried]);
        proof {
            lemma_fill_decreases(board@, cell as int, options[tried as int]);
        }
        if let Some(solved) = solve(&next_board) {
            proof {
                lemma_search_meaning(board@);
            }
            return Some(solved);
        }
        tried += 1;
    }
    proof {
        lemma_search_meaning(board@);
    }
    None
}

} // verus!
