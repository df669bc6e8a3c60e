//! The grid: eighty-one cells in row-major order, and the arithmetic that
//! places a cell in its row, its column and its 3×3 box.

use crate::sequences::{indices, is_ascending, lemma_filter_ascending};
use vstd::prelude::*;

verus! {

/// A grid of eighty-one cells in row-major order. A cell is empty (`None`) or
/// holds a value; on a well-formed board every value is a symbol from 1 to 9.
///
/// A board is a plain value: deriving a changed board copies it, and no two
/// branches of a search ever share one.
pub type Board = [Option<usize>; 81];

/// The cells of a grid as a sequence: what a board is in contracts.
pub type Cells = Seq<Option<usize>>;

/// The row of cell `idx`, counted from the top.
pub open spec fn spec_row_of(idx: int) -> int {
    idx / 9
}

/// The column of cell `idx`, counted from the left.
pub open spec fn spec_col_of(idx: int) -> int {
    idx % 9
}

/// The 3×3 box of cell `idx`; boxes are numbered row by row.
pub open spec fn spec_box_of(idx: int) -> int {
    (spec_row_of(idx) / 3) * 3 + spec_col_of(idx) / 3
}

/// Whether `value` is one of the nine symbols.
pub open spec fn is_symbol(value: usize) -> bool {
    1 <= value <= 9
}

/// Whether cells `i` and `j` lie in a common row, column or box. Every cell
/// shares its units with itself.
pub open spec fn share_unit(i: int, j: int) -> bool {
    ||| spec_row_of(i) == spec_row_of(j)
    ||| spec_col_of(i) == spec_col_of(j)
    ||| spec_box_of(i) == spec_box_of(j)
}

/// Whether `i` is the index of an empty cell.
pub open spec fn is_empty_cell(cells: Cells, i: int) -> bool {
    0 <= i < cells.len() && cells[i] is None
}

/// The layout invariant of a board: eighty-one cells, each empty or holding
/// a symbol from 1 to 9.
pub open spec fn well_formed(cells: Cells) -> bool {
    &&& cells.len() == 81
    &&& forall|i: int|
        0 <= i < cells.len() ==> match #[trigger] cells[i] {
            Some(value) => is_symbol(value),
            None => true,
        }
}

/// Whether no cell is empty.
pub open spec fn is_full(cells: Cells) -> bool {
    forall|i: int| 0 <= i < cells.len() ==> #[trigger] cells[i] is Some
}

/// Whether cells `i` and `j` are two different cells of a common unit that
/// hold the same value.
pub open spec fn is_duplicate(cells: Cells, i: int, j: int) -> bool {
    &&& 0 <= i < cells.len()
    &&& 0 <= j < cells.len()
    &&& i != j
    &&& share_unit(i, j)
    &&& cells[i] is Some
    &&& cells[i] == cells[j]
}

/// Whether no row, column or box holds a value twice.
pub open spec fn is_consistent(cells: Cells) -> bool {
    forall|i: int, j: int| !is_duplicate(cells, i, j)
}

/// Whether the board is a finished puzzle: well formed, full, and free of
/// duplicates.
pub open spec fn is_solved(cells: Cells) -> bool {
    well_formed(cells) && is_full(cells) && is_consistent(cells)
}

/// The board that differs from `cells` in cell `idx` only, which holds
/// `value`. An index outside the board changes nothing.
pub open spec fn with_cell(cells: Cells, idx: int, value: usize) -> Cells {
    if 0 <= idx < cells.len() {
        cells.update(idx, Some(value))
    } else {
        cells
    }
}

/// The test that the indices of empty cells pass.
pub open spec fn is_empty_at(cells: Cells) -> spec_fn(usize) -> bool {
    |i: usize| is_empty_cell(cells, i as int)
}

/// The indices of the empty cells, in ascending order.
pub open spec fn empty_cells(cells: Cells) -> Seq<usize> {
    indices(cells.len()).filter(is_empty_at(cells))
}

/// The indices of the empty cells, as a set.
pub open spec fn empty_set(cells: Cells) -> Set<int> {
    Set::new(|i: int| is_empty_cell(cells, i))
}

/// The number of empty cells.
pub open spec fn count_empty(cells: Cells) -> nat {
    empty_set(cells).len()
}

/// The empty cells are finitely many, at most as many as there are cells.
pub proof fn lemma_empty_set_finite(cells: Cells)
    ensures
        empty_set(cells).finite(),
        count_empty(cells) <= cells.len(),
{
    let all = vstd::set_lib::set_int_range(0, cells.len() as int);
    vstd::set_lib::lemma_int_range(0, cells.len() as int);
    vstd::set_lib::lemma_len_subset(empty_set(cells), all);
}

/// A board has no empty cell exactly when it is full.
pub proof fn lemma_count_empty_zero(cells: Cells)
    ensures
        count_empty(cells) == 0 <==> is_full(cells),
{
    lemma_empty_set_finite(cells);
    if is_full(cells) {
        assert(empty_set(cells) =~= Set::<int>::empty());
    } else {
        let i = choose|i: int| 0 <= i < cells.len() && !(#[trigger] cells[i] is Some);
        assert(empty_set(cells).contains(i));
        if count_empty(cells) == 0 {
            empty_set(cells).lemma_len0_is_empty();
        }
    }
}

/// `empty_cells` lists exactly the empty cells, each once and in ascending
/// order; it is empty exactly when the board is full.
pub proof fn lemma_empty_cells(cells: Cells)
    requires
        cells.len() <= usize::MAX,
    ensures
        is_ascending(empty_cells(cells)),
        forall|i: usize| #[trigger]
            empty_cells(cells).contains(i) <==> is_empty_cell(cells, i as int),
        empty_cells(cells).len() == 0 <==> is_full(cells),
{
    let all = indices(cells.len());
    lemma_filter_ascending(all, is_empty_at(cells));
    assert forall|i: usize| #[trigger] empty_cells(cells).contains(i) <==> is_empty_cell(
        cells,
        i as int,
    ) by {
        if is_empty_cell(cells, i as int) {
            assert(all[i as int] == i);
        }
    }
    if empty_cells(cells).len() > 0 {
        assert(empty_cells(cells).contains(empty_cells(cells)[0]));
    }
    if !is_full(cells) {
        let i = choose|i: int| 0 <= i < cells.len() && !(#[trigger] cells[i] is Some);
        assert(empty_cells(cells).contains(i as usize));
    }
}

/// Filling an empty cell leaves one empty cell fewer.
pub proof fn lemma_fill_decreases(cells: Cells, idx: int, value: usize)
    requires
        is_empty_cell(cells, idx),
    ensures
        count_empty(with_cell(cells, idx, value)) == count_empty(cells) - 1,
{
    lemma_empty_set_finite(cells);
    assert(empty_set(with_cell(cells, idx, value)) =~= empty_set(cells).remove(idx));
}

/// What `with_cell` changes and what it keeps: the length and every other
/// cell stay, the cell `idx` holds `value`, and setting the same cell to the
/// same value again changes nothing more. The source board is a value of
/// its own and is the same before and after.
pub proof fn lemma_with_cell(cells: Cells, idx: int, value: usize)
    ensures
        with_cell(cells, idx, value).len() == cells.len(),
        forall|j: int|
            0 <= j < cells.len() && j != idx ==> #[trigger] with_cell(cells, idx, value)[j]
                == cells[j],
        0 <= idx < cells.len() ==> with_cell(cells, idx, value)[idx] == Some(value),
        with_cell(with_cell(cells, idx, value), idx, value) == with_cell(cells, idx, value),
        well_formed(cells) && is_symbol(value) ==> well_formed(with_cell(cells, idx, value)),
{
}

/// The row of cell `idx`, counted from the top.
pub fn row_of(idx: usize) -> (row: usize)
    ensures
        row == spec_row_of(idx as int),
{
    idx / 9
}

/// The column of cell `idx`, counted from the left.
pub fn col_of(idx: usize) -> (col: usize)
    ensures
        col == spec_col_of(idx as int),
{
    idx % 9
}

/// The 3×3 box of cell `idx`; boxes are numbered row by row.
pub fn box_of(idx: usize) -> (bx: usize)
    ensures
        bx == spec_box_of(idx as int),
{
    (idx / 9 / 3) * 3 + (idx % 9) / 3
}

} // verus!
