//! Which symbols a cell may still take, given the values in its row, its
//! column and its box.

use crate::board::{is_duplicate, is_solved, is_symbol, share_unit, spec_row_of, Cells};
use crate::sequences::{
    is_ascending, lemma_filter_all, lemma_filter_ascending, lemma_filter_insert, lemma_filter_none,
};
use vstd::prelude::*;

verus! {

/// Whether some cell in the row, column or box of `idx` holds `value`. The
/// cell `idx` itself counts: a value that it holds is excluded for it.
pub open spec fn excluded(cells: Cells, idx: int, value: usize) -> bool {
    exists|j: int| 0 <= j < cells.len() && share_unit(idx, j) && #[trigger] cells[j] == Some(value)
}

/// The nine symbols in ascending order.
pub open spec fn symbols() -> Seq<usize> {
    Seq::new(9, |k: int| (k + 1) as usize)
}

/// The test that the candidates of cell `idx` pass: not to be excluded.
pub open spec fn is_allowed(cells: Cells, idx: int) -> spec_fn(usize) -> bool {
    |value: usize| !excluded(cells, idx, value)
}

/// The candidates of cell `idx`: the symbols that no cell of its row, column
/// or box holds, in ascending order.
pub open spec fn candidates(cells: Cells, idx: int) -> Seq<usize> {
    symbols().filter(is_allowed(cells, idx))
}

/// The candidates of a cell are exactly the symbols that are not excluded
/// for it, each once and in ascending order.
pub proof fn lemma_candidates(cells: Cells, idx: int)
    ensures
        forall|value: usize| #[trigger]
            candidates(cells, idx).contains(value) <==> is_symbol(value) && !excluded(
                cells,
                idx,
                value,
            ),
        is_ascending(candidates(cells, idx)),
        candidates(cells, idx).len() <= 9,
{
    lemma_filter_ascending(symbols(), is_allowed(cells, idx));
    symbols().lemma_filter_len(is_allowed(cells, idx));
    assert forall|value: usize| #[trigger]
        candidates(cells, idx).contains(value) <==> is_symbol(value) && !excluded(
            cells,
            idx,
            value,
        ) by {
        if is_symbol(value) {
            assert(symbols()[value - 1] == value);
        }
    }
}

/// A value that a cell holds is excluded for that very cell: its own row,
/// column and box account for it, and it is none of the cell's candidates.
pub proof fn lemma_own_value_excluded(cells: Cells, idx: int)
    requires
        0 <= idx < cells.len(),
        cells[idx] is Some,
    ensures
        excluded(cells, idx, cells[idx]->0),
        !candidates(cells, idx).contains(cells[idx]->0),
{
    lemma_candidates(cells, idx);
    assert(share_unit(idx, idx));
}

/// On a finished puzzle every row holds every symbol.
proof fn lemma_row_holds_symbol(cells: Cells, row: int, value: usize) -> (k: int)
    requires
        is_solved(cells),
        0 <= row < 9,
        is_symbol(value),
    ensures
        0 <= k < 9,
        cells[9 * row + k] == Some(value),
{
    let held = Seq::new(9, |k: int| cells[9 * row + k]->0 as int);
    assert forall|i: int, j: int|
        0 <= i < held.len() && 0 <= j < held.len() && i != j implies held[i] != held[j] by {
        // two cells of one row
        assert(spec_row_of(9 * row + i) == spec_row_of(9 * row + j));
        assert(cells[9 * row + i] is Some);
        assert(!is_duplicate(cells, 9 * row + i, 9 * row + j));
    }
    held.unique_seq_to_set();
    let range = vstd::set_lib::set_int_range(1, 10);
    vstd::set_lib::lemma_int_range(1, 10);
    assert forall|x: int| held.to_set().contains(x) implies range.contains(x) by {
        let k = choose|k: int| 0 <= k < held.len() && held[k] == x;
        assert(cells[9 * row + k] is Some);
    }
    // nine different values out of nine: each of the nine is among them
    vstd::set_lib::lemma_len_subset(held.to_set(), range);
    vstd::set_lib::lemma_subset_equality(held.to_set(), range);
    assert(range.contains(value as int));
    choose|k: int| 0 <= k < held.len() && held[k] == value as int
}

/// On a finished puzzle, one that is full and free of duplicates, no cell
/// has a candidate left.
pub proof fn lemma_no_candidates_when_solved(cells: Cells, idx: int)
    requires
        is_solved(cells),
        0 <= idx < cells.len(),
    ensures
        candidates(cells, idx) == Seq::<usize>::empty(),
{
    lemma_candidates(cells, idx);
    let found = candidates(cells, idx);
    if found.len() > 0 {
        let value = found[0];
        assert(found.contains(value));
        let k = lemma_row_holds_symbol(cells, spec_row_of(idx), value);
        assert(share_unit(idx, 9 * spec_row_of(idx) + k));
    }
}

/// A cell whose row, column and box are empty throughout has all nine
/// symbols as its candidates.
pub proof fn lemma_all_candidates_when_units_empty(cells: Cells, idx: int)
    requires
        forall|j: int| 0 <= j < cells.len() && share_unit(idx, j) ==> #[trigger] cells[j] is None,
    ensures
        candidates(cells, idx) == symbols(),
{
    lemma_filter_all(symbols(), is_allowed(cells, idx));
}

/// The test for cells that have exactly `count` candidates.
pub open spec fn has_count(cells: Cells, count: nat) -> spec_fn(usize) -> bool {
    |cell: usize| candidates(cells, cell as int).len() == count
}

/// The cells of a list of cells with their candidates, in the list's order.
pub open spec fn listed_cells(list: Seq<(usize, Vec<usize>)>) -> Seq<usize> {
    Seq::new(list.len(), |k: int| list[k].0)
}

/// Whether `list` holds the cells of `order`, each with its candidates,
/// ordered by ascending number of candidates, cells with equally many
/// candidates standing in the order in which `order` has them.
pub open spec fn is_options_list(
    cells: Cells,
    order: Seq<usize>,
    list: Seq<(usize, Vec<usize>)>,
) -> bool {
    &&& list.len() == order.len()
    &&& forall|k: int|
        0 <= k < list.len() ==> (#[trigger] list[k]).1@ == candidates(cells, list[k].0 as int)
    &&& forall|i: int, j: int|
        0 <= i < j < list.len() ==> (#[trigger] list[i]).1@.len() <= (#[trigger] list[j]).1@.len()
    &&& forall|count: nat|
        listed_cells(list).filter(#[trigger] has_count(cells, count)) == order.filter(
            has_count(cells, count),
        )
}

/// Putting a further cell behind the entries that have at most as many
/// candidates, and in front of those that have more, keeps the list in
/// order.
pub proof fn lemma_insert_listed(
    cells: Cells,
    order: Seq<usize>,
    list: Seq<(usize, Vec<usize>)>,
    pos: int,
    entry: (usize, Vec<usize>),
)
    requires
        is_options_list(cells, order, list),
        0 <= pos <= list.len(),
        entry.1@ == candidates(cells, entry.0 as int),
        forall|k: int| 0 <= k < pos ==> (#[trigger] list[k]).1@.len() <= entry.1@.len(),
        forall|k: int| pos <= k < list.len() ==> (#[trigger] list[k]).1@.len() > entry.1@.len(),
    ensures
        is_options_list(cells, order.push(entry.0), list.insert(pos, entry)),
{
    let longer = list.insert(pos, entry);
    let before = listed_cells(list);
    let after = listed_cells(longer);
    assert(after =~= before.insert(pos, entry.0));
    assert forall|count: nat|
        after.filter(#[trigger] has_count(cells, count)) == order.push(entry.0).filter(
            has_count(cells, count),
        ) by {
        let keep = has_count(cells, count);
        lemma_filter_insert(before, pos, entry.0, keep);
        order.lemma_filter_push(entry.0, keep);
        if keep(entry.0) {
            // behind `pos` stand only cells with more candidates
            lemma_filter_none(before.skip(pos), keep);
        }
    }
}

} // verus!
