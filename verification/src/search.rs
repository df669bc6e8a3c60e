//! What the backtracking search computes, and what that result means.
//!
//! `search` is the result of the search as a mathematical function of the
//! board. Beside it stands the meaning of that result: what it returns is a
//! completion of the board, and it returns nothing only where the board has
//! no completion.

use crate::board::{
    count_empty, empty_cells, is_consistent, is_duplicate, is_empty_cell, is_full, is_solved,
    is_symbol, lemma_count_empty_zero, lemma_empty_cells, lemma_fill_decreases, share_unit,
    well_formed, with_cell, Cells,
};
use crate::constraints::{
    candidates, excluded, has_count, is_options_list, lemma_candidates, listed_cells,
};
use crate::sequences::{lemma_filter_ascending, lemma_filter_first};
use vstd::prelude::*;

verus! {

/// Whether `c` is the most constrained cell: an empty cell with the fewest
/// candidates and, among those with as few, the one with the lowest index.
pub open spec fn is_most_constrained(cells: Cells, c: int) -> bool {
    &&& is_empty_cell(cells, c)
    &&& forall|j: int| #[trigger]
        is_empty_cell(cells, j) ==> {
            ||| candidates(cells, c).len() < candidates(cells, j).len()
            ||| candidates(cells, c).len() == candidates(cells, j).len() && c <= j
        }
}

/// The most constrained cell of a board that has an empty cell.
pub open spec fn most_constrained(cells: Cells) -> int {
    choose|c: int| is_most_constrained(cells, c)
}

/// The result of the search on `cells`: a full board is its own result;
/// otherwise the candidates of the most constrained cell are tried in
/// ascending order, and the first that leads to a result decides.
pub open spec fn search(cells: Cells) -> Option<Cells>
    decreases count_empty(cells), 1int, 0int,
{
    if is_full(cells) {
        Some(cells)
    } else {
        let c = most_constrained(cells);
        try_values(cells, c, candidates(cells, c), 0)
    }
}

/// The result of trying the values `values[from..]` in turn for the empty
/// cell `c`: the result of the search on the first derived board that has
/// one.
pub open spec fn try_values(cells: Cells, c: int, values: Seq<usize>, from: int) -> Option<Cells>
    decreases count_empty(cells), 0int, values.len() - from,
{
    if !is_empty_cell(cells, c) || from < 0 || from >= values.len() {
        None
    } else {
        proof {
            lemma_fill_decreases(cells, c, values[from]);
        }
        match search(with_cell(cells, c, values[from])) {
            Some(solved) => Some(solved),
            None => try_values(cells, c, values, from + 1),
        }
    }
}

/// Whether cell `i` of `solved` holds a symbol that no other cell of its
/// row, column or box holds.
pub open spec fn is_filled_in(solved: Cells, i: int) -> bool {
    match solved[i] {
        Some(value) => {
            &&& is_symbol(value)
            &&& forall|j: int|
                0 <= j < solved.len() && j != i && share_unit(i, j) ==> #[trigger] solved[j]
                    != Some(value)
        },
        None => false,
    }
}

/// Whether `solved` keeps every value that `cells` holds.
pub open spec fn extends(solved: Cells, cells: Cells) -> bool {
    &&& solved.len() == cells.len()
    &&& forall|i: int| 0 <= i < cells.len() && cells[i] is Some ==> #[trigger] solved[i] == cells[i]
}

/// Whether `solved` completes `cells`: it keeps every value that `cells`
/// holds, and each cell that `cells` leaves empty holds a symbol that occurs
/// nowhere else in its row, column and box.
pub open spec fn is_completion(solved: Cells, cells: Cells) -> bool {
    &&& extends(solved, cells)
    &&& forall|i: int| #[trigger] is_empty_cell(cells, i) ==> is_filled_in(solved, i)
}

/// There is at most one most constrained cell.
pub proof fn lemma_most_constrained_unique(cells: Cells, a: int, b: int)
    requires
        is_most_constrained(cells, a),
        is_most_constrained(cells, b),
    ensures
        a == b,
{
}

/// Among the empty cells below `n`, if there is one, one is most
/// constrained.
proof fn lemma_best_below(cells: Cells, n: int) -> (best: int)
    requires
        0 <= n <= cells.len(),
        exists|j: int| 0 <= j < n && is_empty_cell(cells, j),
    ensures
        0 <= best < n,
        is_empty_cell(cells, best),
        forall|j: int|
            0 <= j < n && #[trigger] is_empty_cell(cells, j) ==> {
                ||| candidates(cells, best).len() < candidates(cells, j).len()
                ||| candidates(cells, best).len() == candidates(cells, j).len() && best <= j
            },
    decreases n,
{
    if exists|j: int| 0 <= j < n - 1 && is_empty_cell(cells, j) {
        let before = lemma_best_below(cells, n - 1);
        if is_empty_cell(cells, n - 1) && candidates(cells, n - 1).len() < candidates(
            cells,
            before,
        ).len() {
            n - 1
        } else {
            before
        }
    } else {
        n - 1
    }
}

/// A board that is not full has a most constrained cell, and
/// `most_constrained` names it.
pub proof fn lemma_most_constrained_exists(cells: Cells)
    requires
        !is_full(cells),
    ensures
        is_most_constrained(cells, most_constrained(cells)),
{
    let i = choose|i: int| 0 <= i < cells.len() && !(#[trigger] cells[i] is Some);
    assert(is_empty_cell(cells, i));
    let best = lemma_best_below(cells, cells.len() as int);
    assert(is_most_constrained(cells, best));
}

/// The first entry of the ordered list of the empty cells with their
/// candidates is the most constrained cell.
pub proof fn lemma_first_listed(cells: Cells, list: Seq<(usize, Vec<usize>)>)
    requires
        cells.len() <= usize::MAX,
        is_options_list(cells, empty_cells(cells), list),
        list.len() > 0,
    ensures
        is_most_constrained(cells, list[0].0 as int),
{
    let order = empty_cells(cells);
    let listed = listed_cells(list);
    let first = list[0].0;
    let fewest = candidates(cells, first as int).len();
    let tied = order.filter(has_count(cells, fewest));
    lemma_empty_cells(cells);
    // the first entry leads the cells that have as few candidates as it has
    lemma_filter_first(listed, has_count(cells, fewest), 0);
    lemma_filter_ascending(order, has_count(cells, fewest));
    assert(tied[0] == first);
    assert(tied.contains(first));
    assert forall|j: int| #[trigger] is_empty_cell(cells, j) implies {
        ||| candidates(cells, first as int).len() < candidates(cells, j).len()
        ||| candidates(cells, first as int).len() == candidates(cells, j).len() && first <= j
    } by {
        let cell = j as usize;
        let count = candidates(cells, j).len();
        // the cell is listed, at some place `k`, and the list is ordered
        assert(order.contains(cell));
        let at = choose|at: int| 0 <= at < order.len() && order[at] == cell;
        order.lemma_filter_contains(has_count(cells, count), at);
        listed.lemma_filter_contains_rev(has_count(cells, count), cell);
        let k = choose|k: int| 0 <= k < listed.len() && listed[k] == cell;
        assert(list[0].1@.len() <= list[k].1@.len());
        if count == fewest {
            // both stand among the tied cells, which ascend
            let m = choose|m: int| 0 <= m < tied.len() && tied[m] == cell;
            assert(tied[0] <= tied[m]);
        }
    }
}

/// A full board is its own result, whatever it holds.
pub proof fn lemma_search_full(cells: Cells)
    requires
        is_full(cells),
    ensures
        search(cells) == Some(cells),
{
}

/// Where trying values gives a result, it is the result of the search on the
/// board derived with one of them.
proof fn lemma_try_values_found(cells: Cells, c: int, values: Seq<usize>, from: int) -> (k: int)
    requires
        try_values(cells, c, values, from) is Some,
    ensures
        0 <= from <= k < values.len(),
        is_empty_cell(cells, c),
        search(with_cell(cells, c, values[k])) == try_values(cells, c, values, from),
    decreases values.len() - from,
{
    if search(with_cell(cells, c, values[from])) is Some {
        from
    } else {
        lemma_try_values_found(cells, c, values, from + 1)
    }
}

/// Where the search on the board derived with `values[k]` gives a result,
/// trying the values from any place up to `k` gives one too.
proof fn lemma_try_values_reaches(cells: Cells, c: int, values: Seq<usize>, from: int, k: int)
    requires
        is_empty_cell(cells, c),
        0 <= from <= k < values.len(),
        search(with_cell(cells, c, values[k])) is Some,
    ensures
        try_values(cells, c, values, from) is Some,
    decreases k - from,
{
    if from < k && search(with_cell(cells, c, values[from])) is None {
        lemma_try_values_reaches(cells, c, values, from + 1, k);
    }
}

/// A completion of a board derived by giving the empty cell `c` one of its
/// candidates completes the board itself.
proof fn lemma_completion_of_derived(solved: Cells, cells: Cells, c: int, value: usize)
    requires
        is_empty_cell(cells, c),
        candidates(cells, c).contains(value),
        is_completion(solved, with_cell(cells, c, value)),
    ensures
        is_completion(solved, cells),
{
    lemma_candidates(cells, c);
    let derived = with_cell(cells, c, value);
    assert(solved[c] == derived[c]);
    assert forall|i: int| 0 <= i < cells.len() && cells[i] is Some implies #[trigger] solved[i]
        == cells[i] by {
        assert(derived[i] == cells[i]);
    }
    assert forall|i: int| #[trigger] is_empty_cell(cells, i) implies is_filled_in(solved, i) by {
        if i == c {
            assert forall|j: int|
                0 <= j < solved.len() && j != c && share_unit(c, j) implies #[trigger] solved[j]
                != Some(value) by {
                if cells[j] is None {
                    // a cell filled in later differs from all of its unit
                    assert(is_empty_cell(derived, j));
                    assert(share_unit(j, c));
                }
            }
        } else {
            assert(is_empty_cell(derived, i));
        }
    }
}

/// A completion of a board completes the board derived by giving an empty
/// cell the value that the completion has there, and that value is one of
/// the cell's candidates.
proof fn lemma_completion_restricts(solved: Cells, cells: Cells, c: int)
    requires
        is_empty_cell(cells, c),
        is_completion(solved, cells),
    ensures
        solved[c] is Some,
        candidates(cells, c).contains(solved[c]->0),
        is_completion(solved, with_cell(cells, c, solved[c]->0)),
{
    lemma_candidates(cells, c);
    let value = solved[c]->0;
    if excluded(cells, c, value) {
        let j = choose|j: int|
            0 <= j < cells.len() && share_unit(c, j) && #[trigger] cells[j] == Some(value);
        assert(solved[j] == cells[j]);
    }
    let derived = with_cell(cells, c, value);
    assert forall|i: int| 0 <= i < derived.len() && derived[i] is Some implies #[trigger] solved[i]
        == derived[i] by {
        if i != c {
            assert(solved[i] == cells[i]);
        }
    }
    assert forall|i: int| #[trigger] is_empty_cell(derived, i) implies is_filled_in(solved, i) by {
        assert(is_empty_cell(cells, i));
    }
}

/// What the search returns completes the board.
pub proof fn lemma_search_sound(cells: Cells)
    ensures
        search(cells) matches Some(solved) ==> is_completion(solved, cells),
    decreases count_empty(cells),
{
    if search(cells) is Some && !is_full(cells) {
        lemma_most_constrained_exists(cells);
        lemma_count_empty_zero(cells);
        let c = most_constrained(cells);
        let values = candidates(cells, c);
        let k = lemma_try_values_found(cells, c, values, 0);
        let derived = with_cell(cells, c, values[k]);
        lemma_fill_decreases(cells, c, values[k]);
        lemma_search_sound(derived);
        lemma_completion_of_derived(search(cells)->0, cells, c, values[k]);
    }
}

/// Where a board has a completion, the search returns one.
pub proof fn lemma_search_complete(cells: Cells, solved: Cells)
    requires
        is_completion(solved, cells),
    ensures
        search(cells) is Some,
    decreases count_empty(cells),
{
    if !is_full(cells) {
        lemma_most_constrained_exists(cells);
        let c = most_constrained(cells);
        let values = candidates(cells, c);
        lemma_completion_restricts(solved, cells, c);
        let value = solved[c]->0;
        let k = choose|k: int| 0 <= k < values.len() && values[k] == value;
        let derived = with_cell(cells, c, value);
        lemma_fill_decreases(cells, c, value);
        lemma_search_complete(derived, solved);
        lemma_try_values_reaches(cells, c, values, 0, k);
    }
}

/// Where a board has exactly one completion, the search returns it.
pub proof fn lemma_search_only_completion(cells: Cells, solved: Cells)
    requires
        is_completion(solved, cells),
        forall|other: Cells| #[trigger] is_completion(other, cells) ==> other == solved,
    ensures
        search(cells) == Some(solved),
{
    lemma_search_complete(cells, solved);
    lemma_search_sound(cells);
}

/// A completion of a well-formed board is well formed and full.
pub proof fn lemma_completion_full(solved: Cells, cells: Cells)
    requires
        is_completion(solved, cells),
    ensures
        is_full(solved),
        well_formed(cells) ==> well_formed(solved),
{
    assert forall|i: int| 0 <= i < solved.len() implies #[trigger] solved[i] is Some by {
        if cells[i] is None {
            assert(is_empty_cell(cells, i));
        }
    }
    if well_formed(cells) {
        assert forall|i: int| 0 <= i < solved.len() implies match #[trigger] solved[i] {
            Some(value) => is_symbol(value),
            None => true,
        } by {
            if cells[i] is None {
                assert(is_empty_cell(cells, i));
            }
        }
    }
}

/// A completion has exactly the duplicates that the board had: filling in
/// never makes one, and none goes away.
pub proof fn lemma_completion_duplicates(solved: Cells, cells: Cells, i: int, j: int)
    requires
        is_completion(solved, cells),
    ensures
        is_duplicate(solved, i, j) <==> is_duplicate(cells, i, j),
{
    if is_duplicate(solved, i, j) {
        // neither cell was filled in: a cell filled in differs from all of its unit
        if cells[i] is None {
            assert(is_empty_cell(cells, i));
        }
        if cells[j] is None {
            assert(is_empty_cell(cells, j));
            assert(share_unit(j, i));
        }
    }
}

/// What the search returns has exactly the duplicates that the board had.
/// So on a board that holds a value twice in a row, column or box, the
/// search never returns a finished puzzle: whatever it returns still holds
/// that value twice. And it never puts a value twice into a unit itself.
pub proof fn lemma_search_duplicates(cells: Cells, i: int, j: int)
    ensures
        search(cells) matches Some(solved) ==> (is_duplicate(solved, i, j) <==> is_duplicate(
            cells,
            i,
            j,
        )),
        is_duplicate(cells, i, j) ==> (search(cells) matches Some(solved) ==> !is_solved(solved)),
{
    lemma_search_sound(cells);
    if search(cells) is Some {
        lemma_completion_duplicates(search(cells)->0, cells, i, j);
    }
}

/// A completion of a well-formed board is a finished puzzle exactly when the
/// board was free of duplicates. On a board that holds a duplicate no
/// completion is one.
pub proof fn lemma_completion_solved(solved: Cells, cells: Cells)
    requires
        well_formed(cells),
        is_completion(solved, cells),
    ensures
        is_solved(solved) <==> is_consistent(cells),
{
    lemma_completion_full(solved, cells);
    if is_consistent(cells) {
        assert forall|i: int, j: int| !is_duplicate(solved, i, j) by {
            lemma_completion_duplicates(solved, cells, i, j);
        }
    }
    if is_consistent(solved) {
        assert forall|i: int, j: int| !is_duplicate(cells, i, j) by {
            lemma_completion_duplicates(solved, cells, i, j);
        }
    }
}

/// On a well-formed board without duplicates, the completions are the
/// finished puzzles that keep the board's values. So there the search
/// returns a solution of the puzzle, and returns nothing exactly when the
/// puzzle has no solution.
pub proof fn lemma_completions_are_solutions(solved: Cells, cells: Cells)
    requires
        well_formed(cells),
        is_consistent(cells),
    ensures
        is_completion(solved, cells) <==> extends(solved, cells) && is_solved(solved),
{
    if is_completion(solved, cells) {
        lemma_completion_solved(solved, cells);
    }
    if extends(solved, cells) && is_solved(solved) {
        assert forall|i: int| #[trigger] is_empty_cell(cells, i) implies is_filled_in(solved, i) by {
            assert forall|j: int|
                0 <= j < solved.len() && j != i && share_unit(i, j) implies #[trigger] solved[j]
                != solved[i] by {
                assert(!is_duplicate(solved, i, j));
            }
        }
    }
}

/// What the result of the search means, in one place: what is returned
/// completes the board; nothing is returned only where nothing completes it;
/// and on a well-formed board what is returned is well formed, and is a
/// finished puzzle exactly when the board was free of duplicates.
pub proof fn lemma_search_meaning(cells: Cells)
    ensures
        search(cells) matches Some(solved) ==> is_completion(solved, cells),
        search(cells) is None ==> forall|solved: Cells| !is_completion(solved, cells),
        well_formed(cells) ==> (search(cells) matches Some(solved) ==> well_formed(solved) && (
        is_solved(solved) <==> is_consistent(cells))),
        well_formed(cells) && is_consistent(cells) && search(cells) is None ==> forall|
            solved: Cells,
        |
            !(#[trigger] extends(solved, cells) && is_solved(solved)),
{
    lemma_search_sound(cells);
    assert forall|solved: Cells| is_completion(solved, cells) implies search(cells) is Some by {
        lemma_search_complete(cells, solved);
    }
    if well_formed(cells) {
        if search(cells) is Some {
            lemma_completion_full(search(cells)->0, cells);
            lemma_completion_solved(search(cells)->0, cells);
        }
        if is_consistent(cells) {
            assert forall|solved: Cells| #[trigger]
                extends(solved, cells) && is_solved(solved) implies is_completion(solved, cells) by {
                lemma_completions_are_solutions(solved, cells);
            }
        }
    }
}

} // verus!
