use sudoku_solver::board::{box_of, col_of, row_of, Board};
use sudoku_solver::game::{
    change_board, get_cell_options, get_cells_options, get_empty_cells, parse, solve,
};

const SOLVED: &str = "
    4,8,3,9,2,1,6,5,7,
    9,6,7,3,4,5,8,2,1,
    2,5,1,8,7,6,4,9,3,
    5,4,8,1,3,2,9,7,6,
    7,2,9,5,6,4,1,3,8,
    1,3,6,7,9,8,2,4,5,
    3,7,2,6,8,9,5,1,4,
    8,1,4,2,5,3,7,6,9,
    6,9,5,4,1,7,3,8,2
";

const EASY: &str = "
    4,8,3,9, , ,6,5,7,
    9,6,7, ,4,5,8, , ,
     ,5, ,8,7,6,4, ,3,
    5,4,8, , , , ,7,6,
    7, ,9,5,6,4, ,3,8,
     ,3, ,7,9, , ,4,5,
    3,7, ,6,8,9,5, ,4,
    8, ,4, , , ,7,6,9,
    6,9,5,4, ,7,3,8,2
";

fn is_finished(board: &Board) -> bool {
    for idx in 0..81usize {
        match board[idx] {
            Some(value) if (1..=9).contains(&value) => {}
            _ => return false,
        }
        for other in 0..81usize {
            let related = row_of(idx) == row_of(other)
                || col_of(idx) == col_of(other)
                || box_of(idx) == box_of(other);
            if other != idx && related && board[other] == board[idx] {
                return false;
            }
        }
    }
    true
}

#[test]
fn options_are_all_symbols_where_the_units_are_empty() {
    let empty: Board = [None; 81];
    for idx in 0..81usize {
        assert_eq!(vec![1, 2, 3, 4, 5, 6, 7, 8, 9], get_cell_options(&empty, idx));
    }
    // values outside the cell's row, column and box do not matter
    let mut far: Board = [None; 81];
    far[40] = Some(5);
    far[80] = Some(1);
    assert_eq!(vec![1, 2, 3, 4, 5, 6, 7, 8, 9], get_cell_options(&far, 0));
}

#[test]
fn options_leave_out_row_column_and_box() {
    let mut board: Board = [None; 81];
    board[8] = Some(1); // same row as cell 0
    board[72] = Some(2); // same column
    board[20] = Some(3); // same box
    board[40] = Some(4); // unrelated
    assert_eq!(vec![4, 5, 6, 7, 8, 9], get_cell_options(&board, 0));
    assert_eq!(vec![1, 2, 3, 5, 6, 7, 8, 9], get_cell_options(&board, 41));
}

#[test]
fn options_leave_out_the_cells_own_value() {
    let mut board: Board = [None; 81];
    board[30] = Some(6);
    assert_eq!(vec![1, 2, 3, 4, 5, 7, 8, 9], get_cell_options(&board, 30));
    let easy = parse(EASY).unwrap();
    for idx in 0..81usize {
        if let Some(value) = easy[idx] {
            assert!(!get_cell_options(&easy, idx).contains(&value));
        }
    }
}

#[test]
fn options_are_empty_on_every_cell_of_a_finished_board() {
    let solved = parse(SOLVED).unwrap();
    for idx in 0..81usize {
        assert_eq!(Vec::<usize>::new(), get_cell_options(&solved, idx));
    }
}

#[test]
fn options_ignore_values_that_are_no_symbols() {
    let mut board: Board = [None; 81];
    board[1] = Some(0);
    board[2] = Some(10);
    board[3] = Some(usize::MAX);
    assert_eq!(vec![1, 2, 3, 4, 5, 6, 7, 8, 9], get_cell_options(&board, 0));
}

#[test]
fn empty_cells_come_in_ascending_order() {
    let easy = parse(EASY).unwrap();
    let expected: Vec<usize> = (0..81usize).filter(|idx| easy[*idx].is_none()).collect();
    assert_eq!(expected, get_empty_cells(&easy));
    assert_eq!(Vec::<usize>::new(), get_empty_cells(&parse(SOLVED).unwrap()));
    let empty: Board = [None; 81];
    assert_eq!((0..81usize).collect::<Vec<usize>>(), get_empty_cells(&empty));
}

#[test]
fn cells_options_are_ordered_by_count_and_keep_ties_in_place() {
    let mut board: Board = [None; 81];
    board[0] = Some(1);
    board[1] = Some(2);
    board[2] = Some(3);
    board[9] = Some(4);
    // cell 10 sees 1, 2, 3, 4; cells 3 and 4 see 1, 2, 3; cell 80 sees nothing
    let list = get_cells_options(&board, vec![80, 4, 10, 3]);
    assert_eq!(
        vec![
            (10, vec![5, 6, 7, 8, 9]),
            (4, vec![4, 5, 6, 7, 8, 9]),
            (3, vec![4, 5, 6, 7, 8, 9]),
            (80, vec![1, 2, 3, 4, 5, 6, 7, 8, 9]),
        ],
        list
    );
    assert_eq!(Vec::<(usize, Vec<usize>)>::new(), get_cells_options(&board, vec![]));
}

#[test]
fn cells_options_match_a_stable_sort() {
    let easy = parse(EASY).unwrap();
    let cells = get_empty_cells(&easy);
    let mut expected: Vec<(usize, Vec<usize>)> = cells
        .iter()
        .map(|cell| (*cell, get_cell_options(&easy, *cell)))
        .collect();
    expected.sort_by(|a, b| a.1.len().cmp(&b.1.len()));
    assert_eq!(expected, get_cells_options(&easy, cells));
}

#[test]
fn solve_returns_a_full_board_as_it_is() {
    let solved = parse(SOLVED).unwrap();
    assert_eq!(Some(solved), solve(&solved));
}

#[test]
fn solve_returns_a_full_board_with_a_duplicate_as_it_is() {
    let ones: Board = [Some(1); 81];
    assert_eq!(Some(ones), solve(&ones));
}

#[test]
fn solve_keeps_a_duplicate_that_the_board_came_with() {
    let mut board = parse(SOLVED).unwrap();
    // two equal values in the first row, and one empty cell elsewhere
    board[1] = Some(4);
    board[80] = None;
    match solve(&board) {
        Some(result) => {
            assert_eq!(Some(4), result[0]);
            assert_eq!(Some(4), result[1]);
            assert!(!is_finished(&result));
        }
        None => {}
    }
}

#[test]
fn solve_reports_a_board_without_completion() {
    // the first row leaves only 9 for its last cell, and the column below holds a 9
    let mut board: Board = [None; 81];
    for col in 0..8usize {
        board[col] = Some(col + 1);
    }
    board[17] = Some(9);
    assert_eq!(Vec::<usize>::new(), get_cell_options(&board, 8));
    assert_eq!(None, solve(&board));
}

#[test]
fn solve_reports_a_dead_end_found_only_by_search() {
    // every empty cell has a candidate, yet the two cells of the first row
    // would both need the 9
    let mut board: Board = [None; 81];
    for col in 0..7usize {
        board[col] = Some(col + 1);
    }
    board[16] = Some(8);
    board[17 + 9] = Some(8);
    assert_eq!(vec![9], get_cell_options(&board, 7));
    assert_eq!(vec![9], get_cell_options(&board, 8));
    assert_eq!(None, solve(&board));
}

#[test]
fn solve_fills_the_empty_board() {
    let empty: Board = [None; 81];
    let result = solve(&empty).unwrap();
    assert!(is_finished(&result));
}

#[test]
fn solve_completes_the_board_it_was_given() {
    let easy = parse(EASY).unwrap();
    let result = solve(&easy).unwrap();
    assert!(is_finished(&result));
    for idx in 0..81usize {
        if easy[idx].is_some() {
            assert_eq!(easy[idx], result[idx]);
        }
    }
    assert_eq!(easy, parse(EASY).unwrap());
}

#[test]
fn solve_finds_the_one_missing_value() {
    let solved = parse(SOLVED).unwrap();
    for idx in 0..81usize {
        let mut board = solved;
        board[idx] = None;
        assert_eq!(Some(solved), solve(&board));
    }
}

#[test]
fn solve_takes_the_lowest_candidate_of_the_most_constrained_cell_first() {
    // cell 0 is the only cell with two candidates; both lead to a solution
    let mut board: Board = [None; 81];
    for col in 1..8usize {
        board[col] = Some(col);
    }
    assert_eq!(vec![8, 9], get_cell_options(&board, 0));
    assert_eq!(vec![8, 9], get_cell_options(&board, 8));
    let result = solve(&board).unwrap();
    assert!(is_finished(&result));
    assert_eq!(Some(8), result[0]);
    assert_eq!(Some(9), result[8]);
}

#[test]
fn solve_a_puzzle_with_few_givens() {
    let board = parse(
        "
        5,3, , ,7, , , , ,
        6, , ,1,9,5, , , ,
         ,9,8, , , , ,6, ,
        8, , , ,6, , , ,3,
        4, , ,8, ,3, , ,1,
        7, , , ,2, , , ,6,
         ,6, , , , ,2,8, ,
         , , ,4,1,9, , ,5,
         , , , ,8, , ,7,9
        ",
    )
    .unwrap();
    let expected = parse(
        "
        5,3,4,6,7,8,9,1,2,
        6,7,2,1,9,5,3,4,8,
        1,9,8,3,4,2,5,6,7,
        8,5,9,7,6,1,4,2,3,
        4,2,6,8,5,3,7,9,1,
        7,1,3,9,2,4,8,5,6,
        9,6,1,5,3,7,2,8,4,
        2,8,7,4,1,9,6,3,5,
        3,4,5,2,8,6,1,7,9
        ",
    )
    .unwrap();
    assert_eq!(Some(expected), solve(&board));
}

#[test]
fn derived_boards_do_not_share_cells() {
    let source: Board = [None; 81];
    let left = change_board(&source, 0, 1);
    let right = change_board(&source, 0, 2);
    assert_eq!(None, source[0]);
    assert_eq!(Some(1), left[0]);
    assert_eq!(Some(2), right[0]);
}

fn related(a: usize, b: usize) -> bool {
    row_of(a) == row_of(b) || col_of(a) == col_of(b) || box_of(a) == box_of(b)
}

fn plain_options(board: &Board, idx: usize) -> Vec<usize> {
    let mut taken = std::collections::HashSet::new();
    for other in 0..81usize {
        if related(idx, other) {
            if let Some(value) = board[other] {
                taken.insert(value);
            }
        }
    }
    (1..=9usize).filter(|value| !taken.contains(value)).collect()
}

fn plain_search(board: &Board) -> Option<Board> {
    let empty: Vec<usize> = (0..81usize).filter(|idx| board[*idx].is_none()).collect();
    if empty.is_empty() {
        return Some(*board);
    }
    let mut listed: Vec<(usize, Vec<usize>)> = empty
        .iter()
        .map(|cell| (*cell, plain_options(board, *cell)))
        .collect();
    listed.sort_by(|a, b| a.1.len().cmp(&b.1.len()));
    let (cell, options) = &listed[0];
    for option in options {
        let mut next = *board;
        next[*cell] = Some(*option);
        if let Some(found) = plain_search(&next) {
            return Some(found);
        }
    }
    None
}

fn sample_boards() -> Vec<Board> {
    let solved = parse(SOLVED).unwrap();
    let mut seed: u64 = 0x2545F4914F6CDD1D;
    let mut next = move || {
        seed ^= seed << 13;
        seed ^= seed >> 7;
        seed ^= seed << 17;
        seed
    };
    let mut boards = Vec::new();
    for round in 0..60usize {
        let mut board = solved;
        let blanks = 5 + round;
        for _ in 0..blanks {
            board[(next() % 81) as usize] = None;
        }
        if round % 3 == 0 {
            // a value that may or may not fit
            board[(next() % 81) as usize] = Some((next() % 9) as usize + 1);
        }
        boards.push(board);
    }
    boards
}

#[test]
fn solve_agrees_with_a_plain_search() {
    let mut solvable = 0;
    let mut unsolvable = 0;
    for board in sample_boards() {
        let expected = plain_search(&board);
        match expected {
            Some(_) => solvable += 1,
            None => unsolvable += 1,
        }
        assert_eq!(expected, solve(&board));
    }
    assert!(solvable > 0 && unsolvable > 0);
}

#[test]
fn options_agree_with_a_plain_scan() {
    for board in sample_boards() {
        for idx in 0..81usize {
            assert_eq!(plain_options(&board, idx), get_cell_options(&board, idx));
        }
    }
}

#[test]
fn solve_returns_completions_only() {
    for board in sample_boards() {
        if let Some(result) = solve(&board) {
            for idx in 0..81usize {
                match board[idx] {
                    Some(_) => assert_eq!(board[idx], result[idx]),
                    None => {
                        let value = result[idx].unwrap();
                        assert!(1 <= value && value <= 9);
                        for other in 0..81usize {
                            if other != idx && related(idx, other) {
                                assert_ne!(Some(value), result[other]);
                            }
                        }
                    }
                }
            }
        }
    }
}
