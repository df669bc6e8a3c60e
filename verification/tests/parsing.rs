use sudoku_solver::board::Board;
use sudoku_solver::game;
use sudoku_solver::input_parser;

const LENGTH: &str = "Board must be 81 symbols in length";
const SYMBOL: &str = "Board may only contain symbols 1 to 9 or blank squares";
const SIZE: &str = "Game board must be a square of max size 9";
const TOO_LARGE: &str = "Board contains a symbol that is too large";

fn board_text_with_last(last: &str) -> String {
    ",".repeat(80) + last
}

#[test]
fn parse_gives_an_empty_board_for_eighty_commas() {
    let empty: Board = [None; 81];
    assert_eq!(Ok(empty), game::parse(&",".repeat(80)));
}

#[test]
fn parse_reads_every_symbol_in_its_place() {
    let mut text = String::new();
    let mut expected: Board = [None; 81];
    for idx in 0..81usize {
        if idx > 0 {
            text.push(',');
        }
        if idx % 10 != 9 {
            expected[idx] = Some(idx % 9 + 1);
            text.push_str(&(idx % 9 + 1).to_string());
        }
    }
    assert_eq!(Ok(expected), game::parse(&text));
}

#[test]
fn parse_gives_boards_that_keep_the_layout() {
    let board = game::parse(&board_text_with_last("9")).unwrap();
    assert_eq!(81, board.len());
    for cell in board.iter() {
        if let Some(value) = cell {
            assert!(1 <= *value && *value <= 9);
        }
    }
    assert_eq!(Some(9), board[80]);
}

#[test]
fn parse_ignores_white_space_anywhere() {
    let plain = game::parse(&board_text_with_last("7")).unwrap();
    let spaced = " ,\t,\n".to_string() + &" , ".repeat(78) + "\u{3000}7\r\n";
    assert_eq!(Ok(plain), game::parse(&spaced));
    // white space inside a number goes too
    let mut expected: Board = [None; 81];
    expected[80] = Some(7);
    assert_eq!(Ok(expected), game::parse(&board_text_with_last("+ 0 7")));
}

#[test]
fn parse_takes_a_token_that_is_no_number_as_blank() {
    let empty: Board = [None; 81];
    for token in ["x", "-1", "1.0", "+", "one", "1-", "٣"] {
        assert_eq!(Ok(empty), game::parse(&board_text_with_last(token)), "token {:?}", token);
    }
}

#[test]
fn parse_accepts_a_plus_sign_and_leading_zeros() {
    let mut expected: Board = [None; 81];
    expected[80] = Some(5);
    assert_eq!(Ok(expected), game::parse(&board_text_with_last("+5")));
    assert_eq!(Ok(expected), game::parse(&board_text_with_last("005")));
}

#[test]
fn parse_refuses_zero() {
    assert_eq!(Err(SYMBOL), game::parse(&board_text_with_last("0")));
    assert_eq!(Err(SYMBOL), game::parse(&board_text_with_last("+00")));
    assert_eq!(Err(SYMBOL), game::parse(&("0".to_string() + &",".repeat(80))));
}

#[test]
fn parse_refuses_every_number_above_nine() {
    for token in ["10", "11", "99", "010", "+10", "4294967296", "18446744073709551615"] {
        assert_eq!(Err(SYMBOL), game::parse(&board_text_with_last(token)), "token {:?}", token);
    }
}

#[test]
fn parse_refuses_a_number_too_long_for_a_machine_word() {
    assert_eq!(
        Err(SYMBOL),
        game::parse(&board_text_with_last("18446744073709551616000000000000000000"))
    );
}

#[test]
fn parse_accepts_the_symbols_one_and_nine() {
    assert_eq!(Some(1), game::parse(&board_text_with_last("1")).unwrap()[80]);
    assert_eq!(Some(9), game::parse(&board_text_with_last("9")).unwrap()[80]);
}

#[test]
fn parse_checks_the_length_before_the_symbols() {
    assert_eq!(Err(LENGTH), game::parse(&(",".repeat(81) + "10")));
    assert_eq!(Err(LENGTH), game::parse(&(",".repeat(79) + "10")));
    assert_eq!(Err(LENGTH), game::parse("0"));
    assert_eq!(Err(LENGTH), game::parse(""));
}

#[test]
fn parse_refuses_every_other_token_count() {
    for commas in 0..200usize {
        let text = ",".repeat(commas);
        let result = game::parse(&text);
        if commas == 80 {
            assert!(result.is_ok());
        } else {
            assert_eq!(Err(LENGTH), result);
        }
    }
}

#[test]
fn parse_tells_its_two_failures_apart() {
    assert_ne!(LENGTH, SYMBOL);
    assert_ne!(game::parse(""), game::parse(&board_text_with_last("10")));
}

#[test]
fn grid_of_every_side_is_read() {
    for side in 1..=9usize {
        let text = ",".repeat(side * side - 1);
        assert_eq!(Ok((vec![None; side * side], side)), input_parser::parse(&text));
    }
}

#[test]
fn grid_of_no_square_size_is_refused() {
    for tokens in 1..=120usize {
        let text = ",".repeat(tokens - 1);
        let square = (1..=9usize).any(|side| side * side == tokens);
        assert_eq!(square, input_parser::parse(&text).is_ok(), "{} tokens", tokens);
        if !square {
            assert_eq!(Err(SIZE), input_parser::parse(&text));
        }
    }
}

#[test]
fn grid_accepts_symbols_up_to_its_side() {
    assert_eq!(
        Ok((vec![Some(1), Some(2), Some(2), Some(0)], 2)),
        input_parser::parse("1,2,+2,0")
    );
    assert_eq!(Err(TOO_LARGE), input_parser::parse("1,2,3,"));
    assert_eq!(Err(TOO_LARGE), input_parser::parse("2"));
    assert_eq!(Ok((vec![Some(1)], 1)), input_parser::parse("1"));
    let nine = ",".repeat(80) + "9";
    assert_eq!(Some(9), input_parser::parse(&nine).unwrap().0[80]);
    assert_eq!(Err(TOO_LARGE), input_parser::parse(&(",".repeat(80) + "10")));
}

#[test]
fn grid_checks_the_size_before_the_symbols() {
    assert_eq!(Err(SIZE), input_parser::parse("9,9"));
}

#[test]
fn grid_keeps_white_space_in_its_tokens() {
    assert_eq!(
        Ok((vec![Some(1), None, None, Some(2)], 2)),
        input_parser::parse("1, 2,2 ,2")
    );
}

#[test]
fn grid_takes_a_number_too_long_for_a_machine_word_as_blank() {
    assert_eq!(
        Ok((vec![None], 1)),
        input_parser::parse("18446744073709551616000000000000000000")
    );
    assert_eq!(Err(TOO_LARGE), input_parser::parse(&usize::MAX.to_string()));
}
