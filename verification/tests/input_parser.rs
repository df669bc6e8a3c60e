use sudoku_solver::input_parser::parse;

#[test]
fn parse_empty_single_square() {
    assert_eq!(Ok((vec![None], 1)), parse(" "));
}

#[test]
fn parse_single_square() {
    assert_eq!(Ok((vec![Some(1)], 1)), parse("1"));
}

#[test]
fn parse_empty_three_square() {
    assert_eq!(
        Ok((
            vec![None, None, None, None, None, None, None, None, None],
            3
        )),
        parse(",,,,,,,,")
    );
}

#[test]
fn parse_three_square() {
    assert_eq!(
        Ok((
            vec![
                Some(1),
                None,
                Some(2),
                None,
                None,
                None,
                Some(3),
                None,
                None
            ],
            3
        )),
        parse("1,,2,,,,3,,")
    );
}

#[test]
fn parse_board_wrong_size() {
    assert_eq!(
        Err("Game board must be a square of max size 9"),
        parse(",,,,")
    );
}

#[test]
fn input_parser_parse_board_too_large() {
    assert_eq!(
        Err("Game board must be a square of max size 9"),
        // Board is square, but is 100 blocks - too large
        parse(",,,,,,,,,,,,,,,,,,,,,,,,,,,,,,,,,,,,,,,,,,,,,,,,,,,,,,,,,,,,,,,,,,,,,,,,,,,,,,,,,,,,,,,,,,,,,,,,,,,")
    );
}

#[test]
fn parse_board_symbol_too_large() {
    assert_eq!(
        Err("Board contains a symbol that is too large"),
        parse("1,2,3,4,,,,,")
    );
}
