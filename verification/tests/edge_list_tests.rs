use deepwalk::edge_list::parse_edge_list;
use deepwalk::edge_list::ParseError;

#[test]
fn empty_text_holds_no_edge() {
    assert_eq!(parse_edge_list(b""), Ok(vec![]));
}

#[test]
fn one_edge_with_and_without_line_feed() {
    assert_eq!(parse_edge_list(b"1 2"), Ok(vec![vec![1, 2]]));
    assert_eq!(parse_edge_list(b"1 2\n"), Ok(vec![vec![1, 2]]));
}

#[test]
fn edges_come_in_the_order_of_the_lines() {
    assert_eq!(
        parse_edge_list(b"111 222\n111 333\n222 333\n"),
        Ok(vec![vec![111, 222], vec![111, 333], vec![222, 333]])
    );
}

#[test]
fn blanks_of_any_kind_separate() {
    assert_eq!(
        parse_edge_list(b"\t 7 \x0b\x0c 8 \r\n9\t10\r\n"),
        Ok(vec![vec![7, 8], vec![9, 10]])
    );
}

#[test]
fn signs_and_leading_zeros() {
    assert_eq!(
        parse_edge_list(b"-1 +2\n007 -0\n"),
        Ok(vec![vec![-1, 2], vec![7, 0]])
    );
}

#[test]
fn the_whole_range_of_ids() {
    assert_eq!(
        parse_edge_list(b"2147483647 -2147483648\n"),
        Ok(vec![vec![2147483647, -2147483648]])
    );
}

#[test]
fn ids_out_of_range_are_refused() {
    assert_eq!(
        parse_edge_list(b"2147483648 1\n"),
        Err(ParseError::NotAnInteger { line: 1 })
    );
    assert_eq!(
        parse_edge_list(b"1 2\n1 -2147483649\n"),
        Err(ParseError::NotAnInteger { line: 2 })
    );
    assert_eq!(
        parse_edge_list(b"99999999999999999999999999 1"),
        Err(ParseError::NotAnInteger { line: 1 })
    );
}

#[test]
fn fields_that_are_no_integers_are_refused() {
    assert_eq!(parse_edge_list(b"a b"), Err(ParseError::NotAnInteger { line: 1 }));
    assert_eq!(parse_edge_list(b"1 2\n3 4x\n"), Err(ParseError::NotAnInteger { line: 2 }));
    assert_eq!(parse_edge_list(b"1 -\n"), Err(ParseError::NotAnInteger { line: 1 }));
    assert_eq!(parse_edge_list(b"+ 1\n"), Err(ParseError::NotAnInteger { line: 1 }));
    assert_eq!(parse_edge_list(b"1.5 2\n"), Err(ParseError::NotAnInteger { line: 1 }));
    assert_eq!(parse_edge_list(b"--1 2\n"), Err(ParseError::NotAnInteger { line: 1 }));
    assert_eq!(parse_edge_list(b"1,2\n"), Err(ParseError::NotAnInteger { line: 1 }));
}

#[test]
fn lines_without_two_fields_are_refused() {
    assert_eq!(parse_edge_list(b"1\n"), Err(ParseError::WrongFieldCount { line: 1 }));
    assert_eq!(parse_edge_list(b"1 2 3\n"), Err(ParseError::WrongFieldCount { line: 1 }));
    assert_eq!(parse_edge_list(b"1 2\n\n3 4\n"), Err(ParseError::WrongFieldCount { line: 2 }));
    assert_eq!(parse_edge_list(b"1 2\n   \n"), Err(ParseError::WrongFieldCount { line: 2 }));
    assert_eq!(parse_edge_list(b"\n"), Err(ParseError::WrongFieldCount { line: 1 }));
}

#[test]
fn the_first_bad_line_is_named() {
    assert_eq!(
        parse_edge_list(b"1 2\n3\n4 x\n"),
        Err(ParseError::WrongFieldCount { line: 2 })
    );
    assert_eq!(
        parse_edge_list(b"1 2\n3 y z\n4\n"),
        Err(ParseError::NotAnInteger { line: 2 })
    );
}
