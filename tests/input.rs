use nonogram::input::{is_quit_command, parse_run_lengths};
use nonogram::NonoError;

#[test]
fn run_lengths_are_read_apart_by_white_space() {
    assert_eq!(parse_run_lengths("1 2 3"), Ok(vec![1, 2, 3]));
    assert_eq!(parse_run_lengths("  7\t8 \n"), Ok(vec![7, 8]));
    assert_eq!(parse_run_lengths("255 0"), Ok(vec![255, 0]));
    assert_eq!(parse_run_lengths("+5 007"), Ok(vec![5, 7]));
    assert_eq!(parse_run_lengths("4\u{3000}2"), Ok(vec![4, 2]));
}

#[test]
fn empty_input_has_no_run_lengths() {
    assert_eq!(parse_run_lengths(""), Ok(vec![]));
    assert_eq!(parse_run_lengths(" \t "), Ok(vec![]));
}

#[test]
fn words_that_are_no_byte_are_refused() {
    assert_eq!(parse_run_lengths("256"), Err(NonoError::ParseError));
    assert_eq!(parse_run_lengths("1 -1"), Err(NonoError::ParseError));
    assert_eq!(parse_run_lengths("1a 2"), Err(NonoError::ParseError));
    assert_eq!(parse_run_lengths("+"), Err(NonoError::ParseError));
    assert_eq!(parse_run_lengths("3 00000000000300"), Err(NonoError::ParseError));
    assert_eq!(parse_run_lengths("q"), Err(NonoError::ParseError));
}

#[test]
fn quit_words_end_the_input() {
    assert!(is_quit_command("q"));
    assert!(is_quit_command(" quit\n"));
    assert!(is_quit_command("\texit  "));
    assert!(!is_quit_command("Q"));
    assert!(!is_quit_command("quitx"));
    assert!(!is_quit_command("q q"));
    assert!(!is_quit_command(""));
    assert!(!is_quit_command("  "));
    assert!(!is_quit_command("1 2"));
}
