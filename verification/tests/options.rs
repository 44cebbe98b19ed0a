//! Tests of the command-line validators.

use banking_exercise::options::{is_file, is_greater_than_zero, parse_usize, Options};

#[test]
fn parse_usize_accepts_decimal_numerals() {
    assert_eq!(parse_usize("0"), Some(0));
    assert_eq!(parse_usize("42"), Some(42));
    assert_eq!(parse_usize("+7"), Some(7));
    assert_eq!(parse_usize("0010"), Some(10));
}

#[test]
fn parse_usize_rejects_everything_else() {
    assert_eq!(parse_usize(""), None);
    assert_eq!(parse_usize("+"), None);
    assert_eq!(parse_usize("-3"), None);
    assert_eq!(parse_usize("3.5"), None);
    assert_eq!(parse_usize("12a"), None);
    assert_eq!(parse_usize("99999999999999999999999999999999"), None);
}

#[test]
fn worker_count_must_be_positive() {
    assert!(is_greater_than_zero("3".to_owned()).is_ok());
    assert!(is_greater_than_zero("+1".to_owned()).is_ok());
    assert_eq!(
        is_greater_than_zero("0".to_owned()),
        Err("The specified number of workers cannot be 0.".to_owned())
    );
    // an unparsable argument surfaces the parse error's own text
    assert_eq!(
        is_greater_than_zero("three".to_owned()),
        Err("invalid digit found in string".to_owned())
    );
    assert_eq!(
        is_greater_than_zero("".to_owned()),
        Err("cannot parse integer from empty string".to_owned())
    );
    assert_eq!(
        is_greater_than_zero("99999999999999999999999999999999".to_owned()),
        Err("number too large to fit in target type".to_owned())
    );
}

#[test]
fn input_file_must_exist() {
    // the running test binary itself is an existing file
    assert!(is_file("/proc/self/exe".to_owned()).is_ok());
    assert_eq!(
        is_file("no-such-transactions.csv".to_owned()),
        Err("The specified path 'no-such-transactions.csv' is not an accessible file.".to_owned())
    );
}

#[test]
fn options_carry_the_cli_surface() {
    let opts = Options { input_file: "transactions.csv".to_owned(), num_workers: Some(4) };
    assert_eq!(opts.input_file, "transactions.csv");
    assert_eq!(opts.num_workers, Some(4));
}
