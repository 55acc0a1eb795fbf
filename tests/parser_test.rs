use sheet::label::{cell_parser, is_alpha, is_digit};

#[test]
fn parser_test_test_cell_parser() {
    assert_eq!(cell_parser("A1", 10, 10, 0, 1).unwrap(), 0);
    assert_eq!(cell_parser("B2", 10, 10, 0, 1).unwrap(), 11);
    assert!(cell_parser("Z1", 10, 10, 0, 1).is_err());

    assert_eq!(cell_parser("A1", 10, 10, 0, 1), Ok(0));
    assert_eq!(cell_parser("B2", 10, 10, 0, 1), Ok(11));
    assert_eq!(cell_parser("C3", 10, 10, 0, 1), Ok(22));
    assert_eq!(cell_parser("D4", 10, 10, 0, 1), Ok(33));
    assert_eq!(cell_parser("E5", 10, 10, 0, 1), Ok(44));
    assert_eq!(cell_parser("AA1", 100, 100, 0, 2), Ok(26));
    assert_eq!(cell_parser("B10", 10, 20, 0, 2), Ok(91));
    assert_eq!(cell_parser("A1A", 10, 10, 0, 2), Err("Letters after digits not allowed"));
    assert_eq!(cell_parser("A#1", 10, 10, 0, 2), Err("Invalid character in cell reference"));
    assert_eq!(cell_parser("A1", 10, 10, 0, 5), Err("Invalid cell reference"));
    assert_eq!(cell_parser("Z100", 5, 5, 0, 3), Err("Cell reference out of bounds"));
    assert_eq!(cell_parser("a1", 10, 10, 0, 1), Err("Invalid character in cell reference"));
    assert_eq!(cell_parser("A1", 10, 10, 2, 1), Err("Invalid cell reference"));
}

#[test]
fn parser_test_cell_parser() {
    assert_eq!(cell_parser("A1", 10, 10, 0, 2), Err("Invalid cell reference"));
    assert_eq!(cell_parser("B2", 10, 10, 0, 2), Err("Invalid cell reference"));
    assert!(cell_parser("Z1", 10, 10, 0, 2).is_err());
    assert_eq!(cell_parser("A1", 10, 10, 0, 1).unwrap(), 0);
    assert_eq!(cell_parser("B2", 10, 10, 0, 1).unwrap(), 11);
    assert!(cell_parser("Z1", 10, 10, 0, 1).is_err());
}

#[test]
fn label_inside_a_command() {
    assert_eq!(cell_parser("X=SUM(B2:C3)", 5, 5, 6, 7), Ok(6));
    assert_eq!(cell_parser("X=SUM(B2:C3)", 5, 5, 9, 10), Ok(12));
    assert_eq!(cell_parser("ZZ1", 1000, 10, 0, 2), Ok(701));
}

#[test]
fn letter_and_digit_classes() {
    assert!(is_alpha('A') && is_alpha('Z'));
    assert!(!is_alpha('a') && !is_alpha('1'));
    assert!(is_digit('0') && is_digit('9'));
    assert!(!is_digit('A') && !is_digit(' '));
}
