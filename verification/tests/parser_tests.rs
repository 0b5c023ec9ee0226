use obddimal::parser::{parse_string, DataFormatError, HeaderDataType, ParserSettings};

fn settings_ignoring_header() -> ParserSettings {
    ParserSettings { ignore_header: true, ..ParserSettings::default() }
}

#[test]
fn multiple_header_parse() {
    let input = "p cnf 1 1\np cnf 2 1\n1 2 0";
    let output = parse_string(&input, ParserSettings::default());

    assert_eq!(output, Err(DataFormatError::MultipleHeaders));
}

#[test]
fn small_inline_input_parse() {
    let input = "c a small formula\np cnf 3 2\n1 -3 0\n2 3 -1 0\n";
    let output = parse_string(input, ParserSettings::default()).unwrap();
    assert_eq!(output.terms, vec![vec![1, -3], vec![2, 3, -1]]);
    assert_eq!(output.varibale_count, 3);
    assert_eq!(output.term_count, 2);
    let mut order = output.order.clone();
    order.sort();
    assert_eq!(order, vec![1, 2, 3]);
}

#[test]
fn missing_header_inline_parse() {
    let output = parse_string("1 2 0\n", ParserSettings::default());
    assert_eq!(output, Err(DataFormatError::MissingHeader));
}

#[test]
fn ignored_header_inline_parse() {
    let output = parse_string("1 2 0\n", settings_ignoring_header()).unwrap();
    assert_eq!(output.terms, vec![vec![1, 2]]);
}

#[test]
fn malformed_header_inline_parse() {
    let output = parse_string("p cnf\n1 2 0\n", ParserSettings::default());
    assert_eq!(output, Err(DataFormatError::InvalidHeaderFormat));
    let output = parse_string("p cnf 2\n1 2 0\n", ParserSettings::default());
    assert_eq!(output, Err(DataFormatError::InvalidHeaderFormat));
}

#[test]
fn wrong_header_counts_inline_parse() {
    let output = parse_string("p cnf 3 1\n1 2 0\n", ParserSettings::default());
    assert_eq!(output, Err(DataFormatError::InvalidHeaderData(HeaderDataType::VariableCount)));
    let output = parse_string("p cnf 2 2\n1 2 0\n", ParserSettings::default());
    assert_eq!(output, Err(DataFormatError::InvalidHeaderData(HeaderDataType::TermCount)));
}

#[test]
fn non_ascending_inline_parse() {
    let output = parse_string("p cnf 2 1\n1 3 0\n", ParserSettings::default());
    assert_eq!(output, Err(DataFormatError::NonAscendingVariables));
    let output = parse_string(
        "p cnf 2 1\n1 3 0\n",
        ParserSettings { ignore_ascending_variables: true, ..ParserSettings::default() },
    )
    .unwrap();
    assert_eq!(output.terms, vec![vec![1, 3]]);
}

#[test]
fn invalid_number_inline_parse() {
    let output = parse_string("p cnf 1 1\n1 x 0\n", ParserSettings::default());
    assert!(matches!(output, Err(DataFormatError::InvalidNumber(_))));
    let output = parse_string("p cnf one 1\n1 0\n", ParserSettings::default());
    assert!(matches!(output, Err(DataFormatError::InvalidNumber(_))));
}

#[test]
fn crooked_inline_input_parse() {
    let input = "c comment\np cnf 3 2\n1 -3\n  2\t3 2 0 1 0\n";
    let output = parse_string(input, ParserSettings::default()).unwrap();
    assert_eq!(output.terms, vec![vec![1, -3, 2, 3, 2], vec![1]]);
}

#[test]
fn literals_after_the_last_zero_are_dropped() {
    let output = parse_string("p cnf 2 1\n1 2 0 2\n", ParserSettings::default()).unwrap();
    assert_eq!(output.terms, vec![vec![1, 2]]);
}

#[test]
fn error_messages() {
    assert_eq!(DataFormatError::MultipleHeaders.message(), "File contains more than one headers.");
    assert_eq!(DataFormatError::MissingHeader.message(), "File is missing a header.");
    assert_eq!(
        DataFormatError::InvalidHeaderData(HeaderDataType::TermCount).message(),
        "Data in given header is invalid: Wrong number of terms."
    );
    match parse_string("p cnf 1 1\n1 x 0\n", ParserSettings::default()) {
        Err(e) => assert_eq!(e.message(), "Non-number out of comment line: invalid digit found in string"),
        Ok(_) => panic!("should fail"),
    }
}
