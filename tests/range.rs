use regex::{ErrorKind, Range, RangeMatch};

fn parse(text: &str) -> Result<Vec<RangeMatch>, ErrorKind> {
    match Range::parse(&String::from(text)) {
        Ok(range) => Ok(range.matches().clone()),
        Err(error) => Err(*error.kind()),
    }
}

#[test]
fn test_bracket_removal() {
    let expected_result = String::from("abc");
    let test_cases = ["abc", "abc]", "[abc", "[abc]"];

    for case in test_cases {
        let string_value = String::from(case);
        let removed_brackets = Range::remove_enclosing_brackets(&string_value);

        assert_eq!(removed_brackets, expected_result);
    }
}

#[test]
fn test_intermediate_bracket_removal() {
    let intermediate_test = String::from("[[]");
    let expected_result = String::from("[");

    assert_eq!(Range::remove_enclosing_brackets(&intermediate_test), expected_result);
}

#[test]
fn test_bracket_removal_edge_cases() {
    let expected_result = String::from("");
    let test_cases = ["[", "]", "", "[]"];

    for case in test_cases {
        let string_value = String::from(case);
        let removed_brackets = Range::remove_enclosing_brackets(&string_value);

        assert_eq!(removed_brackets, expected_result);
    }
}

#[test]
fn double_open_bracket_keeps_inner() {
    assert_eq!(Range::remove_enclosing_brackets(&String::from("[[")), "[");
}

#[test]
fn singles_and_ranges_in_order() {
    assert_eq!(
        parse("[a-z_0-9x]"),
        Ok(vec![
            RangeMatch::Range('a', 'z'),
            RangeMatch::Single('_'),
            RangeMatch::Range('0', '9'),
            RangeMatch::Single('x'),
        ])
    );
    assert_eq!(parse("[]"), Ok(vec![]));
    assert_eq!(parse("a"), Ok(vec![RangeMatch::Single('a')]));
}

#[test]
fn duplicates_and_overlaps_are_kept() {
    assert_eq!(
        parse("[aa-cb-d]"),
        Ok(vec![
            RangeMatch::Single('a'),
            RangeMatch::Range('a', 'c'),
            RangeMatch::Range('b', 'd'),
        ])
    );
}

#[test]
fn equal_bounds_form_a_range() {
    assert_eq!(parse("[c-c]"), Ok(vec![RangeMatch::Range('c', 'c')]));
}

#[test]
fn escapes_decode() {
    assert_eq!(
        parse("[\\n\\t\\r\\-\\\\\\q]"),
        Ok(vec![
            RangeMatch::Single('\n'),
            RangeMatch::Single('\t'),
            RangeMatch::Single('\r'),
            RangeMatch::Single('-'),
            RangeMatch::Single('\\'),
            RangeMatch::Single('q'),
        ])
    );
    assert_eq!(parse("[\\[\\]]"), Ok(vec![RangeMatch::Single('['), RangeMatch::Single(']')]));
    assert_eq!(parse("[\\t-\\n]"), Ok(vec![RangeMatch::Range('\t', '\n')]));
}

#[test]
fn unescaped_delimiter_in_body() {
    assert_eq!(parse("[a[b]"), Err(ErrorKind::InvalidSyntax));
    assert_eq!(parse("[a]b]"), Err(ErrorKind::InvalidSyntax));
    assert_eq!(parse("[[]"), Err(ErrorKind::InvalidSyntax));
    assert_eq!(parse("[[[]"), Err(ErrorKind::InvalidSyntax));
}

#[test]
fn reversed_range() {
    assert_eq!(parse("[z-a]"), Err(ErrorKind::InvalidMatchRange));
    assert_eq!(parse("[0-9z-a]"), Err(ErrorKind::InvalidMatchRange));
    assert_eq!(parse("[\\n-\\t]"), Err(ErrorKind::InvalidMatchRange));
    let error = Range::parse(&String::from("z-a")).unwrap_err();
    assert_eq!(error.message(), "Could not form match range: 'z' sorts after 'a'");
}

#[test]
fn range_marker_without_start() {
    assert_eq!(parse("[-a]"), Err(ErrorKind::InvalidSyntax));
    assert_eq!(parse("[a-b-c]"), Err(ErrorKind::InvalidSyntax));
}

#[test]
fn trailing_range_marker_is_refused() {
    assert_eq!(parse("[a-]"), Err(ErrorKind::InvalidSyntax));
    assert_eq!(parse("[-]"), Err(ErrorKind::InvalidSyntax));
    assert_eq!(parse("[a\\-]"), Ok(vec![RangeMatch::Single('a'), RangeMatch::Single('-')]));
}

#[test]
fn trailing_escape_is_ignored() {
    assert_eq!(parse("ab\\"), Ok(vec![RangeMatch::Single('a'), RangeMatch::Single('b')]));
}

#[test]
fn building_a_range() {
    let mut range = Range::default();
    assert!(range.matches().is_empty());
    range.add_single('x');
    range.add_range('a', 'f');
    assert_eq!(
        range.matches(),
        &vec![RangeMatch::Single('x'), RangeMatch::Range('a', 'f')]
    );
    assert_eq!(range.to_pattern(), "[xa-f]");
}

#[test]
fn class_pattern_escapes_special_characters() {
    let mut range = Range::default();
    range.add_single(']');
    range.add_range('-', '[');
    range.add_single('\\');
    range.add_single('n');
    assert_eq!(range.to_pattern(), "[\\]\\--\\[\\\\n]");
}

#[test]
fn class_text_reads_back() {
    for text in ["[a-z_0-9x]", "[]", "[\\n\\-\\]\\[-\\\\]", "[aa-cb-d]", "q"] {
        let first = Range::parse(&String::from(text)).unwrap();
        let again = Range::parse(&first.to_pattern()).unwrap();
        assert_eq!(again.matches(), first.matches());
    }
}

#[test]
fn failure_messages_name_the_characters() {
    let error = Range::parse(&String::from("[-a]")).unwrap_err();
    assert_eq!(
        error.message(),
        "Malformed range statement: could not complete range ending in 'a'."
    );
    let error = Range::parse(&String::from("[a-b-c]")).unwrap_err();
    assert_eq!(
        error.message(),
        "Malformed range statement: could not complete range ending in 'c'."
    );
    let error = Range::parse(&String::from("[\\n-\\t]")).unwrap_err();
    assert_eq!(error.message(), "Could not form match range: '\n' sorts after '\t'");
    let error = Range::parse(&String::from("[a[b]")).unwrap_err();
    assert_eq!(error.message(), "Reached beginning of new match range while parsing");
    let error = Range::parse(&String::from("[a]b]")).unwrap_err();
    assert_eq!(error.message(), "Reached end of match range while parsing");
    let error = Range::parse(&String::from("[a-]")).unwrap_err();
    assert_eq!(
        error.message(),
        "Malformed range statement: no character follows the range marker '-'."
    );
}

#[test]
fn backslash_count_decides_escaping() {
    assert_eq!(parse("[a\\[]"), Ok(vec![RangeMatch::Single('a'), RangeMatch::Single('[')]));
    assert_eq!(parse("[a\\\\[]"), Err(ErrorKind::InvalidSyntax));
    assert_eq!(
        parse("[a\\\\\\[]"),
        Ok(vec![RangeMatch::Single('a'), RangeMatch::Single('\\'), RangeMatch::Single('[')])
    );
}

#[test]
fn control_characters_are_written_as_escapes() {
    let mut range = Range::default();
    range.add_single('\n');
    range.add_range('\t', '\r');
    assert_eq!(range.to_pattern(), "[\\n\\t-\\r]");
    let again = Range::parse(&range.to_pattern()).unwrap();
    assert_eq!(again.matches(), range.matches());
}
