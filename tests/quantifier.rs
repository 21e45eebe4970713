use regex::{ErrorKind, Quantifier};

#[test]
fn parse_test_single_char_quantifier() {
    let result = Quantifier::parse("").unwrap();
    assert_eq!(result, Quantifier::Single);

    let result = Quantifier::parse("?").unwrap();
    assert_eq!(result, Quantifier::AtMost(1));

    let result = Quantifier::parse("*").unwrap();
    assert_eq!(result, Quantifier::AtLeast(0));

    let result = Quantifier::parse("+").unwrap();
    assert_eq!(result, Quantifier::AtLeast(1));
}

#[test]
fn parse_test_invalid_character() {
    let result = Quantifier::parse("x").unwrap_err();
    assert_eq!(result.kind(), &ErrorKind::InvalidSyntax);

    let result = Quantifier::parse("43").unwrap_err();
    assert_eq!(result.kind(), &ErrorKind::InvalidSyntax);

    let result = Quantifier::parse("hello").unwrap_err();
    assert_eq!(result.kind(), &ErrorKind::InvalidSyntax);
}

#[test]
fn parse_test_ranged() {
    let result = Quantifier::parse("{13,43}").unwrap();
    assert_eq!(result, Quantifier::Range(13, 43));
}

#[test]
fn parse_test_ranged_single() {
    let result = Quantifier::parse("{13}").unwrap();
    assert_eq!(result, Quantifier::AtLeast(13));

    let result = Quantifier::parse("{13,}").unwrap();
    assert_eq!(result, Quantifier::AtLeast(13));

    let result = Quantifier::parse("{ 13 , }").unwrap();
    assert_eq!(result, Quantifier::AtLeast(13));

    let result = Quantifier::parse("{ 13\t, }").unwrap();
    assert_eq!(result, Quantifier::AtLeast(13));

    let result = Quantifier::parse("{,13}").unwrap();
    assert_eq!(result, Quantifier::AtMost(13));

    let result = Quantifier::parse("{, 13 }").unwrap();
    assert_eq!(result, Quantifier::AtMost(13));
}

#[test]
fn quantifier_test_single_char_quantifier() {
    let result = Quantifier::parse("").unwrap();
    assert_eq!(result, Quantifier::Single);

    let result = Quantifier::parse("?").unwrap();
    assert_eq!(result, Quantifier::AtMost(1));

    let result = Quantifier::parse("*").unwrap();
    assert_eq!(result, Quantifier::AtLeast(0));

    let result = Quantifier::parse("+").unwrap();
    assert_eq!(result, Quantifier::AtLeast(1));
}

#[test]
fn quantifier_test_invalid_character() {
    let result = Quantifier::parse("x").unwrap_err();
    assert_eq!(result.kind(), &ErrorKind::InvalidSyntax);

    let result = Quantifier::parse("43").unwrap_err();
    assert_eq!(result.kind(), &ErrorKind::InvalidSyntax);

    let result = Quantifier::parse("hello").unwrap_err();
    assert_eq!(result.kind(), &ErrorKind::InvalidSyntax);
}

#[test]
fn quantifier_test_ranged() {
    let result = Quantifier::parse("{13,43}").unwrap();
    assert_eq!(result, Quantifier::Range(13, 43));

    let result = Quantifier::parse("{43,13}").unwrap();
    assert_eq!(result, Quantifier::Range(43, 13));

    let result = Quantifier::parse("{14, 80}").unwrap();
    assert_eq!(result, Quantifier::Range(14, 80));

    let result = Quantifier::parse("{30,30}").unwrap();
    assert_eq!(result, Quantifier::Range(30, 30));
}

#[test]
fn quantifier_test_ranged_single() {
    let result = Quantifier::parse("{13}").unwrap();
    assert_eq!(result, Quantifier::AtLeast(13));

    let result = Quantifier::parse("{13,}").unwrap();
    assert_eq!(result, Quantifier::AtLeast(13));

    let result = Quantifier::parse("{ 13 , }").unwrap();
    assert_eq!(result, Quantifier::AtLeast(13));

    let result = Quantifier::parse("{ 13\t, }").unwrap();
    assert_eq!(result, Quantifier::AtLeast(13));

    let result = Quantifier::parse("{,13}").unwrap();
    assert_eq!(result, Quantifier::AtMost(13));

    let result = Quantifier::parse("{, 13 }").unwrap();
    assert_eq!(result, Quantifier::AtMost(13));

    let result = Quantifier::parse("{, 80 }").unwrap();
    assert_eq!(result, Quantifier::AtMost(80));
}

#[test]
fn test_ranged_error_cases() {
    let result = Quantifier::parse("{}").unwrap_err();
    assert_eq!(result.kind(), &ErrorKind::InvalidQuantifier);

    let result = Quantifier::parse("{x}").unwrap_err();
    assert_eq!(result.kind(), &ErrorKind::InvalidSyntax);

    let result = Quantifier::parse("{,}").unwrap_err();
    assert_eq!(result.kind(), &ErrorKind::InvalidQuantifier);

    let result = Quantifier::parse("{13, y}").unwrap_err();
    assert_eq!(result.kind(), &ErrorKind::InvalidSyntax);

    let result = Quantifier::parse("{1, 2, 3}").unwrap_err();
    assert_eq!(result.kind(), &ErrorKind::InvalidQuantifier);

    let result = Quantifier::parse("a{}").unwrap_err();
    assert_eq!(result.kind(), &ErrorKind::InvalidSyntax);
}

#[test]
fn too_many_fields_without_spaces() {
    let result = Quantifier::parse("{1,2,3}").unwrap_err();
    assert_eq!(result.kind(), &ErrorKind::InvalidQuantifier);
    assert_eq!(result.message(), "Cannot create a ranged quantifier with 3 fields.");
}

#[test]
fn first_character_decides() {
    assert_eq!(Quantifier::parse("?x").unwrap(), Quantifier::AtMost(1));
    let result = Quantifier::parse("x").unwrap_err();
    assert_eq!(
        result.message(),
        "Could not determine quantifier type from supplied character 'x'"
    );
}

#[test]
fn bad_field_beats_field_count() {
    let result = Quantifier::parse("{1,2,x}").unwrap_err();
    assert_eq!(result.kind(), &ErrorKind::InvalidSyntax);
    assert_eq!(result.message(), "invalid digit found in string");
}

#[test]
fn counts_follow_unsigned_integer_syntax() {
    assert_eq!(Quantifier::parse("{+7}").unwrap(), Quantifier::AtLeast(7));
    assert_eq!(Quantifier::parse("{007,}").unwrap(), Quantifier::AtLeast(7));
    assert_eq!(Quantifier::parse("{+}").unwrap_err().kind(), &ErrorKind::InvalidSyntax);
    assert_eq!(Quantifier::parse("{-1}").unwrap_err().kind(), &ErrorKind::InvalidSyntax);
    assert_eq!(Quantifier::parse("{1 3}").unwrap_err().kind(), &ErrorKind::InvalidSyntax);
}

#[test]
fn largest_count_and_overflow() {
    let max = format!("{{{},}}", usize::MAX);
    assert_eq!(Quantifier::parse(&max).unwrap(), Quantifier::AtLeast(usize::MAX));
    let over = format!("{{{}0}}", usize::MAX);
    let result = Quantifier::parse(&over).unwrap_err();
    assert_eq!(result.kind(), &ErrorKind::InvalidSyntax);
    assert_eq!(result.message(), "number too large to fit in target type");
}

#[test]
fn unicode_white_space_around_fields() {
    assert_eq!(Quantifier::parse("{\u{3000}5\u{a0},\n}").unwrap(), Quantifier::AtLeast(5));
    assert_eq!(Quantifier::parse("{ ,\t9\r}").unwrap(), Quantifier::AtMost(9));
}

#[test]
fn stray_braces_are_ignored() {
    assert_eq!(Quantifier::parse("{2,5").unwrap(), Quantifier::Range(2, 5));
    assert_eq!(Quantifier::parse("{{2}},5}").unwrap(), Quantifier::Range(2, 5));
}

#[test]
fn quantifier_pattern_text() {
    assert_eq!(Quantifier::Single.to_pattern(), "");
    assert_eq!(Quantifier::AtLeast(13).to_pattern(), "{13,}");
    assert_eq!(Quantifier::AtMost(0).to_pattern(), "{,0}");
    assert_eq!(Quantifier::Range(43, 13).to_pattern(), "{43,13}");
}

#[test]
fn quantifier_text_reads_back() {
    let cases = [
        Quantifier::Single,
        Quantifier::AtLeast(0),
        Quantifier::AtLeast(13),
        Quantifier::AtMost(1),
        Quantifier::AtMost(usize::MAX),
        Quantifier::Range(43, 13),
        Quantifier::Range(30, 30),
    ];
    for q in cases {
        assert_eq!(Quantifier::parse(&q.to_pattern()).unwrap(), q);
    }
}

#[test]
fn empty_field_messages() {
    let result = Quantifier::parse("{}").unwrap_err();
    assert_eq!(result.message(), "Cannot create a ranged quantifier with an empty field.");
    let result = Quantifier::parse("{,}").unwrap_err();
    assert_eq!(result.message(), "Cannot create ranged quantifier with two empty fields.");
}

#[test]
fn first_bad_field_gives_the_message() {
    let result = Quantifier::parse("{x, 99999999999999999999999}").unwrap_err();
    assert_eq!(result.message(), "invalid digit found in string");
    let result = Quantifier::parse("{99999999999999999999999, x}").unwrap_err();
    assert_eq!(result.message(), "number too large to fit in target type");
    let result = Quantifier::parse("{99999999999999999999999x}").unwrap_err();
    assert_eq!(result.message(), "number too large to fit in target type");
    let result = Quantifier::parse("{9x9999999999999999999999}").unwrap_err();
    assert_eq!(result.message(), "invalid digit found in string");
}
