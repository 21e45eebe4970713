use regex::{Error, ErrorKind};

#[test]
fn error_keeps_kind_and_message() {
    let error = Error::new(ErrorKind::InvalidMatchRange, "out of order");
    assert_eq!(error.kind(), &ErrorKind::InvalidMatchRange);
    assert_eq!(error.message(), "out of order");

    let error = Error::with_message(ErrorKind::InvalidQuantifier, String::from("two empty fields"));
    assert_eq!(error.kind(), &ErrorKind::InvalidQuantifier);
    assert_eq!(error.message(), "two empty fields");
}
