use manread::error::ApiError;
use manread::number::{parse_u64, push_decimal};

#[test]
fn decimal_writing() {
    let mut s = String::from("n=");
    push_decimal(&mut s, 0);
    assert_eq!(s, "n=0");
    let mut s = String::new();
    push_decimal(&mut s, u64::MAX);
    assert_eq!(s, u64::MAX.to_string());
}

#[test]
fn decimal_reading() {
    assert_eq!(parse_u64("42"), Some(42));
    assert_eq!(parse_u64("+7"), Some(7));
    assert_eq!(parse_u64("18446744073709551615"), Some(u64::MAX));
    assert_eq!(parse_u64("18446744073709551616"), None);
    assert_eq!(parse_u64(""), None);
    assert_eq!(parse_u64("-1"), None);
    assert_eq!(parse_u64("1 "), None);
}

#[test]
fn error_constructors() {
    assert!(matches!(ApiError::db_error("x"), ApiError::WriteError(m) if m == "x"));
    assert!(matches!(ApiError::write_error("y"), ApiError::WriteError(m) if m == "y"));
    assert!(matches!(ApiError::invalid_input("z"), ApiError::InvalidInput(m) if m == "z"));
    assert!(matches!(ApiError::multipart_read_error("w"), ApiError::MultiPart(m) if m == "w"));
    assert_eq!(ApiError::NotFoundInDB.status_code(), 400);
}
