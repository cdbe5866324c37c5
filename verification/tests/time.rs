use manread::time::parse_release_date;
use manread::error::ApiError;
use manread::time::{accept_timestamp, birthdate_millis, new_release_millis, release_date_millis};

fn message<T: std::fmt::Debug>(r: Result<T, ApiError>) -> String {
    match r {
        Err(ApiError::InvalidInput(m)) => m,
        other => panic!("expected invalid input, got {:?}", other),
    }
}

#[test]
fn signup_rejects_invalid_birthdate_timestamp() {
    assert_eq!(message(birthdate_millis(u64::MAX)), "invalid birthdate timestamp");
    assert_eq!(message(birthdate_millis(i64::MAX as u64)), "invalid birthdate timestamp");
}

#[test]
fn birthdates_in_range() {
    assert_eq!(birthdate_millis(0).ok(), Some(0));
    assert_eq!(birthdate_millis(946_684_800_000).ok(), Some(946_684_800_000));
}

#[test]
fn chapter_edit_rejects_invalid_release_date_timestamp() {
    assert_eq!(
        message(release_date_millis(i64::MAX as u64)),
        "Invalid release_date timestamp"
    );
    // values past i64::MAX wrap to negative instants
    assert_eq!(release_date_millis(u64::MAX).ok(), Some(-1));
}

#[test]
fn timestamp_acceptance() {
    assert_eq!(accept_timestamp(5, true, "bad").ok(), Some(5));
    assert_eq!(message(accept_timestamp(5, false, "bad")), "bad");
}

#[test]
fn release_dates_of_restored_chapters() {
    assert_eq!(
        parse_release_date(Some("2024-01-02T03:04:05Z".to_owned())),
        Some((1_704_164_645, 0))
    );
    assert_eq!(
        parse_release_date(Some("2024-01-02T04:04:05.5+01:00".to_owned())),
        Some((1_704_164_645, 500_000_000))
    );
    assert_eq!(parse_release_date(Some("yesterday".to_owned())), None);
    assert_eq!(parse_release_date(None), None);
}

#[test]
fn add_rejects_invalid_release_date_timestamp() {
    assert_eq!(message(new_release_millis(Some(u64::MAX))), "Invalid release_date timestamp");
}

#[test]
fn new_chapter_release_dates() {
    assert_eq!(new_release_millis(None).ok(), Some(None));
    assert_eq!(new_release_millis(Some(1_704_164_645_000)).ok(), Some(Some(1_704_164_645_000)));
    assert_eq!(
        message(new_release_millis(Some(8_210_266_876_800_000))),
        "Invalid release_date timestamp"
    );
    assert_eq!(
        new_release_millis(Some(8_210_266_876_799_999)).ok(),
        Some(Some(8_210_266_876_799_999))
    );
}

#[test]
fn representable_range_bounds() {
    assert_eq!(release_date_millis(8_210_266_876_799_999).ok(), Some(8_210_266_876_799_999));
    assert!(release_date_millis(8_210_266_876_800_000).is_err());
    let min = -8_334_601_228_800_000i64;
    assert_eq!(release_date_millis(min as u64).ok(), Some(min));
    assert!(release_date_millis((min - 1) as u64).is_err());
}
