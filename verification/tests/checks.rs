use manread::checks::check_reset_token;
use manread::checks::{
    check_access_token, check_new_version, check_refresh, content_length, content_range,
    export_disposition, open_chapter, unsatisfiable_range, validate_character, validate_links,
    validate_name_list, validate_search,
};
use manread::error::ApiError;

fn message<T: std::fmt::Debug>(r: Result<T, ApiError>) -> String {
    match r {
        Err(ApiError::InvalidInput(m)) => m,
        other => panic!("expected invalid input, got {:?}", other),
    }
}

fn strings(v: &[&str]) -> Vec<String> {
    v.iter().map(|s| s.to_string()).collect()
}

#[test]
fn refresh_window() {
    assert!(check_refresh(true, 1_000, 10_000, 5).is_ok());
    assert!(check_refresh(true, 5_000, 10_000, 5).is_ok());
    assert!(matches!(check_refresh(true, 5_001, 10_000, 5), Err(ApiError::ExpiredToken)));
}

#[test]
fn refresh_refuses_an_access_token() {
    assert!(matches!(check_refresh(false, 1_000, 10_000, 5), Err(ApiError::InvalidInput(_))));
}

#[test]
fn reader_refuses_a_chapter_of_another_manga() {
    let chapters_a = vec!["chapter-a".to_owned()];
    assert!(matches!(
        open_chapter(Some("chapter-b".to_owned()), None, &chapters_a),
        Err(ApiError::NotFoundInDB)
    ));
}
