use manread::error::ApiError;
use manread::validate::{
    reorder, sanitize_non_empty, validate_list_name, validate_non_empty, validate_non_empty_items,
    validate_pagination, validate_scrapers, validate_titles, Scraper,
};

fn message<T: std::fmt::Debug>(r: Result<T, ApiError>) -> String {
    match r {
        Err(ApiError::InvalidInput(m)) => m,
        other => panic!("expected invalid input, got {:?}", other),
    }
}

fn strings(v: &[&str]) -> Vec<String> {
    v.iter().map(|s| s.to_string()).collect()
}

#[test]
fn non_empty_fields() {
    assert!(validate_non_empty("uid", " u ").is_ok());
    assert_eq!(message(validate_non_empty("uid", " \t\n")), "uid cannot be empty");
    assert!(validate_non_empty_items("authors", &strings(&["a", "b"])).is_ok());
    assert!(validate_non_empty_items("authors", &vec![]).is_ok());
    assert_eq!(
        message(validate_non_empty_items("authors", &strings(&["a", "  "]))),
        "authors cannot contain empty values"
    );
}

#[test]
fn pagination() {
    assert!(validate_pagination(1, 1).is_ok());
    assert_eq!(message(validate_pagination(0, 0)), "page must be >= 1");
    assert_eq!(message(validate_pagination(3, 0)), "limit must be >= 1");
}

#[test]
fn token_list_rejects_page_zero() {
    assert!(validate_pagination(0, 10).is_err());
}

#[test]
fn user_list_rejects_page_zero() {
    assert_eq!(message(validate_pagination(0, 10)), "page must be >= 1");
}

#[test]
fn chapter_version_list_rejects_page_zero() {
    assert_eq!(message(validate_pagination(0, 10)), "page must be >= 1");
}

#[test]
fn titles() {
    assert_eq!(message(validate_titles(&vec![])), "names cannot be empty");
    assert!(validate_titles(&vec![("en".to_owned(), strings(&["A"]))]).is_ok());
    assert_eq!(
        message(validate_titles(&vec![(" ".to_owned(), strings(&["A"]))])),
        "language cannot be empty"
    );
    assert_eq!(
        message(validate_titles(&vec![
            ("en".to_owned(), strings(&["A"])),
            ("de".to_owned(), vec![])
        ])),
        "name list cannot be empty"
    );
    assert_eq!(
        message(validate_titles(&vec![("en".to_owned(), strings(&["A", ""]))])),
        "names cannot contain empty values"
    );
}

#[test]
fn scrapers() {
    let ok = Scraper {
        channel: "c".to_owned(),
        url: "u".to_owned(),
    };
    assert!(validate_scrapers(&vec![ok]).is_ok());
    let bad = Scraper {
        channel: "c".to_owned(),
        url: " ".to_owned(),
    };
    assert_eq!(message(validate_scrapers(&vec![bad])), "scraper.url cannot be empty");
    let bad = Scraper {
        channel: "".to_owned(),
        url: " ".to_owned(),
    };
    assert_eq!(message(validate_scrapers(&vec![bad])), "scraper.channel cannot be empty");
}

#[test]
fn sanitizing() {
    assert_eq!(
        sanitize_non_empty(strings(&[" a ", "", "   ", "b"])),
        strings(&["a", "b"])
    );
    assert!(sanitize_non_empty(vec![]).is_empty());
}

#[test]
fn list_actions_reject_invalid_list_names() {
    assert!(validate_list_name("").is_err());
    assert!(validate_list_name("favorites';--").is_err());
    assert!(validate_list_name("..\n").is_err());
}

#[test]
fn list_names() {
    assert!(validate_list_name("  My list_1-2 ").is_ok());
    assert_eq!(message(validate_list_name("   ")), "list name cannot be empty");
    assert_eq!(message(validate_list_name(&"a".repeat(65))), "list name too long");
    assert!(validate_list_name(&"a".repeat(64)).is_ok());
    // 33 two-byte characters are 66 bytes: too long before the characters are checked
    assert_eq!(message(validate_list_name(&"é".repeat(33))), "list name too long");
    assert_eq!(
        message(validate_list_name("é")),
        "list name contains invalid characters"
    );
}

#[test]
fn reorder_by_match() {
    let mut names = strings(&["xbob", "alice", "bobby", "bob", "carl"]);
    reorder(&mut names, "bob");
    assert_eq!(names, strings(&["bobby", "bob", "xbob", "alice", "carl"]));
    let mut names = strings(&["b", "a"]);
    reorder(&mut names, "");
    assert_eq!(names, strings(&["b", "a"]));
}

#[test]
fn sanitizing_twice_changes_nothing() {
    let once = sanitize_non_empty(strings(&["  x ", " ", "y  ", "\tz"]));
    assert_eq!(sanitize_non_empty(once.clone()), once);
}
