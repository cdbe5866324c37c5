use manread::http::{
    extend_buffer, maybe_not_modified, normalize_etag, weak_etag_eq, CacheDecision, EntityTag,
    IfNoneMatch,
};

fn tag(weak: bool, t: &str) -> EntityTag {
    EntityTag {
        weak,
        tag: t.to_owned(),
    }
}

#[test]
fn etags_are_quoted() {
    assert_eq!(normalize_etag(" abc "), "\"abc\"");
    assert_eq!(normalize_etag("\"abc\""), "\"abc\"");
    assert_eq!(normalize_etag("W/\"abc\""), "W/\"abc\"");
    assert_eq!(normalize_etag("W/abc"), "\"W/abc\"");
}

#[test]
fn weak_comparison_ignores_weakness() {
    assert!(weak_etag_eq(&tag(true, "a"), &tag(false, "a")));
    assert!(!weak_etag_eq(&tag(true, "a"), &tag(true, "b")));
}

#[test]
fn conditional_requests() {
    let d = maybe_not_modified(
        Some(tag(false, "a")),
        Some(10),
        Some(IfNoneMatch::Items(vec![tag(true, "x"), tag(true, "a")])),
        None,
    );
    assert!(matches!(d, CacheDecision::NotModified { etag: Some(_), last_modified: Some(10) }));
    let d = maybe_not_modified(Some(tag(false, "a")), None, Some(IfNoneMatch::Any), None);
    assert!(matches!(d, CacheDecision::NotModified { .. }));
    let d = maybe_not_modified(Some(tag(false, "a")), Some(10), None, Some(20));
    assert!(matches!(d, CacheDecision::Send));
    let d = maybe_not_modified(None, Some(10), None, Some(20));
    assert!(matches!(d, CacheDecision::NotModified { etag: None, last_modified: Some(10) }));
    let d = maybe_not_modified(None, Some(30), None, Some(20));
    assert!(matches!(d, CacheDecision::Send));
}

#[test]
fn upload_header_buffer() {
    let mut buf = vec![];
    extend_buffer(&mut buf, &[1; 20]);
    assert_eq!(buf.len(), 20);
    extend_buffer(&mut buf, &[2; 20]);
    assert_eq!(buf.len(), 32);
    assert_eq!(buf[19..21].to_vec(), vec![1, 2]);
    extend_buffer(&mut buf, &[3; 5]);
    assert_eq!(buf.len(), 32);
}

#[test]
fn normalizing_twice_changes_nothing() {
    for s in [" abc ", "\"x\"", "W/\"y\"", "", "  "] {
        let once = normalize_etag(s);
        assert_eq!(normalize_etag(&once), once);
    }
}
