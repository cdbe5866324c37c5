use manread::error::ApiError;
use manread::restore::parse_restore_upload_response;
use manread::upload::{check_field_name, upload_rows, Registered};

fn invalid_input_message<T: std::fmt::Debug>(r: Result<T, ApiError>) -> String {
    match r {
        Err(ApiError::InvalidInput(m)) => m,
        other => panic!("expected an invalid-input error, got {:?}", other),
    }
}

fn rows(items: &[(&str, &str)]) -> Vec<Vec<String>> {
    items
        .iter()
        .map(|(a, b)| vec![a.to_string(), b.to_string()])
        .collect()
}

#[test]
fn parse_restore_upload_response_extracts_metadata_and_images() {
    let payload = vec![
        vec!["bundle.mrmang#meta".to_owned(), "meta-id".to_owned()],
        vec!["bundle.mrmang#i1".to_owned(), "image-1".to_owned()],
        vec!["bundle.mrmang#i0".to_owned(), "image-0".to_owned()],
    ];

    let parsed =
        parse_restore_upload_response(payload).expect("payload should parse successfully");
    assert_eq!(parsed.0, "meta-id");
    assert_eq!(parsed.1, vec!["image-0".to_owned(), "image-1".to_owned()]);
}

#[test]
fn parse_restore_upload_response_rejects_sparse_images() {
    let payload = vec![
        vec!["bundle.mrmang#meta".to_owned(), "meta-id".to_owned()],
        vec!["bundle.mrmang#i1".to_owned(), "image-1".to_owned()],
    ];

    assert!(parse_restore_upload_response(payload).is_err());
}

#[test]
fn parse_restore_upload_response_rejects_multiple_meta_groups() {
    let payload = vec![
        vec!["bundle-a.mrmang#meta".to_owned(), "meta-a".to_owned()],
        vec!["bundle-b.mrmang#meta".to_owned(), "meta-b".to_owned()],
    ];

    assert!(parse_restore_upload_response(payload).is_err());
}

#[test]
fn restore_response_error_messages() {
    assert_eq!(
        invalid_input_message(parse_restore_upload_response(vec![])),
        "upload response cannot be empty"
    );
    assert_eq!(
        invalid_input_message(parse_restore_upload_response(vec![vec!["a".to_owned()]])),
        "each upload response entry must have [name, id]"
    );
    assert_eq!(
        invalid_input_message(parse_restore_upload_response(rows(&[("  ", "x")]))),
        "upload response name and id cannot be empty"
    );
    assert_eq!(
        invalid_input_message(parse_restore_upload_response(rows(&[
            ("b#meta", "m1"),
            ("b#meta", "m2")
        ]))),
        "upload response contains duplicate metadata entries"
    );
    assert_eq!(
        invalid_input_message(parse_restore_upload_response(rows(&[
            ("b#meta", "m"),
            ("b#ix", "i")
        ]))),
        "invalid image index in upload name"
    );
    assert_eq!(
        invalid_input_message(parse_restore_upload_response(rows(&[
            ("b#meta", "m"),
            ("b#i0", "a"),
            ("b#i0", "b")
        ]))),
        "upload response contains duplicate image entries"
    );
    assert_eq!(
        invalid_input_message(parse_restore_upload_response(rows(&[("b#i0", "a")]))),
        "upload response must contain exactly one export metadata entry"
    );
    assert_eq!(
        invalid_input_message(parse_restore_upload_response(rows(&[
            ("b#meta", "m"),
            ("b#i1", "a")
        ]))),
        "upload response has missing image index entries"
    );
}

#[test]
fn restore_response_skips_foreign_rows_and_trims() {
    let parsed = parse_restore_upload_response(rows(&[
        ("cover.png", "file-1"),
        ("chapter.zip#p0", "page-0"),
        ("#meta", "no-base"),
        ("  b#meta ", "  m  "),
        ("other#i0", "foreign"),
        ("b#i0", " x "),
    ]))
    .expect("should parse");
    assert_eq!(parsed.0, "m");
    assert_eq!(parsed.1, vec!["x".to_owned()]);
}

#[test]
fn restore_response_without_images() {
    let parsed = parse_restore_upload_response(rows(&[("b#meta", "m")])).expect("should parse");
    assert_eq!(parsed.0, "m");
    assert!(parsed.1.is_empty());
}

#[test]
fn upload_rows_name_every_part() {
    assert_eq!(
        upload_rows("a.png", Registered::File("f".to_owned())),
        rows(&[("a.png", "f")])
    );
    assert_eq!(
        upload_rows(
            "c.zip",
            Registered::Chapter(vec!["p0".to_owned(), "p1".to_owned()])
        ),
        rows(&[("c.zip#p0", "p0"), ("c.zip#p1", "p1")])
    );
    let images: Vec<String> = (0..12).map(|i| format!("img-{i}")).collect();
    let got = upload_rows(
        "b.mrmang",
        Registered::Manga {
            metadata: "meta".to_owned(),
            images: images.clone(),
        },
    );
    assert_eq!(got[0], vec!["b.mrmang#meta".to_owned(), "meta".to_owned()]);
    assert_eq!(got[11], vec!["b.mrmang#i10".to_owned(), "img-10".to_owned()]);
}

#[test]
fn restore_reads_back_an_upload() {
    let images: Vec<String> = (0..12).map(|i| format!("img-{i}")).collect();
    let got = upload_rows(
        "my bundle.mrmang",
        Registered::Manga {
            metadata: "meta".to_owned(),
            images: images.clone(),
        },
    );
    let parsed = parse_restore_upload_response(got).expect("should parse");
    assert_eq!(parsed.0, "meta");
    assert_eq!(parsed.1, images);
}

#[test]
fn upload_field_names() {
    for name in ["file[]", "files[]", "file", "files"] {
        assert!(check_field_name(name).is_ok());
    }
    assert_eq!(
        invalid_input_message(check_field_name("image")),
        "Invalid field name(only allows \"files\")"
    );
}

#[test]
fn row_order_does_not_matter() {
    let base = [
        ("b#meta", "m"),
        ("b#i0", "x0"),
        ("b#i1", "x1"),
        ("b#i2", "x2"),
        ("other", "skip"),
    ];
    let expected = parse_restore_upload_response(rows(&base)).expect("accepted");
    for order in [[4, 3, 2, 1, 0], [2, 0, 4, 1, 3], [1, 2, 3, 0, 4]] {
        let shuffled: Vec<(&str, &str)> = order.iter().map(|&i| base[i]).collect();
        assert_eq!(parse_restore_upload_response(rows(&shuffled)).ok(), Some(expected.clone()));
    }
    let sparse = [("b#i2", "x2"), ("b#meta", "m"), ("b#i0", "x0")];
    assert!(parse_restore_upload_response(rows(&sparse)).is_err());
    let sparse_rev = [("b#i0", "x0"), ("b#meta", "m"), ("b#i2", "x2")];
    assert!(parse_restore_upload_response(rows(&sparse_rev)).is_err());
}
