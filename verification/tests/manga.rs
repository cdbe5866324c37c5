use manread::error::ApiError;
use manread::manga::{
    any_scraper_enabled,
    check_chapter_versions, check_export_versions, check_relation, check_remove_art,
    check_remove_cover, check_version_pages, is_contributor, restore_description, restore_kind,
    restore_names, restore_scrapers, restore_version_name, validate_restore_input, BundleScraper,
};

fn message<T: std::fmt::Debug>(r: Result<T, ApiError>) -> String {
    match r {
        Err(ApiError::InvalidInput(m)) => m,
        other => panic!("expected invalid input, got {:?}", other),
    }
}

fn strings(v: &[&str]) -> Vec<String> {
    v.iter().map(|s| s.to_string()).collect()
}

#[test]
fn manga_remove_cover_rejects_removing_last_cover() {
    let covers = vec![Some("png".to_owned())];
    assert_eq!(message(check_remove_cover(&covers, 0)), "at least one cover is required");
}

#[test]
fn cover_removal_checks() {
    let covers = vec![Some("png".to_owned()), None, Some("jpg".to_owned())];
    assert!(check_remove_cover(&covers, 2).is_ok());
    assert_eq!(message(check_remove_cover(&covers, 1)), "cover does not exist");
    assert_eq!(message(check_remove_cover(&covers, 3)), "cover_index out of bounds");
}

#[test]
fn art_removal_checks() {
    let arts = vec![None, Some("png".to_owned())];
    assert!(check_remove_art(&arts, 1).is_ok());
    assert_eq!(message(check_remove_art(&arts, 0)), "art does not exist");
    assert_eq!(message(check_remove_art(&arts, 2)), "art_index out of bounds");
}

#[test]
fn relation_checks() {
    assert!(check_relation("a", "b").is_ok());
    assert_eq!(
        message(check_relation("a", "a")),
        "manga_id and relation_id cannot be the same"
    );
    assert_eq!(message(check_relation(" ", "a")), "manga_id cannot be empty");
    assert_eq!(message(check_relation("a", "")), "relation_id cannot be empty");
}

#[test]
fn contributors() {
    let none: Vec<String> = vec![];
    assert!(is_contributor(&strings(&["u1"]), &none, &none, "up", "u1"));
    assert!(is_contributor(&none, &none, &none, "u1", "u1"));
    assert!(!is_contributor(&none, &strings(&["x"]), &strings(&["y"]), "up", "u1"));
}

#[test]
fn restore_input_checks() {
    assert!(validate_restore_input("m", "u", &strings(&["a"])).is_ok());
    assert_eq!(message(validate_restore_input(" ", "u", &vec![])), "metadata_id cannot be empty");
    assert_eq!(message(validate_restore_input("m", "", &vec![])), "uid cannot be empty");
    assert_eq!(
        message(validate_restore_input("m", "u", &strings(&["a", " "]))),
        "image_ids cannot contain empty values"
    );
}

#[test]
fn restored_request_fields() {
    let names = restore_names(vec![
        ("en".to_owned(), strings(&[" A ", " "])),
        (" ".to_owned(), strings(&["B"])),
        ("de".to_owned(), strings(&["  "])),
    ]);
    assert_eq!(names, vec![("en".to_owned(), strings(&["A"]))]);
    let names = restore_names(vec![("de".to_owned(), vec![])]);
    assert_eq!(names, vec![("en".to_owned(), strings(&["Restored Manga"]))]);
    assert_eq!(restore_kind("  "), "restored");
    assert_eq!(restore_kind(" manhwa "), "manhwa");
    assert_eq!(restore_description(Some("  ".to_owned())), None);
    assert_eq!(restore_description(Some(" d ".to_owned())), Some("d".to_owned()));
    assert_eq!(restore_description(None), None);
    let scrapers = restore_scrapers(&vec![
        BundleScraper {
            channel: " c ".to_owned(),
            url: " u ".to_owned(),
            enabled: true,
        },
        BundleScraper {
            channel: "c".to_owned(),
            url: "u".to_owned(),
            enabled: false,
        },
        BundleScraper {
            channel: "c".to_owned(),
            url: " ".to_owned(),
            enabled: true,
        },
    ]);
    assert_eq!(scrapers.len(), 1);
    assert_eq!((scrapers[0].channel.as_str(), scrapers[0].url.as_str()), ("c", "u"));
    assert_eq!(restore_version_name("  ", 0), "restored-v1");
    assert_eq!(restore_version_name("  ", 9), "restored-v10");
    assert_eq!(restore_version_name(" en ", 3), "en");
}

#[test]
fn structure_checks() {
    assert_eq!(
        message(check_chapter_versions(0)),
        "restore metadata contains chapter without versions"
    );
    assert!(check_chapter_versions(1).is_ok());
    assert_eq!(
        message(check_version_pages(0)),
        "restore metadata contains empty chapter version pages"
    );
    assert_eq!(message(check_export_versions("c1", 0)), "chapter c1 has no versions");
    assert!(check_export_versions("c1", 2).is_ok());
}

#[test]
fn scraper_flag_of_manga_info() {
    assert!(!any_scraper_enabled(&vec![]));
    assert!(!any_scraper_enabled(&vec![false, false]));
    assert!(any_scraper_enabled(&vec![false, true]));
}
