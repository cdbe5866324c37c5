use manread::keys::{sort_by_key, ImageKeys};

#[test]
fn cover_and_art_keys_in_bundle_order() {
    let mut keys = ImageKeys::new();
    let covers = vec![Some(".png".to_owned()), None, Some("..jpg".to_owned())];
    let arts = vec![None, Some("webp".to_owned())];
    assert_eq!(keys.add_covers("m1", &covers).ok(), Some(vec![0, 1]));
    assert_eq!(keys.add_arts("m1", &arts).ok(), Some(vec![2]));
    assert_eq!(
        keys.keys,
        vec![
            "covers/m1.png".to_owned(),
            "covers/m1_2.jpg".to_owned(),
            "arts/m1_1.webp".to_owned()
        ]
    );
}

#[test]
fn page_keys_follow_page_numbers() {
    let mut keys = ImageKeys::new();
    keys.add_covers("m", &vec![Some("png".to_owned())]).unwrap();
    let pages = vec![(10u64, ".png".to_owned()), (2, "jpg".to_owned()), (7, "gif".to_owned())];
    assert_eq!(keys.add_pages("m", "c", "v", pages).ok(), Some(vec![1, 2, 3]));
    assert_eq!(
        keys.keys[1..].to_vec(),
        vec![
            "mangas/m/c/v/2.jpg".to_owned(),
            "mangas/m/c/v/7.gif".to_owned(),
            "mangas/m/c/v/10.png".to_owned()
        ]
    );
}

#[test]
fn sorting_is_stable() {
    let sorted = sort_by_key(vec![
        (2, "b".to_owned()),
        (1, "x".to_owned()),
        (2, "a".to_owned()),
        (0, "z".to_owned()),
    ]);
    assert_eq!(
        sorted,
        vec![
            (0, "z".to_owned()),
            (1, "x".to_owned()),
            (2, "b".to_owned()),
            (2, "a".to_owned())
        ]
    );
}

#[test]
fn no_slots_no_keys() {
    let mut keys = ImageKeys::new();
    assert_eq!(keys.add_covers("m", &vec![None, None]).ok(), Some(vec![]));
    assert!(keys.keys.is_empty());
}
