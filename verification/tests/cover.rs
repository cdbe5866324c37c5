use manread::cover::{cover_choice, pick_cover};
use manread::error::ApiError;

#[test]
fn covers_are_drawn_from_filled_slots() {
    let covers = vec![None, Some("png".to_owned()), None, Some("jpg".to_owned())];
    for _ in 0..20 {
        let (n, ext) = pick_cover(&covers).expect("a cover");
        assert!((n == 1 && ext == "png") || (n == 3 && ext == "jpg"));
    }
    match pick_cover(&vec![None]) {
        Err(ApiError::InvalidInput(m)) => assert_eq!(m, "No cover available"),
        _ => panic!("expected an error"),
    }
}

#[test]
fn chosen_cover() {
    let covers = vec![None, Some("png".to_owned()), None, Some("jpg".to_owned())];
    assert_eq!(cover_choice(&covers, Some(0)).ok(), Some((1, "png".to_owned())));
    assert_eq!(cover_choice(&covers, Some(1)).ok(), Some((3, "jpg".to_owned())));
    assert!(cover_choice(&covers, None).is_err());
}
