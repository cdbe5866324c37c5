use manread::ui::{
    display_label, AddMangaForm, Group, KeyEvent, KeyPressed, Page, PlaygroundPage, SuggestionPopup,
};

#[test]
fn all_pages_in_order() {
    let pages = Page::all();
    assert_eq!(pages.len(), 13);
    assert!(pages[0] == Page::Home);
    assert!(pages[2] == Page::LoadingInitRefresh);
    assert!(pages[7] == Page::MangaInfo(String::new()));
    assert!(
        pages[12]
            == Page::Reader {
                manga_id: String::new(),
                chapter_id: None
            }
    );
}

#[test]
fn playground_default() {
    let _page = PlaygroundPage::default();
}

#[test]
fn group_builder_and_delete() {
    let mut data = vec![1, 2, 3, 4];
    {
        let mut g = Group::new(&mut data).set_skip(1).set_title("Authors");
        assert_eq!(g.shown(), 3);
        g.delete(1);
        assert_eq!(g.shown(), 2);
    }
    assert_eq!(data, vec![1, 3, 4]);
}

fn form() -> AddMangaForm {
    AddMangaForm {
        title_count: 1,
        title_value: String::new(),
        kind: "manga".to_owned(),
        tag_query: String::new(),
        scrape: None,
        last_source: String::new(),
        cover_uploaded: Some(true),
    }
}

#[test]
fn add_manga_form_check() {
    assert!(form().check());
    let mut f = form();
    f.title_count = 0;
    assert!(!f.check());
    let mut f = form();
    f.kind = String::new();
    assert!(!f.check());
    let mut f = form();
    f.scrape = Some(("c".to_owned(), String::new()));
    assert!(!f.check());
    let mut f = form();
    f.scrape = Some(("c".to_owned(), "u".to_owned()));
    assert!(f.check());
    let mut f = form();
    f.cover_uploaded = Some(false);
    assert!(!f.check());
    let mut f = form();
    f.last_source = "http".to_owned();
    assert!(!f.check());
}

#[test]
fn labels() {
    assert_eq!(display_label("next-available"), "Next Available");
    assert_eq!(display_label("hello world"), "Hello World");
    assert_eq!(display_label("a1-9b"), "A1 9b");
    assert_eq!(display_label(""), "");
}

#[test]
fn suggestion_popup_keys_and_closing() {
    let mut p = SuggestionPopup::new();
    assert!(!p.is_closed(false, false, false, 7));
    assert!(p.is_closed(false, true, false, 7));
    assert!(p.is_closed(false, false, true, 7));
    assert!(p.keybinds(KeyEvent::Escape, 7) == Some(KeyPressed::Esc));
    assert_eq!(p.closed, Some(7));
    assert!(p.is_closed(false, false, false, 7));
    assert!(!p.is_closed(true, false, false, 7));
    assert!(!p.is_closed(false, false, false, 8));
    assert_eq!(p.closed, None);
    assert!(p.keybinds(KeyEvent::F1, 9).is_none());
    assert_eq!(p.open, Some(9));
    assert!(!p.is_closed(false, false, true, 9));
    assert!(p.is_closed(false, false, true, 10));
    assert_eq!(p.open, None);
    assert!(p.keybinds(KeyEvent::Enter, 1) == Some(KeyPressed::Enter));
    assert!(p.keybinds(KeyEvent::Other, 1).is_none());
    p.picked(3);
    assert_eq!(p.closed, Some(3));
}
