use manread::keys::sort_by_name;
use manread::search::{
    keep_matching, prefix_first_order, query_for_display, suggestion_filter, user_search_order,
    SearchData,
};

fn strings(v: &[&str]) -> Vec<String> {
    v.iter().map(|s| s.to_string()).collect()
}

#[test]
fn suggestions_ignore_case() {
    let items = strings(&["Action", "Romance", "ACTION Comedy", "drama"]);
    assert_eq!(suggestion_filter("act", &items), strings(&["Action", "ACTION Comedy"]));
    assert_eq!(suggestion_filter("", &items), items);
    assert!(suggestion_filter("zzz", &items).is_empty());
}

#[test]
fn keeping_by_lowered_form() {
    let items = strings(&["A", "B"]);
    let lowered = strings(&["xa", "yb"]);
    assert_eq!(keep_matching(&items, &lowered, "b"), strings(&["B"]));
}

#[test]
fn user_results_prefix_first() {
    let first = vec![
        Some("Xbob".to_owned()),
        Some("BOBBY".to_owned()),
        None,
        Some("bob".to_owned()),
    ];
    assert_eq!(user_search_order(&first, "Bob"), vec![1, 3, 0, 2]);
    let lowered = vec![Some("ab".to_owned()), Some("b".to_owned())];
    assert_eq!(prefix_first_order(&lowered, "b"), vec![1, 0]);
}

#[test]
fn stored_query_display() {
    assert_eq!(query_for_display("and:(title x)"), "title x");
    assert_eq!(query_for_display("and:()"), "");
    assert_eq!(query_for_display("or:(a)"), "or:(a)");
    assert_eq!(query_for_display("and:(a"), "and:(a");
}

#[test]
fn paging() {
    let mut p = SearchData {
        end: false,
        reload: false,
        require_new: false,
        searched: vec![1, 2],
    };
    p.set_load(true);
    assert!(p.require_new);
    assert!(p.on_results(vec![3]));
    assert_eq!(p.searched, vec![1, 2, 3]);
    p.reload = true;
    assert!(p.on_results(vec![9]));
    assert_eq!(p.searched, vec![9]);
    assert!(!p.on_results(vec![]));
    assert!(p.end);
    assert_eq!(p.searched, vec![9]);
    p.set_load(true);
    assert!(!p.require_new);
}

#[test]
fn versions_sorted_by_name() {
    let sorted = sort_by_name(vec![
        ("german".to_owned(), "v2".to_owned()),
        ("english".to_owned(), "v1".to_owned()),
        ("German".to_owned(), "v3".to_owned()),
        ("english".to_owned(), "v4".to_owned()),
        ("eng".to_owned(), "v5".to_owned()),
    ]);
    let ids: Vec<&str> = sorted.iter().map(|v| v.1.as_str()).collect();
    assert_eq!(ids, vec!["v3", "v5", "v1", "v4", "v2"]);
}
