use manread::query::{
    extract2, lexar, parse_query, post_lexar, Item, ItemBuilder, ItemOr, LessToken, Step, Token,
    TokenGroup,
};

fn show_token(t: &Token) -> String {
    match t {
        Token::Keyword(k) => format!("K({k})"),
        other => format!("{:?}", other.to_char()),
    }
}

fn show_groups(gs: &[TokenGroup]) -> String {
    gs.iter()
        .map(|g| match g {
            TokenGroup::Token(LessToken::Space) => "_".to_owned(),
            TokenGroup::Token(LessToken::Not) => "!".to_owned(),
            TokenGroup::Token(LessToken::What) => ":".to_owned(),
            TokenGroup::Token(LessToken::Or) => "|".to_owned(),
            TokenGroup::Token(LessToken::And) => "&".to_owned(),
            TokenGroup::Token(LessToken::Keyword(k)) => format!("K({k})"),
            TokenGroup::Group(v) => format!("({})", show_groups(v)),
        })
        .collect::<Vec<_>>()
        .join(" ")
}

fn show_items(items: &[ItemOr]) -> String {
    items
        .iter()
        .map(|i| {
            let data = match &i.data {
                Item::Item(v) => format!("W({v})"),
                Item::DetailItem { not, key, value } => {
                    format!("D({}{key}:{value})", if *not { "!" } else { "" })
                }
                Item::Group { not, or, value } => {
                    format!("G({}{:?}[{}])", if *not { "!" } else { "" }, or, show_items(value))
                }
            };
            match i.or_post {
                None => data,
                Some(true) => format!("{data}|or"),
                Some(false) => format!("{data}|and"),
            }
        })
        .collect::<Vec<_>>()
        .join(", ")
}

fn parse(s: &str) -> String {
    match parse_query(s) {
        Some(Ok(items)) => show_items(&items),
        Some(Err(e)) => format!("error: {e}"),
        None => "unexpected".to_owned(),
    }
}

#[test]
fn lexing_gives_one_token_per_character() {
    let t = lexar("a b\\!:'\"()");
    let shown: Vec<String> = t.iter().map(show_token).collect();
    assert_eq!(
        shown,
        vec![
            "K(a)", "Some(' ')", "K(b)", "Some('\\\\')", "Some('!')", "Some(':')", "Some('\\'')",
            "Some('\"')", "Some('(')", "Some(')')"
        ]
    );
}

#[test]
fn token_characters() {
    assert_eq!(Token::Space.to_char(), Some(' '));
    assert_eq!(Token::GroupClose.to_char(), Some(')'));
    assert_eq!(Token::Keyword("x".to_owned()).to_char(), None);
}

#[test]
fn post_lexing_joins_quotes_escapes_and_groups() {
    let g = post_lexar(lexar("ab \"c d\" (e\\:f)")).expect("post lex");
    assert_eq!(show_groups(&g), "K(ab) _ K(c d) _ (K(e:f))");
    match post_lexar(lexar("\\a")) {
        Err(e) => assert_eq!(e, "cannot escape lit"),
        Ok(_) => panic!("escaping a letter is an error"),
    }
}

#[test]
fn parsing_words_details_and_connectives() {
    assert_eq!(parse("title"), "W(title)");
    assert_eq!(parse("a or b"), "W(a)|or, W(b)");
    assert_eq!(parse("t:x and y"), "D(t:x)|and, W(y)");
    assert_eq!(parse("t:!x"), "D(!t:x)");
    assert_eq!(parse("\"other title\""), "W(other title)");
    assert_eq!(parse("or"), "W(or)");
    assert_eq!(parse("a or or b"), "W(a)|or, W(or), W(b)");
}

#[test]
fn parsing_groups() {
    assert_eq!(parse("(a b)"), "G(None[W(a), W(b)])");
    assert_eq!(parse("or:(a b)"), "G(Some(true)[W(a), W(b)])");
    assert_eq!(parse("and:!(a)"), "G(!Some(false)[W(a)])");
    assert_eq!(parse("x:(a)"), "error: x is not a valid group prefix");
    assert_eq!(parse("w(a)"), "W(w), G(None[W(a)])");
}

#[test]
fn unexpected_tokens() {
    assert_eq!(parse("!a"), "unexpected");
    assert_eq!(parse("a::b"), "unexpected");
}

#[test]
fn item_or_helpers() {
    let x = ItemOr::new(Item::Item("or".to_owned()));
    assert_eq!(x.or_post, None);
    assert_eq!(x.is_or(), Some(true));
    assert_eq!(ItemOr::new(Item::Item("and".to_owned())).is_or(), Some(false));
    assert_eq!(ItemOr::new(Item::Item("nor".to_owned())).is_or(), None);
}

#[test]
fn builder_builds_and_resets() {
    let mut b = ItemBuilder::default();
    assert!(b.build().is_none());
    b.part1 = Some("k".to_owned());
    b.step = Step::AfterFirstWord;
    assert!(matches!(b.build(), Some(Item::Item(v)) if v == "k"));
    assert!(b.part1.is_none());
    b.part1 = Some("k".to_owned());
    b.part2 = Some("v".to_owned());
    b.not = true;
    b.step = Step::AfterDouble;
    assert!(matches!(b.build(), Some(Item::DetailItem { not: true, key, value }) if key == "k" && value == "v"));
    b.part1 = Some("z".to_owned());
    b.reset();
    assert!(b.part1.is_none() && !b.not);
}

#[test]
fn extracting_items_from_groups() {
    let g = post_lexar(lexar("a and b")).unwrap();
    let items = extract2(g).expect("items");
    assert_eq!(show_items(&items), "W(a)|and, W(b)");
}

#[test]
fn tokens_spell_the_query() {
    for q in ["a b", "t:!\"x y\" or (z)", "\\(", ""] {
        let text: String = lexar(q).iter().map(|t| t.text()).collect();
        assert_eq!(text, q);
    }
}

#[test]
fn quoted_phrases_are_single_words() {
    assert_eq!(parse("\"a (b) !c: or\""), "W(a (b) !c: or)");
    assert_eq!(parse("'it is'"), "W(it is)");
}

#[test]
fn pipe_and_ampersand_are_connectives() {
    assert_eq!(parse("a | b"), "W(a)|or, W(b)");
    assert_eq!(parse("a & b"), "W(a)|and, W(b)");
    assert_eq!(parse("a|b"), "W(a)|or, W(b)");
    assert_eq!(parse("t:x & y"), "D(t:x)|and, W(y)");
    assert_eq!(parse("a |"), "W(a)|or");
}

#[test]
fn prefixed_groups() {
    assert_eq!(parse("!(a b)"), "G(!None[W(a), W(b)])");
    assert_eq!(parse("|(a b)"), "G(Some(true)[W(a), W(b)])");
    assert_eq!(parse("&(a b)"), "G(Some(false)[W(a), W(b)])");
    assert_eq!(parse("!|(a b)"), "G(!Some(true)[W(a), W(b)])");
    assert_eq!(parse("!"), "unexpected");
    assert_eq!(parse("! (a)"), "unexpected");
    assert_eq!(parse("!| a"), "unexpected");
}

#[test]
fn advanced_search_example() {
    assert_eq!(
        parse("(title:\"This is a title\" | title:\"This is another title\") & author:\"This is an author\""),
        "G(None[D(title:This is a title)|or, D(title:This is another title)])|and, D(author:This is an author)"
    );
}

#[test]
fn lexing_pipe_and_ampersand() {
    let t = lexar("|&");
    assert_eq!(t[0].to_char(), Some('|'));
    assert_eq!(t[1].to_char(), Some('&'));
    assert_eq!(parse("\\|"), "W(|)");
    assert_eq!(parse("\"a | b\""), "W(a | b)");
}
