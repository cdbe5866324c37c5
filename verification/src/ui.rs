//! The pages of the desktop client, the list widget of the add-manga form
//! and the form's readiness check.
use vstd::prelude::*;
use crate::text::{chars_of, push_char};

verus! {

/// A page of the client.
#[derive(PartialEq, Eq, Hash, Clone)]
pub enum Page {
    LoadingInitRefresh,
    Home,
    SignIn,
    SignUp,
    SignUpInfo,
    ResetPassword,
    VerifyAccount,
    MangaInfo(String),
    Search,
    AddManga,
    You,
    Settings,
    Reader { manga_id: String, chapter_id: Option<String> },
}

/// Mathematical model of a [`Page`].
pub enum PageV {
    LoadingInitRefresh,
    Home,
    SignIn,
    SignUp,
    SignUpInfo,
    ResetPassword,
    VerifyAccount,
    MangaInfo(Seq<char>),
    Search,
    AddManga,
    You,
    Settings,
    Reader(Seq<char>, Option<Seq<char>>),
}

pub open spec fn page_view(p: Page) -> PageV {
    match p {
        Page::LoadingInitRefresh => PageV::LoadingInitRefresh,
        Page::Home => PageV::Home,
        Page::SignIn => PageV::SignIn,
        Page::SignUp => PageV::SignUp,
        Page::SignUpInfo => PageV::SignUpInfo,
        Page::ResetPassword => PageV::ResetPassword,
        Page::VerifyAccount => PageV::VerifyAccount,
        Page::MangaInfo(id) => PageV::MangaInfo(id@),
        Page::Search => PageV::Search,
        Page::AddManga => PageV::AddManga,
        Page::You => PageV::You,
        Page::Settings => PageV::Settings,
        Page::Reader { manga_id, chapter_id } => PageV::Reader(
            manga_id@,
            match chapter_id {
                Some(c) => Some(c@),
                None => None,
            },
        ),
    }
}

/// Every page, in the order the client lists them; pages with data carry
/// empty values.
pub open spec fn all_pages() -> Seq<PageV> {
    seq![
        PageV::Home,
        PageV::SignIn,
        PageV::LoadingInitRefresh,
        PageV::SignUp,
        PageV::SignUpInfo,
        PageV::ResetPassword,
        PageV::VerifyAccount,
        PageV::MangaInfo(seq![]),
        PageV::Search,
        PageV::AddManga,
        PageV::You,
        PageV::Settings,
        PageV::Reader(seq![], None),
    ]
}

impl Page {
    /// Every page.
    pub fn all() -> (r: Vec<Page>)
        ensures
            r@.len() == all_pages().len(),
            forall|i: int| 0 <= i < r@.len() ==> page_view(#[trigger] r@[i]) == all_pages()[i],
    {
        let r = vec![
            Page::Home,
            Page::SignIn,
            Page::LoadingInitRefresh,
            Page::SignUp,
            Page::SignUpInfo,
            Page::ResetPassword,
            Page::VerifyAccount,
            Page::MangaInfo(String::new()),
            Page::Search,
            Page::AddManga,
            Page::You,
            Page::Settings,
            Page::Reader { manga_id: String::new(), chapter_id: None },
        ];
        assert(page_view(r@[7]) == PageV::MangaInfo(seq![]));
        assert(page_view(r@[12]) == PageV::Reader(seq![], None));
        r
    }
}

/// The development playground page; it holds no state.
pub struct PlaygroundPage {}

impl Default for PlaygroundPage {
    fn default() -> (r: Self)
        ensures
            r == (PlaygroundPage {}),
    {
        PlaygroundPage {}
    }
}

/// A list of removable entries of the add-manga form, shown after an
/// optional title; the last `skip` entries are not shown.
pub struct Group<'a, A> {
    skip: usize,
    data: &'a mut Vec<A>,
    title: Option<&'a str>,
}

impl<'a, A> Group<'a, A> {
    /// A list over `data`, showing every entry, without a title.
    pub fn new(data: &'a mut Vec<A>) -> (r: Self)
        ensures
            r.skip() == 0,
            r.title() is None,
            r.items() == old(data)@,
    {
        Group { skip: 0, data, title: None }
    }

    pub closed spec fn skip(&self) -> usize {
        self.skip
    }

    pub closed spec fn title(&self) -> Option<Seq<char>> {
        match self.title {
            Some(t) => Some(t@),
            None => None,
        }
    }

    pub closed spec fn items(&self) -> Seq<A> {
        self.data@
    }

    /// Hides the last `skip` entries.
    pub fn set_skip(self, skip: usize) -> (r: Self)
        ensures
            r.skip() == skip,
            r.title() == self.title(),
            r.items() == self.items(),
    {
        Group { skip, data: self.data, title: self.title }
    }

    /// Shows `title` before the entries.
    pub fn set_title(self, title: &'a str) -> (r: Self)
        ensures
            r.skip() == self.skip(),
            r.title() == Some(title@),
            r.items() == self.items(),
    {
        Group { skip: self.skip, data: self.data, title: Some(title) }
    }
}

impl<'a, A> Group<'a, A> {
    /// The number of entries shown: all but the last `skip`.
    pub fn shown(&self) -> (r: usize)
        requires
            self.skip() <= self.items().len(),
        ensures
            r == self.items().len() - self.skip(),
    {
        self.data.len() - self.skip
    }

    /// Removes the shown entry `index`, whose close button was clicked.
    pub fn delete(&mut self, index: usize)
        requires
            old(self).skip() <= old(self).items().len(),
            index < old(self).items().len() - old(self).skip(),
        ensures
            final(self).items() == old(self).items().remove(index as int),
            final(self).skip() == old(self).skip(),
            final(self).title() == old(self).title(),
    {
        self.data.remove(index);
    }
}

/// What the add-manga form holds when "submit" is considered.
pub struct AddMangaForm {
    /// The number of titles entered, over all languages.
    pub title_count: usize,
    /// The title being typed.
    pub title_value: String,
    pub kind: String,
    /// The tag being typed.
    pub tag_query: String,
    /// The scraper `(channel, url)` being entered, if any.
    pub scrape: Option<(String, String)>,
    /// The source being typed (the last source field).
    pub last_source: String,
    /// The cover upload: `None` before one is chosen, `Some(false)` while it
    /// runs or after it failed, `Some(true)` once it is done.
    pub cover_uploaded: Option<bool>,
}

impl AddMangaForm {
    /// The form can be submitted: a title is entered and nothing is left
    /// half typed, a kind is given, any scraper is complete and the cover is
    /// uploaded.
    pub fn check(&self) -> (r: bool)
        ensures
            r == (self.title_count > 0 && self.title_value@.len() == 0 && self.kind@.len() > 0
                && self.tag_query@.len() == 0 && match self.scrape {
                None => true,
                Some((a, b)) => a@.len() > 0 && b@.len() > 0,
            } && self.last_source@.len() == 0 && self.cover_uploaded == Some(true)),
    {
        if self.title_count == 0 {
            return false;
        }
        if !is_empty(&self.title_value) {
            return false;
        }
        if is_empty(&self.kind) {
            return false;
        }
        if !is_empty(&self.tag_query) {
            return false;
        }
        match &self.scrape {
            Some((a, b)) => {
                if is_empty(a) || is_empty(b) {
                    return false;
                }
            },
            None => {},
        }
        if !is_empty(&self.last_source) {
            return false;
        }
        match self.cover_uploaded {
            Some(true) => true,
            _ => false,
        }
    }
}

fn is_empty(s: &String) -> (r: bool)
    ensures
        r == (s@.len() == 0),
{
    let v = chars_of(s.as_str());
    v.len() == 0
}

/// A separator of the words of a label.
pub open spec fn is_sep(c: char) -> bool {
    c == '-' || c == ' '
}

/// `c.to_uppercase()` for an ASCII character.
pub open spec fn ascii_upper(c: char) -> char {
    if 'a' <= c <= 'z' {
        ((c as u32) - 32) as char
    } else {
        c
    }
}

/// Every word (between separators) starts with an ASCII character, as the
/// label code needs to cut off its first byte.
pub open spec fn label_words_ok(s: Seq<char>) -> bool {
    forall|i: int|
        0 <= i < s.len() && (i == 0 || is_sep(s[i - 1])) ==> !is_sep(#[trigger] s[i]) && (s[i] as u32)
            < 128
}

/// Dashes become spaces and every word starts with a capital letter.
pub open spec fn label(s: Seq<char>) -> Seq<char> {
    Seq::new(
        s.len(),
        |i: int|
            if i == 0 || is_sep(s[i - 1]) {
                ascii_upper(s[i])
            } else if s[i] == '-' {
                ' '
            } else {
                s[i]
            },
    )
}

/// Turns a tag name such as `next-available` into `Next Available`.
pub fn display_label(s: &str) -> (r: String)
    requires
        label_words_ok(s@),
        s@.len() > 0 ==> !is_sep(s@.last()),
    ensures
        r@ == label(s@),
{
    let v = chars_of(s);
    let mut out = String::new();
    let mut i: usize = 0;
    while i < v.len()
        invariant
            v@ == s@,
            label_words_ok(s@),
            i <= v.len(),
            out@ == label(s@).take(i as int),
        decreases v.len() - i,
    {
        let c = v[i];
        let d = if i == 0 || v[i - 1] == '-' || v[i - 1] == ' ' {
            if 'a' <= c && c <= 'z' {
                ((c as u32 - 32) as u8) as char
            } else {
                c
            }
        } else if c == '-' {
            ' '
        } else {
            c
        };
        assert(d == label(s@)[i as int]);
        push_char(&mut out, d);
        i = i + 1;
        assert(out@ =~= label(s@).take(i as int));
    }
    assert(label(s@).take(i as int) =~= label(s@));
    out
}

/// The open / closed memory of a suggestion box's popup: the hash of the
/// text for which the user closed it (Escape) or opened it (F1).
pub struct SuggestionPopup {
    pub closed: Option<u64>,
    pub open: Option<u64>,
}

/// The key a suggestion box reacts to in a frame, if any.
pub enum KeyEvent {
    Escape,
    F1,
    Enter,
    Other,
}

/// What a key did: Escape closed the popup, Enter confirmed the text.
#[derive(PartialEq, Eq)]
pub enum KeyPressed {
    Esc,
    Enter,
}

/// The popup state after its step: whether it is closed, and the memory.
pub open spec fn popup_step(
    st: SuggestionPopup,
    enter: bool,
    no_suggestions: bool,
    text_empty: bool,
    text_hash: u64,
) -> (bool, SuggestionPopup) {
    if enter {
        (false, st)
    } else if no_suggestions {
        (true, st)
    } else {
        let (c1, st1) = if text_empty {
            (true, st)
        } else {
            match st.closed {
                Some(v) => if text_hash == v {
                    (true, st)
                } else {
                    (false, SuggestionPopup { closed: None, open: st.open })
                },
                None => (false, st),
            }
        };
        if c1 {
            match st1.open {
                Some(v) => if text_hash == v {
                    (false, st1)
                } else {
                    (true, SuggestionPopup { closed: st1.closed, open: None })
                },
                None => (true, st1),
            }
        } else {
            (false, st1)
        }
    }
}

impl SuggestionPopup {
    /// A popup with nothing remembered.
    pub fn new() -> (r: Self)
        ensures
            r.closed is None,
            r.open is None,
    {
        SuggestionPopup { closed: None, open: None }
    }

    /// Reacts to a key while the text field has focus: Escape closes the
    /// popup for this text, F1 opens it for this text, Enter confirms.
    pub fn keybinds(&mut self, key: KeyEvent, text_hash: u64) -> (r: Option<KeyPressed>)
        ensures
            match key {
                KeyEvent::Escape => final(self).closed == Some(text_hash) && final(self).open is None
                    && r == Some(KeyPressed::Esc),
                KeyEvent::F1 => final(self).open == Some(text_hash) && final(self).closed is None
                    && r is None,
                KeyEvent::Enter => *final(self) == *old(self) && r == Some(KeyPressed::Enter),
                KeyEvent::Other => *final(self) == *old(self) && r is None,
            },
    {
        match key {
            KeyEvent::Escape => {
                self.closed = Some(text_hash);
                self.open = None;
                Some(KeyPressed::Esc)
            },
            KeyEvent::F1 => {
                self.open = Some(text_hash);
                self.closed = None;
                None
            },
            KeyEvent::Enter => Some(KeyPressed::Enter),
            KeyEvent::Other => None,
        }
    }

    /// Whether the popup is closed this frame. Confirming with Enter keeps it
    /// open; no suggestion or an empty text closes it, as does the text it
    /// was closed for, unless it was opened for that text; a remembered
    /// text that no longer matches is forgotten.
    pub fn is_closed(&mut self, enter: bool, no_suggestions: bool, text_empty: bool, text_hash: u64)
        -> (closed: bool)
        ensures
            (closed, *final(self)) == popup_step(
                *old(self),
                enter,
                no_suggestions,
                text_empty,
                text_hash,
            ),
    {
        let mut closed = false;
        if !enter {
            if no_suggestions {
                closed = true;
            } else {
                if text_empty {
                    closed = true;
                } else {
                    match self.closed {
                        Some(v) => {
                            if text_hash == v {
                                closed = true;
                            } else {
                                self.closed = None;
                            }
                        },
                        None => {},
                    }
                }
                if closed {
                    match self.open {
                        Some(v) => {
                            if text_hash == v {
                                closed = false;
                            } else {
                                self.open = None;
                            }
                        },
                        None => {},
                    }
                }
            }
        }
        closed
    }

    /// A suggestion was picked: the popup stays closed for the new text.
    pub fn picked(&mut self, text_hash: u64)
        ensures
            final(self).closed == Some(text_hash),
            final(self).open == old(self).open,
    {
        self.closed = Some(text_hash);
    }
}

/// A popup closed with Escape stays closed for that text, and F1 reopens
/// it: after Escape the popup is closed for the same text while there are
/// suggestions, and after F1 it is open for it.
pub proof fn lemma_escape_then_f1(h: u64)
    ensures
        popup_step(SuggestionPopup { closed: Some(h), open: None }, false, false, false, h).0,
        !popup_step(SuggestionPopup { closed: None, open: Some(h) }, false, false, false, h).0,
        !popup_step(SuggestionPopup { closed: None, open: Some(h) }, false, false, true, h).0,
{
}

} // verus!
