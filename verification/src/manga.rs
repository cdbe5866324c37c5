//! The decisions of the manga actions that do not need the database: the
//! checks of cover, art and relation edits, and how a restored bundle's
//! metadata becomes a create request.
use vstd::prelude::*;
use crate::error::{ApiError, fails_with};
use crate::keys::{filled, opt_strings_view};
use crate::number::{decimal, push_decimal};
use crate::restore::strings_view;
use crate::text::{append_str, is_blank, str_eq, trim, trimmed};
use crate::validate::{
    any_blank, blank, msg_empty, sanitize_non_empty, sanitized, validate_non_empty, Scraper,
};

verus! {

/// The filled slots among `slots` other than `index`.
pub open spec fn others_filled(slots: Seq<Option<Seq<char>>>, index: int) -> bool {
    exists|i: int| 0 <= i < slots.len() && i != index && #[trigger] slots[i] is Some
}

/// Checks that cover `index` of a manga with the given cover slots can be
/// removed: it exists, and another cover remains.
pub fn check_remove_cover(covers: &Vec<Option<String>>, index: usize) -> (r: Result<(), ApiError>)
    ensures
        ({
            let s = opt_strings_view(covers@);
            if index >= s.len() {
                fails_with(r, "cover_index out of bounds"@)
            } else if s[index as int] is None {
                fails_with(r, "cover does not exist"@)
            } else if !others_filled(s, index as int) {
                fails_with(r, "at least one cover is required"@)
            } else {
                r is Ok
            }
        }),
{
    let ghost s = opt_strings_view(covers@);
    if index >= covers.len() {
        return Err(ApiError::invalid_input("cover_index out of bounds"));
    }
    if covers[index].is_none() {
        return Err(ApiError::invalid_input("cover does not exist"));
    }
    let mut i: usize = 0;
    while i < covers.len()
        invariant
            s == opt_strings_view(covers@),
            index < s.len(),
            s[index as int] is Some,
            i <= covers.len(),
            forall|k: int| 0 <= k < i && k != index ==> !(#[trigger] s[k] is Some),
        decreases covers.len() - i,
    {
        if i != index && covers[i].is_some() {
            assert(s[i as int] is Some);
            return Ok(());
        }
        i = i + 1;
    }
    Err(ApiError::invalid_input("at least one cover is required"))
}

/// Checks that art `index` of a manga with the given art slots exists.
pub fn check_remove_art(arts: &Vec<Option<String>>, index: usize) -> (r: Result<(), ApiError>)
    ensures
        index >= arts@.len() ==> fails_with(r, "art_index out of bounds"@),
        index < arts@.len() && arts@[index as int] is None ==> fails_with(
            r,
            "art does not exist"@,
        ),
        index < arts@.len() && arts@[index as int] is Some ==> r is Ok,
{
    if index >= arts.len() {
        return Err(ApiError::invalid_input("art_index out of bounds"));
    }
    if arts[index].is_none() {
        return Err(ApiError::invalid_input("art does not exist"));
    }
    Ok(())
}

/// Checks the two ids of a relation: neither blank, and not the same manga.
pub fn check_relation(manga_id: &str, relation_id: &str) -> (r: Result<(), ApiError>)
    ensures
        blank(manga_id@) ==> fails_with(r, msg_empty("manga_id"@)),
        !blank(manga_id@) && blank(relation_id@) ==> fails_with(r, msg_empty("relation_id"@)),
        !blank(manga_id@) && !blank(relation_id@) && manga_id@ == relation_id@ ==> fails_with(
            r,
            "manga_id and relation_id cannot be the same"@,
        ),
        !blank(manga_id@) && !blank(relation_id@) && manga_id@ != relation_id@ ==> r is Ok,
{
    if let Err(e) = validate_non_empty("manga_id", manga_id) {
        return Err(e);
    }
    if let Err(e) = validate_non_empty("relation_id", relation_id) {
        return Err(e);
    }
    if str_eq(manga_id, relation_id) {
        return Err(ApiError::invalid_input("manga_id and relation_id cannot be the same"));
    }
    Ok(())
}

fn contains_str(v: &Vec<String>, s: &str) -> (r: bool)
    ensures
        r == exists|i: int| 0 <= i < v@.len() && #[trigger] v@[i]@ == s@,
{
    let mut i: usize = 0;
    while i < v.len()
        invariant
            i <= v.len(),
            forall|k: int| 0 <= k < i ==> #[trigger] v@[k]@ != s@,
        decreases v.len() - i,
    {
        if str_eq(v[i].as_str(), s) {
            return true;
        }
        i = i + 1;
    }
    false
}

/// The user `uid` worked on the manga: as an artist, author or publisher,
/// or as its uploader.
pub fn is_contributor(
    artists: &Vec<String>,
    authors: &Vec<String>,
    publishers: &Vec<String>,
    uploader: &str,
    uid: &str,
) -> (r: bool)
    ensures
        r == ((exists|i: int| 0 <= i < artists@.len() && #[trigger] artists@[i]@ == uid@) || (exists|
            i: int,
        |
            0 <= i < authors@.len() && #[trigger] authors@[i]@ == uid@) || (exists|i: int|
            0 <= i < publishers@.len() && #[trigger] publishers@[i]@ == uid@) || uploader@ == uid@),
{
    contains_str(artists, uid) || contains_str(authors, uid) || contains_str(publishers, uid)
        || str_eq(uploader, uid)
}

/// The `scraper` flag of a manga's info: some of its scrapers is enabled
/// (`enabled[i]` tells whether scraper `i` is).
pub fn any_scraper_enabled(enabled: &Vec<bool>) -> (r: bool)
    ensures
        r == exists|i: int| 0 <= i < enabled@.len() && #[trigger] enabled@[i],
{
    let mut i: usize = 0;
    while i < enabled.len()
        invariant
            i <= enabled.len(),
            forall|k: int| 0 <= k < i ==> !#[trigger] enabled@[k],
        decreases enabled.len() - i,
    {
        if enabled[i] {
            return true;
        }
        i = i + 1;
    }
    false
}

/// Checks the input of a restore: the metadata id and the user are given,
/// and no image id is blank.
pub fn validate_restore_input(metadata_id: &str, uid: &str, image_ids: &Vec<String>) -> (r: Result<
    (),
    ApiError,
>)
    ensures
        blank(metadata_id@) ==> fails_with(r, msg_empty("metadata_id"@)),
        !blank(metadata_id@) && blank(uid@) ==> fails_with(r, msg_empty("uid"@)),
        !blank(metadata_id@) && !blank(uid@) && any_blank(strings_view(image_ids@)) ==> fails_with(
            r,
            "image_ids cannot contain empty values"@,
        ),
        !blank(metadata_id@) && !blank(uid@) && !any_blank(strings_view(image_ids@)) ==> r is Ok,
{
    if let Err(e) = validate_non_empty("metadata_id", metadata_id) {
        return Err(e);
    }
    if let Err(e) = validate_non_empty("uid", uid) {
        return Err(e);
    }
    let mut i: usize = 0;
    while i < image_ids.len()
        invariant
            !blank(metadata_id@),
            !blank(uid@),
            i <= image_ids.len(),
            forall|k: int| 0 <= k < i ==> !blank(#[trigger] strings_view(image_ids@)[k]),
        decreases image_ids.len() - i,
    {
        if is_blank(image_ids[i].as_str()) {
            assert(blank(strings_view(image_ids@)[i as int]));
            return Err(ApiError::invalid_input("image_ids cannot contain empty values"));
        }
        i = i + 1;
    }
    Ok(())
}

/// The title lists of a restored manga: each list sanitized, lists with a
/// blank language or no title left dropped; `en: Restored Manga` when
/// nothing is left.
pub open spec fn restored_names(titles: Seq<(Seq<char>, Seq<Seq<char>>)>) -> Seq<
    (Seq<char>, Seq<Seq<char>>),
> {
    let kept = kept_titles(titles, titles.len() as int);
    if kept.len() == 0 {
        seq![("en"@, seq!["Restored Manga"@])]
    } else {
        kept
    }
}

/// The kept title lists among the first `n`.
pub open spec fn kept_titles(titles: Seq<(Seq<char>, Seq<Seq<char>>)>, n: int) -> Seq<
    (Seq<char>, Seq<Seq<char>>),
>
    decreases n,
{
    if n <= 0 || n > titles.len() {
        seq![]
    } else {
        let rest = kept_titles(titles, n - 1);
        let (lang, items) = titles[n - 1];
        if blank(lang) || sanitized(items).len() == 0 {
            rest
        } else {
            rest.push((lang, sanitized(items)))
        }
    }
}

/// Models of title lists.
pub open spec fn title_lists_view(v: Seq<(String, Vec<String>)>) -> Seq<(Seq<char>, Seq<Seq<char>>)> {
    Seq::new(v.len(), |i: int| (v[i].0@, strings_view(v[i].1@)))
}

/// The title lists of the manga a bundle restores.
pub fn restore_names(titles: Vec<(String, Vec<String>)>) -> (r: Vec<(String, Vec<String>)>)
    ensures
        title_lists_view(r@) == restored_names(title_lists_view(titles@)),
{
    let ghost tv = title_lists_view(titles@);
    let n = titles.len();
    let mut rest = titles;
    let mut out: Vec<(String, Vec<String>)> = Vec::new();
    let mut i: usize = 0;
    while rest.len() > 0
        invariant
            i + rest@.len() == tv.len(),
            tv.len() == n,
            title_lists_view(rest@) == tv.skip(i as int),
            title_lists_view(out@) == kept_titles(tv, i as int),
        decreases rest.len(),
    {
        let ghost old_rest = rest@;
        let e = rest.remove(0);
        assert(e == old_rest[0]);
        assert((e.0@, strings_view(e.1@)) == tv[i as int]) by {
            assert(title_lists_view(old_rest)[0] == tv.skip(i as int)[0]);
        }
        assert(title_lists_view(rest@) =~= tv.skip(i + 1)) by {
            assert forall|j: int| 0 <= j < rest@.len() implies #[trigger] title_lists_view(rest@)[j]
                == tv.skip(i + 1)[j] by {
                assert(rest@[j] == old_rest[j + 1]);
                assert(title_lists_view(old_rest)[j + 1] == tv.skip(i as int)[j + 1]);
            }
        }
        let (lang, items) = e;
        let blank_lang = is_blank(lang.as_str());
        let clean = sanitize_non_empty(items);
        if !blank_lang && clean.len() > 0 {
            let ghost before = title_lists_view(out@);
            let ghost entry = (lang@, strings_view(clean@));
            out.push((lang, clean));
            assert(title_lists_view(out@) =~= before.push(entry));
        }
        i = i + 1;
    }
    if out.len() == 0 {
        let mut en: Vec<String> = Vec::new();
        let title = "Restored Manga".to_owned();
        let ghost tv = title@;
        en.push(title);
        assert(strings_view(en@) =~= seq![tv]);
        let lang = "en".to_owned();
        let ghost lv = lang@;
        out.push((lang, en));
        assert(title_lists_view(out@) =~= seq![(lv, seq![tv])]);
        assert(title_lists_view(out@) =~= seq![("en"@, seq!["Restored Manga"@])]);
    }
    out
}

/// The kind of a restored manga: the trimmed kind, `restored` when blank.
pub fn restore_kind(kind: &str) -> (r: String)
    ensures
        r@ == (if blank(kind@) {
            "restored"@
        } else {
            trim(kind@)
        }),
{
    if is_blank(kind) {
        "restored".to_owned()
    } else {
        trimmed(kind)
    }
}

/// The description of a restored manga: trimmed, dropped when blank.
pub fn restore_description(description: Option<String>) -> (r: Option<String>)
    ensures
        match description {
            None => r is None,
            Some(d) => if blank(d@) {
                r is None
            } else {
                r matches Some(s) && s@ == trim(d@)
            },
        },
{
    match description {
        None => None,
        Some(d) => {
            if is_blank(d.as_str()) {
                None
            } else {
                Some(trimmed(d.as_str()))
            }
        },
    }
}

/// A scraper as a bundle stores it.
pub struct BundleScraper {
    pub channel: String,
    pub url: String,
    pub enabled: bool,
}

/// The scrapers a restored manga gets: the enabled ones, channel and url
/// trimmed, those with a blank channel or url dropped.
pub open spec fn restored_scrapers(s: Seq<(Seq<char>, Seq<char>, bool)>, n: int) -> Seq<
    (Seq<char>, Seq<char>),
>
    decreases n,
{
    if n <= 0 || n > s.len() {
        seq![]
    } else {
        let rest = restored_scrapers(s, n - 1);
        let (c, u, e) = s[n - 1];
        if e && !blank(c) && !blank(u) {
            rest.push((trim(c), trim(u)))
        } else {
            rest
        }
    }
}

pub open spec fn bundle_scrapers_view(v: Seq<BundleScraper>) -> Seq<(Seq<char>, Seq<char>, bool)> {
    Seq::new(v.len(), |i: int| (v[i].channel@, v[i].url@, v[i].enabled))
}

pub open spec fn scrapers_view(v: Seq<Scraper>) -> Seq<(Seq<char>, Seq<char>)> {
    Seq::new(v.len(), |i: int| (v[i].channel@, v[i].url@))
}

/// The scrapers of the manga a bundle restores.
pub fn restore_scrapers(scrapers: &Vec<BundleScraper>) -> (r: Vec<Scraper>)
    ensures
        scrapers_view(r@) == restored_scrapers(
            bundle_scrapers_view(scrapers@),
            scrapers@.len() as int,
        ),
{
    let ghost sv = bundle_scrapers_view(scrapers@);
    let mut out: Vec<Scraper> = Vec::new();
    let mut i: usize = 0;
    while i < scrapers.len()
        invariant
            sv == bundle_scrapers_view(scrapers@),
            i <= scrapers.len(),
            scrapers_view(out@) == restored_scrapers(sv, i as int),
        decreases scrapers.len() - i,
    {
        let s = &scrapers[i];
        if s.enabled && !is_blank(s.channel.as_str()) && !is_blank(s.url.as_str()) {
            let ghost before = scrapers_view(out@);
            let sc = Scraper { channel: trimmed(s.channel.as_str()), url: trimmed(s.url.as_str()) };
            let ghost entry = (sc.channel@, sc.url@);
            out.push(sc);
            assert(scrapers_view(out@) =~= before.push(entry));
        }
        i = i + 1;
    }
    out
}

/// The name of version `index` of a restored chapter: the trimmed name,
/// `restored-v{index + 1}` when blank.
pub fn restore_version_name(name: &str, index: usize) -> (r: String)
    requires
        index < usize::MAX,
    ensures
        r@ == (if blank(name@) {
            "restored-v"@ + decimal(index as nat + 1)
        } else {
            trim(name@)
        }),
{
    if is_blank(name) {
        let mut s = String::new();
        append_str(&mut s, "restored-v");
        push_decimal(&mut s, (index + 1) as u64);
        s
    } else {
        trimmed(name)
    }
}

/// A restored chapter has versions.
pub fn check_chapter_versions(count: usize) -> (r: Result<(), ApiError>)
    ensures
        count == 0 ==> fails_with(r, "restore metadata contains chapter without versions"@),
        count > 0 ==> r is Ok,
{
    if count == 0 {
        return Err(ApiError::invalid_input("restore metadata contains chapter without versions"));
    }
    Ok(())
}

/// A restored chapter version has pages.
pub fn check_version_pages(count: usize) -> (r: Result<(), ApiError>)
    ensures
        count == 0 ==> fails_with(r, "restore metadata contains empty chapter version pages"@),
        count > 0 ==> r is Ok,
{
    if count == 0 {
        return Err(ApiError::invalid_input("restore metadata contains empty chapter version pages"));
    }
    Ok(())
}

/// A chapter of an export needs a version.
pub fn check_export_versions(chapter_id: &str, count: usize) -> (r: Result<(), ApiError>)
    ensures
        count == 0 ==> fails_with(r, "chapter "@ + chapter_id@ + " has no versions"@),
        count > 0 ==> r is Ok,
{
    if count == 0 {
        let mut s = String::new();
        append_str(&mut s, "chapter ");
        append_str(&mut s, chapter_id);
        append_str(&mut s, " has no versions");
        return Err(ApiError::invalid_input_string(&s));
    }
    Ok(())
}

/// What a title list of a bundle contributes to the restored names: the
/// list with its titles sanitized, when its language is not blank and a
/// title is left.
pub open spec fn title_entry(x: (Seq<char>, Seq<Seq<char>>)) -> Option<
    (Seq<char>, Seq<Seq<char>>),
> {
    if !blank(x.0) && sanitized(x.1).len() > 0 {
        Some((x.0, sanitized(x.1)))
    } else {
        None
    }
}

proof fn lemma_kept_titles_filter_map(
    t: Seq<(Seq<char>, Seq<Seq<char>>)>,
    n: int,
    f: spec_fn((Seq<char>, Seq<Seq<char>>)) -> Option<(Seq<char>, Seq<Seq<char>>)>,
)
    requires
        0 <= n <= t.len(),
        forall|x: (Seq<char>, Seq<Seq<char>>)| #[trigger] f(x) == title_entry(x),
    ensures
        kept_titles(t, n) == t.take(n).filter_map(f),
    decreases n,
{
    if n == 0 {
        assert(t.take(0) =~= Seq::<(Seq<char>, Seq<Seq<char>>)>::empty());
    } else {
        lemma_kept_titles_filter_map(t, n - 1, f);
        assert(t.take(n).drop_last() =~= t.take(n - 1));
        assert(t.take(n).last() == t[n - 1]);
        let rest = kept_titles(t, n - 1);
        match f(t[n - 1]) {
            Some(e) => assert(rest.push(e) =~= rest + seq![e]),
            None => {},
        }
    }
}

/// Every title list of a bundle with a language and a title left is
/// restored, sanitized, one entry per such list and in their order; the
/// others are dropped, and only when none is left does the manga get the
/// English fallback title.
pub proof fn lemma_restored_names_keep_every_list(t: Seq<(Seq<char>, Seq<Seq<char>>)>)
    ensures
        ({
            let kept = t.filter_map(|x: (Seq<char>, Seq<Seq<char>>)| title_entry(x));
            restored_names(t) == if kept.len() == 0 {
                seq![("en"@, seq!["Restored Manga"@])]
            } else {
                kept
            }
        }),
{
    let f = |x: (Seq<char>, Seq<Seq<char>>)| title_entry(x);
    lemma_kept_titles_filter_map(t, t.len() as int, f);
    assert(t.take(t.len() as int) =~= t);
}

/// What a scraper of a bundle contributes to the restored scrapers: its
/// trimmed channel and url, when it is enabled and neither is blank.
pub open spec fn scraper_entry(x: (Seq<char>, Seq<char>, bool)) -> Option<(Seq<char>, Seq<char>)> {
    if x.2 && !blank(x.0) && !blank(x.1) {
        Some((trim(x.0), trim(x.1)))
    } else {
        None
    }
}

proof fn lemma_restored_scrapers_filter_map(
    s: Seq<(Seq<char>, Seq<char>, bool)>,
    n: int,
    f: spec_fn((Seq<char>, Seq<char>, bool)) -> Option<(Seq<char>, Seq<char>)>,
)
    requires
        0 <= n <= s.len(),
        forall|x: (Seq<char>, Seq<char>, bool)| #[trigger] f(x) == scraper_entry(x),
    ensures
        restored_scrapers(s, n) == s.take(n).filter_map(f),
    decreases n,
{
    if n == 0 {
        assert(s.take(0) =~= Seq::<(Seq<char>, Seq<char>, bool)>::empty());
    } else {
        lemma_restored_scrapers_filter_map(s, n - 1, f);
        assert(s.take(n).drop_last() =~= s.take(n - 1));
        assert(s.take(n).last() == s[n - 1]);
        let rest = restored_scrapers(s, n - 1);
        match f(s[n - 1]) {
            Some(e) => assert(rest.push(e) =~= rest + seq![e]),
            None => {},
        }
    }
}

/// Every enabled scraper of a bundle whose channel and url are not blank is
/// restored, trimmed, one entry per such scraper and in their order; the
/// others are dropped.
pub proof fn lemma_restored_scrapers_keep_every_enabled(s: Seq<(Seq<char>, Seq<char>, bool)>)
    ensures
        restored_scrapers(s, s.len() as int) == s.filter_map(
            |x: (Seq<char>, Seq<char>, bool)| scraper_entry(x),
        ),
{
    let f = |x: (Seq<char>, Seq<char>, bool)| scraper_entry(x);
    lemma_restored_scrapers_filter_map(s, s.len() as int, f);
    assert(s.take(s.len() as int) =~= s);
}

} // verus!
