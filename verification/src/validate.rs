//! Checks of request fields and the clean-up of lists of strings.
use vstd::prelude::*;
use crate::error::{ApiError, fails_with};
use crate::restore::strings_view;
use crate::keys::{keyed_view, lemma_sorted_by_key, sort_by_key, sorted_by_key};
use crate::text::{append_str, chars_of, is_blank, str_eq, trim, trim_bounds, trimmed, string_from_range};

verus! {

/// The string is empty once trimmed.
pub open spec fn blank(s: Seq<char>) -> bool {
    trim(s).len() == 0
}

/// `"{field} cannot be empty"`.
pub open spec fn msg_empty(field: Seq<char>) -> Seq<char> {
    field + " cannot be empty"@
}

/// `"{field} cannot contain empty values"`.
pub open spec fn msg_empty_values(field: Seq<char>) -> Seq<char> {
    field + " cannot contain empty values"@
}

/// Some item is blank.
pub open spec fn any_blank(items: Seq<Seq<char>>) -> bool {
    exists|i: int| 0 <= i < items.len() && blank(#[trigger] items[i])
}

fn message(field: &str, tail: &str) -> (r: String)
    ensures
        r@ == field@ + tail@,
{
    let mut s = String::new();
    append_str(&mut s, field);
    append_str(&mut s, tail);
    s
}

/// Fails with `"{field} cannot be empty"` when `value` is blank.
pub fn validate_non_empty(field: &str, value: &str) -> (r: Result<(), ApiError>)
    ensures
        blank(value@) ==> fails_with(r, msg_empty(field@)),
        !blank(value@) ==> r is Ok,
{
    if is_blank(value) {
        return Err(ApiError::invalid_input_string(&message(field, " cannot be empty")));
    }
    Ok(())
}

fn find_blank(items: &Vec<String>) -> (r: bool)
    ensures
        r == any_blank(strings_view(items@)),
{
    let ghost sv = strings_view(items@);
    let mut i: usize = 0;
    while i < items.len()
        invariant
            sv == strings_view(items@),
            i <= items.len(),
            forall|k: int| 0 <= k < i ==> !blank(#[trigger] sv[k]),
        decreases items.len() - i,
    {
        if is_blank(items[i].as_str()) {
            assert(blank(sv[i as int]));
            return true;
        }
        i = i + 1;
    }
    false
}

/// Fails with `"{field} cannot contain empty values"` when an item is blank.
pub fn validate_non_empty_items(field: &str, items: &Vec<String>) -> (r: Result<(), ApiError>)
    ensures
        any_blank(strings_view(items@)) ==> fails_with(r, msg_empty_values(field@)),
        !any_blank(strings_view(items@)) ==> r is Ok,
{
    if find_blank(items) {
        return Err(ApiError::invalid_input_string(&message(field, " cannot contain empty values")));
    }
    Ok(())
}

/// Fails with `page must be >= 1` or `limit must be >= 1`.
pub fn validate_pagination(page: u32, limit: u32) -> (r: Result<(), ApiError>)
    ensures
        page == 0 ==> fails_with(r, "page must be >= 1"@),
        page != 0 && limit == 0 ==> fails_with(r, "limit must be >= 1"@),
        page != 0 && limit != 0 ==> r is Ok,
{
    if page == 0 {
        return Err(ApiError::invalid_input("page must be >= 1"));
    }
    if limit == 0 {
        return Err(ApiError::invalid_input("limit must be >= 1"));
    }
    Ok(())
}

/// The error one title list `(language, titles)` raises.
pub open spec fn title_error(lang: Seq<char>, titles: Seq<Seq<char>>) -> Option<Seq<char>> {
    if blank(lang) {
        Some(msg_empty("language"@))
    } else if titles.len() == 0 {
        Some("name list cannot be empty"@)
    } else if any_blank(titles) {
        Some(msg_empty_values("names"@))
    } else {
        None
    }
}

/// Models of title lists `(language, titles)`.
pub open spec fn titles_view(v: Seq<(String, Vec<String>)>) -> Seq<(Seq<char>, Seq<Seq<char>>)> {
    Seq::new(v.len(), |i: int| (v[i].0@, strings_view(v[i].1@)))
}

/// The first error among the first `n` title lists.
pub open spec fn first_title_error(names: Seq<(Seq<char>, Seq<Seq<char>>)>, n: int) -> Option<
    Seq<char>,
>
    decreases n,
{
    if n <= 0 || n > names.len() {
        None
    } else {
        match first_title_error(names, n - 1) {
            Some(e) => Some(e),
            None => title_error(names[n - 1].0, names[n - 1].1),
        }
    }
}

/// Checks the titles of a manga, language by language: there is at least
/// one language, no language is blank, and each has a non-empty list of
/// non-blank titles.
pub fn validate_titles(names: &Vec<(String, Vec<String>)>) -> (r: Result<(), ApiError>)
    ensures
        ({
            let nv = titles_view(names@);
            if nv.len() == 0 {
                fails_with(r, "names cannot be empty"@)
            } else {
                match first_title_error(nv, nv.len() as int) {
                    Some(e) => fails_with(r, e),
                    None => r is Ok,
                }
            }
        }),
{
    let ghost nv = titles_view(names@);
    if names.len() == 0 {
        return Err(ApiError::invalid_input("names cannot be empty"));
    }
    let mut i: usize = 0;
    while i < names.len()
        invariant
            nv == titles_view(names@),
            i <= names.len(),
            first_title_error(nv, i as int) is None,
        decreases names.len() - i,
    {
        let (lang, titles) = (&names[i].0, &names[i].1);
        if let Err(e) = validate_non_empty("language", lang.as_str()) {
            proof {
                lemma_title_error_stays(nv, i + 1, nv.len() as int);
            }
            return Err(e);
        }
        if titles.len() == 0 {
            proof {
                lemma_title_error_stays(nv, i + 1, nv.len() as int);
            }
            return Err(ApiError::invalid_input("name list cannot be empty"));
        }
        if let Err(e) = validate_non_empty_items("names", titles) {
            proof {
                lemma_title_error_stays(nv, i + 1, nv.len() as int);
            }
            return Err(e);
        }
        i = i + 1;
    }
    Ok(())
}

proof fn lemma_title_error_stays(names: Seq<(Seq<char>, Seq<Seq<char>>)>, p: int, q: int)
    requires
        0 <= p <= q <= names.len(),
        first_title_error(names, p) is Some,
    ensures
        first_title_error(names, q) == first_title_error(names, p),
    decreases q - p,
{
    if q > p {
        lemma_title_error_stays(names, p, q - 1);
    }
}

/// A scraper of a manga: the channel it reads and the url it reads from.
pub struct Scraper {
    pub channel: String,
    pub url: String,
}

/// The first error among the first `n` scrapers `(channel, url)`.
pub open spec fn first_scraper_error(s: Seq<(Seq<char>, Seq<char>)>, n: int) -> Option<Seq<char>>
    decreases n,
{
    if n <= 0 || n > s.len() {
        None
    } else {
        match first_scraper_error(s, n - 1) {
            Some(e) => Some(e),
            None => if blank(s[n - 1].0) {
                Some(msg_empty("scraper.channel"@))
            } else if blank(s[n - 1].1) {
                Some(msg_empty("scraper.url"@))
            } else {
                None
            },
        }
    }
}

/// Models of scrapers `(channel, url)`.
pub open spec fn scrapers_view(v: Seq<Scraper>) -> Seq<(Seq<char>, Seq<char>)> {
    Seq::new(v.len(), |i: int| (v[i].channel@, v[i].url@))
}

/// Checks that no scraper has a blank channel or url.
pub fn validate_scrapers(scrapers: &Vec<Scraper>) -> (r: Result<(), ApiError>)
    ensures
        match first_scraper_error(scrapers_view(scrapers@), scrapers@.len() as int) {
            Some(e) => fails_with(r, e),
            None => r is Ok,
        },
{
    let ghost sv = scrapers_view(scrapers@);
    let mut i: usize = 0;
    while i < scrapers.len()
        invariant
            sv == scrapers_view(scrapers@),
            i <= scrapers.len(),
            first_scraper_error(sv, i as int) is None,
        decreases scrapers.len() - i,
    {
        if let Err(e) = validate_non_empty("scraper.channel", scrapers[i].channel.as_str()) {
            proof {
                lemma_scraper_error_stays(sv, i + 1, sv.len() as int);
            }
            return Err(e);
        }
        if let Err(e) = validate_non_empty("scraper.url", scrapers[i].url.as_str()) {
            proof {
                lemma_scraper_error_stays(sv, i + 1, sv.len() as int);
            }
            return Err(e);
        }
        i = i + 1;
    }
    Ok(())
}

proof fn lemma_scraper_error_stays(s: Seq<(Seq<char>, Seq<char>)>, p: int, q: int)
    requires
        0 <= p <= q <= s.len(),
        first_scraper_error(s, p) is Some,
    ensures
        first_scraper_error(s, q) == first_scraper_error(s, p),
    decreases q - p,
{
    if q > p {
        lemma_scraper_error_stays(s, p, q - 1);
    }
}

/// The items trimmed, blank ones dropped.
pub open spec fn sanitized(items: Seq<Seq<char>>) -> Seq<Seq<char>>
    decreases items.len(),
{
    if items.len() == 0 {
        seq![]
    } else {
        let rest = sanitized(items.drop_last());
        if blank(items.last()) {
            rest
        } else {
            rest.push(trim(items.last()))
        }
    }
}

/// Trims every item and drops the blank ones.
pub fn sanitize_non_empty(items: Vec<String>) -> (r: Vec<String>)
    ensures
        strings_view(r@) == sanitized(strings_view(items@)),
{
    let ghost sv = strings_view(items@);
    let mut out: Vec<String> = Vec::new();
    let mut i: usize = 0;
    while i < items.len()
        invariant
            sv == strings_view(items@),
            i <= items.len(),
            strings_view(out@) == sanitized(sv.take(i as int)),
        decreases items.len() - i,
    {
        proof {
            assert(sv.take(i + 1).drop_last() =~= sv.take(i as int));
            assert(sv.take(i + 1).last() == items@[i as int]@);
        }
        if !is_blank(items[i].as_str()) {
            let t = trimmed(items[i].as_str());
            let ghost before = strings_view(out@);
            out.push(t);
            assert(strings_view(out@) =~= before.push(t@));
        }
        i = i + 1;
    }
    assert(sv.take(i as int) =~= sv);
    out
}

/// Sanitizing keeps exactly the non-blank items, trimmed, in order; none of
/// them is blank.
pub proof fn lemma_sanitized_clean(items: Seq<Seq<char>>)
    ensures
        !any_blank(sanitized(items)),
        sanitized(items).len() <= items.len(),
    decreases items.len(),
{
    if items.len() > 0 {
        lemma_sanitized_clean(items.drop_last());
        let rest = sanitized(items.drop_last());
        if !blank(items.last()) {
            crate::text::lemma_trim_idempotent(items.last());
            assert forall|i: int| 0 <= i < rest.len() + 1 implies !blank(
                #[trigger] rest.push(trim(items.last()))[i],
            ) by {
                if i < rest.len() {
                    assert(rest.push(trim(items.last()))[i] == rest[i]);
                }
            }
        }
    }
}

/// The number of bytes of `c` in UTF-8.
pub open spec fn utf8_width(c: char) -> nat {
    if (c as u32) < 0x80 {
        1
    } else if (c as u32) < 0x800 {
        2
    } else if (c as u32) < 0x10000 {
        3
    } else {
        4
    }
}

/// The number of bytes of `s` in UTF-8 (`str::len`).
pub open spec fn utf8_len(s: Seq<char>) -> nat
    decreases s.len(),
{
    if s.len() == 0 {
        0
    } else {
        utf8_len(s.drop_last()) + utf8_width(s.last())
    }
}

/// A character a list name may hold: ASCII letters and digits, `-`, `_`
/// and space.
pub open spec fn list_name_char(c: char) -> bool {
    ||| 'a' <= c <= 'z'
    ||| 'A' <= c <= 'Z'
    ||| '0' <= c <= '9'
    ||| c == '-'
    ||| c == '_'
    ||| c == ' '
}

/// The error a list name raises, if any.
pub open spec fn list_name_error(name: Seq<char>) -> Option<Seq<char>> {
    let t = trim(name);
    if t.len() == 0 {
        Some("list name cannot be empty"@)
    } else if utf8_len(t) > 64 {
        Some("list name too long"@)
    } else if exists|i: int| 0 <= i < t.len() && !list_name_char(#[trigger] t[i]) {
        Some("list name contains invalid characters"@)
    } else {
        None
    }
}

proof fn lemma_utf8_len_mono(s: Seq<char>, k: int)
    requires
        0 <= k <= s.len(),
    ensures
        utf8_len(s.take(k)) <= utf8_len(s),
    decreases s.len() - k,
{
    if k < s.len() {
        lemma_utf8_len_mono(s.drop_last(), k);
        assert(s.drop_last().take(k) =~= s.take(k));
    } else {
        assert(s.take(k) =~= s);
    }
}

/// Checks the name of a reading list: not blank, at most 64 bytes and made
/// of letters, digits, `-`, `_` and spaces, once trimmed.
pub fn validate_list_name(name: &str) -> (r: Result<(), ApiError>)
    ensures
        match list_name_error(name@) {
            Some(e) => fails_with(r, e),
            None => r is Ok,
        },
{
    let v = chars_of(name);
    let (a, b) = trim_bounds(&v, 0, v.len());
    assert(v@.subrange(0, v@.len() as int) =~= v@);
    let ghost t = trim(name@);
    assert(t == v@.subrange(a as int, b as int));
    if a == b {
        return Err(ApiError::invalid_input("list name cannot be empty"));
    }
    let mut bytes: usize = 0;
    let mut i = a;
    while i < b
        invariant
            a <= i <= b <= v.len(),
            a < b,
            t == v@.subrange(a as int, b as int),
            t == trim(name@),
            bytes == utf8_len(t.take(i - a)),
            bytes <= 64,
        decreases b - i,
    {
        let c = v[i];
        let w: usize = if (c as u32) < 0x80 {
            1
        } else if (c as u32) < 0x800 {
            2
        } else if (c as u32) < 0x10000 {
            3
        } else {
            4
        };
        proof {
            assert(t.take(i - a + 1).drop_last() =~= t.take(i - a));
            assert(t.take(i - a + 1).last() == c);
            assert(w == utf8_width(c));
        }
        bytes = bytes + w;
        i = i + 1;
        if bytes > 64 {
            proof {
                lemma_utf8_len_mono(t, i - a);
            }
            return Err(ApiError::invalid_input("list name too long"));
        }
    }
    assert(t.take(t.len() as int) =~= t);
    let mut j = a;
    while j < b
        invariant
            a <= j <= b <= v.len(),
            a < b,
            t == v@.subrange(a as int, b as int),
            t == trim(name@),
            utf8_len(t) <= 64,
            forall|k: int| 0 <= k < j - a ==> list_name_char(#[trigger] t[k]),
        decreases b - j,
    {
        let c = v[j];
        if !(('a' <= c && c <= 'z') || ('A' <= c && c <= 'Z') || ('0' <= c && c <= '9') || c == '-'
            || c == '_' || c == ' ') {
            assert(!list_name_char(t[j - a]));
            return Err(ApiError::invalid_input("list name contains invalid characters"));
        }
        j = j + 1;
    }
    Ok(())
}

/// `name.starts_with(q)`.
pub open spec fn starts_with(name: Seq<char>, q: Seq<char>) -> bool {
    q.len() <= name.len() && name.take(q.len() as int) == q
}

/// `name.contains(q)`.
pub open spec fn contains(name: Seq<char>, q: Seq<char>) -> bool {
    exists|i: int| 0 <= i <= name.len() - q.len() && #[trigger] name.subrange(i, i + q.len()) == q
}

/// How well a name matches a query: it starts with it (0), holds it (1), or
/// neither (2).
pub open spec fn rank(name: Seq<char>, q: Seq<char>) -> u64 {
    if starts_with(name, q) {
        0
    } else if contains(name, q) {
        1
    } else {
        2
    }
}

/// The names ordered by [`rank`], names of equal rank kept in their order.
pub open spec fn reordered(names: Seq<Seq<char>>, q: Seq<char>) -> Seq<Seq<char>> {
    let s = sorted_by_key(Seq::new(names.len(), |i: int| (rank(names[i], q), names[i])));
    Seq::new(s.len(), |i: int| s[i].1)
}

fn matches_at(v: &Vec<char>, w: &Vec<char>, i: usize) -> (r: bool)
    requires
        i + w.len() <= v.len(),
    ensures
        r == (v@.subrange(i as int, i + w.len()) == w@),
{
    let mut k: usize = 0;
    while k < w.len()
        invariant
            i + w.len() <= v.len(),
            k <= w.len(),
            forall|q: int| 0 <= q < k ==> v@[i + q] == w@[q],
        decreases w.len() - k,
    {
        if v[i + k] != w[k] {
            assert(v@.subrange(i as int, i + w.len())[k as int] != w@[k as int]);
            return false;
        }
        k = k + 1;
    }
    assert(v@.subrange(i as int, i + w.len()) =~= w@);
    true
}

fn rank_of(name: &str, query: &Vec<char>) -> (r: u64)
    ensures
        r == rank(name@, query@),
{
    let v = chars_of(name);
    if query.len() > v.len() {
        assert(!contains(name@, query@));
        return 2;
    }
    if matches_at(&v, query, 0) {
        assert(v@.subrange(0, query@.len() as int) =~= v@.take(query@.len() as int));
        return 0;
    }
    assert(v@.subrange(0, query@.len() as int) =~= v@.take(query@.len() as int));
    if query.len() == 0 {
        assert(v@.take(0) =~= query@);
    }
    let last = v.len() - query.len();
    let mut i: usize = 1;
    while i <= last
        invariant
            v@ == name@,
            query@.len() <= v@.len(),
            last == v.len() - query.len(),
            query.len() > 0,
            1 <= i <= last + 1,
            !starts_with(name@, query@),
            forall|k: int| 0 <= k < i ==> #[trigger] v@.subrange(k, k + query.len()) != query@,
        decreases last + 1 - i,
    {
        if matches_at(&v, query, i) {
            assert(name@.subrange(i as int, i + query@.len()) == query@);
            return 1;
        }
        i = i + 1;
    }
    assert forall|k: int| 0 <= k <= name@.len() - query@.len() implies #[trigger] name@.subrange(
        k,
        k + query@.len(),
    ) != query@ by {
        assert(v@.subrange(k, k + query.len()) != query@);
    }
    2
}

/// Orders names by how well they match a query: those starting with it,
/// then those holding it, then the rest; names of equal rank keep their
/// order.
pub fn reorder(names: &mut Vec<String>, query: &str)
    ensures
        strings_view(final(names)@) == reordered(strings_view(old(names)@), query@),
{
    let ghost sv = strings_view(names@);
    let q = chars_of(query);
    let mut ranked: Vec<(u64, String)> = Vec::new();
    while names.len() > 0
        invariant
            q@ == query@,
            names@.len() + ranked@.len() == sv.len(),
            strings_view(names@) == sv.skip(ranked@.len() as int),
            keyed_view(ranked@) == Seq::new(
                ranked@.len(),
                |i: int| (rank(sv[i], query@), sv[i]),
            ),
        decreases names.len(),
    {
        let ghost old_names = names@;
        let ghost k = ranked@.len();
        let name = names.remove(0);
        assert(name@ == sv[k as int]) by {
            assert(strings_view(old_names)[0] == sv.skip(k as int)[0]);
        }
        let r = rank_of(name.as_str(), &q);
        let ghost before = keyed_view(ranked@);
        let ghost nv = name@;
        ranked.push((r, name));
        assert(keyed_view(ranked@) =~= before.push((r, nv)));
        assert(strings_view(names@) =~= sv.skip(ranked@.len() as int)) by {
            assert forall|j: int| 0 <= j < names@.len() implies #[trigger] strings_view(names@)[j]
                == sv.skip(ranked@.len() as int)[j] by {
                assert(names@[j] == old_names[j + 1]);
                assert(strings_view(old_names)[j + 1] == sv.skip(k as int)[j + 1]);
            }
        }
        assert(keyed_view(ranked@) =~= Seq::new(
            ranked@.len(),
            |i: int| (rank(sv[i], query@), sv[i]),
        ));
    }
    let sorted = sort_by_key(ranked);
    let ghost sp = keyed_view(sorted@);
    let mut rest = sorted;
    let mut out: Vec<String> = Vec::new();
    let ghost total = sp.len();
    assert(sp.skip(0) =~= sp);
    while rest.len() > 0
        invariant
            total == sp.len(),
            out@.len() + rest@.len() == total,
            keyed_view(rest@) == sp.skip(out@.len() as int),
            strings_view(out@) == Seq::new(out@.len(), |i: int| sp[i].1),
        decreases rest.len(),
    {
        let ghost old_rest = rest@;
        let ghost k = out@.len();
        let e = rest.remove(0);
        assert(e == old_rest[0]);
        let name = e.1;
        assert(name@ == sp[k as int].1) by {
            assert(keyed_view(old_rest)[0] == sp.skip(k as int)[0]);
        }
        let ghost before = strings_view(out@);
        let ghost nv = name@;
        out.push(name);
        assert(strings_view(out@) =~= before.push(nv));
        assert(keyed_view(rest@) =~= sp.skip(out@.len() as int)) by {
            assert forall|j: int| 0 <= j < rest@.len() implies #[trigger] keyed_view(rest@)[j]
                == sp.skip(out@.len() as int)[j] by {
                assert(rest@[j] == old_rest[j + 1]);
                assert(keyed_view(old_rest)[j + 1] == sp.skip(k as int)[j + 1]);
            }
        }
        assert(strings_view(out@) =~= Seq::new(out@.len(), |i: int| sp[i].1));
    }
    *names = out;
}

/// Sanitizing twice is sanitizing once.
pub proof fn lemma_sanitize_idempotent(items: Seq<Seq<char>>)
    ensures
        sanitized(sanitized(items)) == sanitized(items),
    decreases items.len(),
{
    if items.len() > 0 {
        lemma_sanitize_idempotent(items.drop_last());
        let rest = sanitized(items.drop_last());
        if !blank(items.last()) {
            let t = trim(items.last());
            crate::text::lemma_trim_idempotent(items.last());
            let out = rest.push(t);
            assert(out.drop_last() =~= rest);
            assert(!blank(t));
        }
    }
}

/// Reordering keeps the number of names and puts them in order of rank:
/// names that start with the query, then names that hold it, then the rest.
pub proof fn lemma_reorder_ranked(names: Seq<Seq<char>>, q: Seq<char>)
    ensures
        reordered(names, q).len() == names.len(),
        forall|i: int, j: int|
            0 <= i <= j < names.len() ==> rank(#[trigger] reordered(names, q)[i], q) <= rank(
                #[trigger] reordered(names, q)[j],
                q,
            ),
{
    let ranked = Seq::new(names.len(), |i: int| (rank(names[i], q), names[i]));
    let s = sorted_by_key(ranked);
    lemma_sorted_by_key(ranked);
    assert forall|i: int| 0 <= i < s.len() implies (#[trigger] s[i]).0 == rank(s[i].1, q) by {
        vstd::seq_lib::to_multiset_contains(s, s[i]);
        vstd::seq_lib::to_multiset_contains(ranked, s[i]);
        assert(s.contains(s[i]));
        assert(ranked.contains(s[i]));
        let j = choose|j: int| 0 <= j < ranked.len() && ranked[j] == s[i];
        assert(ranked[j] == (rank(names[j], q), names[j]));
    }
    assert forall|i: int, j: int| 0 <= i <= j < names.len() implies rank(
        #[trigger] reordered(names, q)[i],
        q,
    ) <= rank(#[trigger] reordered(names, q)[j], q) by {
        assert(reordered(names, q)[i] == s[i].1);
        assert(reordered(names, q)[j] == s[j].1);
        assert(s[i].0 <= s[j].0);
    }
}

} // verus!
