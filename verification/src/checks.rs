//! The checks of the user, character, chapter, reader and auth actions that
//! come before any database work, and the headers of an export download.
use vstd::prelude::*;
use crate::error::{ApiError, fails_with};
use crate::number::{decimal, lemma_decimal_writes, push_decimal, writes_number};
use crate::restore::strings_view;
use crate::text::{append_str, copy_string, is_blank, push_char, str_eq};
use crate::validate::{any_blank, blank, msg_empty_values, validate_non_empty_items, validate_pagination};

verus! {

/// A refresh needs a refresh token (an access token is refused as invalid
/// input), and the token may be used while the user's tokens were generated
/// before its refresh window began: `generated` (ms) must not lie after
/// `exp - refresh_secs` (ms), else the token has expired.
pub fn check_refresh(is_refresh_token: bool, generated: u128, exp: u64, refresh_secs: u64) -> (r:
    Result<(), ApiError>)
    requires
        refresh_secs * 1000 <= exp,
    ensures
        !is_refresh_token ==> fails_with(r, "Refresh token required"@),
        is_refresh_token && generated > exp - refresh_secs * 1000 ==> r matches Err(
            ApiError::ExpiredToken,
        ),
        is_refresh_token && generated <= exp - refresh_secs * 1000 ==> r is Ok,
{
    if !is_refresh_token {
        return Err(ApiError::invalid_input("Refresh token required"));
    }
    let window = (exp as u128) - (refresh_secs as u128) * 1000;
    if generated > window {
        return Err(ApiError::ExpiredToken);
    }
    Ok(())
}

/// Logging out needs an access token.
pub fn check_access_token(is_access_token: bool) -> (r: Result<(), ApiError>)
    ensures
        is_access_token ==> r is Ok,
        !is_access_token ==> fails_with(r, "Access token required"@),
{
    if !is_access_token {
        return Err(ApiError::invalid_input("Access token required"));
    }
    Ok(())
}

/// The new names of a user: at least one, none blank.
pub fn validate_name_list(items: &Vec<String>) -> (r: Result<(), ApiError>)
    ensures
        items@.len() == 0 || any_blank(strings_view(items@)) ==> fails_with(
            r,
            "name list cannot be empty"@,
        ),
        !(items@.len() == 0 || any_blank(strings_view(items@))) ==> r is Ok,
{
    if items.len() == 0 || validate_non_empty_items("names", items).is_err() {
        return Err(ApiError::invalid_input("name list cannot be empty"));
    }
    Ok(())
}

/// The new links of a user: none blank.
pub fn validate_links(items: &Vec<String>) -> (r: Result<(), ApiError>)
    ensures
        any_blank(strings_view(items@)) ==> fails_with(r, "links cannot contain empty items"@),
        !any_blank(strings_view(items@)) ==> r is Ok,
{
    if validate_non_empty_items("links", items).is_err() {
        return Err(ApiError::invalid_input("links cannot contain empty items"));
    }
    Ok(())
}

/// Some image value of a character is given but blank.
pub open spec fn blank_image(imgs: Seq<Option<String>>) -> bool {
    exists|i: int| 0 <= i < imgs.len() && (#[trigger] imgs[i] matches Some(s) && blank(s@))
}

/// Checks a new character: names given and none blank, no blank link, no
/// blank image value.
pub fn validate_character(names: &Vec<String>, links: &Vec<String>, imgs: &Vec<Option<String>>) -> (r:
    Result<(), ApiError>)
    ensures
        names@.len() == 0 ==> fails_with(r, "names cannot be empty"@),
        names@.len() > 0 && any_blank(strings_view(names@)) ==> fails_with(
            r,
            msg_empty_values("names"@),
        ),
        names@.len() > 0 && !any_blank(strings_view(names@)) && any_blank(strings_view(links@))
            ==> fails_with(r, msg_empty_values("links"@)),
        names@.len() > 0 && !any_blank(strings_view(names@)) && !any_blank(strings_view(links@))
            && blank_image(imgs@) ==> fails_with(r, "imgs cannot contain empty strings"@),
        names@.len() > 0 && !any_blank(strings_view(names@)) && !any_blank(strings_view(links@))
            && !blank_image(imgs@) ==> r is Ok,
{
    if names.len() == 0 {
        return Err(ApiError::invalid_input("names cannot be empty"));
    }
    if let Err(e) = validate_non_empty_items("names", names) {
        return Err(e);
    }
    if let Err(e) = validate_non_empty_items("links", links) {
        return Err(e);
    }
    let mut i: usize = 0;
    while i < imgs.len()
        invariant
            names@.len() > 0,
            !any_blank(strings_view(names@)),
            !any_blank(strings_view(links@)),
            i <= imgs.len(),
            forall|k: int| 0 <= k < i ==> !(#[trigger] imgs@[k] matches Some(s) && blank(s@)),
        decreases imgs.len() - i,
    {
        match &imgs[i] {
            Some(s) => {
                if is_blank(s.as_str()) {
                    assert(imgs@[i as int] matches Some(s) && blank(s@));
                    return Err(ApiError::invalid_input("imgs cannot contain empty strings"));
                }
            },
            None => {},
        }
        i = i + 1;
    }
    Ok(())
}

/// Checks a search by text: a valid page, then a non-blank query.
pub fn validate_search(page: u32, limit: u32, query: &str) -> (r: Result<(), ApiError>)
    ensures
        page == 0 ==> fails_with(r, "page must be >= 1"@),
        page != 0 && limit == 0 ==> fails_with(r, "limit must be >= 1"@),
        page != 0 && limit != 0 && blank(query@) ==> fails_with(r, "query cannot be empty"@),
        page != 0 && limit != 0 && !blank(query@) ==> r is Ok,
{
    if let Err(e) = validate_pagination(page, limit) {
        return Err(e);
    }
    if is_blank(query) {
        return Err(ApiError::invalid_input("query cannot be empty"));
    }
    Ok(())
}

/// A chapter gets a new version only when it has none of that name.
pub fn check_new_version(existing: &Vec<String>, version: &str) -> (r: Result<(), ApiError>)
    ensures
        (exists|i: int| 0 <= i < existing@.len() && #[trigger] existing@[i]@ == version@) ==> r matches Err(
            ApiError::ChapterVersionAlreadyExists,
        ),
        !(exists|i: int| 0 <= i < existing@.len() && #[trigger] existing@[i]@ == version@) ==> r is Ok,
{
    let mut i: usize = 0;
    while i < existing.len()
        invariant
            i <= existing.len(),
            forall|k: int| 0 <= k < i ==> #[trigger] existing@[k]@ != version@,
        decreases existing.len() - i,
    {
        if str_eq(existing[i].as_str(), version) {
            return Err(ApiError::ChapterVersionAlreadyExists);
        }
        i = i + 1;
    }
    Ok(())
}

/// The chapter the reader opens: the one asked for, which must be one of
/// the manga's `chapters`, else the one the user was reading, else the
/// manga's first chapter; a chapter of another manga or no chapter at all:
/// not found.
pub fn open_chapter(requested: Option<String>, saved: Option<String>, chapters: &Vec<String>) -> (r:
    Result<String, ApiError>)
    ensures
        match (requested, saved) {
            (Some(c), _) => if exists|i: int| 0 <= i < chapters.len() && #[trigger] chapters@[i]@
                == c@ {
                r matches Ok(s) && s@ == c@
            } else {
                r matches Err(ApiError::NotFoundInDB)
            },
            (None, Some(c)) => r matches Ok(s) && s@ == c@,
            (None, None) => if chapters.len() > 0 {
                r matches Ok(s) && s@ == chapters@[0]@
            } else {
                r matches Err(ApiError::NotFoundInDB)
            },
        },
{
    match requested {
        Some(c) => {
            let mut i: usize = 0;
            while i < chapters.len()
                invariant
                    requested == Some(c),
                    i <= chapters.len(),
                    forall|k: int| 0 <= k < i ==> #[trigger] chapters@[k]@ != c@,
                decreases chapters.len() - i,
            {
                if str_eq(chapters[i].as_str(), c.as_str()) {
                    assert(chapters@[i as int]@ == c@);
                    return Ok(c);
                }
                i = i + 1;
            }
            Err(ApiError::NotFoundInDB)
        },
        None => match saved {
            Some(c) => Ok(c),
            None => {
                if chapters.len() > 0 {
                    Ok(copy_string(&chapters[0]))
                } else {
                    Err(ApiError::NotFoundInDB)
                }
            },
        },
    }
}

/// `Content-Range` of a partial download: `bytes {start}-{end}/{total}`.
pub open spec fn content_range_spec(start: u64, end: u64, total: u64) -> Seq<char> {
    "bytes "@ + decimal(start as nat) + "-"@ + decimal(end as nat) + "/"@ + decimal(total as nat)
}

/// Writes the `Content-Range` of a partial download.
pub fn content_range(start: u64, end: u64, total: u64) -> (r: String)
    ensures
        r@ == content_range_spec(start, end, total),
{
    let mut s = String::new();
    append_str(&mut s, "bytes ");
    push_decimal(&mut s, start);
    append_str(&mut s, "-");
    push_decimal(&mut s, end);
    append_str(&mut s, "/");
    push_decimal(&mut s, total);
    s
}

/// `Content-Range` of a refused range: `bytes */{total}`.
pub fn unsatisfiable_range(total: u64) -> (r: String)
    ensures
        r@ == "bytes */"@ + decimal(total as nat),
{
    let mut s = String::new();
    append_str(&mut s, "bytes */");
    push_decimal(&mut s, total);
    s
}

/// The number of bytes of the range `start..=end`.
pub fn content_length(start: u64, end: u64) -> (r: u64)
    requires
        start <= end,
        end - start < u64::MAX,
    ensures
        r == end - start + 1,
{
    end - start + 1
}

/// `Content-Disposition` of an export: `attachment; filename="{id}.mrmang"`.
pub fn export_disposition(manga_id: &str) -> (r: String)
    ensures
        r@ == "attachment; filename="@ + seq!['"'] + manga_id@ + ".mrmang"@ + seq!['"'],
{
    let mut s = String::new();
    append_str(&mut s, "attachment; filename=");
    push_char(&mut s, '"');
    append_str(&mut s, manga_id);
    append_str(&mut s, ".mrmang");
    push_char(&mut s, '"');
    assert(s@ =~= "attachment; filename="@ + seq!['"'] + manga_id@ + ".mrmang"@ + seq!['"']);
    s
}

/// A password reset token works only for its own user and only when it
/// grants the not-verified role.
pub fn check_reset_token(token_user: Option<&str>, user_id: &str, grants_not_verified: bool) -> (r:
    Result<(), ApiError>)
    ensures
        (token_user matches Some(u) && u@ == user_id@) && grants_not_verified ==> r is Ok,
        !((token_user matches Some(u) && u@ == user_id@) && grants_not_verified) ==> r matches Err(
            ApiError::WrongResetToken,
        ),
{
    let same = match token_user {
        Some(u) => str_eq(u, user_id),
        None => false,
    };
    if !same || !grants_not_verified {
        return Err(ApiError::WrongResetToken);
    }
    Ok(())
}

/// The `Content-Range` of a partial download reads back as what was sent:
/// `bytes `, the first byte, `-`, the last byte, `/` and the total length
/// of the payload, each number as written in decimal.
pub proof fn lemma_content_range_reads_back(start: u64, end: u64, total: u64)
    ensures
        exists|a: Seq<char>, b: Seq<char>, c: Seq<char>|
            #[trigger] writes_number(a, start as nat) && #[trigger] writes_number(b, end as nat)
                && #[trigger] writes_number(c, total as nat) && content_range_spec(start, end, total)
                == "bytes "@ + a + "-"@ + b + "/"@ + c,
{
    lemma_decimal_writes(start as nat);
    lemma_decimal_writes(end as nat);
    lemma_decimal_writes(total as nat);
    assert(writes_number(decimal(start as nat), start as nat) && writes_number(
        decimal(end as nat),
        end as nat,
    ) && writes_number(decimal(total as nat), total as nat));
}

} // verus!
