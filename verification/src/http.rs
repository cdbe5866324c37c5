//! Caching and upload details of the image routes: entity tags, the
//! not-modified decision and the magic-header buffer of uploads.
use vstd::prelude::*;
use crate::text::{append_str, chars_of, push_char, string_from_range, trim, trim_bounds};

verus! {

/// `s` starts with `p`.
pub open spec fn has_prefix(s: Seq<char>, p: Seq<char>) -> bool {
    p.len() <= s.len() && s.take(p.len() as int) == p
}

/// An entity tag as stored objects report it, quoted: kept as it is when it
/// is quoted (`"…"` or `W/"…"`), put in quotes otherwise; surrounding white
/// space dropped.
pub open spec fn normalized_etag(s: Seq<char>) -> Seq<char> {
    let t = trim(s);
    if has_prefix(t, seq!['W', '/', '"']) || has_prefix(t, seq!['"']) {
        t
    } else {
        seq!['"'] + t + seq!['"']
    }
}

/// Quotes an entity tag unless it already is quoted.
pub fn normalize_etag(s: &str) -> (r: String)
    ensures
        r@ == normalized_etag(s@),
{
    let v = chars_of(s);
    let (a, b) = trim_bounds(&v, 0, v.len());
    assert(v@.subrange(0, v@.len() as int) =~= v@);
    let ghost t = trim(s@);
    let quoted = (b - a >= 3 && v[a] == 'W' && v[a + 1] == '/' && v[a + 2] == '"') || (b - a >= 1
        && v[a] == '"');
    proof {
        if b - a >= 3 {
            assert(t.take(3) =~= seq![v@[a as int], v@[a + 1], v@[a + 2]]);
        }
        if b - a >= 1 {
            assert(t.take(1) =~= seq![v@[a as int]]);
        }
        if has_prefix(t, seq!['W', '/', '"']) {
            assert(t.take(3)[0] == 'W' && t.take(3)[1] == '/' && t.take(3)[2] == '"');
        }
        if has_prefix(t, seq!['"']) {
            assert(t.take(1)[0] == '"');
        }
    }
    let inner = string_from_range(&v, a, b);
    if quoted {
        inner
    } else {
        let mut out = String::new();
        push_char(&mut out, '"');
        append_str(&mut out, inner.as_str());
        push_char(&mut out, '"');
        assert(out@ =~= seq!['"'] + t + seq!['"']);
        out
    }
}

/// A parsed entity tag: weak or strong, and its opaque tag.
pub struct EntityTag {
    pub weak: bool,
    pub tag: String,
}

/// Weak comparison: the tags match, weak or not.
pub fn weak_etag_eq(a: &EntityTag, b: &EntityTag) -> (r: bool)
    ensures
        r == (a.tag@ == b.tag@),
{
    crate::text::str_eq(a.tag.as_str(), b.tag.as_str())
}

/// An `If-None-Match` header: `*`, or a list of tags.
pub enum IfNoneMatch {
    Any,
    Items(Vec<EntityTag>),
}

/// The answer to a conditional request.
pub enum CacheDecision {
    /// Answer 304 Not Modified with the entity tag and the time of last
    /// change, where known.
    NotModified { etag: Option<EntityTag>, last_modified: Option<u64> },
    /// Send the object.
    Send,
}

/// Some tag of the header matches `etag` weakly.
pub open spec fn inm_matches(inm: IfNoneMatch, etag: Seq<char>) -> bool {
    match inm {
        IfNoneMatch::Any => true,
        IfNoneMatch::Items(tags) => exists|i: int| 0 <= i < tags@.len() && #[trigger] tags@[i].tag@ == etag,
    }
}

/// Whether a request may be answered "not modified". With an entity tag
/// only `If-None-Match` decides; without one, `If-Modified-Since` decides
/// on the time of last change (both in seconds). Headers that are missing
/// or do not parse count as absent.
pub fn maybe_not_modified(
    etag: Option<EntityTag>,
    last_modified: Option<u64>,
    if_none_match: Option<IfNoneMatch>,
    if_modified_since: Option<u64>,
) -> (r: CacheDecision)
    ensures
        match etag {
            Some(e) => match if_none_match {
                Some(inm) if inm_matches(inm, e.tag@) => r matches CacheDecision::NotModified {
                    etag: Some(t),
                    last_modified: lm,
                } && t.tag@ == e.tag@ && t.weak == e.weak && lm == last_modified,
                _ => r is Send,
            },
            None => match (last_modified, if_modified_since) {
                (Some(lm), Some(ims)) if lm <= ims => r matches CacheDecision::NotModified {
                    etag: None,
                    last_modified: l,
                } && l == Some(lm),
                _ => r is Send,
            },
        },
{
    match etag {
        Some(e) => {
            let hit = match &if_none_match {
                None => false,
                Some(IfNoneMatch::Any) => true,
                Some(IfNoneMatch::Items(tags)) => {
                    let mut found = false;
                    let mut i: usize = 0;
                    while i < tags.len()
                        invariant
                            i <= tags.len(),
                            found == exists|k: int| 0 <= k < i && #[trigger] tags@[k].tag@ == e.tag@,
                        decreases tags.len() - i,
                    {
                        if weak_etag_eq(&tags[i], &e) {
                            found = true;
                        }
                        i = i + 1;
                    }
                    found
                },
            };
            if hit {
                CacheDecision::NotModified { etag: Some(e), last_modified }
            } else {
                CacheDecision::Send
            }
        },
        None => {
            match (last_modified, if_modified_since) {
                (Some(lm), Some(ims)) => {
                    if lm <= ims {
                        CacheDecision::NotModified { etag: None, last_modified: Some(lm) }
                    } else {
                        CacheDecision::Send
                    }
                },
                _ => CacheDecision::Send,
            }
        },
    }
}

/// How many bytes of an upload are kept to recognise its file type.
pub open spec fn header_max() -> nat {
    32
}

/// Keeps the first bytes of an upload: appends as much of `data` as fits in
/// 32 bytes.
pub fn extend_buffer(buffer: &mut Vec<u8>, data: &[u8])
    ensures
        old(buffer)@.len() >= header_max() ==> final(buffer)@ == old(buffer)@,
        old(buffer)@.len() < header_max() ==> final(buffer)@ == old(buffer)@ + data@.take(
            if data@.len() < header_max() - old(buffer)@.len() {
                data@.len() as int
            } else {
                header_max() - old(buffer)@.len()
            },
        ),
{
    let max: usize = 32;
    let available = if buffer.len() < max {
        max - buffer.len()
    } else {
        0
    };
    if available > 0 {
        let to_add = if data.len() < available {
            data.len()
        } else {
            available
        };
        let mut i: usize = 0;
        while i < to_add
            invariant
                i <= to_add <= data@.len(),
                buffer@ == old(buffer)@ + data@.take(i as int),
            decreases to_add - i,
        {
            buffer.push(data[i]);
            i = i + 1;
            assert(buffer@ =~= old(buffer)@ + data@.take(i as int));
        }
    }
}

/// Text that starts and ends with a visible character is its own trim.
proof fn lemma_trim_visible(s: Seq<char>)
    requires
        s.len() > 0,
        !crate::text::is_white_space(s[0]),
        !crate::text::is_white_space(s.last()),
    ensures
        trim(s) == s,
{
    assert(crate::text::lead_ws(s) == 0);
    assert(crate::text::trim_start(s) =~= s);
    assert(crate::text::trail_ws(s) == 0);
    assert(crate::text::trim_end(s) =~= s);
}

/// Normalizing an entity tag twice changes nothing.
pub proof fn lemma_normalize_etag_idempotent(s: Seq<char>)
    ensures
        normalized_etag(normalized_etag(s)) == normalized_etag(s),
{
    let t = trim(s);
    crate::text::lemma_trim_idempotent(s);
    if has_prefix(t, seq!['W', '/', '"']) || has_prefix(t, seq!['"']) {
        assert(normalized_etag(s) == t);
    } else {
        let q = seq!['"'] + t + seq!['"'];
        assert(q[0] == '"');
        assert(q.last() == '"');
        lemma_trim_visible(q);
        assert(q.take(1) =~= seq!['"']);
        assert(has_prefix(q, seq!['"']));
    }
}

} // verus!
