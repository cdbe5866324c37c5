//! The HTTP `Range` header of a manga export download.
use vstd::prelude::*;
use crate::number::{parse_u64_range, parsed_u64};
use crate::text::chars_of;

verus! {

/// Index of the first `c` in `s` from `k` on; the length of `s` if none.
pub open spec fn find_from(s: Seq<char>, c: char, k: int) -> int
    decreases s.len() - k,
{
    if k >= s.len() {
        s.len() as int
    } else if s[k] == c {
        k
    } else {
        find_from(s, c, k + 1)
    }
}

/// What the search for a character finds.
pub proof fn lemma_find_from(s: Seq<char>, c: char, k: int)
    requires
        0 <= k <= s.len(),
    ensures
        k <= find_from(s, c, k) <= s.len(),
        find_from(s, c, k) < s.len() ==> s[find_from(s, c, k)] == c,
        forall|i: int| k <= i < find_from(s, c, k) ==> s[i] != c,
    decreases s.len() - k,
{
    if k < s.len() && s[k] != c {
        lemma_find_from(s, c, k + 1);
    }
}

/// Finds `c` in `v[from..to]`.
pub fn find_char(v: &Vec<char>, c: char, from: usize, to: usize) -> (r: usize)
    requires
        from <= to <= v.len(),
    ensures
        from <= r <= to,
        r - from == find_from(v@.subrange(from as int, to as int), c, 0),
{
    let ghost s = v@.subrange(from as int, to as int);
    let mut i = from;
    while i < to && v[i] != c
        invariant
            from <= i <= to <= v.len(),
            s == v@.subrange(from as int, to as int),
            find_from(s, c, 0) == find_from(s, c, i - from),
        decreases to - i,
    {
        i = i + 1;
    }
    i
}

pub open spec fn range_prefix() -> Seq<char> {
    seq!['b', 'y', 't', 'e', 's', '=']
}

/// The byte range `(start, end)`, both inclusive, that a `Range` header value
/// asks of a payload of `total` bytes: `bytes=a-b`, `bytes=a-` or `bytes=-n`
/// (the last `n` bytes). The end is cut to the payload; a start past the
/// end of the payload, a start after the end, a suffix of zero, several
/// ranges, another unit or a malformed number give `None`.
pub open spec fn single_range(value: Option<Seq<char>>, total: u64) -> Option<(u64, u64)> {
    match value {
        None => None,
        Some(v) => if !(v.len() >= 6 && v.take(6) == range_prefix()) {
            None
        } else {
            let spec = v.skip(6);
            let dash = find_from(spec, '-', 0);
            if find_from(spec, ',', 0) < spec.len() || dash == spec.len() {
                None
            } else {
                let start = spec.take(dash);
                let end = spec.skip(dash + 1);
                if start.len() == 0 {
                    match parsed_u64(end) {
                        None => None,
                        Some(n) => if n == 0 {
                            None
                        } else {
                            Some(
                                (
                                    if total >= n {
                                        (total - n) as u64
                                    } else {
                                        0u64
                                    },
                                    if total >= 1 {
                                        (total - 1) as u64
                                    } else {
                                        0u64
                                    },
                                ),
                            )
                        },
                    }
                } else {
                    match parsed_u64(start) {
                        None => None,
                        Some(s) => if s >= total {
                            None
                        } else {
                            let e = if end.len() == 0 {
                                Some((total - 1) as u64)
                            } else {
                                match parsed_u64(end) {
                                    None => None,
                                    Some(e) => Some(
                                        if e < total - 1 {
                                            e
                                        } else {
                                            (total - 1) as u64
                                        },
                                    ),
                                }
                            };
                            match e {
                                None => None,
                                Some(e) => if s > e {
                                    None
                                } else {
                                    Some((s, e))
                                },
                            }
                        },
                    }
                }
            }
        },
    }
}

/// Parses a single `Range` header value against a payload of `total` bytes.
pub fn parse_single_range(value: Option<&str>, total: u64) -> (r: Option<(u64, u64)>)
    ensures
        r == single_range(
            match value {
                Some(s) => Some(s@),
                None => None,
            },
            total,
        ),
{
    let value = match value {
        None => {
            return None;
        },
        Some(s) => s,
    };
    let v = chars_of(value);
    let ghost sv = v@;
    if !(v.len() >= 6 && v[0] == 'b' && v[1] == 'y' && v[2] == 't' && v[3] == 'e' && v[4] == 's'
        && v[5] == '=') {
        proof {
            if sv.len() >= 6 && sv.take(6) == range_prefix() {
                assert(sv.take(6)[0] == 'b');
                assert(sv.take(6)[1] == 'y');
                assert(sv.take(6)[2] == 't');
                assert(sv.take(6)[3] == 'e');
                assert(sv.take(6)[4] == 's');
                assert(sv.take(6)[5] == '=');
            }
        }
        return None;
    }
    assert(sv.take(6) =~= range_prefix());
    let n = v.len();
    let ghost spec = sv.skip(6);
    assert(v@.subrange(6, n as int) =~= spec);
    let comma = find_char(&v, ',', 6, n);
    let dash = find_char(&v, '-', 6, n);
    if comma < n || dash == n {
        return None;
    }
    let ghost start = spec.take(dash - 6);
    let ghost end = spec.skip(dash - 6 + 1);
    assert(v@.subrange(6, dash as int) =~= start);
    assert(v@.subrange(dash + 1, n as int) =~= end);
    if dash == 6 {
        let suffix = match parse_u64_range(&v, dash + 1, n) {
            None => {
                return None;
            },
            Some(x) => x,
        };
        if suffix == 0 {
            return None;
        }
        let start = total.saturating_sub(suffix);
        return Some((start, total.saturating_sub(1)));
    }
    let start = match parse_u64_range(&v, 6, dash) {
        None => {
            return None;
        },
        Some(x) => x,
    };
    if start >= total {
        return None;
    }
    let end = if dash + 1 == n {
        total - 1
    } else {
        match parse_u64_range(&v, dash + 1, n) {
            None => {
                return None;
            },
            Some(e) => {
                if e < total - 1 {
                    e
                } else {
                    total - 1
                }
            },
        }
    };
    if start > end {
        return None;
    }
    Some((start, end))
}

/// A range a `Range` header yields for a non-empty payload lies inside the
/// payload and is not reversed.
pub proof fn lemma_range_within(value: Option<Seq<char>>, total: u64)
    requires
        total > 0,
        single_range(value, total) is Some,
    ensures
        ({
            let (s, e) = single_range(value, total)->0;
            s <= e < total
        }),
{
}

} // verus!
