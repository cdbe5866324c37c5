//! The cover shown for a manga in search results: one of its covers, drawn
//! at random.
use vstd::prelude::*;
use rand::seq::IteratorRandom;
use crate::error::{ApiError, fails_with};
use crate::keys::{filled, opt_strings_view};
use crate::text::copy_string;

verus! {

/// Draws one of `0..n` uniformly with the thread's generator
/// (`(0..n).choose(&mut rand::rng())`). `rand` documents `None` exactly for
/// an empty range; which index comes is chance, so only its range is
/// stated.
#[verifier::external_body]
fn random_index(n: usize) -> (r: Option<usize>)
    ensures
        match r {
            None => n == 0,
            Some(i) => i < n,
        },
{
    (0..n).choose(&mut rand::rng())
}

/// The filled cover slots `(slot, ext)` of a manga.
pub open spec fn covers_filled(covers: Seq<Option<String>>) -> Seq<(nat, Seq<char>)> {
    filled(opt_strings_view(covers), covers.len() as int)
}

fn count_covers(covers: &Vec<Option<String>>) -> (r: usize)
    ensures
        r == covers_filled(covers@).len(),
{
    let ghost sv = opt_strings_view(covers@);
    let mut n: usize = 0;
    let mut i: usize = 0;
    while i < covers.len()
        invariant
            sv == opt_strings_view(covers@),
            i <= covers.len(),
            n == filled(sv, i as int).len(),
            n <= i,
        decreases covers.len() - i,
    {
        if covers[i].is_some() {
            n = n + 1;
        }
        i = i + 1;
    }
    n
}

/// The cover chosen as the `choice`-th filled slot: its slot number (as
/// `u32`, the way `as` converts) and extension; `No cover available` when
/// there is none.
pub fn cover_choice(covers: &Vec<Option<String>>, choice: Option<usize>) -> (r: Result<
    (u32, String),
    ApiError,
>)
    requires
        choice matches Some(k) ==> k < covers_filled(covers@).len(),
    ensures
        match choice {
            None => fails_with(r, "No cover available"@),
            Some(k) => r matches Ok((n, ext)) && n == covers_filled(covers@)[k as int].0 as u32
                && ext@ == covers_filled(covers@)[k as int].1,
        },
{
    let k = match choice {
        None => {
            return Err(ApiError::invalid_input("No cover available"));
        },
        Some(k) => k,
    };
    let ghost sv = opt_strings_view(covers@);
    let ghost f = covers_filled(covers@);
    let mut seen: usize = 0;
    let mut i: usize = 0;
    while i < covers.len()
        invariant
            sv == opt_strings_view(covers@),
            f == filled(sv, covers@.len() as int),
            f == covers_filled(covers@),
            choice == Some(k),
            k < f.len(),
            i <= covers.len(),
            seen == filled(sv, i as int).len(),
            seen <= k,
        decreases covers.len() - i,
    {
        proof {
            lemma_filled_grow(sv, i + 1, covers@.len() as int);
        }
        match &covers[i] {
            Some(ext) => {
                if seen == k {
                    assert(filled(sv, i + 1)[k as int] == (i as nat, ext@));
                    return Ok((i as u32, copy_string(ext)));
                }
                seen = seen + 1;
            },
            None => {},
        }
        i = i + 1;
    }
    proof {
        assert(false);
    }
    Err(ApiError::invalid_input("No cover available"))
}

proof fn lemma_filled_grow(slots: Seq<Option<Seq<char>>>, a: int, b: int)
    requires
        0 <= a <= b <= slots.len(),
    ensures
        filled(slots, a).len() <= filled(slots, b).len(),
        forall|k: int|
            0 <= k < filled(slots, a).len() ==> #[trigger] filled(slots, b)[k] == filled(slots, a)[k],
    decreases b - a,
{
    if a < b {
        lemma_filled_grow(slots, a, b - 1);
    }
}

/// Draws the cover of a search result among the filled cover slots.
pub fn pick_cover(covers: &Vec<Option<String>>) -> (r: Result<(u32, String), ApiError>)
    ensures
        covers_filled(covers@).len() == 0 ==> fails_with(r, "No cover available"@),
        covers_filled(covers@).len() > 0 ==> (r matches Ok((n, ext)) && exists|k: int|
            0 <= k < covers_filled(covers@).len() && n == (#[trigger] covers_filled(covers@)[k]).0 as u32
                && ext@ == covers_filled(covers@)[k].1),
{
    let count = count_covers(covers);
    let choice = random_index(count);
    cover_choice(covers, choice)
}

} // verus!
