//! Search on the client and user search on the server: case-insensitive
//! matching, the order of user results, the paging of result lists and
//! the display of a stored query.
use vstd::prelude::*;
use crate::restore::strings_view;
use crate::text::{chars_of, copy_string, string_from_range};
use crate::validate::{contains, starts_with};

verus! {

/// What `str::to_lowercase` gives for `s` (Unicode lower case, which can
/// change the length of the text).
pub uninterp spec fn lowercase(s: Seq<char>) -> Seq<char>;

/// Calls `str::to_lowercase`. Unicode lower-casing takes tables to state,
/// so its result is named rather than spelled out.
#[verifier::external_body]
fn to_lower(s: &str) -> (r: String)
    ensures
        r@ == lowercase(s@),
{
    s.to_lowercase()
}

fn contains_exec(v: &Vec<char>, w: &Vec<char>) -> (r: bool)
    ensures
        r == contains(v@, w@),
{
    if w.len() > v.len() {
        return false;
    }
    if w.len() == 0 {
        assert(v@.subrange(0, 0 + w@.len() as int) =~= w@);
        return true;
    }
    let last = v.len() - w.len();
    let mut i: usize = 0;
    while i <= last
        invariant
            0 < w.len() <= v.len(),
            last == v.len() - w.len(),
            i <= last + 1,
            forall|k: int| 0 <= k < i ==> #[trigger] v@.subrange(k, k + w.len()) != w@,
        decreases last + 1 - i,
    {
        let mut k: usize = 0;
        let mut same = true;
        while k < w.len()
            invariant
                w.len() <= v.len(),
                i <= last,
                last == v.len() - w.len(),
                k <= w.len(),
                same == forall|q: int| 0 <= q < k ==> v@[i + q] == w@[q],
            decreases w.len() - k,
        {
            if v[i + k] != w[k] {
                same = false;
            }
            k = k + 1;
        }
        if same {
            assert(v@.subrange(i as int, i + w.len()) =~= w@);
            return true;
        }
        assert(v@.subrange(i as int, i + w.len()) != w@) by {
            let q = choose|q: int| 0 <= q < w.len() && v@[i + q] != w@[q];
            assert(v@.subrange(i as int, i + w.len())[q] != w@[q]);
        }
        i = i + 1;
    }
    false
}

/// The items whose lowered form holds the lowered query, in order.
pub open spec fn kept(items: Seq<Seq<char>>, lowered: Seq<Seq<char>>, q: Seq<char>, n: int) -> Seq<
    Seq<char>,
>
    decreases n,
{
    if n <= 0 || n > items.len() {
        seq![]
    } else {
        let rest = kept(items, lowered, q, n - 1);
        if contains(lowered[n - 1], q) {
            rest.push(items[n - 1])
        } else {
            rest
        }
    }
}

/// Keeps the items whose lower-cased form (`lowered`) holds the
/// lower-cased query.
pub fn keep_matching(items: &Vec<String>, lowered: &Vec<String>, lowered_query: &str) -> (r: Vec<
    String,
>)
    requires
        lowered@.len() == items@.len(),
    ensures
        strings_view(r@) == kept(
            strings_view(items@),
            strings_view(lowered@),
            lowered_query@,
            items@.len() as int,
        ),
{
    let ghost iv = strings_view(items@);
    let ghost lv = strings_view(lowered@);
    let q = chars_of(lowered_query);
    let mut out: Vec<String> = Vec::new();
    let mut i: usize = 0;
    while i < items.len()
        invariant
            iv == strings_view(items@),
            lv == strings_view(lowered@),
            lowered@.len() == items@.len(),
            q@ == lowered_query@,
            i <= items.len(),
            strings_view(out@) == kept(iv, lv, lowered_query@, i as int),
        decreases items.len() - i,
    {
        let v = chars_of(lowered[i].as_str());
        if contains_exec(&v, &q) {
            let ghost before = strings_view(out@);
            let c = copy_string(&items[i]);
            let ghost cv = c@;
            out.push(c);
            assert(strings_view(out@) =~= before.push(cv));
        }
        i = i + 1;
    }
    out
}

/// The suggestions that match what is typed, ignoring case (the default
/// filter of a suggestion box).
pub fn suggestion_filter(query: &str, items: &Vec<String>) -> (r: Vec<String>)
    ensures
        strings_view(r@) == kept(
            strings_view(items@),
            Seq::new(items@.len(), |i: int| lowercase(items@[i]@)),
            lowercase(query@),
            items@.len() as int,
        ),
{
    let mut lowered: Vec<String> = Vec::new();
    let mut i: usize = 0;
    while i < items.len()
        invariant
            i <= items.len(),
            strings_view(lowered@) == Seq::new(i as nat, |k: int| lowercase(items@[k]@)),
        decreases items.len() - i,
    {
        let l = to_lower(items[i].as_str());
        let ghost before = strings_view(lowered@);
        let ghost lv = l@;
        assert(lv == lowercase(items@[i as int]@));
        lowered.push(l);
        assert(strings_view(lowered@) =~= before.push(lv));
        i = i + 1;
        assert(strings_view(lowered@) =~= Seq::new(i as nat, |k: int| lowercase(items@[k]@)));
    }
    let q = to_lower(query);
    keep_matching(items, &lowered, q.as_str())
}

/// The positions of the users whose first name starts with the query
/// (both lower-cased), then the others, each in order.
pub open spec fn found_first(first: Seq<Option<Seq<char>>>, q: Seq<char>) -> Seq<int> {
    positions_where(first, q, true, first.len() as int) + positions_where(
        first,
        q,
        false,
        first.len() as int,
    )
}

/// The positions among the first `n` whose first name starts with `q`
/// (`found`) or does not.
pub open spec fn positions_where(first: Seq<Option<Seq<char>>>, q: Seq<char>, found: bool, n: int) -> Seq<
    int,
>
    decreases n,
{
    if n <= 0 || n > first.len() {
        seq![]
    } else {
        let rest = positions_where(first, q, found, n - 1);
        let hit = match first[n - 1] {
            Some(name) => starts_with(name, q),
            None => false,
        };
        if hit == found {
            rest.push(n - 1)
        } else {
            rest
        }
    }
}

pub open spec fn opt_view(v: Seq<Option<String>>) -> Seq<Option<Seq<char>>> {
    Seq::new(
        v.len(),
        |i: int|
            match v[i] {
                Some(s) => Some(s@),
                None => None,
            },
    )
}

fn starts_with_exec(v: &Vec<char>, w: &Vec<char>) -> (r: bool)
    ensures
        r == starts_with(v@, w@),
{
    if w.len() > v.len() {
        return false;
    }
    let mut k: usize = 0;
    while k < w.len()
        invariant
            w.len() <= v.len(),
            k <= w.len(),
            forall|q: int| 0 <= q < k ==> v@[q] == w@[q],
        decreases w.len() - k,
    {
        if v[k] != w[k] {
            assert(v@.take(w.len() as int)[k as int] != w@[k as int]);
            return false;
        }
        k = k + 1;
    }
    assert(v@.take(w.len() as int) =~= w@);
    true
}

/// The order of user search results: those whose (lower-cased) first name
/// starts with the lower-cased query first, the rest after, each keeping
/// their order. Takes the names already lower-cased.
pub fn prefix_first_order(lowered_first: &Vec<Option<String>>, lowered_query: &str) -> (r: Vec<
    usize,
>)
    ensures
        r@.len() == found_first(opt_view(lowered_first@), lowered_query@).len(),
        forall|i: int|
            0 <= i < r@.len() ==> #[trigger] r@[i] as int == found_first(
                opt_view(lowered_first@),
                lowered_query@,
            )[i],
{
    let ghost fv = opt_view(lowered_first@);
    let q = chars_of(lowered_query);
    let mut hits: Vec<usize> = Vec::new();
    let mut misses: Vec<usize> = Vec::new();
    let mut i: usize = 0;
    while i < lowered_first.len()
        invariant
            fv == opt_view(lowered_first@),
            q@ == lowered_query@,
            i <= lowered_first.len(),
            hits@.len() == positions_where(fv, lowered_query@, true, i as int).len(),
            misses@.len() == positions_where(fv, lowered_query@, false, i as int).len(),
            forall|k: int|
                0 <= k < hits@.len() ==> #[trigger] hits@[k] as int == positions_where(
                    fv,
                    lowered_query@,
                    true,
                    i as int,
                )[k],
            forall|k: int|
                0 <= k < misses@.len() ==> #[trigger] misses@[k] as int == positions_where(
                    fv,
                    lowered_query@,
                    false,
                    i as int,
                )[k],
        decreases lowered_first.len() - i,
    {
        let hit = match &lowered_first[i] {
            Some(name) => {
                let v = chars_of(name.as_str());
                starts_with_exec(&v, &q)
            },
            None => false,
        };
        if hit {
            hits.push(i);
        } else {
            misses.push(i);
        }
        i = i + 1;
    }
    let ghost h = positions_where(fv, lowered_query@, true, i as int);
    let ghost m = positions_where(fv, lowered_query@, false, i as int);
    let mut order = hits;
    let mut j: usize = 0;
    let ghost base = order@;
    while j < misses.len()
        invariant
            j <= misses.len(),
            order@.len() == base.len() + j,
            forall|k: int| 0 <= k < base.len() ==> #[trigger] order@[k] == base[k],
            forall|k: int| 0 <= k < j ==> #[trigger] order@[base.len() + k] == misses@[k],
        decreases misses.len() - j,
    {
        order.push(misses[j]);
        j = j + 1;
    }
    assert forall|k: int| 0 <= k < order@.len() implies #[trigger] order@[k] as int == (h + m)[k] by {
        if k >= base.len() {
            assert(order@[base.len() + (k - base.len())] == misses@[k - base.len()]);
        }
    }
    order
}

/// The order of user search results for a query.
pub fn user_search_order(first_names: &Vec<Option<String>>, query: &str) -> (r: Vec<usize>)
    ensures
        ({
            let lowered = Seq::new(
                first_names@.len(),
                |i: int|
                    match first_names@[i] {
                        Some(s) => Some(lowercase(s@)),
                        None => None,
                    },
            );
            &&& r@.len() == found_first(lowered, lowercase(query@)).len()
            &&& forall|i: int|
                0 <= i < r@.len() ==> #[trigger] r@[i] as int == found_first(
                    lowered,
                    lowercase(query@),
                )[i]
        }),
{
    let ghost target = Seq::new(
        first_names@.len(),
        |i: int|
            match first_names@[i] {
                Some(s) => Some(lowercase(s@)),
                None => None,
            },
    );
    let mut lowered: Vec<Option<String>> = Vec::new();
    let mut i: usize = 0;
    while i < first_names.len()
        invariant
            i <= first_names.len(),
            target.len() == first_names@.len(),
            forall|k: int|
                #![trigger target[k]]
                0 <= k < first_names@.len() ==> target[k] == match first_names@[k] {
                    Some(s) => Some(lowercase(s@)),
                    None => None,
                },
            opt_view(lowered@) == target.take(i as int),
        decreases first_names.len() - i,
    {
        let l = match &first_names[i] {
            Some(s) => Some(to_lower(s.as_str())),
            None => None,
        };
        let ghost before = opt_view(lowered@);
        let ghost lv = opt_view(seq![l])[0];
        lowered.push(l);
        assert(lv == target[i as int]);
        assert(opt_view(lowered@) =~= before.push(lv));
        i = i + 1;
        assert(target.take(i as int) =~= before.push(lv));
    }
    assert(target.take(i as int) =~= target);
    let q = to_lower(query);
    prefix_first_order(&lowered, q.as_str())
}

/// `and:(...)` around a stored query, as the search page shows it: the
/// inner text; any other query as it is.
pub open spec fn shown_query(s: Seq<char>) -> Seq<char> {
    let p = seq!['a', 'n', 'd', ':', '('];
    if s.len() >= 6 && s.take(5) == p && s.last() == ')' {
        s.subrange(5, s.len() - 1)
    } else {
        s
    }
}

/// The query text the search page starts with.
pub fn query_for_display(s: &str) -> (r: String)
    ensures
        r@ == shown_query(s@),
{
    let v = chars_of(s);
    let n = v.len();
    if n >= 6 && v[0] == 'a' && v[1] == 'n' && v[2] == 'd' && v[3] == ':' && v[4] == '(' && v[n
        - 1] == ')' {
        assert(s@.take(5) =~= seq!['a', 'n', 'd', ':', '(']);
        return string_from_range(&v, 5, n - 1);
    }
    proof {
        if s@.len() >= 6 && s@.take(5) == seq!['a', 'n', 'd', ':', '('] {
            assert(s@.take(5)[0] == 'a' && s@.take(5)[1] == 'n' && s@.take(5)[2] == 'd' && s@.take(
                5,
            )[3] == ':' && s@.take(5)[4] == '(');
        }
    }
    let mut out = String::new();
    crate::text::append_str(&mut out, s);
    out
}

/// A list of search results and its paging state.
pub struct SearchData<T> {
    /// The last page came back empty: nothing more to load.
    pub end: bool,
    /// The next results replace the list instead of extending it.
    pub reload: bool,
    /// More results are wanted.
    pub require_new: bool,
    /// The results so far.
    pub searched: Vec<T>,
}

impl<T> SearchData<T> {
    /// Asks for more results when `need` says so, unless the list is
    /// complete.
    pub fn set_load(&mut self, need: bool)
        ensures
            final(self).require_new == (!old(self).end && need),
            final(self).end == old(self).end,
            final(self).reload == old(self).reload,
            final(self).searched@ == old(self).searched@,
    {
        if self.end {
            self.require_new = false;
        } else {
            self.require_new = need;
        }
    }

    /// Takes a page of results: an empty page ends the list; otherwise the
    /// results extend the list (or replace it on a reload) and the next page
    /// is due (`true`).
    pub fn on_results(&mut self, results: Vec<T>) -> (r: bool)
        ensures
            r == (results@.len() > 0),
            final(self).end == (old(self).end || results@.len() == 0),
            final(self).reload == old(self).reload,
            final(self).require_new == old(self).require_new,
            results@.len() == 0 ==> final(self).searched@ == old(self).searched@,
            results@.len() > 0 && old(self).reload ==> final(self).searched@ == results@,
            results@.len() > 0 && !old(self).reload ==> final(self).searched@ == old(
                self,
            ).searched@ + results@,
    {
        if results.len() == 0 {
            self.end = true;
            return false;
        }
        if self.reload {
            self.searched.clear();
        }
        let mut results = results;
        self.searched.append(&mut results);
        true
    }
}

/// The first name at `k` starts with the query.
pub open spec fn first_hit(first: Seq<Option<Seq<char>>>, q: Seq<char>, k: int) -> bool {
    match first[k] {
        Some(name) => starts_with(name, q),
        None => false,
    }
}

proof fn lemma_positions(first: Seq<Option<Seq<char>>>, q: Seq<char>, n: int)
    requires
        0 <= n <= first.len(),
    ensures
        positions_where(first, q, true, n).len() + positions_where(first, q, false, n).len() == n,
        forall|found: bool, i: int|
            0 <= i < positions_where(first, q, found, n).len() ==> 0 <= #[trigger] positions_where(
                first,
                q,
                found,
                n,
            )[i] < n && first_hit(first, q, positions_where(first, q, found, n)[i]) == found,
        forall|found: bool, i: int, j: int|
            0 <= i < j < positions_where(first, q, found, n).len() ==> #[trigger] positions_where(
                first,
                q,
                found,
                n,
            )[i] < #[trigger] positions_where(first, q, found, n)[j],
    decreases n,
{
    if n > 0 {
        lemma_positions(first, q, n - 1);
    }
}

/// The order of user results lists every result exactly once.
pub proof fn lemma_found_first_permutes(first: Seq<Option<Seq<char>>>, q: Seq<char>)
    ensures
        found_first(first, q).len() == first.len(),
        forall|i: int|
            0 <= i < first.len() ==> 0 <= #[trigger] found_first(first, q)[i] < first.len(),
        forall|i: int, j: int|
            0 <= i < j < first.len() ==> #[trigger] found_first(first, q)[i] != #[trigger] found_first(
                first,
                q,
            )[j],
{
    let n = first.len() as int;
    lemma_positions(first, q, n);
    let h = positions_where(first, q, true, n);
    let m = positions_where(first, q, false, n);
    let f = found_first(first, q);
    assert(f == h + m);
    assert forall|i: int| 0 <= i < n implies 0 <= #[trigger] f[i] < n by {
        if i < h.len() {
            assert(f[i] == h[i]);
        } else {
            assert(f[i] == m[i - h.len()]);
        }
    }
    assert forall|i: int, j: int| 0 <= i < j < n implies #[trigger] f[i] != #[trigger] f[j] by {
        if j < h.len() {
            assert(f[i] == h[i] && f[j] == h[j]);
        } else if i >= h.len() {
            assert(f[i] == m[i - h.len()] && f[j] == m[j - h.len()]);
        } else {
            assert(f[i] == h[i] && f[j] == m[j - h.len()]);
            assert(first_hit(first, q, h[i]));
            assert(!first_hit(first, q, m[j - h.len()]));
        }
    }
}

} // verus!
