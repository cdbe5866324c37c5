//! The storage keys of the images of a manga, in the order an export bundle
//! numbers them: covers, then arts, then the pages of each chapter version.
use vstd::prelude::*;
use crate::error::{ApiError, fails_with};
use crate::number::{decimal, lemma_decimal_writes, push_decimal, writes_number};
use crate::restore::strings_view;
use crate::text::{append_str, chars_of, push_char};

verus! {

/// `s.trim_start_matches('.')`.
pub open spec fn strip_dots(s: Seq<char>) -> Seq<char>
    decreases s.len(),
{
    if s.len() > 0 && s[0] == '.' {
        strip_dots(s.drop_first())
    } else {
        s
    }
}

/// Appends `ext` without its leading dots.
fn push_stripped(out: &mut String, ext: &str)
    ensures
        final(out)@ == old(out)@ + strip_dots(ext@),
{
    let v = chars_of(ext);
    let mut i: usize = 0;
    assert(v@.skip(0) =~= v@);
    while i < v.len() && v[i] == '.'
        invariant
            v@ == ext@,
            i <= v.len(),
            strip_dots(ext@) == strip_dots(v@.skip(i as int)),
        decreases v.len() - i,
    {
        assert(v@.skip(i as int).drop_first() =~= v@.skip(i + 1));
        i = i + 1;
    }
    assert(strip_dots(v@.skip(i as int)) == v@.skip(i as int));
    let ghost start = out@;
    while i < v.len()
        invariant
            v@ == ext@,
            i <= v.len(),
            out@ + v@.skip(i as int) == start + strip_dots(ext@),
        decreases v.len() - i,
    {
        let ghost before = out@;
        push_char(out, v[i]);
        assert(v@.skip(i as int) =~= seq![v@[i as int]] + v@.skip(i + 1));
        assert(before + v@.skip(i as int) =~= out@ + v@.skip(i + 1));
        i = i + 1;
    }
    assert(out@ + v@.skip(i as int) =~= out@);
}

/// The key of cover `index`: `covers/{manga}.{ext}` for the first,
/// `covers/{manga}_{index}.{ext}` for the others.
pub open spec fn cover_key(manga_id: Seq<char>, index: nat, ext: Seq<char>) -> Seq<char> {
    if index == 0 {
        "covers/"@ + manga_id + "."@ + strip_dots(ext)
    } else {
        "covers/"@ + manga_id + "_"@ + decimal(index) + "."@ + strip_dots(ext)
    }
}

/// The key of art `index`: `arts/{manga}_{index}.{ext}`.
pub open spec fn art_key(manga_id: Seq<char>, index: nat, ext: Seq<char>) -> Seq<char> {
    "arts/"@ + manga_id + "_"@ + decimal(index) + "."@ + strip_dots(ext)
}

/// The key of a page: `mangas/{manga}/{chapter}/{version}/{page}.{ext}`.
pub open spec fn page_key(
    manga_id: Seq<char>,
    chapter_id: Seq<char>,
    version_id: Seq<char>,
    page: nat,
    ext: Seq<char>,
) -> Seq<char> {
    "mangas/"@ + manga_id + "/"@ + chapter_id + "/"@ + version_id + "/"@ + decimal(page) + "."@
        + strip_dots(ext)
}

fn make_cover_key(manga_id: &str, index: usize, ext: &str) -> (r: String)
    ensures
        r@ == cover_key(manga_id@, index as nat, ext@),
{
    let mut s = String::new();
    append_str(&mut s, "covers/");
    append_str(&mut s, manga_id);
    if index != 0 {
        append_str(&mut s, "_");
        push_decimal(&mut s, index as u64);
    }
    append_str(&mut s, ".");
    push_stripped(&mut s, ext);
    s
}

fn make_art_key(manga_id: &str, index: usize, ext: &str) -> (r: String)
    ensures
        r@ == art_key(manga_id@, index as nat, ext@),
{
    let mut s = String::new();
    append_str(&mut s, "arts/");
    append_str(&mut s, manga_id);
    append_str(&mut s, "_");
    push_decimal(&mut s, index as u64);
    append_str(&mut s, ".");
    push_stripped(&mut s, ext);
    s
}

fn make_page_key(manga_id: &str, chapter_id: &str, version_id: &str, page: u64, ext: &str) -> (r:
    String)
    ensures
        r@ == page_key(manga_id@, chapter_id@, version_id@, page as nat, ext@),
{
    let mut s = String::new();
    append_str(&mut s, "mangas/");
    append_str(&mut s, manga_id);
    append_str(&mut s, "/");
    append_str(&mut s, chapter_id);
    append_str(&mut s, "/");
    append_str(&mut s, version_id);
    append_str(&mut s, "/");
    push_decimal(&mut s, page);
    append_str(&mut s, ".");
    push_stripped(&mut s, ext);
    s
}

/// Models of optional strings.
pub open spec fn opt_strings_view(v: Seq<Option<String>>) -> Seq<Option<Seq<char>>> {
    Seq::new(
        v.len(),
        |i: int|
            match v[i] {
                Some(s) => Some(s@),
                None => None,
            },
    )
}

/// The filled slots `(slot, ext)` among the first `n`, in order.
pub open spec fn filled(slots: Seq<Option<Seq<char>>>, n: int) -> Seq<(nat, Seq<char>)>
    decreases n,
{
    if n <= 0 || n > slots.len() {
        seq![]
    } else {
        match slots[n - 1] {
            Some(ext) => filled(slots, n - 1).push(((n - 1) as nat, ext)),
            None => filled(slots, n - 1),
        }
    }
}

/// The bundle indexes `from, from + 1, ..` of `count` images.
pub open spec fn index_run(from: nat, count: nat) -> Seq<u32> {
    Seq::new(count, |k: int| (from + k) as u32)
}

/// Adding `count` images after `from` keys would number one of them past
/// `u32::MAX`.
pub open spec fn runs_out(from: nat, count: nat) -> bool {
    count > 0 && from + count - 1 > u32::MAX
}

/// The keys of the images of a manga, in bundle order.
pub struct ImageKeys {
    pub keys: Vec<String>,
}

impl ImageKeys {
    /// No keys yet.
    pub fn new() -> (r: Self)
        ensures
            r.keys@.len() == 0,
    {
        ImageKeys { keys: Vec::new() }
    }

    fn count_filled(slots: &Vec<Option<String>>) -> (r: usize)
        ensures
            r == filled(opt_strings_view(slots@), slots@.len() as int).len(),
    {
        let ghost sv = opt_strings_view(slots@);
        let mut n: usize = 0;
        let mut i: usize = 0;
        while i < slots.len()
            invariant
                sv == opt_strings_view(slots@),
                i <= slots.len(),
                n == filled(sv, i as int).len(),
                n <= i,
            decreases slots.len() - i,
        {
            if slots[i].is_some() {
                n = n + 1;
            }
            i = i + 1;
        }
        n
    }

    /// Adds the covers of the manga (`None`: an empty cover slot) and
    /// returns their bundle indexes.
    pub fn add_covers(&mut self, manga_id: &str, covers: &Vec<Option<String>>) -> (r: Result<
        Vec<u32>,
        ApiError,
    >)
        ensures
            ({
                let f = filled(opt_strings_view(covers@), covers@.len() as int);
                let from = old(self).keys@.len();
                if runs_out(from, f.len()) {
                    fails_with(r, "image index exceeds limit"@) && final(self).keys@ == old(
                        self,
                    ).keys@
                } else {
                    &&& r matches Ok(ix) && ix@ == index_run(from, f.len())
                    &&& strings_view(final(self).keys@) == strings_view(old(self).keys@) + Seq::new(
                        f.len(),
                        |k: int| cover_key(manga_id@, f[k].0, f[k].1),
                    )
                }
            }),
    {
        self.add_slots(manga_id, covers, true)
    }

    /// Adds the arts of the manga (`None`: an empty art slot) and returns
    /// their bundle indexes.
    pub fn add_arts(&mut self, manga_id: &str, arts: &Vec<Option<String>>) -> (r: Result<
        Vec<u32>,
        ApiError,
    >)
        ensures
            ({
                let f = filled(opt_strings_view(arts@), arts@.len() as int);
                let from = old(self).keys@.len();
                if runs_out(from, f.len()) {
                    fails_with(r, "image index exceeds limit"@) && final(self).keys@ == old(
                        self,
                    ).keys@
                } else {
                    &&& r matches Ok(ix) && ix@ == index_run(from, f.len())
                    &&& strings_view(final(self).keys@) == strings_view(old(self).keys@) + Seq::new(
                        f.len(),
                        |k: int| art_key(manga_id@, f[k].0, f[k].1),
                    )
                }
            }),
    {
        self.add_slots(manga_id, arts, false)
    }

    fn add_slots(&mut self, manga_id: &str, slots: &Vec<Option<String>>, covers: bool) -> (r:
        Result<Vec<u32>, ApiError>)
        ensures
            ({
                let f = filled(opt_strings_view(slots@), slots@.len() as int);
                let from = old(self).keys@.len();
                if runs_out(from, f.len()) {
                    fails_with(r, "image index exceeds limit"@) && final(self).keys@ == old(
                        self,
                    ).keys@
                } else {
                    &&& r matches Ok(ix) && ix@ == index_run(from, f.len())
                    &&& strings_view(final(self).keys@) == strings_view(old(self).keys@) + Seq::new(
                        f.len(),
                        |k: int|
                            if covers {
                                cover_key(manga_id@, f[k].0, f[k].1)
                            } else {
                                art_key(manga_id@, f[k].0, f[k].1)
                            },
                    )
                }
            }),
    {
        let ghost sv = opt_strings_view(slots@);
        let ghost f = filled(sv, slots@.len() as int);
        let ghost start = strings_view(self.keys@);
        let from = self.keys.len();
        let count = Self::count_filled(slots);
        let from64 = from as u64;
        let count64 = count as u64;
        if count64 > 0 && (from64 > 0xffff_ffffu64 || count64 - 1 > 0xffff_ffffu64 - from64) {
            proof {
                reveal_strlit("image index exceeds limit");
            }
            return Err(ApiError::invalid_input("image index exceeds limit"));
        }
        let mut indexes: Vec<u32> = Vec::new();
        let mut i: usize = 0;
        while i < slots.len()
            invariant
                sv == opt_strings_view(slots@),
                f == filled(sv, slots@.len() as int),
                count == f.len(),
                !runs_out(from as nat, count as nat),
                i <= slots.len(),
                indexes@ == index_run(from as nat, filled(sv, i as int).len()),
                self.keys@.len() == from + indexes@.len(),
                strings_view(self.keys@) == start + Seq::new(
                    filled(sv, i as int).len(),
                    |k: int|
                        if covers {
                            cover_key(manga_id@, filled(sv, i as int)[k].0, filled(sv, i as int)[k].1)
                        } else {
                            art_key(manga_id@, filled(sv, i as int)[k].0, filled(sv, i as int)[k].1)
                        },
                ),
                start.len() == from,
            decreases slots.len() - i,
        {
            proof {
                lemma_filled_prefix(sv, i + 1, slots@.len() as int);
            }
            match &slots[i] {
                None => {},
                Some(ext) => {
                    let ghost prev = strings_view(self.keys@);
                    let idx = self.keys.len() as u32;
                    let key = if covers {
                        make_cover_key(manga_id, i, ext.as_str())
                    } else {
                        make_art_key(manga_id, i, ext.as_str())
                    };
                    self.keys.push(key);
                    indexes.push(idx);
                    assert(strings_view(self.keys@) =~= prev.push(key@));
                },
            }
            i = i + 1;
            assert(indexes@ =~= index_run(from as nat, filled(sv, i as int).len()));
            assert(strings_view(self.keys@) =~= start + Seq::new(
                filled(sv, i as int).len(),
                |k: int|
                    if covers {
                        cover_key(manga_id@, filled(sv, i as int)[k].0, filled(sv, i as int)[k].1)
                    } else {
                        art_key(manga_id@, filled(sv, i as int)[k].0, filled(sv, i as int)[k].1)
                    },
            ));
        }
        Ok(indexes)
    }
}

proof fn lemma_filled_prefix(slots: Seq<Option<Seq<char>>>, a: int, b: int)
    requires
        0 <= a <= b <= slots.len(),
    ensures
        filled(slots, a).len() <= filled(slots, b).len(),
        forall|k: int|
            0 <= k < filled(slots, a).len() ==> #[trigger] filled(slots, b)[k] == filled(slots, a)[k],
    decreases b - a,
{
    if a < b {
        lemma_filled_prefix(slots, a, b - 1);
    }
}

/// Models of keyed strings `(key, text)`, such as pages `(page number, ext)`.
pub open spec fn keyed_view(v: Seq<(u64, String)>) -> Seq<(u64, Seq<char>)> {
    Seq::new(v.len(), |i: int| (v[i].0, v[i].1@))
}

/// The number of leading entries whose key is at most `k`.
pub open spec fn upper(s: Seq<(u64, Seq<char>)>, k: u64) -> int
    decreases s.len(),
{
    if s.len() == 0 || s[0].0 > k {
        0
    } else {
        1 + upper(s.drop_first(), k)
    }
}

/// The entries sorted by key, entries of equal key kept in their order
/// (what the stable `sort_by_key` gives).
pub open spec fn sorted_by_key(s: Seq<(u64, Seq<char>)>) -> Seq<(u64, Seq<char>)>
    decreases s.len(),
{
    if s.len() == 0 {
        s
    } else {
        let t = sorted_by_key(s.drop_last());
        t.insert(upper(t, s.last().0), s.last())
    }
}

pub open spec fn is_sorted_by_key(s: Seq<(u64, Seq<char>)>) -> bool {
    forall|i: int, j: int| 0 <= i <= j < s.len() ==> s[i].0 <= s[j].0
}

proof fn lemma_upper(s: Seq<(u64, Seq<char>)>, k: u64)
    ensures
        0 <= upper(s, k) <= s.len(),
        forall|i: int| 0 <= i < upper(s, k) ==> s[i].0 <= k,
        upper(s, k) < s.len() ==> s[upper(s, k)].0 > k,
    decreases s.len(),
{
    if s.len() > 0 && s[0].0 <= k {
        lemma_upper(s.drop_first(), k);
        assert forall|i: int| 0 <= i < upper(s, k) implies s[i].0 <= k by {
            if i > 0 {
                assert(s[i] == s.drop_first()[i - 1]);
            }
        }
    }
}

proof fn lemma_upper_at(s: Seq<(u64, Seq<char>)>, k: u64, j: int)
    requires
        0 <= j <= s.len(),
        forall|i: int| 0 <= i < j ==> s[i].0 <= k,
        j < s.len() ==> s[j].0 > k,
    ensures
        upper(s, k) == j,
    decreases j,
{
    if j > 0 {
        lemma_upper_at(s.drop_first(), k, j - 1);
    }
}

/// Sorting keeps the entries and puts them in order of their keys.
pub proof fn lemma_sorted_by_key(s: Seq<(u64, Seq<char>)>)
    ensures
        is_sorted_by_key(sorted_by_key(s)),
        sorted_by_key(s).to_multiset() == s.to_multiset(),
        sorted_by_key(s).len() == s.len(),
    decreases s.len(),
{
    if s.len() > 0 {
        let t = sorted_by_key(s.drop_last());
        lemma_sorted_by_key(s.drop_last());
        let x = s.last();
        let u = upper(t, x.0);
        lemma_upper(t, x.0);
        let r = t.insert(u, x);
        assert forall|i: int, j: int| 0 <= i <= j < r.len() implies r[i].0 <= r[j].0 by {
            if j < u {
            } else if j == u {
            } else if i < u {
                assert(r[j] == t[j - 1]);
            } else if i == u {
                assert(r[j] == t[j - 1]);
                assert(t[u].0 <= t[j - 1].0);
            } else {
                assert(r[i] == t[i - 1]);
                assert(r[j] == t[j - 1]);
            }
        }
        vstd::seq_lib::to_multiset_insert(t, u, x);
        vstd::seq_lib::to_multiset_build(s.drop_last(), x);
        assert(s.drop_last().push(x) =~= s);
    }
}

/// Sorts entries by their key, keeping entries of equal key in order.
pub fn sort_by_key(entries: Vec<(u64, String)>) -> (r: Vec<(u64, String)>)
    ensures
        keyed_view(r@) == sorted_by_key(keyed_view(entries@)),
{
    let ghost all = keyed_view(entries@);
    let n = entries.len();
    let mut rest = entries;
    let mut out: Vec<(u64, String)> = Vec::new();
    let mut i: usize = 0;
    assert(all.take(0) =~= Seq::<(u64, Seq<char>)>::empty());
    while rest.len() > 0
        invariant
            i + rest@.len() == all.len(),
            all.len() == n,
            keyed_view(rest@) == all.skip(i as int),
            keyed_view(out@) == sorted_by_key(all.take(i as int)),
        decreases rest.len(),
    {
        let ghost before = keyed_view(out@);
        let ghost old_rest = rest@;
        let p = rest.remove(0);
        assert(p == old_rest[0]);
        assert(keyed_view(old_rest)[0] == all.skip(i as int)[0]);
        assert(all[i as int] == (p.0, p.1@));
        assert forall|q: int| 0 <= q < rest@.len() implies #[trigger] keyed_view(rest@)[q] == all.skip(
            i + 1,
        )[q] by {
            assert(rest@[q] == old_rest[q + 1]);
            assert(keyed_view(old_rest)[q + 1] == all.skip(i as int)[q + 1]);
        }
        assert(keyed_view(rest@) =~= all.skip(i + 1));
        let k = p.0;
        let mut j: usize = 0;
        while j < out.len() && out[j].0 <= k
            invariant
                j <= out.len(),
                keyed_view(out@) == before,
                forall|q: int| 0 <= q < j ==> before[q].0 <= k,
            decreases out.len() - j,
        {
            j = j + 1;
        }
        proof {
            lemma_upper_at(before, k, j as int);
            assert(all.take(i + 1).drop_last() =~= all.take(i as int));
            assert(all.take(i + 1).last() == (p.0, p.1@));
        }
        let ghost pv = (p.0, p.1@);
        out.insert(j, p);
        assert(keyed_view(out@) =~= before.insert(j as int, pv));
        i = i + 1;
    }
    assert(all.take(i as int) =~= all);
    out
}

impl ImageKeys {
    /// Adds the pages `(page number, ext)` of a chapter version, in order of
    /// their numbers, and returns their bundle indexes.
    pub fn add_pages(
        &mut self,
        manga_id: &str,
        chapter_id: &str,
        version_id: &str,
        pages: Vec<(u64, String)>,
    ) -> (r: Result<Vec<u32>, ApiError>)
        ensures
            ({
                let sp = sorted_by_key(keyed_view(pages@));
                let from = old(self).keys@.len();
                if runs_out(from, sp.len()) {
                    fails_with(r, "image index exceeds limit"@) && final(self).keys@ == old(
                        self,
                    ).keys@
                } else {
                    &&& r matches Ok(ix) && ix@ == index_run(from, sp.len())
                    &&& strings_view(final(self).keys@) == strings_view(old(self).keys@) + Seq::new(
                        sp.len(),
                        |k: int| page_key(manga_id@, chapter_id@, version_id@, sp[k].0 as nat, sp[k].1),
                    )
                }
            }),
    {
        let sorted = sort_by_key(pages);
        let ghost sp = keyed_view(sorted@);
        let ghost start = strings_view(self.keys@);
        let from = self.keys.len();
        let count = sorted.len();
        let from64 = from as u64;
        let count64 = count as u64;
        if count64 > 0 && (from64 > 0xffff_ffffu64 || count64 - 1 > 0xffff_ffffu64 - from64) {
            proof {
                reveal_strlit("image index exceeds limit");
            }
            return Err(ApiError::invalid_input("image index exceeds limit"));
        }
        let mut indexes: Vec<u32> = Vec::new();
        let mut i: usize = 0;
        while i < sorted.len()
            invariant
                sp == keyed_view(sorted@),
                count == sorted.len(),
                !runs_out(from as nat, count as nat),
                i <= sorted.len(),
                start.len() == from,
                indexes@ == index_run(from as nat, i as nat),
                self.keys@.len() == from + i,
                strings_view(self.keys@) == start + Seq::new(
                    i as nat,
                    |k: int| page_key(manga_id@, chapter_id@, version_id@, sp[k].0 as nat, sp[k].1),
                ),
            decreases sorted.len() - i,
        {
            let ghost prev = strings_view(self.keys@);
            let idx = self.keys.len() as u32;
            let key = make_page_key(manga_id, chapter_id, version_id, sorted[i].0, sorted[i].1.as_str());
            self.keys.push(key);
            indexes.push(idx);
            assert(strings_view(self.keys@) =~= prev.push(key@));
            i = i + 1;
            assert(indexes@ =~= index_run(from as nat, i as nat));
            assert(strings_view(self.keys@) =~= start + Seq::new(
                i as nat,
                |k: int| page_key(manga_id@, chapter_id@, version_id@, sp[k].0 as nat, sp[k].1),
            ));
        }
        Ok(indexes)
    }
}

/// `a <= b` in the order of `String`: lexicographic by character.
pub open spec fn str_le(a: Seq<char>, b: Seq<char>) -> bool
    decreases a.len(),
{
    if a.len() == 0 {
        true
    } else if b.len() == 0 {
        false
    } else if a[0] != b[0] {
        a[0] < b[0]
    } else {
        str_le(a.drop_first(), b.drop_first())
    }
}

/// Any two strings are ordered one way or the other.
pub proof fn lemma_str_le_total(a: Seq<char>, b: Seq<char>)
    ensures
        str_le(a, b) || str_le(b, a),
    decreases a.len(),
{
    if a.len() > 0 && b.len() > 0 && a[0] == b[0] {
        lemma_str_le_total(a.drop_first(), b.drop_first());
    }
}

/// The string order is transitive.
pub proof fn lemma_str_le_trans(a: Seq<char>, b: Seq<char>, c: Seq<char>)
    requires
        str_le(a, b),
        str_le(b, c),
    ensures
        str_le(a, c),
    decreases a.len(),
{
    if a.len() > 0 && b.len() > 0 && c.len() > 0 && a[0] == b[0] && b[0] == c[0] {
        lemma_str_le_trans(a.drop_first(), b.drop_first(), c.drop_first());
    }
}

/// Models of named entries `(name, id)`.
pub open spec fn named_view(v: Seq<(String, String)>) -> Seq<(Seq<char>, Seq<char>)> {
    Seq::new(v.len(), |i: int| (v[i].0@, v[i].1@))
}

/// The number of leading entries whose name is at most `k`.
pub open spec fn upper_name(s: Seq<(Seq<char>, Seq<char>)>, k: Seq<char>) -> int
    decreases s.len(),
{
    if s.len() == 0 || !str_le(s[0].0, k) {
        0
    } else {
        1 + upper_name(s.drop_first(), k)
    }
}

/// The entries sorted by name, entries of equal name kept in their order.
pub open spec fn sorted_by_name(s: Seq<(Seq<char>, Seq<char>)>) -> Seq<(Seq<char>, Seq<char>)>
    decreases s.len(),
{
    if s.len() == 0 {
        s
    } else {
        let t = sorted_by_name(s.drop_last());
        t.insert(upper_name(t, s.last().0), s.last())
    }
}

pub open spec fn is_sorted_by_name(s: Seq<(Seq<char>, Seq<char>)>) -> bool {
    forall|i: int, j: int| 0 <= i <= j < s.len() ==> str_le(#[trigger] s[i].0, #[trigger] s[j].0)
}

proof fn lemma_upper_name(s: Seq<(Seq<char>, Seq<char>)>, k: Seq<char>)
    ensures
        0 <= upper_name(s, k) <= s.len(),
        forall|i: int| 0 <= i < upper_name(s, k) ==> str_le(#[trigger] s[i].0, k),
        upper_name(s, k) < s.len() ==> !str_le(s[upper_name(s, k)].0, k),
    decreases s.len(),
{
    if s.len() > 0 && str_le(s[0].0, k) {
        lemma_upper_name(s.drop_first(), k);
        assert forall|i: int| 0 <= i < upper_name(s, k) implies str_le(#[trigger] s[i].0, k) by {
            if i > 0 {
                assert(s[i] == s.drop_first()[i - 1]);
            }
        }
    }
}

proof fn lemma_upper_name_at(s: Seq<(Seq<char>, Seq<char>)>, k: Seq<char>, j: int)
    requires
        0 <= j <= s.len(),
        forall|i: int| 0 <= i < j ==> str_le(#[trigger] s[i].0, k),
        j < s.len() ==> !str_le(s[j].0, k),
    ensures
        upper_name(s, k) == j,
    decreases j,
{
    if j > 0 {
        lemma_upper_name_at(s.drop_first(), k, j - 1);
    }
}

/// Sorting by name keeps the entries and puts them in order of their names.
pub proof fn lemma_sorted_by_name(s: Seq<(Seq<char>, Seq<char>)>)
    ensures
        is_sorted_by_name(sorted_by_name(s)),
        sorted_by_name(s).to_multiset() == s.to_multiset(),
        sorted_by_name(s).len() == s.len(),
    decreases s.len(),
{
    if s.len() > 0 {
        let t = sorted_by_name(s.drop_last());
        lemma_sorted_by_name(s.drop_last());
        let x = s.last();
        let u = upper_name(t, x.0);
        lemma_upper_name(t, x.0);
        let r = t.insert(u, x);
        if u < t.len() {
            lemma_str_le_total(t[u].0, x.0);
        }
        assert forall|i: int, j: int| 0 <= i <= j < r.len() implies str_le(
            #[trigger] r[i].0,
            #[trigger] r[j].0,
        ) by {
            if j < u {
                assert(r[i] == t[i] && r[j] == t[j]);
            } else if j == u {
                if i < u {
                    assert(r[i] == t[i]);
                } else {
                    lemma_str_le_total(x.0, x.0);
                }
            } else if i < u {
                assert(r[i] == t[i] && r[j] == t[j - 1]);
            } else if i == u {
                assert(r[j] == t[j - 1]);
                assert(str_le(t[u].0, t[j - 1].0));
                lemma_str_le_trans(x.0, t[u].0, t[j - 1].0);
            } else {
                assert(r[i] == t[i - 1]);
                assert(r[j] == t[j - 1]);
            }
        }
        vstd::seq_lib::to_multiset_insert(t, u, x);
        vstd::seq_lib::to_multiset_build(s.drop_last(), x);
        assert(s.drop_last().push(x) =~= s);
    }
}

/// Sorts entries `(name, id)` by name, keeping entries of equal name in
/// order, as the versions of an exported chapter are sorted.
pub fn sort_by_name(entries: Vec<(String, String)>) -> (r: Vec<(String, String)>)
    ensures
        named_view(r@) == sorted_by_name(named_view(entries@)),
{
    let ghost all = named_view(entries@);
    let n = entries.len();
    let mut rest = entries;
    let mut out: Vec<(String, String)> = Vec::new();
    let mut i: usize = 0;
    assert(all.take(0) =~= Seq::<(Seq<char>, Seq<char>)>::empty());
    while rest.len() > 0
        invariant
            i + rest@.len() == all.len(),
            all.len() == n,
            named_view(rest@) == all.skip(i as int),
            named_view(out@) == sorted_by_name(all.take(i as int)),
        decreases rest.len(),
    {
        let ghost before = named_view(out@);
        let ghost old_rest = rest@;
        let p = rest.remove(0);
        assert(p == old_rest[0]);
        assert(named_view(old_rest)[0] == all.skip(i as int)[0]);
        assert(all[i as int] == (p.0@, p.1@));
        assert forall|q: int| 0 <= q < rest@.len() implies #[trigger] named_view(rest@)[q]
            == all.skip(i + 1)[q] by {
            assert(rest@[q] == old_rest[q + 1]);
            assert(named_view(old_rest)[q + 1] == all.skip(i as int)[q + 1]);
        }
        assert(named_view(rest@) =~= all.skip(i + 1));
        let mut j: usize = 0;
        while j < out.len() && str_le_exec(out[j].0.as_str(), p.0.as_str())
            invariant
                j <= out.len(),
                named_view(out@) == before,
                forall|q: int| 0 <= q < j ==> str_le(#[trigger] before[q].0, p.0@),
            decreases out.len() - j,
        {
            j = j + 1;
        }
        proof {
            lemma_upper_name_at(before, p.0@, j as int);
            assert(all.take(i + 1).drop_last() =~= all.take(i as int));
            assert(all.take(i + 1).last() == (p.0@, p.1@));
        }
        let ghost pv = (p.0@, p.1@);
        out.insert(j, p);
        assert(named_view(out@) =~= before.insert(j as int, pv));
        i = i + 1;
    }
    assert(all.take(i as int) =~= all);
    out
}

/// `a <= b` for strings.
fn str_le_exec(a: &str, b: &str) -> (r: bool)
    ensures
        r == str_le(a@, b@),
{
    let va = chars_of(a);
    let vb = chars_of(b);
    let mut i: usize = 0;
    assert(a@.skip(0) =~= a@);
    assert(b@.skip(0) =~= b@);
    while i < va.len()
        invariant
            va@ == a@,
            vb@ == b@,
            i <= va.len(),
            i <= vb.len(),
            forall|k: int| 0 <= k < i ==> k < vb@.len() && va@[k] == vb@[k],
            str_le(a@, b@) == str_le(a@.skip(i as int), b@.skip(i as int)),
        decreases va.len() - i,
    {
        if i >= vb.len() {
            assert(b@.skip(i as int).len() == 0);
            return false;
        }
        if va[i] != vb[i] {
            assert(a@.skip(i as int)[0] == va@[i as int]);
            assert(b@.skip(i as int)[0] == vb@[i as int]);
            return va[i] < vb[i];
        }
        assert(a@.skip(i as int).drop_first() =~= a@.skip(i + 1));
        assert(b@.skip(i as int).drop_first() =~= b@.skip(i + 1));
        i = i + 1;
    }
    assert(a@.skip(i as int).len() == 0);
    true
}

/// The key of every art slot, the first included, names its slot: it is
/// `arts/`, the manga id, `_`, the slot index as written in decimal, `.`
/// and the extension without its leading dots.
pub proof fn lemma_art_key_names_slot(manga_id: Seq<char>, index: nat, ext: Seq<char>)
    ensures
        exists|x: Seq<char>|
            #[trigger] writes_number(x, index) && art_key(manga_id, index, ext) == "arts/"@
                + manga_id + "_"@ + x + "."@ + strip_dots(ext),
{
    lemma_decimal_writes(index);
    assert(writes_number(decimal(index), index));
}

/// The key of the first cover is `covers/`, the manga id, `.` and the
/// extension without its leading dots; every other cover slot adds `_` and
/// its index as written in decimal before the dot.
pub proof fn lemma_cover_key_names_slot(manga_id: Seq<char>, index: nat, ext: Seq<char>)
    ensures
        index == 0 ==> cover_key(manga_id, index, ext) == "covers/"@ + manga_id + "."@ + strip_dots(
            ext,
        ),
        index > 0 ==> exists|x: Seq<char>|
            #[trigger] writes_number(x, index) && cover_key(manga_id, index, ext) == "covers/"@
                + manga_id + "_"@ + x + "."@ + strip_dots(ext),
{
    lemma_decimal_writes(index);
    assert(writes_number(decimal(index), index));
}

/// The key of a page names the manga, the chapter, the version and the
/// page number as written in decimal, then the extension without its
/// leading dots.
pub proof fn lemma_page_key_names_page(
    manga_id: Seq<char>,
    chapter_id: Seq<char>,
    version_id: Seq<char>,
    page: nat,
    ext: Seq<char>,
)
    ensures
        exists|x: Seq<char>|
            #[trigger] writes_number(x, page) && page_key(manga_id, chapter_id, version_id, page, ext)
                == "mangas/"@ + manga_id + "/"@ + chapter_id + "/"@ + version_id + "/"@ + x + "."@
                + strip_dots(ext),
{
    lemma_decimal_writes(page);
    assert(writes_number(decimal(page), page));
}

/// Stripping the leading dots of an extension leaves its tail after a run
/// of dots, and that tail does not start with a dot.
pub proof fn lemma_strip_dots_tail(ext: Seq<char>)
    ensures
        strip_dots(ext).len() <= ext.len(),
        ext == Seq::new((ext.len() - strip_dots(ext).len()) as nat, |i: int| '.') + strip_dots(ext),
        strip_dots(ext).len() > 0 ==> strip_dots(ext)[0] != '.',
    decreases ext.len(),
{
    if ext.len() > 0 && ext[0] == '.' {
        lemma_strip_dots_tail(ext.drop_first());
        let t = strip_dots(ext);
        let d = (ext.len() - t.len()) as nat;
        assert(ext =~= Seq::new(d, |i: int| '.') + t) by {
            assert forall|i: int| 0 <= i < ext.len() implies ext[i] == (Seq::new(d, |i: int| '.')
                + t)[i] by {
                if i > 0 {
                    assert(ext[i] == ext.drop_first()[i - 1]);
                }
            }
        }
    } else {
        assert(ext =~= Seq::new(0, |i: int| '.') + ext);
    }
}

} // verus!
