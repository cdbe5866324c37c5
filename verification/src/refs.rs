//! How a restore uses the uploaded images of a bundle: which image the new
//! manga's first cover is, how often each image is referenced, and handing
//! out one prepared file per reference.
use vstd::prelude::*;
use crate::error::{ApiError, ApiErrorV, fails_with};

verus! {

/// The image indexes a bundle's metadata refers to.
pub struct BundleRefs {
    pub cover_image_indexes: Vec<u32>,
    pub art_image_indexes: Vec<u32>,
    /// For each chapter, for each of its versions, the indexes of its pages.
    pub chapters: Vec<Vec<Vec<u32>>>,
}

/// Mathematical model of [`BundleRefs`].
pub struct RefsV {
    pub covers: Seq<u32>,
    pub arts: Seq<u32>,
    pub chapters: Seq<Seq<Seq<u32>>>,
}

pub open spec fn nested_view(v: Seq<Vec<Vec<u32>>>) -> Seq<Seq<Seq<u32>>> {
    Seq::new(v.len(), |i: int| Seq::new(v[i]@.len(), |j: int| v[i]@[j]@))
}

impl View for BundleRefs {
    type V = RefsV;

    open spec fn view(&self) -> RefsV {
        RefsV {
            covers: self.cover_image_indexes@,
            arts: self.art_image_indexes@,
            chapters: nested_view(self.chapters@),
        }
    }
}

/// The concatenation of a sequence of sequences.
pub open spec fn flat<A>(s: Seq<Seq<A>>) -> Seq<A>
    decreases s.len(),
{
    if s.len() == 0 {
        seq![]
    } else {
        flat(s.drop_last()) + s.last()
    }
}

/// The page indexes of all chapters, chapter by chapter, version by version.
pub open spec fn page_refs(chapters: Seq<Seq<Seq<u32>>>) -> Seq<u32>
    decreases chapters.len(),
{
    if chapters.len() == 0 {
        seq![]
    } else {
        page_refs(chapters.drop_last()) + flat(chapters.last())
    }
}

/// The image that becomes the first cover of the restored manga: the first
/// cover, else the first art, else the first page.
pub open spec fn create_cover(r: RefsV) -> Option<u32> {
    if r.covers.len() > 0 {
        Some(r.covers[0])
    } else if r.arts.len() > 0 {
        Some(r.arts[0])
    } else if page_refs(r.chapters).len() > 0 {
        Some(page_refs(r.chapters)[0])
    } else {
        None
    }
}

/// Every reference to an image, in the order they are counted; the first
/// cover counts once more when the bundle has no cover.
pub open spec fn ref_sequence(r: RefsV, cover: u32) -> Seq<u32> {
    r.covers + r.arts + page_refs(r.chapters) + if r.covers.len() == 0 {
        seq![cover]
    } else {
        seq![]
    }
}

/// Every file taken while restoring, in order: the first cover, the other
/// covers, the arts, then the pages.
pub open spec fn take_sequence(r: RefsV, cover: u32) -> Seq<u32> {
    seq![cover] + (if r.covers.len() > 0 {
        r.covers.skip(1)
    } else {
        seq![]
    }) + r.arts + page_refs(r.chapters)
}

/// How often `x` occurs in `s`.
pub open spec fn count_in(s: Seq<u32>, x: int) -> nat
    decreases s.len(),
{
    if s.len() == 0 {
        0
    } else {
        count_in(s.drop_last(), x) + if s.last() == x {
            1nat
        } else {
            0nat
        }
    }
}

pub open spec fn msg_no_images() -> Seq<char> {
    "restore metadata has no images"@
}

pub open spec fn msg_not_uploaded() -> Seq<char> {
    "metadata references image index that was not uploaded"@
}

pub open spec fn msg_count_overflow() -> Seq<char> {
    "image reference count overflow"@
}

pub open spec fn msg_unreferenced() -> Seq<char> {
    "upload response contains image ids not referenced by metadata"@
}

/// The error the first `p` references raise, given `n` uploaded images.
pub open spec fn ref_error(s: Seq<u32>, n: nat, p: int) -> Option<Seq<char>>
    decreases p,
{
    if p <= 0 || p > s.len() {
        None
    } else {
        match ref_error(s, n, p - 1) {
            Some(e) => Some(e),
            None => if s[p - 1] >= n {
                Some(msg_not_uploaded())
            } else if count_in(s.take(p), s[p - 1] as int) > usize::MAX {
                Some(msg_count_overflow())
            } else {
                None
            },
        }
    }
}

/// What counting the references of a bundle with `n` uploaded images gives:
/// how often each image is referenced, or the error.
pub open spec fn ref_counts(r: RefsV, n: nat) -> Result<Seq<nat>, Seq<char>> {
    match create_cover(r) {
        None => Err(msg_no_images()),
        Some(cover) => {
            let s = ref_sequence(r, cover);
            match ref_error(s, n, s.len() as int) {
                Some(e) => Err(e),
                None => {
                    let counts = Seq::new(n, |i: int| count_in(s, i));
                    if exists|i: int| 0 <= i < n && #[trigger] counts[i] == 0 {
                        Err(msg_unreferenced())
                    } else {
                        Ok(counts)
                    }
                },
            }
        },
    }
}

fn first_page(chapters: &Vec<Vec<Vec<u32>>>) -> (r: Option<u32>)
    ensures
        ({
            let p = page_refs(nested_view(chapters@));
            if p.len() > 0 {
                r == Some(p[0])
            } else {
                r is None
            }
        }),
{
    let ghost cv = nested_view(chapters@);
    let mut i: usize = 0;
    while i < chapters.len()
        invariant
            cv == nested_view(chapters@),
            i <= chapters.len(),
            page_refs(cv.take(i as int)).len() == 0,
        decreases chapters.len() - i,
    {
        let mut j: usize = 0;
        while j < chapters[i].len()
            invariant
                cv == nested_view(chapters@),
                i < chapters.len(),
                page_refs(cv.take(i as int)).len() == 0,
                j <= chapters[i as int]@.len(),
                flat(cv[i as int].take(j as int)).len() == 0,
            decreases chapters[i as int]@.len() - j,
        {
            proof {
                assert(cv[i as int].take(j + 1).drop_last() =~= cv[i as int].take(j as int));
            }
            if chapters[i][j].len() > 0 {
                let x = chapters[i][j][0];
                proof {
                    lemma_page_refs_prefix(cv, i as int, j as int);
                }
                return Some(x);
            }
            j = j + 1;
        }
        proof {
            assert(cv[i as int].take(j as int) =~= cv[i as int]);
            assert(cv.take(i + 1).drop_last() =~= cv.take(i as int));
        }
        i = i + 1;
    }
    assert(cv.take(i as int) =~= cv);
    None
}

proof fn lemma_flat_len<A>(s: Seq<Seq<A>>, k: int)
    requires
        0 <= k <= s.len(),
    ensures
        flat(s.take(k)).len() <= flat(s).len(),
        forall|q: int| 0 <= q < flat(s.take(k)).len() ==> #[trigger] flat(s)[q] == flat(s.take(k))[q],
    decreases s.len() - k,
{
    if k < s.len() {
        lemma_flat_len(s.drop_last(), k);
        assert(s.drop_last().take(k) =~= s.take(k));
    } else {
        assert(s.take(k) =~= s);
    }
}

proof fn lemma_page_refs_take(c: Seq<Seq<Seq<u32>>>, k: int)
    requires
        0 <= k <= c.len(),
    ensures
        page_refs(c.take(k)).len() <= page_refs(c).len(),
        forall|q: int|
            0 <= q < page_refs(c.take(k)).len() ==> #[trigger] page_refs(c)[q] == page_refs(
                c.take(k),
            )[q],
    decreases c.len() - k,
{
    if k < c.len() {
        lemma_page_refs_take(c.drop_last(), k);
        assert(c.drop_last().take(k) =~= c.take(k));
    } else {
        assert(c.take(k) =~= c);
    }
}

/// When no page comes before version `j` of chapter `i`, the first page of
/// that version is the first page of all.
proof fn lemma_page_refs_prefix(c: Seq<Seq<Seq<u32>>>, i: int, j: int)
    requires
        0 <= i < c.len(),
        0 <= j < c[i].len(),
        page_refs(c.take(i)).len() == 0,
        flat(c[i].take(j)).len() == 0,
        c[i][j].len() > 0,
    ensures
        page_refs(c).len() > 0,
        page_refs(c)[0] == c[i][j][0],
{
    let ci = c[i];
    assert(ci.take(j + 1).drop_last() =~= ci.take(j));
    assert(flat(ci.take(j + 1)) =~= flat(ci.take(j)) + ci[j]);
    lemma_flat_len(ci, j + 1);
    assert(c.take(i + 1).drop_last() =~= c.take(i));
    assert(page_refs(c.take(i + 1)) =~= page_refs(c.take(i)) + flat(ci));
    lemma_page_refs_take(c, i + 1);
}

impl BundleRefs {
    /// The image that becomes the first cover of the restored manga.
    pub fn create_cover_index(&self) -> (r: Result<u32, ApiError>)
        ensures
            match create_cover(self@) {
                None => fails_with(r, msg_no_images()),
                Some(c) => r == Ok::<u32, ApiError>(c),
            },
    {
        if self.cover_image_indexes.len() > 0 {
            return Ok(self.cover_image_indexes[0]);
        }
        if self.art_image_indexes.len() > 0 {
            return Ok(self.art_image_indexes[0]);
        }
        match first_page(&self.chapters) {
            Some(x) => Ok(x),
            None => Err(ApiError::invalid_input("restore metadata has no images")),
        }
    }
}

fn push_all(out: &mut Vec<u32>, v: &Vec<u32>)
    ensures
        final(out)@ == old(out)@ + v@,
{
    let mut i: usize = 0;
    while i < v.len()
        invariant
            i <= v.len(),
            out@ == old(out)@ + v@.take(i as int),
        decreases v.len() - i,
    {
        out.push(v[i]);
        i = i + 1;
        assert(out@ =~= old(out)@ + v@.take(i as int));
    }
    assert(v@.take(i as int) =~= v@);
}

fn page_list(chapters: &Vec<Vec<Vec<u32>>>) -> (r: Vec<u32>)
    ensures
        r@ == page_refs(nested_view(chapters@)),
{
    let ghost cv = nested_view(chapters@);
    let mut out: Vec<u32> = Vec::new();
    let mut i: usize = 0;
    while i < chapters.len()
        invariant
            cv == nested_view(chapters@),
            i <= chapters.len(),
            out@ == page_refs(cv.take(i as int)),
        decreases chapters.len() - i,
    {
        let ghost before = out@;
        let mut j: usize = 0;
        while j < chapters[i].len()
            invariant
                cv == nested_view(chapters@),
                i < chapters.len(),
                j <= chapters[i as int]@.len(),
                out@ == before + flat(cv[i as int].take(j as int)),
            decreases chapters[i as int]@.len() - j,
        {
            push_all(&mut out, &chapters[i][j]);
            proof {
                assert(cv[i as int].take(j + 1).drop_last() =~= cv[i as int].take(j as int));
            }
            j = j + 1;
            assert(out@ =~= before + flat(cv[i as int].take(j as int)));
        }
        proof {
            assert(cv[i as int].take(j as int) =~= cv[i as int]);
            assert(cv.take(i + 1).drop_last() =~= cv.take(i as int));
        }
        i = i + 1;
    }
    assert(cv.take(i as int) =~= cv);
    out
}

proof fn lemma_count_step(s: Seq<u32>, p: int, x: int)
    requires
        0 <= p < s.len(),
    ensures
        count_in(s.take(p + 1), x) == count_in(s.take(p), x) + if s[p] == x {
            1nat
        } else {
            0nat
        },
{
    assert(s.take(p + 1).drop_last() =~= s.take(p));
}

proof fn lemma_count_le_len(s: Seq<u32>, x: int)
    ensures
        count_in(s, x) <= s.len(),
    decreases s.len(),
{
    if s.len() > 0 {
        lemma_count_le_len(s.drop_last(), x);
    }
}

proof fn lemma_ref_error_stays(s: Seq<u32>, n: nat, p: int, q: int)
    requires
        0 <= p <= q <= s.len(),
        ref_error(s, n, p) is Some,
    ensures
        ref_error(s, n, q) == ref_error(s, n, p),
    decreases q - p,
{
    if q > p {
        lemma_ref_error_stays(s, n, p, q - 1);
    }
}

impl BundleRefs {
    /// Counts how often each of the `image_count` uploaded images is
    /// referenced; fails when a reference points past the uploads or an
    /// upload is never referenced.
    pub fn image_ref_counts(&self, image_count: usize) -> (r: Result<Vec<usize>, ApiError>)
        ensures
            match ref_counts(self@, image_count as nat) {
                Err(m) => fails_with(r, m),
                Ok(c) => r matches Ok(v) && v@.len() == c.len() && forall|i: int|
                    0 <= i < c.len() ==> #[trigger] v@[i] == c[i],
            },
    {
        let cover = match self.create_cover_index() {
            Ok(c) => c,
            Err(e) => {
                return Err(e);
            },
        };
        let mut seq: Vec<u32> = Vec::new();
        push_all(&mut seq, &self.cover_image_indexes);
        push_all(&mut seq, &self.art_image_indexes);
        let pages = page_list(&self.chapters);
        push_all(&mut seq, &pages);
        if self.cover_image_indexes.len() == 0 {
            seq.push(cover);
        }
        let ghost s = ref_sequence(self@, cover);
        assert(seq@ =~= s);
        let ghost n = image_count as nat;
        let mut counts: Vec<usize> = Vec::new();
        while counts.len() < image_count
            invariant
                counts.len() <= image_count,
                forall|i: int| 0 <= i < counts.len() ==> counts@[i] == 0,
            decreases image_count - counts.len(),
        {
            counts.push(0);
        }
        assert(s.take(0) =~= Seq::<u32>::empty());
        let mut p: usize = 0;
        while p < seq.len()
            invariant
                create_cover(self@) == Some(cover),
                s == ref_sequence(self@, cover),
                seq@ == s,
                n == image_count,
                counts.len() == image_count,
                p <= seq.len(),
                ref_error(s, n, p as int) is None,
                forall|i: int| 0 <= i < image_count ==> #[trigger] counts@[i] == count_in(
                    s.take(p as int),
                    i,
                ),
            decreases seq.len() - p,
        {
            let idx = seq[p];
            if idx as usize >= image_count {
                proof {
                    lemma_ref_error_stays(s, n, p + 1, s.len() as int);
                }
                return Err(ApiError::invalid_input("metadata references image index that was not uploaded"));
            }
            let i = idx as usize;
            proof {
                lemma_count_step(s, p as int, i as int);
            }
            match counts[i].checked_add(1) {
                None => {
                    proof {
                        lemma_ref_error_stays(s, n, p + 1, s.len() as int);
                    }
                    return Err(ApiError::invalid_input("image reference count overflow"));
                },
                Some(c) => {
                    counts.set(i, c);
                },
            }
            proof {
                assert forall|k: int| 0 <= k < image_count implies #[trigger] counts@[k] == count_in(
                    s.take(p + 1),
                    k,
                ) by {
                    lemma_count_step(s, p as int, k);
                }
            }
            p = p + 1;
        }
        assert(s.take(p as int) =~= s);
        let mut k: usize = 0;
        while k < counts.len()
            invariant
                create_cover(self@) == Some(cover),
                s == ref_sequence(self@, cover),
                n == image_count,
                ref_error(s, n, s.len() as int) is None,
                forall|i: int| 0 <= i < image_count ==> #[trigger] counts@[i] == count_in(s, i),
                counts.len() == image_count,
                k <= counts.len(),
                forall|i: int| 0 <= i < k ==> counts@[i] != 0,
            decreases counts.len() - k,
        {
            if counts[k] == 0 {
                proof {
                    let c = Seq::new(n, |i: int| count_in(s, i));
                    assert(counts@[k as int] == count_in(s, k as int));
                    assert(c[k as int] == 0);
                }
                return Err(ApiError::invalid_input("upload response contains image ids not referenced by metadata"));
            }
            k = k + 1;
        }
        proof {
            let c = Seq::new(n, |i: int| count_in(s, i));
            assert forall|i: int| 0 <= i < n implies #[trigger] c[i] != 0 by {
                assert(counts@[i] == count_in(s, i));
            }
        }
        Ok(counts)
    }
}

/// The files prepared for a restore: for each uploaded image, one file per
/// reference to it.
pub struct FilePool {
    pub slots: Vec<Vec<String>>,
}

pub open spec fn pool_view(v: Seq<Vec<String>>) -> Seq<Seq<Seq<char>>> {
    Seq::new(v.len(), |i: int| Seq::new(v[i]@.len(), |j: int| v[i]@[j]@))
}

impl FilePool {
    /// A pool holding, for each image, its prepared files.
    pub fn new(slots: Vec<Vec<String>>) -> (r: Self)
        ensures
            r.slots@ == slots@,
    {
        FilePool { slots }
    }

    /// Hands out the last prepared file of image `image_index`, or fails with
    /// `missing referenced image payload` when none is left.
    pub fn take(&mut self, image_index: u32) -> (r: Result<String, ApiError>)
        ensures
            ({
                let before = pool_view(old(self).slots@);
                let i = image_index as int;
                if i < before.len() && before[i].len() > 0 {
                    &&& r matches Ok(f) && f@ == before[i].last()
                    &&& pool_view(final(self).slots@) == before.update(i, before[i].drop_last())
                } else {
                    fails_with(r, "missing referenced image payload"@) && pool_view(
                        final(self).slots@,
                    ) == before
                }
            }),
    {
        let ghost before = pool_view(self.slots@);
        let i = image_index as usize;
        if i >= self.slots.len() || self.slots[i].len() == 0 {
            proof {
                reveal_strlit("missing referenced image payload");
            }
            return Err(ApiError::invalid_input("missing referenced image payload"));
        }
        let mut files = self.slots.remove(i);
        let ghost rest = self.slots@;
        let f = files.pop();
        let ghost left = files@;
        self.slots.insert(i, files);
        assert(pool_view(self.slots@) =~= before.update(i as int, before[i as int].drop_last())) by {
            assert forall|k: int| 0 <= k < before.len() implies #[trigger] pool_view(self.slots@)[k]
                == before.update(i as int, before[i as int].drop_last())[k] by {
                if k == i {
                    assert(Seq::new(left.len(), |j: int| left[j]@) =~= before[i as int].drop_last());
                }
            }
        }
        match f {
            Some(f) => Ok(f),
            None => Err(ApiError::invalid_input("missing referenced image payload")),
        }
    }
}

/// Taking the files `t`, in order, from a pool with `sizes[i]` files of
/// image `i`, never runs short.
pub open spec fn takes_succeed(sizes: Seq<nat>, t: Seq<u32>) -> bool
    decreases t.len(),
{
    if t.len() == 0 {
        true
    } else {
        let i = t[0] as int;
        &&& i < sizes.len()
        &&& sizes[i] > 0
        &&& takes_succeed(sizes.update(i, (sizes[i] - 1) as nat), t.drop_first())
    }
}

/// The sizes of the pool after taking the files `t`.
pub open spec fn after_takes(sizes: Seq<nat>, t: Seq<u32>) -> Seq<nat>
    decreases t.len(),
{
    if t.len() == 0 {
        sizes
    } else {
        let i = t[0] as int;
        after_takes(sizes.update(i, (sizes[i] - 1) as nat), t.drop_first())
    }
}

proof fn lemma_count_concat(a: Seq<u32>, b: Seq<u32>, x: int)
    ensures
        count_in(a + b, x) == count_in(a, x) + count_in(b, x),
    decreases b.len(),
{
    if b.len() > 0 {
        lemma_count_concat(a, b.drop_last(), x);
        assert((a + b).drop_last() =~= a + b.drop_last());
    } else {
        assert(a + b =~= a);
    }
}

proof fn lemma_count_front(t: Seq<u32>, x: int)
    requires
        t.len() > 0,
    ensures
        count_in(t, x) == count_in(t.drop_first(), x) + if t[0] == x {
            1nat
        } else {
            0nat
        },
{
    assert(t =~= seq![t[0]] + t.drop_first());
    lemma_count_concat(seq![t[0]], t.drop_first(), x);
    assert(seq![t[0]].drop_last() =~= Seq::<u32>::empty());
    assert(count_in(Seq::<u32>::empty(), x) == 0);
    assert(count_in(seq![t[0]], x) == if t[0] == x {
        1nat
    } else {
        0nat
    });
}

proof fn lemma_count_member(t: Seq<u32>, k: int)
    requires
        0 <= k < t.len(),
    ensures
        count_in(t, t[k] as int) >= 1,
    decreases t.len(),
{
    if k < t.len() - 1 {
        lemma_count_member(t.drop_last(), k);
    }
}

/// A pool that holds at least as many files of each image as `t` takes
/// serves every take, and keeps exactly the rest.
pub proof fn lemma_takes_succeed(sizes: Seq<nat>, t: Seq<u32>)
    requires
        forall|k: int| 0 <= k < t.len() ==> t[k] < sizes.len(),
        forall|x: int| 0 <= x < sizes.len() ==> count_in(t, x) <= #[trigger] sizes[x],
    ensures
        takes_succeed(sizes, t),
        after_takes(sizes, t).len() == sizes.len(),
        forall|x: int|
            0 <= x < sizes.len() ==> #[trigger] after_takes(sizes, t)[x] == sizes[x] - count_in(
                t,
                x,
            ),
    decreases t.len(),
{
    if t.len() > 0 {
        let i = t[0] as int;
        let s2 = sizes.update(i, (sizes[i] - 1) as nat);
        lemma_count_front(t, i);
        assert forall|x: int| 0 <= x < s2.len() implies count_in(t.drop_first(), x) <= #[trigger] s2[x] by {
            lemma_count_front(t, x);
        }
        lemma_takes_succeed(s2, t.drop_first());
        assert forall|x: int| 0 <= x < sizes.len() implies #[trigger] after_takes(sizes, t)[x]
            == sizes[x] - count_in(t, x) by {
            lemma_count_front(t, x);
        }
    }
}

/// A restore takes each uploaded image exactly as often as the bundle
/// references it.
pub proof fn lemma_takes_match_refs(r: RefsV, cover: u32, x: int)
    requires
        create_cover(r) == Some(cover),
    ensures
        count_in(take_sequence(r, cover), x) == count_in(ref_sequence(r, cover), x),
{
    let pages = page_refs(r.chapters);
    let rest = if r.covers.len() > 0 {
        r.covers.skip(1)
    } else {
        seq![]
    };
    let tail = if r.covers.len() == 0 {
        seq![cover]
    } else {
        seq![]
    };
    lemma_count_concat(seq![cover] + rest + r.arts, pages, x);
    lemma_count_concat(seq![cover] + rest, r.arts, x);
    lemma_count_concat(seq![cover], rest, x);
    lemma_count_concat(r.covers + r.arts + pages, tail, x);
    lemma_count_concat(r.covers + r.arts, pages, x);
    lemma_count_concat(r.covers, r.arts, x);
    assert(seq![cover].drop_last() =~= Seq::<u32>::empty());
    if r.covers.len() > 0 {
        assert(r.covers =~= seq![cover] + rest);
        lemma_count_concat(seq![cover], rest, x);
        assert(tail.len() == 0);
    } else {
        assert(rest.len() == 0);
        assert(tail.drop_last() =~= Seq::<u32>::empty());
    }
}

/// When the references of a bundle check out, the files prepared from the
/// counts serve every take of the restore, and none is left over.
pub proof fn lemma_restore_uses_every_file(r: RefsV, n: nat)
    requires
        ref_counts(r, n) is Ok,
    ensures
        ({
            let cover = create_cover(r)->0;
            let counts = ref_counts(r, n)->Ok_0;
            &&& takes_succeed(counts, take_sequence(r, cover))
            &&& forall|x: int|
                0 <= x < n ==> #[trigger] after_takes(counts, take_sequence(r, cover))[x] == 0
        }),
{
    let cover = create_cover(r)->0;
    let s = ref_sequence(r, cover);
    let t = take_sequence(r, cover);
    let counts = ref_counts(r, n)->Ok_0;
    assert forall|k: int| 0 <= k < s.len() implies s[k] < n by {
        if s[k] >= n {
            lemma_ref_error_reaches(s, n, k);
        }
    }
    assert forall|k: int| 0 <= k < t.len() implies t[k] < counts.len() by {
        lemma_count_member(t, k);
        lemma_takes_match_refs(r, cover, t[k] as int);
        if t[k] >= n {
            lemma_count_absent(s, n, t[k] as int);
        }
    }
    assert forall|x: int| 0 <= x < counts.len() implies count_in(t, x) <= #[trigger] counts[x] by {
        lemma_takes_match_refs(r, cover, x);
    }
    lemma_takes_succeed(counts, t);
    assert forall|x: int| 0 <= x < n implies #[trigger] after_takes(counts, t)[x] == 0 by {
        lemma_takes_match_refs(r, cover, x);
    }
}

proof fn lemma_ref_error_reaches(s: Seq<u32>, n: nat, k: int)
    requires
        0 <= k < s.len(),
        s[k] >= n,
    ensures
        ref_error(s, n, s.len() as int) is Some,
{
    if ref_error(s, n, k) is None {
        assert(ref_error(s, n, k + 1) is Some);
        lemma_ref_error_stays(s, n, k + 1, s.len() as int);
    } else {
        lemma_ref_error_stays(s, n, k, s.len() as int);
    }
}

proof fn lemma_count_absent(s: Seq<u32>, n: nat, x: int)
    requires
        forall|k: int| 0 <= k < s.len() ==> s[k] < n,
        x >= n,
    ensures
        count_in(s, x) == 0,
    decreases s.len(),
{
    if s.len() > 0 {
        lemma_count_absent(s.drop_last(), n, x);
    }
}

/// One step of a restore, in the order they run.
pub enum RestoreStep {
    /// Create the manga; the file of image `cover` becomes its first cover.
    Create { cover: u32 },
    /// Add the file of image `image` as a further cover.
    AddCover { image: u32 },
    /// Add the file of image `image` as an art.
    AddArt { image: u32 },
    /// Add version `version` of chapter `chapter`, one page per image.
    AddVersion { chapter: usize, version: usize, images: Vec<u32> },
    /// Stop: the bundle's metadata is invalid here.
    Fail(ApiError),
}

/// Mathematical model of a [`RestoreStep`].
pub enum StepV {
    Create(u32),
    AddCover(u32),
    AddArt(u32),
    AddVersion(int, int, Seq<u32>),
    Fail(ApiErrorV),
}

pub open spec fn step_view(s: RestoreStep) -> StepV {
    match s {
        RestoreStep::Create { cover } => StepV::Create(cover),
        RestoreStep::AddCover { image } => StepV::AddCover(image),
        RestoreStep::AddArt { image } => StepV::AddArt(image),
        RestoreStep::AddVersion { chapter, version, images } => StepV::AddVersion(
            chapter as int,
            version as int,
            images@,
        ),
        RestoreStep::Fail(e) => StepV::Fail(e@),
    }
}

pub open spec fn steps_view(v: Seq<RestoreStep>) -> Seq<StepV> {
    Seq::new(v.len(), |i: int| step_view(v[i]))
}

pub open spec fn msg_bad_chapter() -> Seq<char> {
    "restore metadata contains invalid chapter number"@
}

pub open spec fn msg_no_versions() -> Seq<char> {
    "restore metadata contains chapter without versions"@
}

pub open spec fn msg_no_pages() -> Seq<char> {
    "restore metadata contains empty chapter version pages"@
}

/// The steps of the first `m` versions of chapter `c`; `true` once a
/// version without pages stopped the restore.
pub open spec fn version_steps(vs: Seq<Seq<u32>>, c: int, m: int) -> (Seq<StepV>, bool)
    decreases m,
{
    if m <= 0 || m > vs.len() {
        (seq![], false)
    } else {
        let (prev, stopped) = version_steps(vs, c, m - 1);
        if stopped {
            (prev, true)
        } else if vs[m - 1].len() == 0 {
            (prev.push(StepV::Fail(ApiErrorV::InvalidInput(msg_no_pages()))), true)
        } else {
            (prev.push(StepV::AddVersion(c, m - 1, vs[m - 1])), false)
        }
    }
}

/// The steps of the first `n` chapters; `true` once the restore stopped.
/// `ok[i]` says whether the number of chapter `i` is finite and not
/// negative.
pub open spec fn chapter_steps(chs: Seq<Seq<Seq<u32>>>, ok: Seq<bool>, n: int) -> (Seq<StepV>, bool)
    decreases n,
{
    if n <= 0 || n > chs.len() {
        (seq![], false)
    } else {
        let (prev, stopped) = chapter_steps(chs, ok, n - 1);
        if stopped {
            (prev, true)
        } else if !ok[n - 1] {
            (prev.push(StepV::Fail(ApiErrorV::InvalidInput(msg_bad_chapter()))), true)
        } else if chs[n - 1].len() == 0 {
            (prev.push(StepV::Fail(ApiErrorV::InvalidInput(msg_no_versions()))), true)
        } else {
            let (vsteps, vstop) = version_steps(chs[n - 1], n - 1, chs[n - 1].len() as int);
            (prev + vsteps, vstop)
        }
    }
}

/// Every step of a restore whose first cover is image `cover`.
pub open spec fn restore_steps_spec(r: RefsV, cover: u32, ok: Seq<bool>) -> Seq<StepV> {
    seq![StepV::Create(cover)] + Seq::new(
        if r.covers.len() > 0 {
            (r.covers.len() - 1) as nat
        } else {
            0
        },
        |i: int| StepV::AddCover(r.covers[i + 1]),
    ) + Seq::new(r.arts.len(), |i: int| StepV::AddArt(r.arts[i])) + chapter_steps(
        r.chapters,
        ok,
        r.chapters.len() as int,
    ).0
}

/// The images a run of steps takes, in order.
pub open spec fn step_images(steps: Seq<StepV>) -> Seq<u32>
    decreases steps.len(),
{
    if steps.len() == 0 {
        seq![]
    } else {
        step_images(steps.drop_last()) + match steps.last() {
            StepV::Create(i) => seq![i],
            StepV::AddCover(i) => seq![i],
            StepV::AddArt(i) => seq![i],
            StepV::AddVersion(_, _, imgs) => imgs,
            StepV::Fail(_) => seq![],
        }
    }
}

fn copy_u32s(v: &Vec<u32>) -> (r: Vec<u32>)
    ensures
        r@ == v@,
{
    let mut out: Vec<u32> = Vec::new();
    push_all(&mut out, v);
    out
}

impl BundleRefs {
    /// The steps of a restore whose first cover is image `cover`: create
    /// the manga, add the other covers, the arts, then the versions of each
    /// chapter, stopping at the first invalid chapter or version.
    /// `chapter_ok[i]` says whether the number of chapter `i` is finite and
    /// not negative.
    pub fn restore_steps(&self, cover: u32, chapter_ok: &Vec<bool>) -> (r: Vec<RestoreStep>)
        requires
            chapter_ok@.len() == self.chapters@.len(),
        ensures
            steps_view(r@) == restore_steps_spec(self@, cover, chapter_ok@),
    {
        let ghost rv = self@;
        let mut steps: Vec<RestoreStep> = Vec::new();
        steps.push(RestoreStep::Create { cover });
        let mut i: usize = 1;
        while i < self.cover_image_indexes.len()
            invariant
                rv == self@,
                1 <= i <= self.cover_image_indexes.len() || (i == 1
                    && self.cover_image_indexes.len() == 0),
                steps_view(steps@) == seq![StepV::Create(cover)] + Seq::new(
                    (i - 1) as nat,
                    |k: int| StepV::AddCover(rv.covers[k + 1]),
                ),
            decreases self.cover_image_indexes.len() - i,
        {
            let ghost before = steps_view(steps@);
            steps.push(RestoreStep::AddCover { image: self.cover_image_indexes[i] });
            assert(steps_view(steps@) =~= before.push(StepV::AddCover(rv.covers[i as int])));
            i = i + 1;
            assert(steps_view(steps@) =~= seq![StepV::Create(cover)] + Seq::new(
                (i - 1) as nat,
                |k: int| StepV::AddCover(rv.covers[k + 1]),
            ));
        }
        let ghost head = steps_view(steps@);
        assert(head =~= seq![StepV::Create(cover)] + Seq::new(
            if rv.covers.len() > 0 {
                (rv.covers.len() - 1) as nat
            } else {
                0
            },
            |k: int| StepV::AddCover(rv.covers[k + 1]),
        ));
        let mut j: usize = 0;
        while j < self.art_image_indexes.len()
            invariant
                rv == self@,
                j <= self.art_image_indexes.len(),
                steps_view(steps@) == head + Seq::new(j as nat, |k: int| StepV::AddArt(rv.arts[k])),
            decreases self.art_image_indexes.len() - j,
        {
            let ghost before = steps_view(steps@);
            steps.push(RestoreStep::AddArt { image: self.art_image_indexes[j] });
            assert(steps_view(steps@) =~= before.push(StepV::AddArt(rv.arts[j as int])));
            j = j + 1;
            assert(steps_view(steps@) =~= head + Seq::new(
                j as nat,
                |k: int| StepV::AddArt(rv.arts[k]),
            ));
        }
        let ghost mid = steps_view(steps@);
        let mut c: usize = 0;
        let mut stopped = false;
        while c < self.chapters.len() && !stopped
            invariant
                rv == self@,
                chapter_ok@.len() == self.chapters@.len(),
                c <= self.chapters.len(),
                chapter_steps(rv.chapters, chapter_ok@, c as int).1 == stopped,
                steps_view(steps@) == mid + chapter_steps(rv.chapters, chapter_ok@, c as int).0,
            decreases self.chapters.len() - c,
        {
            let ghost before = steps_view(steps@);
            if !chapter_ok[c] {
                steps.push(RestoreStep::Fail(ApiError::invalid_input("restore metadata contains invalid chapter number")));
                stopped = true;
                assert(steps_view(steps@) =~= before.push(StepV::Fail(ApiErrorV::InvalidInput(msg_bad_chapter()))));
            } else if self.chapters[c].len() == 0 {
                steps.push(RestoreStep::Fail(ApiError::invalid_input("restore metadata contains chapter without versions")));
                stopped = true;
                assert(steps_view(steps@) =~= before.push(StepV::Fail(ApiErrorV::InvalidInput(msg_no_versions()))));
            } else {
                let ghost vs = rv.chapters[c as int];
                let mut v: usize = 0;
                let mut vstop = false;
                while v < self.chapters[c].len() && !vstop
                    invariant
                        rv == self@,
                        c < self.chapters.len(),
                        vs == rv.chapters[c as int],
                        vs.len() == self.chapters[c as int]@.len(),
                        v <= vs.len(),
                        version_steps(vs, c as int, v as int).1 == vstop,
                        steps_view(steps@) == before + version_steps(vs, c as int, v as int).0,
                    decreases vs.len() - v,
                {
                    let ghost b2 = steps_view(steps@);
                    assert(vs[v as int] == self.chapters[c as int]@[v as int]@);
                    if self.chapters[c][v].len() == 0 {
                        steps.push(RestoreStep::Fail(ApiError::invalid_input("restore metadata contains empty chapter version pages")));
                        vstop = true;
                        assert(steps_view(steps@) =~= b2.push(StepV::Fail(ApiErrorV::InvalidInput(msg_no_pages()))));
                    } else {
                        let images = copy_u32s(&self.chapters[c][v]);
                        steps.push(RestoreStep::AddVersion { chapter: c, version: v, images });
                        assert(steps_view(steps@) =~= b2.push(
                            StepV::AddVersion(c as int, v as int, vs[v as int]),
                        ));
                    }
                    v = v + 1;
                }
                proof {
                    lemma_version_steps_stop(vs, c as int, v as int, vs.len() as int);
                }
                stopped = vstop;
            }
            c = c + 1;
        }
        proof {
            lemma_chapter_steps_stop(rv.chapters, chapter_ok@, c as int, rv.chapters.len() as int);
        }
        steps
    }
}

proof fn lemma_version_steps_stop(vs: Seq<Seq<u32>>, c: int, a: int, b: int)
    requires
        0 <= a <= b <= vs.len(),
        a < vs.len() ==> version_steps(vs, c, a).1,
    ensures
        version_steps(vs, c, b) == version_steps(vs, c, a),
    decreases b - a,
{
    if a < b {
        lemma_version_steps_stop(vs, c, a, b - 1);
    }
}

proof fn lemma_chapter_steps_stop(chs: Seq<Seq<Seq<u32>>>, ok: Seq<bool>, a: int, b: int)
    requires
        0 <= a <= b <= chs.len(),
        a < chs.len() ==> chapter_steps(chs, ok, a).1,
    ensures
        chapter_steps(chs, ok, b) == chapter_steps(chs, ok, a),
    decreases b - a,
{
    if a < b {
        lemma_chapter_steps_stop(chs, ok, a, b - 1);
    }
}

proof fn lemma_step_images_concat(a: Seq<StepV>, b: Seq<StepV>)
    ensures
        step_images(a + b) == step_images(a) + step_images(b),
    decreases b.len(),
{
    if b.len() > 0 {
        lemma_step_images_concat(a, b.drop_last());
        assert((a + b).drop_last() =~= a + b.drop_last());
        assert((a + b).last() == b.last());
    } else {
        assert(a + b =~= a);
        assert(step_images(b) =~= Seq::<u32>::empty());
    }
}

proof fn lemma_cover_images(imgs: Seq<u32>, k: int)
    requires
        0 <= k <= imgs.len(),
    ensures
        step_images(Seq::new(k as nat, |i: int| StepV::AddCover(imgs[i]))) == imgs.take(k),
    decreases k,
{
    let s = Seq::new(k as nat, |i: int| StepV::AddCover(imgs[i]));
    if k > 0 {
        lemma_cover_images(imgs, k - 1);
        assert(s.drop_last() =~= Seq::new((k - 1) as nat, |i: int| StepV::AddCover(imgs[i])));
        assert(imgs.take(k - 1) + seq![imgs[k - 1]] =~= imgs.take(k));
    } else {
        assert(imgs.take(0) =~= Seq::<u32>::empty());
    }
}

proof fn lemma_art_images(imgs: Seq<u32>, k: int)
    requires
        0 <= k <= imgs.len(),
    ensures
        step_images(Seq::new(k as nat, |i: int| StepV::AddArt(imgs[i]))) == imgs.take(k),
    decreases k,
{
    let s = Seq::new(k as nat, |i: int| StepV::AddArt(imgs[i]));
    if k > 0 {
        lemma_art_images(imgs, k - 1);
        assert(s.drop_last() =~= Seq::new((k - 1) as nat, |i: int| StepV::AddArt(imgs[i])));
        assert(imgs.take(k - 1) + seq![imgs[k - 1]] =~= imgs.take(k));
    } else {
        assert(imgs.take(0) =~= Seq::<u32>::empty());
    }
}

proof fn lemma_version_images(vs: Seq<Seq<u32>>, c: int, m: int)
    requires
        0 <= m <= vs.len(),
        !version_steps(vs, c, m).1,
    ensures
        step_images(version_steps(vs, c, m).0) == flat(vs.take(m)),
    decreases m,
{
    if m > 0 {
        let (prev, stopped) = version_steps(vs, c, m - 1);
        assert(!stopped);
        lemma_version_images(vs, c, m - 1);
        let steps = prev.push(StepV::AddVersion(c, m - 1, vs[m - 1]));
        assert(steps.drop_last() =~= prev);
        assert(vs.take(m).drop_last() =~= vs.take(m - 1));
    } else {
        assert(vs.take(0) =~= Seq::<Seq<u32>>::empty());
    }
}

proof fn lemma_chapter_images(chs: Seq<Seq<Seq<u32>>>, ok: Seq<bool>, n: int)
    requires
        0 <= n <= chs.len(),
        !chapter_steps(chs, ok, n).1,
    ensures
        step_images(chapter_steps(chs, ok, n).0) == page_refs(chs.take(n)),
    decreases n,
{
    if n > 0 {
        let (prev, stopped) = chapter_steps(chs, ok, n - 1);
        assert(!stopped);
        lemma_chapter_images(chs, ok, n - 1);
        let vs = chs[n - 1];
        lemma_version_images(vs, n - 1, vs.len() as int);
        assert(vs.take(vs.len() as int) =~= vs);
        lemma_step_images_concat(prev, version_steps(vs, n - 1, vs.len() as int).0);
        assert(chs.take(n).drop_last() =~= chs.take(n - 1));
    } else {
        assert(chs.take(0) =~= Seq::<Seq<Seq<u32>>>::empty());
    }
}

/// A restore that runs to the end takes, step by step, exactly the files of
/// [`take_sequence`]: the first cover, the other covers, the arts, then the
/// pages, in order.
pub proof fn lemma_steps_take_in_order(r: RefsV, cover: u32, ok: Seq<bool>)
    requires
        !chapter_steps(r.chapters, ok, r.chapters.len() as int).1,
    ensures
        step_images(restore_steps_spec(r, cover, ok)) == take_sequence(r, cover),
{
    let nc = if r.covers.len() > 0 {
        (r.covers.len() - 1) as nat
    } else {
        0
    };
    let cs = Seq::new(nc, |i: int| StepV::AddCover(r.covers[i + 1]));
    let as_ = Seq::new(r.arts.len(), |i: int| StepV::AddArt(r.arts[i]));
    let ch = chapter_steps(r.chapters, ok, r.chapters.len() as int).0;
    let first = seq![StepV::Create(cover)];
    lemma_step_images_concat(first + cs + as_, ch);
    lemma_step_images_concat(first + cs, as_);
    lemma_step_images_concat(first, cs);
    assert(first.drop_last() =~= Seq::<StepV>::empty());
    assert(step_images(Seq::<StepV>::empty()) =~= Seq::<u32>::empty());
    assert(step_images(first) =~= seq![cover]);
    let rest = if r.covers.len() > 0 {
        r.covers.skip(1)
    } else {
        seq![]
    };
    lemma_cover_images(rest, nc as int);
    assert(cs =~= Seq::new(nc, |i: int| StepV::AddCover(rest[i])));
    assert(rest.take(nc as int) =~= rest);
    lemma_art_images(r.arts, r.arts.len() as int);
    assert(r.arts.take(r.arts.len() as int) =~= r.arts);
    lemma_chapter_images(r.chapters, ok, r.chapters.len() as int);
    assert(r.chapters.take(r.chapters.len() as int) =~= r.chapters);
    assert(restore_steps_spec(r, cover, ok) == first + cs + as_ + ch);
    assert(step_images(cs) == rest);
    assert(step_images(as_) == r.arts);
    assert(step_images(ch) == page_refs(r.chapters));
    assert(take_sequence(r, cover) == seq![cover] + rest + r.arts + page_refs(r.chapters));
}

} // verus!
