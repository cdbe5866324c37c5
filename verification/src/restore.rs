//! The upload response of a `.mrmang` export bundle, as handed back to the
//! restore endpoint: rows of `[name, id]`.
use vstd::prelude::*;
use crate::error::{ApiError, fails_with};
use crate::number::{parse_usize_range, parsed_usize};
use crate::text::{chars_of, string_from_range, str_eq, trim, trim_bounds, copy_string};

verus! {

/// What a row of the upload response is.
pub enum RowKind {
    /// Not exactly two entries.
    BadShape,
    /// Name or id blank after trimming.
    Blank,
    /// Not part of an export bundle.
    Skip,
    /// The metadata file of bundle `base`, uploaded as `id`.
    Meta(Seq<char>, Seq<char>),
    /// Image `index` of bundle `base`, uploaded as `id`.
    Image(Seq<char>, usize, Seq<char>),
    /// An image suffix whose index is no number.
    BadIndex,
}

/// Index of the last `c` in `s`, or -1.
pub open spec fn rfind(s: Seq<char>, c: char) -> int
    decreases s.len(),
{
    if s.len() == 0 {
        -1
    } else if s.last() == c {
        s.len() - 1
    } else {
        rfind(s.drop_last(), c)
    }
}

/// What the search for the last occurrence of a character finds.
pub proof fn lemma_rfind(s: Seq<char>, c: char)
    ensures
        -1 <= rfind(s, c) < s.len(),
        rfind(s, c) >= 0 ==> s[rfind(s, c)] == c,
        forall|i: int| rfind(s, c) < i < s.len() ==> s[i] != c,
    decreases s.len(),
{
    if s.len() > 0 && s.last() != c {
        lemma_rfind(s.drop_last(), c);
        assert forall|i: int| rfind(s, c) < i < s.len() implies s[i] != c by {
            if i < s.len() - 1 {
                assert(s[i] == s.drop_last()[i]);
            }
        }
    }
}

pub open spec fn meta_suffix() -> Seq<char> {
    seq!['m', 'e', 't', 'a']
}

/// Classifies a row: `[name, id]` with `name` = `<base>#meta` or
/// `<base>#i<index>` (split at the last `#`), names and ids trimmed.
pub open spec fn row_kind(row: Seq<Seq<char>>) -> RowKind {
    if row.len() != 2 {
        RowKind::BadShape
    } else {
        let name = trim(row[0]);
        let id = trim(row[1]);
        if name.len() == 0 || id.len() == 0 {
            RowKind::Blank
        } else {
            let k = rfind(name, '#');
            if k < 0 {
                RowKind::Skip
            } else {
                let base = name.take(k);
                let suffix = name.skip(k + 1);
                if base.len() == 0 {
                    RowKind::Skip
                } else if suffix == meta_suffix() {
                    RowKind::Meta(base, id)
                } else if suffix.len() > 0 && suffix[0] == 'i' {
                    match parsed_usize(suffix.drop_first()) {
                        None => RowKind::BadIndex,
                        Some(n) => RowKind::Image(base, n, id),
                    }
                } else {
                    RowKind::Skip
                }
            }
        }
    }
}

/// The metadata rows among the first `n` rows, as `(base, id)`.
pub open spec fn meta_list(kinds: Seq<RowKind>, n: int) -> Seq<(Seq<char>, Seq<char>)>
    decreases n,
{
    if n <= 0 || n > kinds.len() {
        seq![]
    } else {
        match kinds[n - 1] {
            RowKind::Meta(b, id) => meta_list(kinds, n - 1).push((b, id)),
            _ => meta_list(kinds, n - 1),
        }
    }
}

/// The image rows among the first `n` rows, as `(base, index, id)`.
pub open spec fn image_list(kinds: Seq<RowKind>, n: int) -> Seq<(Seq<char>, usize, Seq<char>)>
    decreases n,
{
    if n <= 0 || n > kinds.len() {
        seq![]
    } else {
        match kinds[n - 1] {
            RowKind::Image(b, i, id) => image_list(kinds, n - 1).push((b, i, id)),
            _ => image_list(kinds, n - 1),
        }
    }
}

pub open spec fn msg_empty() -> Seq<char> {
    "upload response cannot be empty"@
}

pub open spec fn msg_shape() -> Seq<char> {
    "each upload response entry must have [name, id]"@
}

pub open spec fn msg_blank() -> Seq<char> {
    "upload response name and id cannot be empty"@
}

pub open spec fn msg_dup_meta() -> Seq<char> {
    "upload response contains duplicate metadata entries"@
}

pub open spec fn msg_bad_index() -> Seq<char> {
    "invalid image index in upload name"@
}

pub open spec fn msg_dup_image() -> Seq<char> {
    "upload response contains duplicate image entries"@
}

pub open spec fn msg_one_meta() -> Seq<char> {
    "upload response must contain exactly one export metadata entry"@
}

pub open spec fn msg_missing() -> Seq<char> {
    "upload response has missing image index entries"@
}

/// The error row `i` raises, given the rows before it.
pub open spec fn row_error(kinds: Seq<RowKind>, i: int) -> Option<Seq<char>> {
    match kinds[i] {
        RowKind::BadShape => Some(msg_shape()),
        RowKind::Blank => Some(msg_blank()),
        RowKind::BadIndex => Some(msg_bad_index()),
        RowKind::Meta(b, _) => if exists|j: int|
            0 <= j < meta_list(kinds, i).len() && (#[trigger] meta_list(kinds, i)[j]).0 == b {
            Some(msg_dup_meta())
        } else {
            None
        },
        RowKind::Image(b, n, _) => if exists|j: int|
            0 <= j < image_list(kinds, i).len() && (#[trigger] image_list(kinds, i)[j]).0 == b
                && image_list(kinds, i)[j].1 == n {
            Some(msg_dup_image())
        } else {
            None
        },
        RowKind::Skip => None,
    }
}

/// The first error among the first `n` rows.
pub open spec fn first_error(kinds: Seq<RowKind>, n: int) -> Option<Seq<char>>
    decreases n,
{
    if n <= 0 || n > kinds.len() {
        None
    } else {
        match first_error(kinds, n - 1) {
            Some(e) => Some(e),
            None => row_error(kinds, n - 1),
        }
    }
}

/// The images `(index, id)` of bundle `base`.
pub open spec fn images_of(list: Seq<(Seq<char>, usize, Seq<char>)>, base: Seq<char>) -> Seq<
    (usize, Seq<char>),
>
    decreases list.len(),
{
    if list.len() == 0 {
        seq![]
    } else {
        let rest = images_of(list.drop_last(), base);
        if list.last().0 == base {
            rest.push((list.last().1, list.last().2))
        } else {
            rest
        }
    }
}

/// The image indexes of a bundle are exactly `0..len`.
pub open spec fn dense(imgs: Seq<(usize, Seq<char>)>) -> bool {
    &&& forall|j: int| 0 <= j < imgs.len() ==> (#[trigger] imgs[j]).0 < imgs.len()
    &&& forall|k: int| 0 <= k < imgs.len() ==> #[trigger] has_index(imgs, k)
}

/// Some image of the bundle has index `k`.
pub open spec fn has_index(imgs: Seq<(usize, Seq<char>)>, k: int) -> bool {
    exists|j: int| 0 <= j < imgs.len() && #[trigger] imgs[j].0 == k
}

/// The id of image `k` of a bundle (the last one given, should the index
/// occur twice).
pub open spec fn image_id(imgs: Seq<(usize, Seq<char>)>, k: int) -> Seq<char>
    decreases imgs.len(),
{
    if imgs.len() == 0 {
        seq![]
    } else if imgs.last().0 == k {
        imgs.last().1
    } else {
        image_id(imgs.drop_last(), k)
    }
}

/// What each row of an upload response is.
pub open spec fn kinds_of(payload: Seq<Seq<Seq<char>>>) -> Seq<RowKind> {
    Seq::new(payload.len(), |i: int| row_kind(payload[i]))
}

/// What the restore endpoint makes of an upload response: the metadata id
/// and the image ids in index order, or the error message.
pub open spec fn restore_upload(payload: Seq<Seq<Seq<char>>>) -> Result<
    (Seq<char>, Seq<Seq<char>>),
    Seq<char>,
> {
    if payload.len() == 0 {
        Err(msg_empty())
    } else {
        let kinds = kinds_of(payload);
        let n = payload.len() as int;
        match first_error(kinds, n) {
            Some(e) => Err(e),
            None => {
                let metas = meta_list(kinds, n);
                if metas.len() != 1 {
                    Err(msg_one_meta())
                } else {
                    let imgs = images_of(image_list(kinds, n), metas[0].0);
                    if !dense(imgs) {
                        Err(msg_missing())
                    } else {
                        Ok((metas[0].1, Seq::new(imgs.len(), |k: int| image_id(imgs, k))))
                    }
                }
            },
        }
    }
}

/// Models of the rows of an upload response.
pub open spec fn payload_view(p: Seq<Vec<String>>) -> Seq<Seq<Seq<char>>> {
    Seq::new(p.len(), |i: int| Seq::new(p[i]@.len(), |j: int| p[i]@[j]@))
}

/// Models of a sequence of strings.
pub open spec fn strings_view(v: Seq<String>) -> Seq<Seq<char>> {
    Seq::new(v.len(), |i: int| v[i]@)
}

} // verus!

verus! {

/// Executable counterpart of [`RowKind`].
enum Row {
    BadShape,
    Blank,
    Skip,
    Meta(String, String),
    Image(String, usize, String),
    BadIndex,
}

spec fn row_view(r: Row) -> RowKind {
    match r {
        Row::BadShape => RowKind::BadShape,
        Row::Blank => RowKind::Blank,
        Row::Skip => RowKind::Skip,
        Row::Meta(b, id) => RowKind::Meta(b@, id@),
        Row::Image(b, n, id) => RowKind::Image(b@, n, id@),
        Row::BadIndex => RowKind::BadIndex,
    }
}

/// Finds the last `c` in `v[from..to]`.
fn rfind_range(v: &Vec<char>, c: char, from: usize, to: usize) -> (r: Option<usize>)
    requires
        from <= to <= v.len(),
    ensures
        match r {
            None => rfind(v@.subrange(from as int, to as int), c) == -1,
            Some(k) => from <= k < to && rfind(v@.subrange(from as int, to as int), c) == k
                - from,
        },
{
    let mut j = to;
    while j > from
        invariant
            from <= j <= to <= v.len(),
            rfind(v@.subrange(from as int, to as int), c) == rfind(
                v@.subrange(from as int, j as int),
                c,
            ),
        decreases j - from,
    {
        if v[j - 1] == c {
            return Some(j - 1);
        }
        assert(v@.subrange(from as int, j as int).drop_last() =~= v@.subrange(
            from as int,
            j - 1,
        ));
        j = j - 1;
    }
    None
}

fn classify(row: &Vec<String>) -> (k: Row)
    ensures
        row_view(k) == row_kind(Seq::new(row@.len(), |j: int| row@[j]@)),
{
    let ghost rv = Seq::new(row@.len(), |j: int| row@[j]@);
    if row.len() != 2 {
        return Row::BadShape;
    }
    let v = chars_of(row[0].as_str());
    let w = chars_of(row[1].as_str());
    assert(v@.subrange(0, v@.len() as int) =~= v@);
    assert(w@.subrange(0, w@.len() as int) =~= w@);
    let (a, b) = trim_bounds(&v, 0, v.len());
    let (c, d) = trim_bounds(&w, 0, w.len());
    let ghost name = trim(rv[0]);
    let ghost id = trim(rv[1]);
    assert(name == v@.subrange(a as int, b as int));
    assert(id == w@.subrange(c as int, d as int));
    if a == b || c == d {
        return Row::Blank;
    }
    let k = match rfind_range(&v, '#', a, b) {
        None => {
            return Row::Skip;
        },
        Some(k) => k,
    };
    assert(name.take(k - a) =~= v@.subrange(a as int, k as int));
    assert(name.skip(k - a + 1) =~= v@.subrange(k + 1, b as int));
    if k == a {
        return Row::Skip;
    }
    let ghost suffix = name.skip(k - a + 1);
    if b - (k + 1) == 4 && v[k + 1] == 'm' && v[k + 2] == 'e' && v[k + 3] == 't' && v[k + 4]
        == 'a' {
        assert(suffix =~= meta_suffix());
        return Row::Meta(string_from_range(&v, a, k), string_from_range(&w, c, d));
    }
    assert(suffix != meta_suffix()) by {
        if suffix == meta_suffix() {
            assert(suffix[0] == 'm' && suffix[1] == 'e' && suffix[2] == 't' && suffix[3] == 'a');
        }
    }
    if k + 1 < b && v[k + 1] == 'i' {
        assert(suffix.drop_first() =~= v@.subrange(k + 2, b as int));
        match parse_usize_range(&v, k + 2, b) {
            None => Row::BadIndex,
            Some(n) => Row::Image(string_from_range(&v, a, k), n, string_from_range(&w, c, d)),
        }
    } else {
        Row::Skip
    }
}

struct MetaEntry {
    base: String,
    id: String,
}

struct ImageEntry {
    base: String,
    index: usize,
    id: String,
}

spec fn metas_view(v: Seq<MetaEntry>) -> Seq<(Seq<char>, Seq<char>)> {
    Seq::new(v.len(), |i: int| (v[i].base@, v[i].id@))
}

spec fn images_view(v: Seq<ImageEntry>) -> Seq<(Seq<char>, usize, Seq<char>)> {
    Seq::new(v.len(), |i: int| (v[i].base@, v[i].index, v[i].id@))
}

proof fn lemma_first_error_stays(kinds: Seq<RowKind>, i: int, n: int)
    requires
        0 <= i <= n <= kinds.len(),
        first_error(kinds, i) is Some,
    ensures
        first_error(kinds, n) == first_error(kinds, i),
    decreases n - i,
{
    if n > i {
        lemma_first_error_stays(kinds, i, n - 1);
    }
}

proof fn lemma_images_of_step(list: Seq<(Seq<char>, usize, Seq<char>)>, base: Seq<char>, t: int)
    requires
        0 <= t < list.len(),
    ensures
        images_of(list.take(t + 1), base) == (if list[t].0 == base {
            images_of(list.take(t), base).push((list[t].1, list[t].2))
        } else {
            images_of(list.take(t), base)
        }),
{
    assert(list.take(t + 1).drop_last() =~= list.take(t));
}

proof fn lemma_image_id_step(imgs: Seq<(usize, Seq<char>)>, t: int, k: int)
    requires
        0 <= t < imgs.len(),
    ensures
        image_id(imgs.take(t + 1), k) == (if imgs[t].0 == k {
            imgs[t].1
        } else {
            image_id(imgs.take(t), k)
        }),
        has_index(imgs.take(t + 1), k) == (has_index(imgs.take(t), k) || imgs[t].0 == k),
{
    assert(imgs.take(t + 1).drop_last() =~= imgs.take(t));
    if has_index(imgs.take(t), k) {
        let j = choose|j: int| 0 <= j < imgs.take(t).len() && #[trigger] imgs.take(t)[j].0 == k;
        assert(imgs.take(t + 1)[j].0 == k);
    }
    if imgs[t].0 == k {
        assert(imgs.take(t + 1)[t].0 == k);
    }
    if has_index(imgs.take(t + 1), k) && imgs[t].0 != k {
        let j = choose|j: int| 0 <= j < imgs.take(t + 1).len() && #[trigger] imgs.take(t + 1)[j].0
            == k;
        assert(imgs.take(t)[j].0 == k);
    }
}

fn has_meta(metas: &Vec<MetaEntry>, b: &String) -> (r: bool)
    ensures
        r == exists|q: int| 0 <= q < metas@.len() && (#[trigger] metas_view(metas@)[q]).0 == b@,
{
    let mut j: usize = 0;
    while j < metas.len()
        invariant
            j <= metas.len(),
            forall|q: int| 0 <= q < j ==> (#[trigger] metas_view(metas@)[q]).0 != b@,
        decreases metas.len() - j,
    {
        if str_eq(metas[j].base.as_str(), b.as_str()) {
            assert(metas_view(metas@)[j as int].0 == b@);
            return true;
        }
        j = j + 1;
    }
    false
}

fn has_image(images: &Vec<ImageEntry>, b: &String, idx: usize) -> (r: bool)
    ensures
        r == exists|q: int|
            0 <= q < images@.len() && (#[trigger] images_view(images@)[q]).0 == b@
                && images_view(images@)[q].1 == idx,
{
    let mut j: usize = 0;
    while j < images.len()
        invariant
            j <= images.len(),
            forall|q: int|
                0 <= q < j ==> !((#[trigger] images_view(images@)[q]).0 == b@ && images_view(
                    images@,
                )[q].1 == idx),
        decreases images.len() - j,
    {
        if images[j].index == idx && str_eq(images[j].base.as_str(), b.as_str()) {
            assert(images_view(images@)[j as int].0 == b@);
            return true;
        }
        j = j + 1;
    }
    false
}

/// The rows of the payload, checked one by one: the metadata and image rows,
/// or the first error.
fn collect_rows(payload: &Vec<Vec<String>>) -> (r: Result<(Vec<MetaEntry>, Vec<ImageEntry>), ApiError>)
    ensures
        ({
            let kinds = kinds_of(payload_view(payload@));
            let n = payload@.len() as int;
            match first_error(kinds, n) {
                Some(e) => fails_with(r, e),
                None => r matches Ok((m, im)) && metas_view(m@) == meta_list(kinds, n)
                    && images_view(im@) == image_list(kinds, n),
            }
        }),
{
    let ghost pv = payload_view(payload@);
    let ghost kinds = kinds_of(pv);
    let ghost n = payload.len() as int;
    let mut metas: Vec<MetaEntry> = Vec::new();
    let mut images: Vec<ImageEntry> = Vec::new();
    let mut i: usize = 0;
    while i < payload.len()
        invariant
            pv == payload_view(payload@),
            kinds == kinds_of(pv),
            n == payload.len(),
            kinds.len() == n,
            i <= n,
            first_error(kinds, i as int) is None,
            metas_view(metas@) == meta_list(kinds, i as int),
            images_view(images@) == image_list(kinds, i as int),
        decreases payload.len() - i,
    {
        let kind = classify(&payload[i]);
        assert(pv[i as int] =~= Seq::new(payload@[i as int]@.len(), |j: int| payload@[i as int]@[j]@));
        assert(kinds[i as int] == row_view(kind));
        match kind {
            Row::BadShape => {
                proof {
                    lemma_first_error_stays(kinds, i + 1, n);
                }
                return Err(ApiError::invalid_input("each upload response entry must have [name, id]"));
            },
            Row::Blank => {
                proof {
                    lemma_first_error_stays(kinds, i + 1, n);
                }
                return Err(ApiError::invalid_input("upload response name and id cannot be empty"));
            },
            Row::BadIndex => {
                proof {
                    lemma_first_error_stays(kinds, i + 1, n);
                }
                return Err(ApiError::invalid_input("invalid image index in upload name"));
            },
            Row::Skip => {},
            Row::Meta(b, id) => {
                if has_meta(&metas, &b) {
                    proof {
                        let q = choose|q: int|
                            0 <= q < metas@.len() && (#[trigger] metas_view(metas@)[q]).0 == b@;
                        assert(meta_list(kinds, i as int)[q].0 == b@);
                        lemma_first_error_stays(kinds, i + 1, n);
                    }
                    return Err(ApiError::invalid_input("upload response contains duplicate metadata entries"));
                }
                proof {
                    if exists|j: int|
                        0 <= j < meta_list(kinds, i as int).len() && (#[trigger] meta_list(
                            kinds,
                            i as int,
                        )[j]).0 == b@ {
                        let j = choose|j: int|
                            0 <= j < meta_list(kinds, i as int).len() && (#[trigger] meta_list(
                                kinds,
                                i as int,
                            )[j]).0 == b@;
                        assert(metas_view(metas@)[j].0 == b@);
                    }
                }
                metas.push(MetaEntry { base: b, id });
            },
            Row::Image(b, idx, id) => {
                if has_image(&images, &b, idx) {
                    proof {
                        let q = choose|q: int|
                            0 <= q < images@.len() && (#[trigger] images_view(images@)[q]).0 == b@
                                && images_view(images@)[q].1 == idx;
                        assert(image_list(kinds, i as int)[q].0 == b@);
                        lemma_first_error_stays(kinds, i + 1, n);
                    }
                    return Err(ApiError::invalid_input("upload response contains duplicate image entries"));
                }
                proof {
                    if exists|j: int|
                        0 <= j < image_list(kinds, i as int).len() && (#[trigger] image_list(
                            kinds,
                            i as int,
                        )[j]).0 == b@ && image_list(kinds, i as int)[j].1 == idx {
                        let j = choose|j: int|
                            0 <= j < image_list(kinds, i as int).len() && (#[trigger] image_list(
                                kinds,
                                i as int,
                            )[j]).0 == b@ && image_list(kinds, i as int)[j].1 == idx;
                        assert(images_view(images@)[j].0 == b@);
                    }
                }
                images.push(ImageEntry { base: b, index: idx, id });
            },
        }
        assert(metas_view(metas@) =~= meta_list(kinds, i + 1));
        assert(images_view(images@) =~= image_list(kinds, i + 1));
        i = i + 1;
    }
    Ok((metas, images))
}

/// The images of bundle `base`, in upload order.
fn bundle_images(images: &Vec<ImageEntry>, base: &String) -> (r: Vec<(usize, String)>)
    ensures
        Seq::new(r@.len(), |q: int| (r@[q].0, r@[q].1@)) == images_of(images_view(images@), base@),
{
    let ghost list = images_view(images@);
    let mut imgs: Vec<(usize, String)> = Vec::new();
    let mut t: usize = 0;
    while t < images.len()
        invariant
            list == images_view(images@),
            t <= images.len(),
            Seq::new(imgs@.len(), |q: int| (imgs@[q].0, imgs@[q].1@)) == images_of(
                list.take(t as int),
                base@,
            ),
        decreases images.len() - t,
    {
        proof {
            lemma_images_of_step(list, base@, t as int);
        }
        if str_eq(images[t].base.as_str(), base.as_str()) {
            imgs.push((images[t].index, copy_string(&images[t].id)));
        }
        t = t + 1;
        assert(Seq::new(imgs@.len(), |q: int| (imgs@[q].0, imgs@[q].1@)) =~= images_of(
            list.take(t as int),
            base@,
        ));
    }
    assert(list.take(list.len() as int) =~= list);
    imgs
}

/// The image ids in index order, or `None` when the indexes are not exactly
/// `0..len`.
fn order_images(imgs: &Vec<(usize, String)>) -> (r: Option<Vec<String>>)
    ensures
        ({
            let iv = Seq::new(imgs@.len(), |q: int| (imgs@[q].0, imgs@[q].1@));
            match r {
                None => !dense(iv),
                Some(out) => dense(iv) && strings_view(out@) == Seq::new(
                    iv.len(),
                    |k: int| image_id(iv, k),
                ),
            }
        }),
{
    let ghost iv = Seq::new(imgs@.len(), |q: int| (imgs@[q].0, imgs@[q].1@));
    let cnt = imgs.len();
    // slot k holds the id of image k
    let mut slots: Vec<Option<String>> = Vec::new();
    while slots.len() < cnt
        invariant
            slots.len() <= cnt,
            forall|k: int| 0 <= k < slots.len() ==> slots@[k] is None,
        decreases cnt - slots.len(),
    {
        slots.push(None);
    }
    proof {
        assert forall|k: int| 0 <= k < cnt implies !has_index(iv.take(0), k) by {}
    }
    let mut t: usize = 0;
    while t < cnt
        invariant
            iv == Seq::new(imgs@.len(), |q: int| (imgs@[q].0, imgs@[q].1@)),
            cnt == imgs.len(),
            slots.len() == cnt,
            t <= cnt,
            forall|q: int| 0 <= q < t ==> #[trigger] iv[q].0 < cnt,
            forall|k: int|
                0 <= k < cnt ==> match #[trigger] slots@[k] {
                    None => !has_index(iv.take(t as int), k),
                    Some(s) => has_index(iv.take(t as int), k) && s@ == image_id(
                        iv.take(t as int),
                        k,
                    ),
                },
        decreases cnt - t,
    {
        let k = imgs[t].0;
        assert(iv[t as int].0 == k);
        if k >= cnt {
            return None;
        }
        slots.set(k, Some(copy_string(&imgs[t].1)));
        t = t + 1;
        proof {
            assert forall|k2: int| 0 <= k2 < cnt implies match #[trigger] slots@[k2] {
                None => !has_index(iv.take(t as int), k2),
                Some(s) => has_index(iv.take(t as int), k2) && s@ == image_id(
                    iv.take(t as int),
                    k2,
                ),
            } by {
                lemma_image_id_step(iv, t - 1, k2);
            }
        }
    }
    assert(iv.take(cnt as int) =~= iv);
    let mut out: Vec<String> = Vec::new();
    let mut k: usize = 0;
    while k < cnt
        invariant
            iv == Seq::new(imgs@.len(), |q: int| (imgs@[q].0, imgs@[q].1@)),
            iv.len() == cnt,
            slots.len() == cnt,
            k <= cnt,
            forall|q: int| 0 <= q < cnt ==> #[trigger] iv[q].0 < cnt,
            forall|k2: int|
                0 <= k2 < cnt ==> match #[trigger] slots@[k2] {
                    None => !has_index(iv, k2),
                    Some(s) => has_index(iv, k2) && s@ == image_id(iv, k2),
                },
            forall|k2: int| 0 <= k2 < k ==> #[trigger] has_index(iv, k2),
            strings_view(out@) == Seq::new(k as nat, |q: int| image_id(iv, q)),
        decreases cnt - k,
    {
        let ghost prev = out@;
        match &slots[k] {
            None => {
                assert(!has_index(iv, k as int));
                return None;
            },
            Some(s) => {
                assert(slots@[k as int] == Some(*s));
                let c = copy_string(s);
                out.push(c);
                assert(out@ == prev.push(c));
                assert(c@ == image_id(iv, k as int));
                assert(strings_view(out@) =~= strings_view(prev).push(c@));
            },
        }
        assert(has_index(iv, k as int));
        k = k + 1;
        assert(strings_view(out@) =~= Seq::new(k as nat, |q: int| image_id(iv, q)));
    }
    Some(out)
}

/// Turns the upload response of an export bundle into the metadata id and
/// the image ids in index order.
pub fn parse_restore_upload_response(payload: Vec<Vec<String>>) -> (r: Result<
    (String, Vec<String>),
    ApiError,
>)
    ensures
        match restore_upload(payload_view(payload@)) {
            Err(msg) => fails_with(r, msg),
            Ok((meta, ids)) => r matches Ok((m, v)) && m@ == meta && strings_view(v@) == ids,
        },
{
    if payload.len() == 0 {
        return Err(ApiError::invalid_input("upload response cannot be empty"));
    }
    let (metas, images) = match collect_rows(&payload) {
        Err(e) => {
            return Err(e);
        },
        Ok(p) => p,
    };
    if metas.len() != 1 {
        return Err(ApiError::invalid_input("upload response must contain exactly one export metadata entry"));
    }
    let imgs = bundle_images(&images, &metas[0].base);
    match order_images(&imgs) {
        None => Err(ApiError::invalid_input("upload response has missing image index entries")),
        Some(out) => Ok((copy_string(&metas[0].id), out)),
    }
}

} // verus!
