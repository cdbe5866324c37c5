//! The order of the rows of an upload response does not matter to a
//! restore: what [`restore_upload`] makes of the rows depends on which rows
//! there are, not on where they stand.
use vstd::prelude::*;
use vstd::set_lib::{lemma_int_range, lemma_subset_equality, set_int_range};
use crate::restore::{
    RowKind, first_error, image_list, images_of, image_id, dense, has_index, kinds_of, meta_list,
    restore_upload, row_error,
};

verus! {

/// Among the first `n` rows none is malformed, and no two of them name the
/// metadata of the same bundle or the same image of one bundle.
pub open spec fn clean_rows(k: Seq<RowKind>, n: int) -> bool {
    &&& forall|i: int|
        0 <= i < n ==> !(#[trigger] k[i] is BadShape) && !(k[i] is Blank) && !(k[i] is BadIndex)
    &&& forall|i: int, j: int|
        #![trigger k[i], k[j]]
        0 <= i < n && 0 <= j < n && i != j && k[i] is Meta && k[j] is Meta ==> k[i]->Meta_0
            != k[j]->Meta_0
    &&& forall|i: int, j: int|
        #![trigger k[i], k[j]]
        0 <= i < n && 0 <= j < n && i != j && k[i] is Image && k[j] is Image ==> !(k[i]->Image_0
            == k[j]->Image_0 && k[i]->Image_1 == k[j]->Image_1)
}

/// The metadata rows listed among the first `m` rows are those rows.
proof fn lemma_meta_list_rows(k: Seq<RowKind>, m: int)
    requires
        0 <= m <= k.len(),
    ensures
        forall|j: int|
            #![trigger meta_list(k, m)[j]]
            0 <= j < meta_list(k, m).len() ==> exists|r: int|
                0 <= r < m && #[trigger] k[r] == RowKind::Meta(
                    meta_list(k, m)[j].0,
                    meta_list(k, m)[j].1,
                ),
        forall|r: int|
            0 <= r < m && #[trigger] k[r] is Meta ==> exists|j: int|
                0 <= j < meta_list(k, m).len() && meta_list(k, m)[j] == (
                    k[r]->Meta_0,
                    k[r]->Meta_1,
                ),
    decreases m,
{
    if m > 0 {
        lemma_meta_list_rows(k, m - 1);
        let prev = meta_list(k, m - 1);
        let cur = meta_list(k, m);
        assert forall|j: int| #![trigger cur[j]] 0 <= j < cur.len() implies exists|r: int|
            0 <= r < m && #[trigger] k[r] == RowKind::Meta(cur[j].0, cur[j].1) by {
            if j < prev.len() {
                assert(cur[j] == prev[j]);
            } else {
                assert(k[m - 1] == RowKind::Meta(cur[j].0, cur[j].1));
            }
        }
        assert forall|r: int| 0 <= r < m && #[trigger] k[r] is Meta implies exists|j: int|
            0 <= j < cur.len() && cur[j] == (k[r]->Meta_0, k[r]->Meta_1) by {
            if r < m - 1 {
                let j = choose|j: int|
                    0 <= j < prev.len() && #[trigger] prev[j] == (k[r]->Meta_0, k[r]->Meta_1);
                assert(cur[j] == prev[j]);
            } else {
                assert(cur[prev.len() as int] == (k[r]->Meta_0, k[r]->Meta_1));
            }
        }
    }
}

/// The image rows listed among the first `m` rows are those rows.
proof fn lemma_image_list_rows(k: Seq<RowKind>, m: int)
    requires
        0 <= m <= k.len(),
    ensures
        forall|j: int|
            #![trigger image_list(k, m)[j]]
            0 <= j < image_list(k, m).len() ==> exists|r: int|
                0 <= r < m && #[trigger] k[r] == RowKind::Image(
                    image_list(k, m)[j].0,
                    image_list(k, m)[j].1,
                    image_list(k, m)[j].2,
                ),
        forall|r: int|
            0 <= r < m && #[trigger] k[r] is Image ==> exists|j: int|
                0 <= j < image_list(k, m).len() && image_list(k, m)[j] == (
                    k[r]->Image_0,
                    k[r]->Image_1,
                    k[r]->Image_2,
                ),
    decreases m,
{
    if m > 0 {
        lemma_image_list_rows(k, m - 1);
        let prev = image_list(k, m - 1);
        let cur = image_list(k, m);
        assert forall|j: int| #![trigger cur[j]] 0 <= j < cur.len() implies exists|r: int|
            0 <= r < m && #[trigger] k[r] == RowKind::Image(cur[j].0, cur[j].1, cur[j].2) by {
            if j < prev.len() {
                assert(cur[j] == prev[j]);
            } else {
                assert(k[m - 1] == RowKind::Image(cur[j].0, cur[j].1, cur[j].2));
            }
        }
        assert forall|r: int| 0 <= r < m && #[trigger] k[r] is Image implies exists|j: int|
            0 <= j < cur.len() && cur[j] == (k[r]->Image_0, k[r]->Image_1, k[r]->Image_2) by {
            if r < m - 1 {
                let j = choose|j: int|
                    0 <= j < prev.len() && #[trigger] prev[j] == (
                        k[r]->Image_0,
                        k[r]->Image_1,
                        k[r]->Image_2,
                    );
                assert(cur[j] == prev[j]);
            } else {
                assert(cur[prev.len() as int] == (k[r]->Image_0, k[r]->Image_1, k[r]->Image_2));
            }
        }
    }
}

/// No error among the first `m` rows exactly when they are clean.
proof fn lemma_no_error_clean(k: Seq<RowKind>, m: int)
    requires
        0 <= m <= k.len(),
    ensures
        (first_error(k, m) is None) == clean_rows(k, m),
    decreases m,
{
    if m > 0 {
        lemma_no_error_clean(k, m - 1);
        lemma_meta_list_rows(k, m - 1);
        lemma_image_list_rows(k, m - 1);
        let t = k[m - 1];
        if clean_rows(k, m) {
            assert(clean_rows(k, m - 1));
            match t {
                RowKind::Meta(b, id) => {
                    let ml = meta_list(k, m - 1);
                    if exists|j: int| 0 <= j < ml.len() && (#[trigger] ml[j]).0 == b {
                        let j = choose|j: int| 0 <= j < ml.len() && (#[trigger] ml[j]).0 == b;
                        let r = choose|r: int|
                            0 <= r < m - 1 && #[trigger] k[r] == RowKind::Meta(ml[j].0, ml[j].1);
                        assert(k[r] is Meta && k[m - 1] is Meta);
                    }
                },
                RowKind::Image(b, x, id) => {
                    let il = image_list(k, m - 1);
                    if exists|j: int|
                        0 <= j < il.len() && (#[trigger] il[j]).0 == b && il[j].1 == x {
                        let j = choose|j: int|
                            0 <= j < il.len() && (#[trigger] il[j]).0 == b && il[j].1 == x;
                        let r = choose|r: int|
                            0 <= r < m - 1 && #[trigger] k[r] == RowKind::Image(
                                il[j].0,
                                il[j].1,
                                il[j].2,
                            );
                        assert(k[r] is Image && k[m - 1] is Image);
                    }
                },
                _ => {},
            }
            assert(row_error(k, m - 1) is None);
        } else if first_error(k, m) is None {
            assert(first_error(k, m - 1) is None);
            assert(row_error(k, m - 1) is None);
            assert(clean_rows(k, m - 1));
            assert(!(t is BadShape) && !(t is Blank) && !(t is BadIndex));
            assert forall|i: int, j: int|
                #![trigger k[i], k[j]]
                0 <= i < m && 0 <= j < m && i != j && k[i] is Meta && k[j] is Meta implies k[i]->Meta_0
                != k[j]->Meta_0 by {
                if i == m - 1 || j == m - 1 {
                    let r = if i == m - 1 {
                        j
                    } else {
                        i
                    };
                    let jj = choose|jj: int|
                        0 <= jj < meta_list(k, m - 1).len() && #[trigger] meta_list(k, m - 1)[jj] == (
                            k[r]->Meta_0,
                            k[r]->Meta_1,
                        );
                    assert((meta_list(k, m - 1)[jj]).0 == k[r]->Meta_0);
                }
            }
            assert forall|i: int, j: int|
                #![trigger k[i], k[j]]
                0 <= i < m && 0 <= j < m && i != j && k[i] is Image && k[j] is Image implies !(
                k[i]->Image_0 == k[j]->Image_0 && k[i]->Image_1 == k[j]->Image_1) by {
                if i == m - 1 || j == m - 1 {
                    let r = if i == m - 1 {
                        j
                    } else {
                        i
                    };
                    let jj = choose|jj: int|
                        0 <= jj < image_list(k, m - 1).len() && #[trigger] image_list(k, m - 1)[jj] == (
                            k[r]->Image_0,
                            k[r]->Image_1,
                            k[r]->Image_2,
                        );
                    assert((image_list(k, m - 1)[jj]).0 == k[r]->Image_0);
                }
            }
        }
    }
}

/// Row `r` is the only metadata row among the first `m`.
pub open spec fn only_meta(k: Seq<RowKind>, m: int, r: int) -> bool {
    &&& 0 <= r < m
    &&& k[r] is Meta
    &&& forall|q: int| 0 <= q < m && #[trigger] k[q] is Meta ==> q == r
}

/// One metadata row is listed exactly when one row among the first `m` is
/// a metadata row, and then it is that row.
proof fn lemma_one_meta(k: Seq<RowKind>, m: int)
    requires
        0 <= m <= k.len(),
    ensures
        (meta_list(k, m).len() == 0) == (forall|q: int| 0 <= q < m ==> !(#[trigger] k[q] is Meta)),
        (meta_list(k, m).len() == 1) == (exists|r: int| only_meta(k, m, r)),
        forall|r: int|
            only_meta(k, m, r) ==> #[trigger] meta_list(k, m)[0] == (k[r]->Meta_0, k[r]->Meta_1),
    decreases m,
{
    if m > 0 {
        lemma_one_meta(k, m - 1);
        let prev = meta_list(k, m - 1);
        if k[m - 1] is Meta {
            assert(meta_list(k, m) == prev.push((k[m - 1]->Meta_0, k[m - 1]->Meta_1)));
            if prev.len() == 0 {
                assert(only_meta(k, m, m - 1));
                assert(meta_list(k, m).len() == 1);
            } else {
                assert(!(forall|q: int| 0 <= q < m - 1 ==> !(#[trigger] k[q] is Meta)));
                let q = choose|q: int| 0 <= q < m - 1 && #[trigger] k[q] is Meta;
                assert forall|r: int| !only_meta(k, m, r) by {
                    if only_meta(k, m, r) {
                        assert(k[q] is Meta && k[m - 1] is Meta);
                    }
                }
            }
        } else {
            assert(meta_list(k, m) == prev);
            assert forall|r: int| only_meta(k, m, r) == only_meta(k, m - 1, r) by {
                if only_meta(k, m - 1, r) {
                    assert forall|q: int| 0 <= q < m && #[trigger] k[q] is Meta implies q == r by {
                        if q < m - 1 {
                            assert(k[q] is Meta);
                        }
                    }
                }
            }
            let m1 = m - 1;
            if exists|r: int| #[trigger] only_meta(k, m1, r) {
                let r = choose|r: int| #[trigger] only_meta(k, m1, r);
                assert(only_meta(k, m, r));
            }
            if exists|r: int| #[trigger] only_meta(k, m, r) {
                let r = choose|r: int| #[trigger] only_meta(k, m, r);
                assert(only_meta(k, m1, r));
            }
        }
    }
}

/// No two images share an index.
pub open spec fn distinct_indexes(imgs: Seq<(usize, Seq<char>)>) -> bool {
    forall|j1: int, j2: int|
        #![trigger imgs[j1], imgs[j2]]
        0 <= j1 < imgs.len() && 0 <= j2 < imgs.len() && j1 != j2 ==> imgs[j1].0 != imgs[j2].0
}

/// The images `(index, id)` of bundle `base` among the first `m` rows.
pub open spec fn bundle_images(k: Seq<RowKind>, m: int, base: Seq<char>) -> Seq<(usize, Seq<char>)> {
    images_of(image_list(k, m), base)
}

/// The images of a bundle are those of its image rows, and, among clean
/// rows, no two of them share an index.
proof fn lemma_bundle_images(k: Seq<RowKind>, m: int, base: Seq<char>)
    requires
        0 <= m <= k.len(),
        clean_rows(k, m),
    ensures
        forall|j: int|
            #![trigger bundle_images(k, m, base)[j]]
            0 <= j < bundle_images(k, m, base).len() ==> exists|r: int|
                0 <= r < m && #[trigger] k[r] == RowKind::Image(
                    base,
                    bundle_images(k, m, base)[j].0,
                    bundle_images(k, m, base)[j].1,
                ),
        forall|r: int|
            0 <= r < m && #[trigger] k[r] is Image && k[r]->Image_0 == base ==> exists|j: int|
                0 <= j < bundle_images(k, m, base).len() && #[trigger] bundle_images(k, m, base)[j]
                    == (k[r]->Image_1, k[r]->Image_2),
        distinct_indexes(bundle_images(k, m, base)),
    decreases m,
{
    if m > 0 {
        assert(clean_rows(k, m - 1));
        lemma_bundle_images(k, m - 1, base);
        let prev = bundle_images(k, m - 1, base);
        let cur = bundle_images(k, m, base);
        let l = image_list(k, m - 1);
        match k[m - 1] {
            RowKind::Image(b, x, id) => {
                assert(image_list(k, m) == l.push((b, x, id)));
                assert(l.push((b, x, id)).drop_last() =~= l);
                if b == base {
                    assert(cur == prev.push((x, id)));
                    assert forall|j: int| 0 <= j < prev.len() implies (#[trigger] prev[j]).0 != x by {
                        let r = choose|r: int|
                            0 <= r < m - 1 && #[trigger] k[r] == RowKind::Image(
                                base,
                                prev[j].0,
                                prev[j].1,
                            );
                        assert(k[r] is Image && k[m - 1] is Image);
                    }
                } else {
                    assert(cur == prev);
                }
            },
            _ => {
                assert(image_list(k, m) == l);
            },
        }
        assert forall|r: int|
            0 <= r < m && #[trigger] k[r] is Image && k[r]->Image_0 == base implies exists|j: int|
            0 <= j < cur.len() && #[trigger] cur[j] == (k[r]->Image_1, k[r]->Image_2) by {
            if r < m - 1 {
                let j = choose|j: int|
                    0 <= j < prev.len() && #[trigger] prev[j] == (k[r]->Image_1, k[r]->Image_2);
                assert(cur[j] == prev[j]);
            } else {
                assert(cur[prev.len() as int] == (k[r]->Image_1, k[r]->Image_2));
            }
        }
        assert forall|j: int| #![trigger cur[j]] 0 <= j < cur.len() implies exists|r: int|
            0 <= r < m && #[trigger] k[r] == RowKind::Image(base, cur[j].0, cur[j].1) by {
            if j < prev.len() {
                assert(cur[j] == prev[j]);
            } else {
                assert(k[m - 1] == RowKind::Image(base, cur[j].0, cur[j].1));
            }
        }
    }
}

/// The id of an image is the id given with its index, where no two images
/// share one.
proof fn lemma_image_id_of(imgs: Seq<(usize, Seq<char>)>, j: int)
    requires
        distinct_indexes(imgs),
        0 <= j < imgs.len(),
    ensures
        image_id(imgs, imgs[j].0 as int) == imgs[j].1,
    decreases imgs.len(),
{
    if j < imgs.len() - 1 {
        let d = imgs.drop_last();
        assert(imgs.last().0 != imgs[j].0);
        assert(d[j] == imgs[j]);
        assert(distinct_indexes(d)) by {
            assert forall|j1: int, j2: int|
                #![trigger d[j1], d[j2]]
                0 <= j1 < d.len() && 0 <= j2 < d.len() && j1 != j2 implies d[j1].0 != d[j2].0 by {
                assert(d[j1] == imgs[j1] && d[j2] == imgs[j2]);
            }
        }
        lemma_image_id_of(d, j);
    }
}

/// The indexes the images have.
pub open spec fn index_set(imgs: Seq<(usize, Seq<char>)>) -> Set<int> {
    Set::new(|x: int| exists|j: int| 0 <= j < imgs.len() && #[trigger] imgs[j].0 == x)
}

/// Images with distinct indexes have as many indexes as there are images.
proof fn lemma_index_set_len(imgs: Seq<(usize, Seq<char>)>)
    requires
        distinct_indexes(imgs),
    ensures
        index_set(imgs).finite(),
        index_set(imgs).len() == imgs.len(),
{
    let s = Seq::new(imgs.len(), |j: int| imgs[j].0 as int);
    assert(s.no_duplicates()) by {
        assert forall|i: int, j: int|
            0 <= i < s.len() && 0 <= j < s.len() && i != j implies s[i] != s[j] by {
            assert(imgs[i].0 != imgs[j].0);
        }
    }
    s.unique_seq_to_set();
    vstd::seq_lib::seq_to_set_is_finite(s);
    assert(s.to_set() =~= index_set(imgs)) by {
        assert forall|x: int| #[trigger] s.to_set().contains(x) implies index_set(imgs).contains(x) by {
            let i = choose|i: int| 0 <= i < s.len() && s[i] == x;
            assert(imgs[i].0 == x);
        }
        assert forall|x: int| #[trigger] index_set(imgs).contains(x) implies s.to_set().contains(x) by {
            let j = choose|j: int| 0 <= j < imgs.len() && #[trigger] imgs[j].0 == x;
            assert(s[j] == x);
        }
    }
}

/// `perm` reorders `a` into `b`: `b[i]` is `a[perm[i]]`, and `perm` takes
/// each index of `a` once.
pub open spec fn reorders<A>(a: Seq<A>, b: Seq<A>, perm: Seq<int>) -> bool {
    &&& b.len() == a.len()
    &&& perm.len() == a.len()
    &&& forall|i: int| 0 <= i < perm.len() ==> 0 <= #[trigger] perm[i] < a.len()
    &&& forall|i: int, j: int|
        #![trigger perm[i], perm[j]]
        0 <= i < perm.len() && 0 <= j < perm.len() && i != j ==> perm[i] != perm[j]
    &&& forall|i: int| 0 <= i < b.len() ==> #[trigger] b[i] == a[perm[i]]
}

/// Some position of `perm` holds `r`.
pub open spec fn hits(perm: Seq<int>, r: int) -> bool {
    exists|i: int| 0 <= i < perm.len() && #[trigger] perm[i] == r
}

/// A reordering takes every index.
proof fn lemma_reorder_onto<A>(a: Seq<A>, b: Seq<A>, perm: Seq<int>)
    requires
        reorders(a, b, perm),
    ensures
        forall|r: int| 0 <= r < a.len() ==> #[trigger] hits(perm, r),
{
    let n = a.len() as int;
    assert(perm.no_duplicates()) by {
        assert forall|i: int, j: int|
            0 <= i < perm.len() && 0 <= j < perm.len() && i != j implies perm[i] != perm[j] by {
        }
    }
    perm.unique_seq_to_set();
    vstd::seq_lib::seq_to_set_is_finite(perm);
    lemma_int_range(0, n);
    assert(perm.to_set().subset_of(set_int_range(0, n))) by {
        assert forall|x: int| #[trigger] perm.to_set().contains(x) implies set_int_range(0, n).contains(x) by {
            let i = choose|i: int| 0 <= i < perm.len() && perm[i] == x;
            assert(0 <= perm[i] < n);
        }
    }
    lemma_subset_equality(perm.to_set(), set_int_range(0, n));
    assert forall|r: int| 0 <= r < a.len() implies #[trigger] hits(perm, r) by {
        assert(set_int_range(0, n).contains(r));
        assert(perm.to_set().contains(r));
    }
}

/// The way back of a reordering.
proof fn lemma_reorder_back<A>(a: Seq<A>, b: Seq<A>, perm: Seq<int>) -> (inv: Seq<int>)
    requires
        reorders(a, b, perm),
    ensures
        reorders(b, a, inv),
{
    lemma_reorder_onto(a, b, perm);
    let inv = Seq::new(
        a.len(),
        |r: int| choose|i: int| 0 <= i < perm.len() && #[trigger] perm[i] == r,
    );
    assert forall|r: int| 0 <= r < inv.len() implies 0 <= #[trigger] inv[r] < perm.len()
        && perm[inv[r]] == r by {
        assert(hits(perm, r));
    }
    assert forall|r: int, q: int|
        #![trigger inv[r], inv[q]]
        0 <= r < inv.len() && 0 <= q < inv.len() && r != q implies inv[r] != inv[q] by {
        assert(perm[inv[r]] == r && perm[inv[q]] == q);
    }
    assert forall|r: int| 0 <= r < a.len() implies #[trigger] a[r] == b[inv[r]] by {
        assert(perm[inv[r]] == r);
        assert(b[inv[r]] == a[perm[inv[r]]]);
    }
    inv
}

/// What a restore makes of rows it accepts, it makes of the same rows in
/// another order.
proof fn lemma_accepted_rows_reordered(
    p1: Seq<Seq<Seq<char>>>,
    p2: Seq<Seq<Seq<char>>>,
    perm: Seq<int>,
)
    requires
        reorders(p1, p2, perm),
        restore_upload(p1) is Ok,
    ensures
        restore_upload(p2) == restore_upload(p1),
{
    let n = p1.len() as int;
    let k1 = kinds_of(p1);
    let k2 = kinds_of(p2);
    lemma_reorder_onto(p1, p2, perm);
    assert forall|i: int| 0 <= i < n implies #[trigger] k2[i] == k1[perm[i]] by {
        assert(p2[i] == p1[perm[i]]);
    }
    // no row error
    lemma_no_error_clean(k1, n);
    lemma_no_error_clean(k2, n);
    assert(clean_rows(k2, n)) by {
        assert forall|i: int| 0 <= i < n implies !(#[trigger] k2[i] is BadShape) && !(
        k2[i] is Blank) && !(k2[i] is BadIndex) by {
            assert(k1[perm[i]] == k2[i]);
        }
        assert forall|i: int, j: int|
            #![trigger k2[i], k2[j]]
            0 <= i < n && 0 <= j < n && i != j && k2[i] is Meta && k2[j] is Meta implies k2[i]->Meta_0
            != k2[j]->Meta_0 by {
            assert(k1[perm[i]] == k2[i] && k1[perm[j]] == k2[j]);
            assert(perm[i] != perm[j]);
        }
        assert forall|i: int, j: int|
            #![trigger k2[i], k2[j]]
            0 <= i < n && 0 <= j < n && i != j && k2[i] is Image && k2[j] is Image implies !(
            k2[i]->Image_0 == k2[j]->Image_0 && k2[i]->Image_1 == k2[j]->Image_1) by {
            assert(k1[perm[i]] == k2[i] && k1[perm[j]] == k2[j]);
            assert(perm[i] != perm[j]);
        }
    }
    // the one metadata row
    lemma_one_meta(k1, n);
    lemma_one_meta(k2, n);
    let r1 = choose|r: int| only_meta(k1, n, r);
    assert(hits(perm, r1));
    let i2 = choose|i: int| 0 <= i < perm.len() && #[trigger] perm[i] == r1;
    assert(only_meta(k2, n, i2)) by {
        assert(k2[i2] == k1[r1]);
        assert forall|q: int| 0 <= q < n && #[trigger] k2[q] is Meta implies q == i2 by {
            assert(k1[perm[q]] == k2[q]);
            assert(perm[q] == r1);
        }
    }
    let metas1 = meta_list(k1, n);
    let metas2 = meta_list(k2, n);
    assert(metas1[0] == (k1[r1]->Meta_0, k1[r1]->Meta_1));
    assert(metas2[0] == (k2[i2]->Meta_0, k2[i2]->Meta_1));
    assert(metas2[0] == metas1[0]);
    // the images of its bundle
    let base = metas1[0].0;
    let imgs1 = bundle_images(k1, n, base);
    let imgs2 = bundle_images(k2, n, base);
    lemma_bundle_images(k1, n, base);
    lemma_bundle_images(k2, n, base);
    assert(index_set(imgs1) =~= index_set(imgs2)) by {
        assert forall|x: int| #[trigger] index_set(imgs1).contains(x) implies index_set(
            imgs2,
        ).contains(x) by {
            let j1 = choose|j: int| 0 <= j < imgs1.len() && #[trigger] imgs1[j].0 == x;
            let r = choose|r: int|
                0 <= r < n && #[trigger] k1[r] == RowKind::Image(base, imgs1[j1].0, imgs1[j1].1);
            assert(hits(perm, r));
            let i = choose|i: int| 0 <= i < perm.len() && #[trigger] perm[i] == r;
            assert(k2[i] == k1[r]);
            let j2 = choose|j: int|
                0 <= j < imgs2.len() && #[trigger] imgs2[j] == (k2[i]->Image_1, k2[i]->Image_2);
            assert(imgs2[j2].0 == x);
        }
        assert forall|x: int| #[trigger] index_set(imgs2).contains(x) implies index_set(
            imgs1,
        ).contains(x) by {
            let j2 = choose|j: int| 0 <= j < imgs2.len() && #[trigger] imgs2[j].0 == x;
            let i = choose|i: int|
                0 <= i < n && #[trigger] k2[i] == RowKind::Image(base, imgs2[j2].0, imgs2[j2].1);
            assert(k1[perm[i]] == k2[i]);
            let r = perm[i];
            let j1 = choose|j: int|
                0 <= j < imgs1.len() && #[trigger] imgs1[j] == (k1[r]->Image_1, k1[r]->Image_2);
            assert(imgs1[j1].0 == x);
        }
    }
    lemma_index_set_len(imgs1);
    lemma_index_set_len(imgs2);
    let len = imgs1.len() as int;
    assert(imgs2.len() == len);
    assert(dense(imgs1));
    assert(dense(imgs2)) by {
        assert forall|j: int| 0 <= j < imgs2.len() implies (#[trigger] imgs2[j]).0 < imgs2.len() by {
            let x = imgs2[j].0 as int;
            assert(index_set(imgs2).contains(x));
            assert(index_set(imgs1).contains(x));
            let j1 = choose|j1: int| 0 <= j1 < imgs1.len() && #[trigger] imgs1[j1].0 == x;
            assert(imgs1[j1].0 < imgs1.len());
        }
        assert forall|x: int| 0 <= x < imgs2.len() implies #[trigger] has_index(imgs2, x) by {
            assert(has_index(imgs1, x));
            let j1 = choose|j: int| 0 <= j < imgs1.len() && #[trigger] imgs1[j].0 == x;
            assert(index_set(imgs1).contains(x));
            assert(index_set(imgs2).contains(x));
        }
    }
    assert forall|x: int| 0 <= x < len implies #[trigger] image_id(imgs2, x) == image_id(imgs1, x) by {
        assert(has_index(imgs1, x));
        let j1 = choose|j: int| 0 <= j < imgs1.len() && #[trigger] imgs1[j].0 == x;
        lemma_image_id_of(imgs1, j1);
        let r = choose|r: int|
            0 <= r < n && #[trigger] k1[r] == RowKind::Image(base, imgs1[j1].0, imgs1[j1].1);
        assert(hits(perm, r));
        let i = choose|i: int| 0 <= i < perm.len() && #[trigger] perm[i] == r;
        assert(k2[i] == k1[r]);
        let j2 = choose|j: int|
            0 <= j < imgs2.len() && #[trigger] imgs2[j] == (k2[i]->Image_1, k2[i]->Image_2);
        lemma_image_id_of(imgs2, j2);
    }
    assert(Seq::new(imgs2.len(), |x: int| image_id(imgs2, x)) =~= Seq::new(
        imgs1.len(),
        |x: int| image_id(imgs1, x),
    ));
}

/// Row order does not matter to a restore: an upload response whose rows
/// are those of another in any order is accepted exactly when that one is,
/// and then with the same metadata id and the same image ids, which come
/// out by their image index.
pub proof fn lemma_restore_ignores_row_order(
    p1: Seq<Seq<Seq<char>>>,
    p2: Seq<Seq<Seq<char>>>,
    perm: Seq<int>,
)
    requires
        reorders(p1, p2, perm),
    ensures
        (restore_upload(p1) is Ok) == (restore_upload(p2) is Ok),
        restore_upload(p1) is Ok ==> restore_upload(p2) == restore_upload(p1),
{
    if restore_upload(p1) is Ok {
        lemma_accepted_rows_reordered(p1, p2, perm);
    }
    let back = lemma_reorder_back(p1, p2, perm);
    if restore_upload(p2) is Ok {
        lemma_accepted_rows_reordered(p2, p1, back);
    }
}

} // verus!
