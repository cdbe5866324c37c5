//! The answer of the upload endpoint: one row `[name, id]` per stored file,
//! named after the uploaded file; the parts of a chapter archive get `#p<n>`,
//! those of an export bundle `#meta` and `#i<n>`.
use vstd::prelude::*;
use crate::error::{ApiError, fails_with};
use crate::number::{all_digits, decimal, is_digit, lemma_decimal_parses, lemma_decimal_usize, push_decimal};
use crate::restore::{
    dense, first_error, has_index, image_id, image_list, images_of, kinds_of, meta_list, meta_suffix,
    payload_view, restore_upload, rfind, row_error, row_kind, RowKind,
};
use crate::text::{
    append_str, copy_string, is_white_space, lead_ws, lemma_lead_ws_bound, push_char, str_eq,
    trail_ws, trim, trim_end, trim_start,
};
use crate::validate::blank;

verus! {

/// What the store made of an uploaded file.
pub enum Registered {
    /// A single file.
    File(String),
    /// The pages of a chapter archive.
    Chapter(Vec<String>),
    /// An export bundle: its metadata and its images.
    Manga { metadata: String, images: Vec<String> },
}

/// Mathematical model of [`Registered`].
pub enum RegisteredV {
    File(Seq<char>),
    Chapter(Seq<Seq<char>>),
    Manga(Seq<char>, Seq<Seq<char>>),
}

pub open spec fn registered_view(r: Registered) -> RegisteredV {
    match r {
        Registered::File(id) => RegisteredV::File(id@),
        Registered::Chapter(ids) => RegisteredV::Chapter(Seq::new(ids@.len(), |i: int| ids@[i]@)),
        Registered::Manga { metadata, images } => RegisteredV::Manga(
            metadata@,
            Seq::new(images@.len(), |i: int| images@[i]@),
        ),
    }
}

/// The name of part `i` of a file, with the tag `tag` (`p` or `i`).
pub open spec fn part_name(name: Seq<char>, tag: char, i: nat) -> Seq<char> {
    name + seq!['#', tag] + decimal(i)
}

/// The rows answered for one uploaded file.
pub open spec fn upload_rows_spec(name: Seq<char>, reg: RegisteredV) -> Seq<Seq<Seq<char>>> {
    match reg {
        RegisteredV::File(id) => seq![seq![name, id]],
        RegisteredV::Chapter(ids) => Seq::new(
            ids.len(),
            |i: int| seq![part_name(name, 'p', i as nat), ids[i]],
        ),
        RegisteredV::Manga(meta, images) => seq![seq![name + "#meta"@, meta]] + Seq::new(
            images.len(),
            |i: int| seq![part_name(name, 'i', i as nat), images[i]],
        ),
    }
}

fn make_part_name(name: &str, tag: char, i: usize) -> (r: String)
    ensures
        r@ == part_name(name@, tag, i as nat),
{
    let mut s = String::new();
    append_str(&mut s, name);
    push_char(&mut s, '#');
    push_char(&mut s, tag);
    push_decimal(&mut s, i as u64);
    assert(s@ =~= part_name(name@, tag, i as nat));
    s
}

fn row(name: String, id: String) -> (r: Vec<String>)
    ensures
        r@.len() == 2,
        r@[0]@ == name@,
        r@[1]@ == id@,
{
    let mut r: Vec<String> = Vec::new();
    r.push(name);
    r.push(id);
    r
}

/// Appends the rows of the parts of a file.
fn push_parts(out: &mut Vec<Vec<String>>, name: &str, tag: char, ids: Vec<String>)
    ensures
        payload_view(final(out)@) == payload_view(old(out)@) + Seq::new(
            ids@.len(),
            |i: int| seq![part_name(name@, tag, i as nat), ids@[i]@],
        ),
{
    let ghost start = payload_view(out@);
    let ghost iv = ids@;
    let n = ids.len();
    let mut rest = ids;
    let mut i: usize = 0;
    while rest.len() > 0
        invariant
            i + rest@.len() == iv.len(),
            iv.len() == n,
            rest@ == iv.skip(i as int),
            payload_view(out@) == start + Seq::new(
                i as nat,
                |k: int| seq![part_name(name@, tag, k as nat), iv[k]@],
            ),
        decreases rest.len(),
    {
        let ghost old_rest = rest@;
        let id = rest.remove(0);
        assert(id == iv[i as int]);
        assert(rest@ =~= iv.skip(i + 1));
        let ghost before = payload_view(out@);
        let r = row(make_part_name(name, tag, i), id);
        let ghost rv = seq![part_name(name@, tag, i as nat), iv[i as int]@];
        assert(Seq::new(r@.len(), |j: int| r@[j]@) =~= rv);
        out.push(r);
        assert(payload_view(out@) =~= before.push(rv));
        i = i + 1;
        assert(payload_view(out@) =~= start + Seq::new(
            i as nat,
            |k: int| seq![part_name(name@, tag, k as nat), iv[k]@],
        ));
    }
}

/// The rows the upload endpoint answers for one uploaded file.
pub fn upload_rows(file_name: &str, registered: Registered) -> (r: Vec<Vec<String>>)
    ensures
        payload_view(r@) == upload_rows_spec(file_name@, registered_view(registered)),
{
    let ghost rv = registered_view(registered);
    let mut out: Vec<Vec<String>> = Vec::new();
    match registered {
        Registered::File(id) => {
            let ghost idv = id@;
            let r = row(file_name.to_owned(), id);
            assert(Seq::new(r@.len(), |j: int| r@[j]@) =~= seq![file_name@, idv]);
            out.push(r);
            assert(payload_view(out@) =~= upload_rows_spec(file_name@, rv));
        },
        Registered::Chapter(ids) => {
            push_parts(&mut out, file_name, 'p', ids);
            assert(payload_view(out@) =~= upload_rows_spec(file_name@, rv));
        },
        Registered::Manga { metadata, images } => {
            let mut name = String::new();
            append_str(&mut name, file_name);
            append_str(&mut name, "#meta");
            let ghost mv = metadata@;
            assert(mv == rv->Manga_0);
            let r = row(name, metadata);
            assert(Seq::new(r@.len(), |j: int| r@[j]@) =~= seq![file_name@ + "#meta"@, mv]);
            out.push(r);
            assert(payload_view(out@) =~= seq![seq![file_name@ + "#meta"@, rv->Manga_0]]);
            push_parts(&mut out, file_name, 'i', images);
            assert(payload_view(out@) =~= upload_rows_spec(file_name@, rv));
        },
    }
    out
}

/// The message for a form field that is not a file list.
pub open spec fn msg_bad_field() -> Seq<char> {
    "Invalid field name(only allows "@ + seq!['"'] + "files"@ + seq!['"'] + ")"@
}

/// The form fields that may carry files: `file[]`, `files[]`, `file`,
/// `files`.
pub open spec fn file_field(name: Seq<char>) -> bool {
    name == "file[]"@ || name == "files[]"@ || name == "file"@ || name == "files"@
}

/// Checks the name of a form field of an upload.
pub fn check_field_name(name: &str) -> (r: Result<(), ApiError>)
    ensures
        file_field(name@) ==> r is Ok,
        !file_field(name@) ==> fails_with(r, msg_bad_field()),
{
    if str_eq(name, "file[]") || str_eq(name, "files[]") || str_eq(name, "file") || str_eq(
        name,
        "files",
    ) {
        return Ok(());
    }
    let mut msg = String::new();
    append_str(&mut msg, "Invalid field name(only allows ");
    push_char(&mut msg, '"');
    append_str(&mut msg, "files");
    push_char(&mut msg, '"');
    append_str(&mut msg, ")");
    assert(msg@ =~= msg_bad_field());
    Err(ApiError::invalid_input_string(&msg))
}

proof fn lemma_lead_ws_concat(a: Seq<char>, b: Seq<char>)
    requires
        lead_ws(a) < a.len(),
    ensures
        lead_ws(a + b) == lead_ws(a),
    decreases a.len(),
{
    assert((a + b)[0] == a[0]);
    if is_white_space(a[0]) {
        assert((a + b).drop_first() =~= a.drop_first() + b);
        lemma_lead_ws_concat(a.drop_first(), b);
    }
}

/// Trimming a name followed by a tail that ends in a visible character
/// trims the name's front only.
proof fn lemma_trim_concat(a: Seq<char>, t: Seq<char>)
    requires
        !blank(a),
        t.len() > 0,
        !is_white_space(t.last()),
    ensures
        trim(a + t) == trim_start(a) + t,
        trim_start(a).len() > 0,
{
    lemma_lead_ws_bound(a);
    if lead_ws(a) == a.len() {
        assert(trim_start(a) =~= Seq::<char>::empty());
        assert(trim(a) =~= Seq::<char>::empty());
    }
    lemma_lead_ws_concat(a, t);
    let ts = trim_start(a + t);
    assert(ts =~= trim_start(a) + t);
    assert(ts.last() == t.last());
    assert(trail_ws(ts) == 0);
    assert(trim_end(ts) =~= ts);
}

proof fn lemma_rfind_tail(s: Seq<char>, t: Seq<char>, c: char)
    requires
        forall|i: int| 0 <= i < t.len() ==> t[i] != c,
    ensures
        rfind(s + t, c) == rfind(s, c),
    decreases t.len(),
{
    if t.len() > 0 {
        assert((s + t).last() == t.last());
        assert((s + t).drop_last() =~= s + t.drop_last());
        lemma_rfind_tail(s, t.drop_last(), c);
    } else {
        assert(s + t =~= s);
    }
}

/// The kind of each row the upload endpoint answers for an export bundle.
proof fn lemma_bundle_kinds(name: Seq<char>, meta: Seq<char>, images: Seq<Seq<char>>)
    requires
        !blank(name),
        !blank(meta),
        forall|i: int| 0 <= i < images.len() ==> !blank(#[trigger] images[i]),
        images.len() <= usize::MAX,
    ensures
        ({
            let p = upload_rows_spec(name, RegisteredV::Manga(meta, images));
            let k = kinds_of(p);
            let b = trim_start(name);
            &&& k.len() == images.len() + 1
            &&& k[0] == RowKind::Meta(b, trim(meta))
            &&& forall|i: int|
                0 <= i < images.len() ==> #[trigger] k[i + 1] == RowKind::Image(
                    b,
                    i as usize,
                    trim(images[i]),
                )
        }),
{
    let p = upload_rows_spec(name, RegisteredV::Manga(meta, images));
    let b = trim_start(name);
    // the metadata row
    let t0 = "#meta"@;
    reveal_strlit("#meta");
    lemma_trim_concat(name, t0);
    let n0 = trim(name + t0);
    assert(n0 =~= b.push('#') + meta_suffix());
    lemma_rfind_tail(b.push('#'), meta_suffix(), '#');
    assert(rfind(b.push('#'), '#') == b.len());
    assert(n0.take(b.len() as int) =~= b);
    assert(n0.skip(b.len() as int + 1) =~= meta_suffix());
    assert(p[0] =~= seq![name + t0, meta]);
    assert(row_kind(p[0]) == RowKind::Meta(b, trim(meta)));
    // the image rows
    assert forall|i: int| 0 <= i < images.len() implies #[trigger] kinds_of(p)[i + 1]
        == RowKind::Image(b, i as usize, trim(images[i])) by {
        let d = decimal(i as nat);
        lemma_decimal_parses(i as nat);
        lemma_decimal_usize(i as usize);
        let t = seq!['#', 'i'] + d;
        assert(is_digit(d.last()));
        assert(t.last() == d.last());
        lemma_trim_concat(name, t);
        let ni = trim(name + t);
        assert(name + t =~= part_name(name, 'i', i as nat));
        let tail = seq!['i'] + d;
        assert forall|q: int| 0 <= q < tail.len() implies tail[q] != '#' by {
            if q > 0 {
                assert(tail[q] == d[q - 1]);
                assert(is_digit(d[q - 1]));
            }
        }
        assert(ni =~= b.push('#') + tail);
        lemma_rfind_tail(b.push('#'), tail, '#');
        assert(rfind(b.push('#'), '#') == b.len());
        assert(ni.take(b.len() as int) =~= b);
        assert(ni.skip(b.len() as int + 1) =~= tail);
        assert(tail != meta_suffix()) by {
            if tail == meta_suffix() {
                assert(tail[0] == meta_suffix()[0]);
            }
        }
        assert(tail.drop_first() =~= d);
        assert(p[i + 1] =~= seq![part_name(name, 'i', i as nat), images[i]]);
    }
}

proof fn lemma_bundle_lists(kinds: Seq<RowKind>, b: Seq<char>, mid: Seq<char>, ids: Seq<Seq<char>>, m: int)
    requires
        kinds.len() == ids.len() + 1,
        kinds[0] == RowKind::Meta(b, mid),
        forall|i: int| 0 <= i < ids.len() ==> #[trigger] kinds[i + 1] == RowKind::Image(
            b,
            i as usize,
            ids[i],
        ),
        ids.len() <= usize::MAX,
        1 <= m <= kinds.len(),
    ensures
        meta_list(kinds, m) == seq![(b, mid)],
        image_list(kinds, m) == Seq::new(
            (m - 1) as nat,
            |j: int| (b, j as usize, ids[j]),
        ),
        first_error(kinds, m) is None,
    decreases m,
{
    if m == 1 {
        assert(meta_list(kinds, 0) =~= Seq::<(Seq<char>, Seq<char>)>::empty());
        assert(meta_list(kinds, 1) =~= seq![(b, mid)]);
        assert(image_list(kinds, 0) =~= Seq::<(Seq<char>, usize, Seq<char>)>::empty());
        assert(image_list(kinds, 1) =~= Seq::<(Seq<char>, usize, Seq<char>)>::empty());
        assert(first_error(kinds, 0) is None);
        assert(row_error(kinds, 0) is None);
    } else {
        lemma_bundle_lists(kinds, b, mid, ids, m - 1);
        let i = m - 2;
        assert(kinds[i + 1] == RowKind::Image(b, i as usize, ids[i]));
        assert(i + 1 == m - 1);
        assert(image_list(kinds, m) =~= Seq::new(
            (m - 1) as nat,
            |j: int| (b, j as usize, ids[j]),
        ));
        let l = image_list(kinds, m - 1);
        assert(!exists|j: int|
            0 <= j < l.len() && (#[trigger] l[j]).0 == b && l[j].1 == i as usize);
        assert(row_error(kinds, m - 1) is None);
    }
}

proof fn lemma_bundle_images(b: Seq<char>, ids: Seq<Seq<char>>, n: int)
    requires
        0 <= n <= ids.len(),
        ids.len() <= usize::MAX,
    ensures
        images_of(Seq::new(n as nat, |j: int| (b, j as usize, ids[j])), b) == Seq::new(
            n as nat,
            |j: int| (j as usize, ids[j]),
        ),
    decreases n,
{
    let l = Seq::new(n as nat, |j: int| (b, j as usize, ids[j]));
    if n > 0 {
        lemma_bundle_images(b, ids, n - 1);
        assert(l.drop_last() =~= Seq::new((n - 1) as nat, |j: int| (b, j as usize, ids[j])));
        assert(images_of(l, b) =~= Seq::new(n as nat, |j: int| (j as usize, ids[j])));
    } else {
        assert(images_of(l, b) =~= Seq::<(usize, Seq<char>)>::empty());
    }
}

proof fn lemma_image_id_ordered(ids: Seq<Seq<char>>, n: int, k: int)
    requires
        0 <= k < n <= ids.len(),
        ids.len() <= usize::MAX,
    ensures
        image_id(Seq::new(n as nat, |j: int| (j as usize, ids[j])), k) == ids[k],
    decreases n,
{
    let s = Seq::new(n as nat, |j: int| (j as usize, ids[j]));
    if k < n - 1 {
        assert(s.drop_last() =~= Seq::new((n - 1) as nat, |j: int| (j as usize, ids[j])));
        lemma_image_id_ordered(ids, n - 1, k);
    }
}

/// Restoring reads back what uploading an export bundle answers: the
/// metadata id and the image ids in bundle order (each trimmed), whenever
/// the file name and the ids are not blank.
pub proof fn lemma_restore_reads_upload(name: Seq<char>, meta: Seq<char>, images: Seq<Seq<char>>)
    requires
        !blank(name),
        !blank(meta),
        forall|i: int| 0 <= i < images.len() ==> !blank(#[trigger] images[i]),
        images.len() <= usize::MAX,
    ensures
        restore_upload(upload_rows_spec(name, RegisteredV::Manga(meta, images))) == Ok::<
            (Seq<char>, Seq<Seq<char>>),
            Seq<char>,
        >((trim(meta), Seq::new(images.len(), |k: int| trim(images[k])))),
{
    let p = upload_rows_spec(name, RegisteredV::Manga(meta, images));
    let kinds = kinds_of(p);
    let b = trim_start(name);
    let ids = Seq::new(images.len(), |k: int| trim(images[k]));
    lemma_bundle_kinds(name, meta, images);
    assert forall|i: int| 0 <= i < ids.len() implies #[trigger] kinds[i + 1] == RowKind::Image(
        b,
        i as usize,
        ids[i],
    ) by {}
    let n = kinds.len() as int;
    lemma_bundle_lists(kinds, b, trim(meta), ids, n);
    lemma_bundle_images(b, ids, ids.len() as int);
    let iv = images_of(image_list(kinds, n), b);
    assert(iv == Seq::new(ids.len(), |j: int| (j as usize, ids[j])));
    assert forall|k: int| 0 <= k < iv.len() implies #[trigger] has_index(iv, k) by {
        assert(iv[k].0 == k);
    }
    assert(dense(iv));
    assert forall|k: int| 0 <= k < ids.len() implies image_id(iv, k) == ids[k] by {
        lemma_image_id_ordered(ids, ids.len() as int, k);
    }
    assert(Seq::new(iv.len(), |k: int| image_id(iv, k)) =~= ids);
}

} // verus!
