//! The `.mrmang` export container: the magic `MRMANG01`, the metadata and
//! every image, each preceded by its length as a little-endian `u32`; and
//! which part of it a (range) download sends.
use vstd::prelude::*;
use crate::error::{ApiError, fails_with, is_write_error};
use crate::text::{append_str, copy_string};
use crate::range::{lemma_range_within, single_range};

verus! {

/// A piece of the container: bytes in memory, or a stored object of known
/// length.
pub enum ExportSegment {
    Bytes(Vec<u8>),
    Object { key: String, len: u64 },
}

/// Mathematical model of an [`ExportSegment`].
pub enum SegmentV {
    Bytes(Seq<u8>),
    Object(Seq<char>, u64),
}

pub open spec fn segment_view(s: ExportSegment) -> SegmentV {
    match s {
        ExportSegment::Bytes(v) => SegmentV::Bytes(v@),
        ExportSegment::Object { key, len } => SegmentV::Object(key@, len),
    }
}

pub open spec fn segments_view(v: Seq<ExportSegment>) -> Seq<SegmentV> {
    Seq::new(v.len(), |i: int| segment_view(v[i]))
}

pub open spec fn seg_len(s: SegmentV) -> nat {
    match s {
        SegmentV::Bytes(b) => b.len(),
        SegmentV::Object(_, len) => len as nat,
    }
}

/// The lengths of the segments.
pub open spec fn lens_of(segs: Seq<SegmentV>) -> Seq<nat> {
    Seq::new(segs.len(), |i: int| seg_len(segs[i]))
}

/// Where segment `n` starts: the sum of the first `n` lengths.
pub open spec fn offset(lens: Seq<nat>, n: int) -> nat
    decreases n,
{
    if n <= 0 || n > lens.len() {
        0
    } else {
        offset(lens, n - 1) + lens[n - 1]
    }
}

/// The length of the whole container.
pub open spec fn total(segs: Seq<SegmentV>) -> nat {
    offset(lens_of(segs), segs.len() as int)
}

impl ExportSegment {
    /// The number of bytes of the segment.
    pub fn len(&self) -> (r: u64)
        ensures
            r == seg_len(segment_view(*self)),
    {
        match self {
            ExportSegment::Bytes(v) => v.len() as u64,
            ExportSegment::Object { len, .. } => *len,
        }
    }
}

/// The magic that opens a container.
pub open spec fn magic() -> Seq<u8> {
    seq![0x4du8, 0x52u8, 0x4du8, 0x41u8, 0x4eu8, 0x47u8, 0x30u8, 0x31u8]
}

/// `x.to_le_bytes()`.
pub open spec fn le32(x: u32) -> Seq<u8> {
    seq![(x % 256) as u8, ((x / 256) % 256) as u8, ((x / 65536) % 256) as u8, (x / 16777216) as u8]
}

/// The value of four little-endian bytes.
pub open spec fn le32_value(b: Seq<u8>) -> int {
    b[0] + 256 * b[1] + 65536 * b[2] + 16777216 * b[3]
}

/// Reading back the four bytes of a length gives the length.
pub proof fn lemma_le32_roundtrip(x: u32)
    ensures
        le32(x).len() == 4,
        le32_value(le32(x)) == x,
{
    let b = le32(x);
    assert(b[0] == x % 256);
    assert(b[1] == (x / 256) % 256);
    assert(b[2] == (x / 65536) % 256);
    assert(b[3] == x / 16777216) by (nonlinear_arith)
        requires
            b[3] == (x / 16777216) as u8,
            x <= u32::MAX,
    {
        assert(x / 16777216 < 256);
    }
    assert(x == x % 256 + 256 * ((x / 256) % 256) + 65536 * ((x / 65536) % 256) + 16777216 * (x
        / 16777216)) by (nonlinear_arith);
}

fn le32_bytes(x: u32) -> (r: Vec<u8>)
    ensures
        r@ == le32(x),
{
    let b3 = x / 16777216;
    assert(b3 < 256) by (nonlinear_arith)
        requires
            b3 == x / 16777216,
            x <= u32::MAX,
    ;
    let r = vec![(x % 256) as u8, ((x / 256) % 256) as u8, ((x / 65536) % 256) as u8, b3 as u8];
    assert(r@ =~= le32(x));
    r
}

fn magic_bytes() -> (r: Vec<u8>)
    ensures
        r@ == magic(),
{
    let r = vec![0x4du8, 0x52u8, 0x4du8, 0x41u8, 0x4eu8, 0x47u8, 0x30u8, 0x31u8];
    assert(r@ =~= magic());
    r
}

/// `len_to_u32`: a count as `u32`, or the error `"{what} exceeds limit"`.
pub fn len_to_u32(len: usize, what: &str) -> (r: Result<u32, ApiError>)
    ensures
        len <= u32::MAX ==> r == Ok::<u32, ApiError>(len as u32),
        len > u32::MAX ==> fails_with(r, what@ + " exceeds limit"@),
{
    if len <= 0xffff_ffffusize {
        Ok(len as u32)
    } else {
        let mut msg = String::new();
        append_str(&mut msg, what);
        append_str(&mut msg, " exceeds limit");
        Err(ApiError::invalid_input_string(&msg))
    }
}

/// The header of a container: magic, metadata length, metadata, image count.
pub open spec fn header(metadata: Seq<u8>, image_count: u32) -> Seq<SegmentV> {
    seq![
        SegmentV::Bytes(magic()),
        SegmentV::Bytes(le32(metadata.len() as u32)),
        SegmentV::Bytes(metadata),
        SegmentV::Bytes(le32(image_count)),
    ]
}

/// The two segments of an image: its length, then its object.
pub open spec fn image_segments(key: Seq<char>, len: u64) -> Seq<SegmentV> {
    seq![SegmentV::Bytes(le32(len as u32)), SegmentV::Object(key, len)]
}

pub open spec fn msg_missing_length(key: Seq<char>) -> Seq<char> {
    "missing content length for "@ + key
}

pub open spec fn msg_image_too_large(key: Seq<char>) -> Seq<char> {
    "image size exceeds limit for "@ + key
}

/// A container being put together, header first, then image by image.
pub struct ExportBuilder {
    segments: Vec<ExportSegment>,
}

impl View for ExportBuilder {
    type V = Seq<SegmentV>;

    closed spec fn view(&self) -> Seq<SegmentV> {
        segments_view(self.segments@)
    }
}

impl ExportBuilder {
    /// Starts a container with the metadata and the number of images to
    /// follow.
    pub fn new(metadata: Vec<u8>, image_count: usize) -> (r: Result<ExportBuilder, ApiError>)
        ensures
            metadata@.len() > u32::MAX ==> fails_with(r, "metadata size exceeds limit"@),
            metadata@.len() <= u32::MAX && image_count > u32::MAX ==> fails_with(
                r,
                "image count exceeds limit"@,
            ),
            metadata@.len() <= u32::MAX && image_count <= u32::MAX ==> (r matches Ok(b) && b@
                == header(metadata@, image_count as u32)),
    {
        proof {
            reveal_strlit("metadata size");
            reveal_strlit("image count");
            reveal_strlit(" exceeds limit");
            reveal_strlit("metadata size exceeds limit");
            reveal_strlit("image count exceeds limit");
            assert("metadata size"@ + " exceeds limit"@ =~= "metadata size exceeds limit"@);
            assert("image count"@ + " exceeds limit"@ =~= "image count exceeds limit"@);
        }
        let meta_len = match len_to_u32(metadata.len(), "metadata size") {
            Ok(n) => n,
            Err(e) => {
                return Err(e);
            },
        };
        let count = match len_to_u32(image_count, "image count") {
            Ok(n) => n,
            Err(e) => {
                return Err(e);
            },
        };
        let ghost meta = metadata@;
        let mut segments: Vec<ExportSegment> = Vec::new();
        segments.push(ExportSegment::Bytes(magic_bytes()));
        segments.push(ExportSegment::Bytes(le32_bytes(meta_len)));
        segments.push(ExportSegment::Bytes(metadata));
        segments.push(ExportSegment::Bytes(le32_bytes(count)));
        let b = ExportBuilder { segments };
        assert(b@ =~= header(meta, image_count as u32));
        Ok(b)
    }

    /// Appends an image: its stored key and the content length the store
    /// reported.
    pub fn push_image(&mut self, key: String, len: Option<u64>) -> (r: Result<(), ApiError>)
        ensures
            match len {
                None => is_write_error_result(r, msg_missing_length(key@)) && final(self)@ == old(
                    self,
                )@,
                Some(n) => if n > u32::MAX {
                    fails_with(r, msg_image_too_large(key@)) && final(self)@ == old(self)@
                } else {
                    r is Ok && final(self)@ == old(self)@ + image_segments(key@, n)
                },
            },
    {
        let n = match len {
            None => {
                let mut msg = String::new();
                append_str(&mut msg, "missing content length for ");
                append_str(&mut msg, key.as_str());
                return Err(ApiError::write_error_string(&msg));
            },
            Some(n) => n,
        };
        if n > 0xffff_ffffu64 {
            let mut msg = String::new();
            append_str(&mut msg, "image size exceeds limit for ");
            append_str(&mut msg, key.as_str());
            return Err(ApiError::invalid_input_string(&msg));
        }
        let ghost before = self@;
        let ghost k = key@;
        self.segments.push(ExportSegment::Bytes(le32_bytes(n as u32)));
        self.segments.push(ExportSegment::Object { key, len: n });
        assert(self@ =~= before + image_segments(k, n));
        Ok(())
    }

    /// The finished container, or the error `export payload too large` when
    /// its length does not fit in a `u64`.
    pub fn finish(self) -> (r: Result<PreparedExport, ApiError>)
        ensures
            total(self@) > u64::MAX ==> is_write_error_result(r, "export payload too large"@),
            total(self@) <= u64::MAX ==> (r matches Ok(p) && p@ == self@),
    {
        let ghost segs = self@;
        let ghost lens = lens_of(segs);
        let mut sum: u64 = 0;
        let mut i: usize = 0;
        while i < self.segments.len()
            invariant
                segs == segments_view(self.segments@),
                lens == lens_of(segs),
                i <= self.segments.len(),
                sum == offset(lens, i as int),
            decreases self.segments.len() - i,
        {
            let l = self.segments[i].len();
            proof {
                lemma_offset_mono(lens, i + 1, lens.len() as int);
            }
            match sum.checked_add(l) {
                None => {
                    proof {
                        lemma_offset_mono(lens, i + 1, lens.len() as int);
                    }
                    return Err(ApiError::write_error("export payload too large"));
                },
                Some(s) => {
                    sum = s;
                },
            }
            i = i + 1;
        }
        Ok(PreparedExport { segments: self.segments, total_len: sum })
    }
}

/// `r` failed with the write error `msg`.
pub open spec fn is_write_error_result<T>(r: Result<T, ApiError>, msg: Seq<char>) -> bool {
    r matches Err(e) && is_write_error(e, msg)
}

/// Offsets grow with the number of segments counted.
pub proof fn lemma_offset_mono(lens: Seq<nat>, a: int, b: int)
    requires
        0 <= a <= b <= lens.len(),
    ensures
        offset(lens, a) <= offset(lens, b),
    decreases b - a,
{
    if a < b {
        lemma_offset_mono(lens, a, b - 1);
    }
}

/// A container ready to be sent: its segments and their total length.
pub struct PreparedExport {
    segments: Vec<ExportSegment>,
    total_len: u64,
}

impl View for PreparedExport {
    type V = Seq<SegmentV>;

    closed spec fn view(&self) -> Seq<SegmentV> {
        segments_view(self.segments@)
    }
}

impl PreparedExport {
    #[verifier::type_invariant]
    spec fn inv(self) -> bool {
        self.total_len == total(segments_view(self.segments@))
    }

    /// The length of the whole container.
    pub fn total_len(&self) -> (r: u64)
        ensures
            r == total(self@),
    {
        proof {
            use_type_invariant(self);
        }
        self.total_len
    }
}

/// The parts `(segment, skip, take)` of the first `n` segments that the
/// bytes `start..=end` of the container fall in, in order. Empty segments
/// send nothing.
pub open spec fn spans(lens: Seq<nat>, n: int, start: int, end: int) -> Seq<(int, int, int)>
    decreases n,
{
    if n <= 0 || n > lens.len() {
        seq![]
    } else {
        let prev = spans(lens, n - 1, start, end);
        let c = offset(lens, n - 1);
        let l = lens[n - 1];
        if l > 0 && c <= end && start < c + l {
            let ls = if start > c {
                start - c
            } else {
                0
            };
            let le = if end < c + l - 1 {
                end - c
            } else {
                l - 1
            };
            prev.push((n - 1, ls, le - ls + 1))
        } else {
            prev
        }
    }
}

/// The byte positions `(segment, offset)` of the first `n` segments, in
/// order.
pub open spec fn positions(lens: Seq<nat>, n: int) -> Seq<(int, int)>
    decreases n,
{
    if n <= 0 || n > lens.len() {
        seq![]
    } else {
        positions(lens, n - 1) + Seq::new(lens[n - 1], |o: int| (n - 1, o))
    }
}

/// The byte positions a list of spans sends, in order.
pub open spec fn covered(sp: Seq<(int, int, int)>) -> Seq<(int, int)>
    decreases sp.len(),
{
    if sp.len() == 0 {
        seq![]
    } else {
        let (seg, skip, take) = sp.last();
        covered(sp.drop_last()) + Seq::new(take as nat, |o: int| (seg, skip + o))
    }
}

/// What the download of the bytes `start..=end` sends of one segment.
pub enum Piece {
    /// These bytes, from memory.
    Bytes(Vec<u8>),
    /// `take` bytes of the stored object `key`, after skipping `skip`.
    Object { key: String, skip: u64, take: u64 },
}

/// The piece `p` is span `sp` of segment `seg`.
pub open spec fn piece_matches(p: Piece, seg: SegmentV, sp: (int, int, int)) -> bool {
    match p {
        Piece::Bytes(data) => seg matches SegmentV::Bytes(b) && data@ == b.subrange(
            sp.1,
            sp.1 + sp.2,
        ),
        Piece::Object { key, skip, take } => seg matches SegmentV::Object(k, _) && key@ == k
            && skip == sp.1 && take == sp.2,
    }
}

/// What a download sends: the pieces, and the range `(start, end)` of the
/// container they make up.
pub struct ExportOutput {
    pub pieces: Vec<Piece>,
    pub range: (u64, u64),
}

impl PreparedExport {
    /// The pieces that send the bytes `start..=end` of the container (all of
    /// it when no range is given). Fails with the write error
    /// `empty export payload` on an empty container and with
    /// `invalid byte range` on a range that is reversed or reaches past the
    /// end.
    pub fn into_stream(&self, range: Option<(u64, u64)>) -> (r: Result<ExportOutput, ApiError>)
        ensures
            total(self@) == 0 ==> is_write_error_result(r, "empty export payload"@),
            total(self@) > 0 ==> match range {
                Some((s, e)) if s > e || e >= total(self@) => fails_with(
                    r,
                    "invalid byte range"@,
                ),
                _ => r matches Ok(plan) && ({
                    let (s, e) = match range {
                        Some(x) => x,
                        None => (0u64, (total(self@) - 1) as u64),
                    };
                    let sp = spans(lens_of(self@), self@.len() as int, s as int, e as int);
                    &&& plan.range == (s, e)
                    &&& plan.pieces@.len() == sp.len()
                    &&& forall|k: int|
                        0 <= k < sp.len() ==> piece_matches(
                            #[trigger] plan.pieces@[k],
                            self@[sp[k].0],
                            sp[k],
                        )
                }),
            },
    {
        proof {
            use_type_invariant(self);
        }
        let total_len = self.total_len;
        if total_len == 0 {
            return Err(ApiError::write_error("empty export payload"));
        }
        let (start, end) = match range {
            Some(x) => x,
            None => (0u64, total_len - 1),
        };
        if start > end || end >= total_len {
            return Err(ApiError::invalid_input("invalid byte range"));
        }
        let ghost segs = self@;
        let ghost lens = lens_of(segs);
        let mut pieces: Vec<Piece> = Vec::new();
        let mut cursor: u64 = 0;
        let mut i: usize = 0;
        while i < self.segments.len()
            invariant
                segs == segments_view(self.segments@),
                lens == lens_of(segs),
                total_len == total(segs),
                start <= end < total_len,
                i <= self.segments.len(),
                cursor == offset(lens, i as int),
                pieces@.len() == spans(lens, i as int, start as int, end as int).len(),
                forall|k: int|
                    0 <= k < pieces@.len() ==> piece_matches(
                        #[trigger] pieces@[k],
                        segs[spans(lens, i as int, start as int, end as int)[k].0],
                        spans(lens, i as int, start as int, end as int)[k],
                    ),
            decreases self.segments.len() - i,
        {
            let ghost prev = spans(lens, i as int, start as int, end as int);
            let seg = &self.segments[i];
            let seg_len = seg.len();
            proof {
                lemma_offset_mono(lens, i + 1, lens.len() as int);
            }
            let seg_start = cursor;
            cursor = cursor + seg_len;
            if seg_len > 0 && seg_start <= end && start < cursor {
                let local_start = if start > seg_start {
                    start - seg_start
                } else {
                    0
                };
                let local_end = if end < cursor - 1 {
                    end - seg_start
                } else {
                    seg_len - 1
                };
                let take = local_end - local_start + 1;
                let ghost sp = (i as int, local_start as int, take as int);
                assert(spans(lens, i + 1, start as int, end as int) == prev.push(sp));
                match seg {
                    ExportSegment::Bytes(bytes) => {
                        let blen = bytes.len();
                        assert(local_end < blen);
                        let a = local_start as usize;
                        let b = (local_end + 1) as usize;
                        assert(a == local_start && b == local_end + 1);
                        let mut data: Vec<u8> = Vec::new();
                        let mut j = a;
                        while j < b
                            invariant
                                a <= j <= b <= bytes@.len(),
                                data@ == bytes@.subrange(a as int, j as int),
                            decreases b - j,
                        {
                            data.push(bytes[j]);
                            j = j + 1;
                            assert(data@ =~= bytes@.subrange(a as int, j as int));
                        }
                        pieces.push(Piece::Bytes(data));
                    },
                    ExportSegment::Object { key, .. } => {
                        pieces.push(Piece::Object { key: copy_string(key), skip: local_start, take });
                    },
                }
            } else {
                assert(spans(lens, i + 1, start as int, end as int) == prev);
            }
            i = i + 1;
        }
        Ok(ExportOutput { pieces, range: (start, end) })
    }
}

proof fn lemma_positions_len(lens: Seq<nat>, n: int)
    requires
        0 <= n <= lens.len(),
    ensures
        positions(lens, n).len() == offset(lens, n),
    decreases n,
{
    if n > 0 {
        lemma_positions_len(lens, n - 1);
    }
}

proof fn lemma_subrange_concat<A>(p: Seq<A>, q: Seq<A>, a: int, b: int)
    requires
        0 <= a <= b <= p.len() + q.len(),
    ensures
        (p + q).subrange(a, b) == p.subrange(
            if a < p.len() { a } else { p.len() as int },
            if b < p.len() { b } else { p.len() as int },
        ) + q.subrange(
            if a > p.len() { a - p.len() } else { 0 },
            if b > p.len() { b - p.len() } else { 0 },
        ),
{
    let pa = if a < p.len() { a } else { p.len() as int };
    let pb = if b < p.len() { b } else { p.len() as int };
    let qa = if a > p.len() { a - p.len() } else { 0 };
    let qb = if b > p.len() { b - p.len() } else { 0 };
    assert((p + q).subrange(a, b) =~= p.subrange(pa, pb) + q.subrange(qa, qb));
}

/// The spans of the first `n` segments send exactly the bytes of the range
/// that lie in those segments, in order.
proof fn lemma_spans_cover(lens: Seq<nat>, n: int, start: int, end: int)
    requires
        0 <= n <= lens.len(),
        0 <= start <= end,
    ensures
        covered(spans(lens, n, start, end)) == positions(lens, n).subrange(
            if start < offset(lens, n) { start } else { offset(lens, n) as int },
            if end + 1 < offset(lens, n) { end + 1 } else { offset(lens, n) as int },
        ),
    decreases n,
{
    lemma_positions_len(lens, n);
    if n == 0 {
        assert(positions(lens, 0).subrange(0, 0) =~= Seq::<(int, int)>::empty());
    } else {
        lemma_spans_cover(lens, n - 1, start, end);
        lemma_positions_len(lens, n - 1);
        let c = offset(lens, n - 1) as int;
        let l = lens[n - 1] as int;
        let t = c + l;
        let p = positions(lens, n - 1);
        let q = Seq::new(lens[n - 1], |o: int| (n - 1, o));
        let a = if start < t { start } else { t };
        let b = if end + 1 < t { end + 1 } else { t };
        lemma_subrange_concat(p, q, a, b);
        let qa = if a > c { a - c } else { 0 };
        let qb = if b > c { b - c } else { 0 };
        if l > 0 && c <= end && start < t {
            let ls = if start > c { start - c } else { 0 };
            let le = if end < t - 1 { end - c } else { l - 1 };
            assert(qa == ls);
            assert(qb == le + 1);
            let sp = spans(lens, n, start, end);
            assert(sp.drop_last() == spans(lens, n - 1, start, end));
            assert(q.subrange(qa, qb) =~= Seq::new((le - ls + 1) as nat, |o: int| (n - 1, ls + o)));
        } else {
            assert(q.subrange(qa, qb) =~= Seq::<(int, int)>::empty());
        }
    }
}

/// A download of the bytes `start..=end` of a container sends exactly those
/// bytes, each once, in order.
pub proof fn lemma_plan_sends_range(segs: Seq<SegmentV>, start: int, end: int)
    requires
        0 <= start <= end < total(segs),
    ensures
        covered(spans(lens_of(segs), segs.len() as int, start, end)) == positions(
            lens_of(segs),
            segs.len() as int,
        ).subrange(start, end + 1),
{
    lemma_spans_cover(lens_of(segs), segs.len() as int, start, end);
}

/// Sending `remaining` bytes of a stored object after skipping its first
/// `skip` bytes, as its chunks arrive.
pub struct SliceState {
    pub skip: u64,
    pub remaining: u64,
}

/// One chunk of `len` bytes arrives: the new `skip` and `remaining`, and the
/// part `[from, to)` of the chunk to send (`None`: drop the chunk).
pub open spec fn slice_step(skip: nat, rem: nat, len: nat) -> (nat, nat, Option<(nat, nat)>) {
    if skip >= len {
        ((skip - len) as nat, rem, None)
    } else if rem < len - skip {
        (0, 0, Some((skip, skip + rem)))
    } else {
        (0, (rem - (len - skip)) as nat, Some((skip, len)))
    }
}

impl SliceState {
    /// Starts slicing: skip `skip` bytes, then send `remaining`.
    pub fn new(skip: u64, remaining: u64) -> (r: Self)
        ensures
            r.skip == skip,
            r.remaining == remaining,
    {
        SliceState { skip, remaining }
    }

    /// Everything has been sent: the stream ends.
    pub fn is_done(&self) -> (r: bool)
        ensures
            r == (self.remaining == 0),
    {
        self.remaining == 0
    }

    /// Takes the next chunk, of `chunk_len` bytes, and says which part of it
    /// to send.
    pub fn take_chunk(&mut self, chunk_len: u64) -> (r: Option<(u64, u64)>)
        requires
            old(self).remaining > 0,
        ensures
            ({
                let (s, m, out) = slice_step(
                    old(self).skip as nat,
                    old(self).remaining as nat,
                    chunk_len as nat,
                );
                &&& final(self).skip == s
                &&& final(self).remaining == m
                &&& match out {
                    None => r is None,
                    Some((f, t)) => r matches Some((a, b)) && a == f && b == t,
                }
            }),
    {
        if self.skip >= chunk_len {
            self.skip = self.skip - chunk_len;
            return None;
        }
        let from = self.skip;
        self.skip = 0;
        let avail = chunk_len - from;
        if self.remaining < avail {
            let to = from + self.remaining;
            self.remaining = 0;
            Some((from, to))
        } else {
            self.remaining = self.remaining - avail;
            Some((from, chunk_len))
        }
    }
}

/// The byte positions `(chunk, offset)` of a run of chunks, numbered from
/// `base`.
pub open spec fn chunk_positions(lens: Seq<nat>, base: int) -> Seq<(int, int)>
    decreases lens.len(),
{
    if lens.len() == 0 {
        seq![]
    } else {
        Seq::new(lens[0], |o: int| (base, o)) + chunk_positions(lens.drop_first(), base + 1)
    }
}

/// The byte positions sent by running [`SliceState`] over chunks of the
/// given lengths.
pub open spec fn sliced(lens: Seq<nat>, skip: nat, rem: nat, base: int) -> Seq<(int, int)>
    decreases lens.len(),
{
    if rem == 0 || lens.len() == 0 {
        seq![]
    } else {
        let (s2, r2, out) = slice_step(skip, rem, lens[0]);
        let here = match out {
            None => seq![],
            Some((f, t)) => Seq::new((t - f) as nat, |o: int| (base, f + o)),
        };
        here + sliced(lens.drop_first(), s2, r2, base + 1)
    }
}

/// The sum of the lengths.
pub open spec fn sum_lens(lens: Seq<nat>) -> nat
    decreases lens.len(),
{
    if lens.len() == 0 {
        0
    } else {
        lens[0] + sum_lens(lens.drop_first())
    }
}

proof fn lemma_chunk_positions_len(lens: Seq<nat>, base: int)
    ensures
        chunk_positions(lens, base).len() == sum_lens(lens),
    decreases lens.len(),
{
    if lens.len() > 0 {
        lemma_chunk_positions_len(lens.drop_first(), base + 1);
    }
}

/// Slicing a stream sends exactly its bytes `skip..skip + remaining` (as far
/// as the stream reaches), each once, in order.
pub proof fn lemma_slice_sends_window(lens: Seq<nat>, skip: nat, rem: nat, base: int)
    ensures
        sliced(lens, skip, rem, base) == chunk_positions(lens, base).subrange(
            if skip < sum_lens(lens) { skip as int } else { sum_lens(lens) as int },
            if skip + rem < sum_lens(lens) { (skip + rem) as int } else { sum_lens(lens) as int },
        ),
    decreases lens.len(),
{
    lemma_chunk_positions_len(lens, base);
    let t = sum_lens(lens) as int;
    let a = if skip < t { skip as int } else { t };
    let b = if skip + rem < t { (skip + rem) as int } else { t };
    if lens.len() == 0 {
        assert(chunk_positions(lens, base).subrange(a, b) =~= Seq::<(int, int)>::empty());
    } else if rem == 0 {
        assert(chunk_positions(lens, base).subrange(a, b) =~= Seq::<(int, int)>::empty());
    } else {
        let l0 = lens[0] as int;
        let q0 = Seq::new(lens[0], |o: int| (base, o));
        let rest = lens.drop_first();
        lemma_chunk_positions_len(rest, base + 1);
        lemma_subrange_concat(q0, chunk_positions(rest, base + 1), a, b);
        let (s2, r2, out) = slice_step(skip, rem, lens[0]);
        lemma_slice_sends_window(rest, s2, r2, base + 1);
        if skip >= l0 {
            assert(q0.subrange(l0, l0) =~= Seq::<(int, int)>::empty());
        } else if rem < l0 - skip {
            assert(q0.subrange(skip as int, (skip + rem) as int) =~= Seq::new(
                rem,
                |o: int| (base, skip + o),
            ));
            assert(chunk_positions(rest, base + 1).subrange(0, 0) =~= Seq::<(int, int)>::empty());
        } else {
            assert(q0.subrange(skip as int, l0) =~= Seq::new(
                (l0 - skip) as nat,
                |o: int| (base, skip + o),
            ));
        }
    }
}

/// A download with a `Range` header that parses sends exactly the bytes the
/// header asks for, each once, in order: the range lies inside the
/// container, so the download is not refused.
pub proof fn lemma_range_download(value: Option<Seq<char>>, segs: Seq<SegmentV>)
    requires
        0 < total(segs) <= u64::MAX,
        single_range(value, total(segs) as u64) is Some,
    ensures
        ({
            let (s, e) = single_range(value, total(segs) as u64)->0;
            &&& s <= e < total(segs)
            &&& covered(spans(lens_of(segs), segs.len() as int, s as int, e as int)) == positions(
                lens_of(segs),
                segs.len() as int,
            ).subrange(s as int, e + 1)
        }),
{
    lemma_range_within(value, total(segs) as u64);
    let (s, e) = single_range(value, total(segs) as u64)->0;
    lemma_plan_sends_range(segs, s as int, e as int);
}

} // verus!
