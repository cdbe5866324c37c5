use manread::error::ApiError;
use manread::export::{len_to_u32, ExportBuilder, ExportSegment, Piece, SliceState};

fn bytes_of(p: &Piece) -> Vec<u8> {
    match p {
        Piece::Bytes(b) => b.clone(),
        Piece::Object { .. } => panic!("expected bytes"),
    }
}

fn sample() -> manread::export::PreparedExport {
    let mut b = ExportBuilder::new(vec![1, 2, 3], 2).expect("header");
    b.push_image("covers/m.png".to_owned(), Some(5)).expect("image 0");
    b.push_image("arts/m_0.jpg".to_owned(), Some(0)).expect("image 1");
    b.finish().expect("finish")
}

#[test]
fn segment_lengths() {
    assert_eq!(ExportSegment::Bytes(vec![1, 2, 3]).len(), 3);
    assert_eq!(
        ExportSegment::Object {
            key: "k".to_owned(),
            len: 77
        }
        .len(),
        77
    );
}

#[test]
fn container_total_length() {
    // magic 8 + len 4 + metadata 3 + count 4 + (4 + 5) + (4 + 0)
    assert_eq!(sample().total_len(), 32);
}

#[test]
fn full_download_sends_header_then_images() {
    let plan = sample().into_stream(None).expect("plan");
    assert_eq!(plan.range, (0, 31));
    assert_eq!(plan.pieces.len(), 7);
    assert_eq!(bytes_of(&plan.pieces[0]), b"MRMANG01".to_vec());
    assert_eq!(bytes_of(&plan.pieces[1]), vec![3, 0, 0, 0]);
    assert_eq!(bytes_of(&plan.pieces[2]), vec![1, 2, 3]);
    assert_eq!(bytes_of(&plan.pieces[3]), vec![2, 0, 0, 0]);
    assert_eq!(bytes_of(&plan.pieces[4]), vec![5, 0, 0, 0]);
    match &plan.pieces[5] {
        Piece::Object { key, skip, take } => {
            assert_eq!(key, "covers/m.png");
            assert_eq!((*skip, *take), (0, 5));
        }
        _ => panic!("expected an object"),
    }
    // the empty image sends its length only
    assert_eq!(bytes_of(&plan.pieces[6]), vec![0, 0, 0, 0]);
}

#[test]
fn range_download_sends_only_the_range() {
    let plan = sample().into_stream(Some((6, 25))).expect("plan");
    assert_eq!(plan.range, (6, 25));
    assert_eq!(bytes_of(&plan.pieces[0]), b"01".to_vec());
    assert_eq!(bytes_of(&plan.pieces[1]), vec![3, 0, 0, 0]);
    assert_eq!(bytes_of(&plan.pieces[2]), vec![1, 2, 3]);
    assert_eq!(bytes_of(&plan.pieces[3]), vec![2, 0, 0, 0]);
    assert_eq!(bytes_of(&plan.pieces[4]), vec![5, 0, 0, 0]);
    match &plan.pieces[5] {
        Piece::Object { skip, take, .. } => assert_eq!((*skip, *take), (0, 3)),
        _ => panic!("expected an object"),
    }
    assert_eq!(plan.pieces.len(), 6);
}

#[test]
fn range_inside_one_object() {
    let plan = sample().into_stream(Some((24, 25))).expect("plan");
    assert_eq!(plan.pieces.len(), 1);
    match &plan.pieces[0] {
        Piece::Object { skip, take, .. } => assert_eq!((*skip, *take), (1, 2)),
        _ => panic!("expected an object"),
    }
}

#[test]
fn invalid_ranges_are_refused() {
    match sample().into_stream(Some((10, 9))) {
        Err(ApiError::InvalidInput(m)) => assert_eq!(m, "invalid byte range"),
        _ => panic!("expected invalid byte range"),
    }
    match sample().into_stream(Some((0, 32))) {
        Err(ApiError::InvalidInput(m)) => assert_eq!(m, "invalid byte range"),
        _ => panic!("expected invalid byte range"),
    }
}

#[test]
fn image_errors() {
    let mut b = ExportBuilder::new(vec![], 1).expect("header");
    match b.push_image("k".to_owned(), None) {
        Err(ApiError::WriteError(m)) => assert_eq!(m, "missing content length for k"),
        _ => panic!("expected a write error"),
    }
    match b.push_image("k".to_owned(), Some(1u64 << 32)) {
        Err(ApiError::InvalidInput(m)) => assert_eq!(m, "image size exceeds limit for k"),
        _ => panic!("expected invalid input"),
    }
    assert_eq!(b.finish().expect("finish").total_len(), 16);
}

#[test]
fn lengths_to_u32() {
    assert_eq!(len_to_u32(7, "image index").ok(), Some(7));
    assert_eq!(len_to_u32(u32::MAX as usize, "image index").ok(), Some(u32::MAX));
    if usize::BITS > 32 {
        match len_to_u32(u32::MAX as usize + 1, "image index") {
            Err(ApiError::InvalidInput(m)) => assert_eq!(m, "image index exceeds limit"),
            _ => panic!("expected invalid input"),
        }
    }
}

#[test]
fn little_endian_lengths() {
    let mut b = ExportBuilder::new(vec![0; 0x0102], 0x0a0b0c0d).expect("header");
    b.push_image("k".to_owned(), Some(0x01020304)).expect("image");
    let plan = b.finish().expect("finish").into_stream(Some((8, 11))).expect("plan");
    assert_eq!(bytes_of(&plan.pieces[0]), vec![0x02, 0x01, 0, 0]);
}

fn run_slice(chunks: &[&[u8]], skip: u64, remaining: u64) -> Vec<u8> {
    let mut state = SliceState::new(skip, remaining);
    let mut out = vec![];
    for chunk in chunks {
        if state.is_done() {
            break;
        }
        if let Some((from, to)) = state.take_chunk(chunk.len() as u64) {
            out.extend_from_slice(&chunk[from as usize..to as usize]);
        }
    }
    out
}

#[test]
fn slicing_a_stream_sends_the_window() {
    let chunks: &[&[u8]] = &[b"abc", b"", b"defg", b"hi"];
    assert_eq!(run_slice(chunks, 0, 9), b"abcdefghi".to_vec());
    assert_eq!(run_slice(chunks, 2, 4), b"cdef".to_vec());
    assert_eq!(run_slice(chunks, 3, 100), b"defghi".to_vec());
    assert_eq!(run_slice(chunks, 8, 1), b"i".to_vec());
    assert_eq!(run_slice(chunks, 9, 5), b"".to_vec());
}
