use manread::refs::RestoreStep;
use manread::error::ApiError;
use manread::refs::{BundleRefs, FilePool};

fn message<T: std::fmt::Debug>(r: Result<T, ApiError>) -> String {
    match r {
        Err(ApiError::InvalidInput(m)) => m,
        other => panic!("expected invalid input, got {:?}", other),
    }
}

fn refs(covers: Vec<u32>, arts: Vec<u32>, chapters: Vec<Vec<Vec<u32>>>) -> BundleRefs {
    BundleRefs {
        cover_image_indexes: covers,
        art_image_indexes: arts,
        chapters,
    }
}

#[test]
fn first_cover_comes_from_covers_then_arts_then_pages() {
    assert_eq!(refs(vec![3, 1], vec![2], vec![]).create_cover_index().ok(), Some(3));
    assert_eq!(refs(vec![], vec![2, 0], vec![]).create_cover_index().ok(), Some(2));
    assert_eq!(
        refs(vec![], vec![], vec![vec![vec![], vec![4, 5]], vec![vec![1]]]).create_cover_index().ok(),
        Some(4)
    );
    assert_eq!(
        message(refs(vec![], vec![], vec![vec![vec![]]]).create_cover_index()),
        "restore metadata has no images"
    );
}

#[test]
fn reference_counts() {
    let r = refs(vec![0], vec![1], vec![vec![vec![2, 0], vec![2]]]);
    assert_eq!(r.image_ref_counts(3).ok(), Some(vec![2, 1, 2]));
    // without covers, the first image counts once more as the new cover
    let r = refs(vec![], vec![1], vec![vec![vec![0]]]);
    assert_eq!(r.image_ref_counts(2).ok(), Some(vec![1, 2]));
}

#[test]
fn reference_errors() {
    let r = refs(vec![0], vec![], vec![vec![vec![5]]]);
    assert_eq!(
        message(r.image_ref_counts(2)),
        "metadata references image index that was not uploaded"
    );
    let r = refs(vec![0], vec![], vec![]);
    assert_eq!(
        message(r.image_ref_counts(2)),
        "upload response contains image ids not referenced by metadata"
    );
}

#[test]
fn pool_hands_out_prepared_files() {
    let mut pool = FilePool::new(vec![
        vec!["a1".to_owned(), "a2".to_owned()],
        vec![],
    ]);
    assert_eq!(pool.take(0).ok(), Some("a2".to_owned()));
    assert_eq!(pool.take(0).ok(), Some("a1".to_owned()));
    assert_eq!(message(pool.take(0)), "missing referenced image payload");
    assert_eq!(message(pool.take(1)), "missing referenced image payload");
    assert_eq!(message(pool.take(7)), "missing referenced image payload");
}

#[test]
fn every_reference_gets_a_file() {
    let r = refs(vec![1, 0], vec![0], vec![vec![vec![1, 2]]]);
    let counts = r.image_ref_counts(3).expect("counts");
    let mut pool = FilePool::new(
        counts
            .iter()
            .enumerate()
            .map(|(i, c)| (0..*c).map(|k| format!("f{i}-{k}")).collect())
            .collect(),
    );
    let cover = r.create_cover_index().unwrap();
    let mut takes = vec![cover];
    takes.extend_from_slice(&r.cover_image_indexes[1..]);
    takes.extend_from_slice(&r.art_image_indexes);
    for c in &r.chapters {
        for v in c {
            takes.extend_from_slice(v);
        }
    }
    for t in takes {
        assert!(pool.take(t).is_ok());
    }
    assert!(pool.slots.iter().all(|s| s.is_empty()));
}

fn show(steps: &[manread::refs::RestoreStep]) -> Vec<String> {
    steps
        .iter()
        .map(|s| match s {
            RestoreStep::Create { cover } => format!("create {cover}"),
            RestoreStep::AddCover { image } => format!("cover {image}"),
            RestoreStep::AddArt { image } => format!("art {image}"),
            RestoreStep::AddVersion {
                chapter,
                version,
                images,
            } => format!("version {chapter}.{version} {images:?}"),
            RestoreStep::Fail(ApiError::InvalidInput(m)) => format!("fail {m}"),
            RestoreStep::Fail(e) => format!("fail {e:?}"),
        })
        .collect()
}

#[test]
fn restore_steps_in_order() {
    let r = refs(vec![2, 1], vec![0], vec![vec![vec![3], vec![4, 5]], vec![vec![6]]]);
    let steps = r.restore_steps(2, &vec![true, true]);
    assert_eq!(
        show(&steps),
        vec![
            "create 2",
            "cover 1",
            "art 0",
            "version 0.0 [3]",
            "version 0.1 [4, 5]",
            "version 1.0 [6]"
        ]
    );
}

#[test]
fn restore_steps_stop_at_invalid_chapters() {
    let r = refs(vec![0], vec![], vec![vec![vec![1], vec![]], vec![vec![2]]]);
    assert_eq!(
        show(&r.restore_steps(0, &vec![true, true])),
        vec![
            "create 0",
            "version 0.0 [1]",
            "fail restore metadata contains empty chapter version pages"
        ]
    );
    assert_eq!(
        show(&r.restore_steps(0, &vec![false, true])),
        vec!["create 0", "fail restore metadata contains invalid chapter number"]
    );
    let r = refs(vec![0], vec![], vec![vec![]]);
    assert_eq!(
        show(&r.restore_steps(0, &vec![true])),
        vec!["create 0", "fail restore metadata contains chapter without versions"]
    );
}
