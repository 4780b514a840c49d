use photosync::digest::digest;
use photosync::digest::Sha256Hash;
use photosync::store::ExistsInOldTargetResult;
use photosync::store::FileTime;
use photosync::store::PhotoSyncStore;
use photosync::store::StoreError;
use photosync::store::WasTransferredFromSourceResult;
use photosync::sync::could_not_transfer;
use photosync::sync::detect_new_files;
use photosync::sync::ensure_old_out_dir_properly_indexed;
use photosync::sync::index_old_file;
use photosync::sync::old_files_to_hash;
use photosync::sync::transfer_new_file;
use photosync::sync::transfer_new_files;
use photosync::sync::transfer_volume;
use photosync::sync::Candidate;
use photosync::sync::FileOutcome;
use photosync::sync::HashedFile;
use photosync::sync::IndexError;
use photosync::sync::IndexFault;
use photosync::sync::ScanError;
use photosync::sync::ScannedFile;
use photosync::sync::Staged;
use photosync::sync::TransferError;
use photosync::sync::TransferVolume;
use photosync::sync::PUBLISHED_MODE;

fn secs(secs: i64) -> FileTime {
    FileTime { before_epoch: secs < 0, secs: secs.unsigned_abs(), nanos: 0 }
}

fn scanned(path: &str, mtime: i64, size: u64) -> ScannedFile {
    ScannedFile { path: path.to_string(), last_modified: secs(mtime), size }
}

fn hashed(path: &str, mtime: i64, size: u64, digest: Sha256Hash) -> HashedFile {
    HashedFile { file: scanned(path, mtime, size), digest }
}

fn copied(path: &str, mtime: i64, content: &[u8]) -> Candidate {
    Candidate {
        path: path.to_string(),
        staged: Staged::Copied {
            digest: digest(content),
            last_modified: secs(mtime),
            size: content.len() as u64,
        },
    }
}

fn row_of(store: &PhotoSyncStore, path: &str) -> (i64, u64, Sha256Hash) {
    let row = store.old_target_row(path).unwrap();
    (row.mtime, row.size, row.digest)
}

fn d(n: u8) -> Sha256Hash {
    Sha256Hash::new_for_tests(n)
}

#[test]
fn every_file_of_an_unindexed_archive_needs_hashing() {
    let store = PhotoSyncStore::new();
    let files = vec![scanned("a", 1, 1), scanned("b", 2, 2), scanned("c", 3, 3)];
    assert_eq!(old_files_to_hash(&store, &files), Ok(vec![0, 1, 2]));
    assert_eq!(old_files_to_hash(&store, &Vec::new()), Ok(Vec::new()));
}

#[test]
fn only_unknown_and_stale_files_need_hashing() {
    let mut store = PhotoSyncStore::new();
    store.mark_exists_in_old_target("a", secs(1), 1, &d(1)).unwrap();
    store.mark_exists_in_old_target("c", secs(3), 3, &d(3)).unwrap();
    let files = vec![scanned("a", 1, 1), scanned("b", 2, 2), scanned("c", 4, 3), scanned("d", 1, 1)];
    assert_eq!(old_files_to_hash(&store, &files), Ok(vec![1, 2, 3]));
}

#[test]
fn planning_stops_at_a_time_before_the_epoch() {
    let store = PhotoSyncStore::new();
    let files = vec![scanned("a", 1, 1), scanned("b", -2, 2), scanned("c", 3, 3)];
    assert_eq!(
        old_files_to_hash(&store, &files),
        Err(ScanError { index: 1, error: StoreError::TimeBeforeEpoch })
    );
}

#[test]
fn unknown_files_are_recorded() {
    let mut store = PhotoSyncStore::new();
    let files = vec![hashed("a", 1, 10, d(1)), hashed("b", 2, 20, d(2))];
    assert_eq!(ensure_old_out_dir_properly_indexed(&mut store, &files), Ok(()));
    assert_eq!(row_of(&store, "a"), (1, 10, d(1)));
    assert_eq!(row_of(&store, "b"), (2, 20, d(2)));
    assert!(store.exists_in_target(&d(1)));
    assert!(store.exists_in_target(&d(2)));
    assert!(store.source_row("a").is_none());
}

#[test]
fn current_files_are_left_alone() {
    let mut store = PhotoSyncStore::new();
    store.mark_exists_in_old_target("a", secs(1), 10, &d(1)).unwrap();
    assert_eq!(index_old_file(&mut store, &hashed("a", 1, 10, d(9))), Ok(()));
    assert_eq!(row_of(&store, "a"), (1, 10, d(1)));
}

#[test]
fn indexing_twice_adds_nothing_and_raises_no_error() {
    let mut store = PhotoSyncStore::new();
    let scan = vec![scanned("a", 1, 10), scanned("b", 2, 20), scanned("c/d", 3, 30)];
    let files = vec![hashed("a", 1, 10, d(1)), hashed("b", 2, 20, d(2)), hashed("c/d", 3, 30, d(1))];

    assert_eq!(old_files_to_hash(&store, &scan), Ok(vec![0, 1, 2]));
    assert_eq!(ensure_old_out_dir_properly_indexed(&mut store, &files), Ok(()));
    let first = [row_of(&store, "a"), row_of(&store, "b"), row_of(&store, "c/d")];

    assert_eq!(old_files_to_hash(&store, &scan), Ok(Vec::new()));
    assert_eq!(ensure_old_out_dir_properly_indexed(&mut store, &files), Ok(()));
    let second = [row_of(&store, "a"), row_of(&store, "b"), row_of(&store, "c/d")];
    assert_eq!(first, second);
    assert_eq!(first, [(1, 10, d(1)), (2, 20, d(2)), (3, 30, d(1))]);
}

#[test]
fn touched_file_with_same_content_is_refreshed() {
    let mut store = PhotoSyncStore::new();
    let content = digest(b"bytes of c.jpg");
    store.mark_exists_in_old_target("c.jpg", secs(100), 14, &content).unwrap();

    match store.exists_in_old_target("c.jpg", secs(250), 14).unwrap() {
        ExistsInOldTargetResult::Stale { last_modified, size, digest } => {
            assert_eq!((last_modified, size, digest), (secs(100), 14, content));
        }
        other => panic!("expected Stale, got {:?}", other),
    }
    assert_eq!(
        ensure_old_out_dir_properly_indexed(&mut store, &vec![hashed("c.jpg", 250, 14, content)]),
        Ok(())
    );
    assert_eq!(row_of(&store, "c.jpg"), (250, 14, content));
    assert!(matches!(
        store.exists_in_old_target("c.jpg", secs(250), 14).unwrap(),
        ExistsInOldTargetResult::Current
    ));
}

#[test]
fn rewritten_file_stops_indexing_before_later_files() {
    let mut store = PhotoSyncStore::new();
    store.mark_exists_in_old_target("b", secs(2), 20, &d(2)).unwrap();
    let files = vec![
        hashed("a", 1, 10, d(1)),
        hashed("b", 2, 21, d(7)),
        hashed("c", 3, 30, d(3)),
    ];
    assert_eq!(
        ensure_old_out_dir_properly_indexed(&mut store, &files),
        Err(IndexError { index: 1, fault: IndexFault::Rewritten })
    );
    assert_eq!(row_of(&store, "a"), (1, 10, d(1)));
    assert_eq!(row_of(&store, "b"), (2, 20, d(2)));
    assert!(store.old_target_row("c").is_none());
    assert!(!store.exists_in_target(&d(7)));
}

#[test]
fn resized_file_with_recorded_digest_is_refreshed_silently() {
    let mut store = PhotoSyncStore::new();
    store.mark_exists_in_old_target("b", secs(2), 20, &d(2)).unwrap();
    assert_eq!(index_old_file(&mut store, &hashed("b", 2, 21, d(2))), Ok(()));
    assert_eq!(row_of(&store, "b"), (2, 21, d(2)));
}

#[test]
fn rewritten_file_leaves_its_row_as_it_was() {
    let mut store = PhotoSyncStore::new();
    store.mark_exists_in_old_target("b", secs(2), 20, &d(2)).unwrap();
    assert_eq!(index_old_file(&mut store, &hashed("b", 9, 20, d(3))), Err(IndexFault::Rewritten));
    assert_eq!(row_of(&store, "b"), (2, 20, d(2)));
}

#[test]
fn indexing_stops_at_a_time_before_the_epoch() {
    let mut store = PhotoSyncStore::new();
    let files = vec![hashed("a", 1, 10, d(1)), hashed("b", -1, 20, d(2)), hashed("c", 3, 30, d(3))];
    assert_eq!(
        ensure_old_out_dir_properly_indexed(&mut store, &files),
        Err(IndexError { index: 1, fault: IndexFault::Store(StoreError::TimeBeforeEpoch) })
    );
    assert_eq!(row_of(&store, "a"), (1, 10, d(1)));
    assert!(store.old_target_row("b").is_none());
    assert!(store.old_target_row("c").is_none());
}

#[test]
fn detection_sorts_files_in_the_order_seen() {
    let mut store = PhotoSyncStore::new();
    store.mark_transferred_from_source("done.jpg", &d(1), secs(10), 100).unwrap();
    store.mark_transferred_from_source("touched.jpg", &d(2), secs(20), 200).unwrap();
    store.mark_transferred_from_source("grown.jpg", &d(3), secs(30), 300).unwrap();
    // The old archive is no part of the transfer record.
    store.mark_exists_in_old_target("z.jpg", secs(5), 5, &d(5)).unwrap();

    let files = vec![
        scanned("z.jpg", 5, 5),
        scanned("touched.jpg", 21, 200),
        scanned("done.jpg", 10, 100),
        scanned("a.jpg", 1, 1),
        scanned("grown.jpg", 30, 301),
    ];
    let found = detect_new_files(&store, &files).unwrap();
    assert_eq!(found.new_files, vec!["z.jpg".to_string(), "a.jpg".to_string()]);
    assert_eq!(found.changed, vec!["touched.jpg".to_string(), "grown.jpg".to_string()]);
}

#[test]
fn detection_of_nothing_finds_nothing() {
    let found = detect_new_files(&PhotoSyncStore::new(), &Vec::new()).unwrap();
    assert!(found.new_files.is_empty());
    assert!(found.changed.is_empty());
}

#[test]
fn detection_stops_at_a_time_before_the_epoch() {
    let store = PhotoSyncStore::new();
    let files = vec![scanned("a", 1, 1), scanned("b", 2, 2), scanned("c", -3, 3), scanned("d", -4, 4)];
    assert_eq!(
        detect_new_files(&store, &files).unwrap_err(),
        ScanError { index: 2, error: StoreError::TimeBeforeEpoch }
    );
}

#[test]
fn identical_content_under_two_paths_is_published_once() {
    let mut store = PhotoSyncStore::new();
    let scan = vec![scanned("a.jpg", 10, 7), scanned("b.jpg", 11, 7)];
    let found = detect_new_files(&store, &scan).unwrap();
    assert_eq!(found.new_files, vec!["a.jpg".to_string(), "b.jpg".to_string()]);

    let staged = vec![copied("a.jpg", 10, b"bytes X"), copied("b.jpg", 11, b"bytes X")];
    let outcomes = transfer_new_files(&mut store, &staged).unwrap();
    assert_eq!(outcomes, vec![FileOutcome::Publish, FileOutcome::Discard]);
    assert_eq!(outcomes.iter().filter(|o| **o == FileOutcome::Publish).count(), 1);

    let a = store.source_row("a.jpg").unwrap();
    let b = store.source_row("b.jpg").unwrap();
    assert_eq!((a.mtime, a.size, a.digest), (10, 7, digest(b"bytes X")));
    assert_eq!((b.mtime, b.size, b.digest), (11, 7, digest(b"bytes X")));
    assert!(could_not_transfer(&staged).is_empty());
}

#[test]
fn content_held_by_the_old_archive_is_not_published() {
    let mut store = PhotoSyncStore::new();
    store.mark_exists_in_old_target("2019/x.jpg", secs(1), 5, &digest(b"hello")).unwrap();
    let outcome = transfer_new_file(&mut store, &copied("new/x.jpg", 50, b"hello")).unwrap();
    assert_eq!(outcome, FileOutcome::Discard);
    assert_eq!(
        store.was_transferred_from_source("new/x.jpg", secs(50), 5).unwrap(),
        WasTransferredFromSourceResult::Transferred
    );
}

#[test]
fn new_content_is_published_and_recorded() {
    let mut store = PhotoSyncStore::new();
    let outcome = transfer_new_file(&mut store, &copied("p.jpg", 50, b"fresh")).unwrap();
    assert_eq!(outcome, FileOutcome::Publish);
    let row = store.source_row("p.jpg").unwrap();
    assert_eq!((row.mtime, row.size, row.digest), (50, 5, digest(b"fresh")));
    assert!(store.exists_in_target(&digest(b"fresh")));
}

#[test]
fn candidates_that_failed_are_reported_and_not_recorded() {
    let mut store = PhotoSyncStore::new();
    let staged = vec![
        Candidate { path: "locked.jpg".to_string(), staged: Staged::FailedToOpen },
        copied("fine.jpg", 3, b"fine"),
        Candidate { path: "torn.jpg".to_string(), staged: Staged::FailedToCopy },
        copied("also-fine.jpg", 4, b"also fine"),
        Candidate { path: "gone.jpg".to_string(), staged: Staged::FailedToOpen },
    ];
    let outcomes = transfer_new_files(&mut store, &staged).unwrap();
    assert_eq!(
        outcomes,
        vec![
            FileOutcome::FailedToOpen,
            FileOutcome::Publish,
            FileOutcome::FailedToCopy,
            FileOutcome::Publish,
            FileOutcome::FailedToOpen,
        ]
    );
    assert_eq!(
        could_not_transfer(&staged),
        vec!["locked.jpg".to_string(), "torn.jpg".to_string(), "gone.jpg".to_string()]
    );
    assert!(store.source_row("locked.jpg").is_none());
    assert!(store.source_row("torn.jpg").is_none());
    assert!(store.source_row("gone.jpg").is_none());
    assert!(store.source_row("fine.jpg").is_some());

    // Files that failed stay eligible: the next detection selects them again.
    let scan = vec![scanned("locked.jpg", 1, 1), scanned("fine.jpg", 3, 4), scanned("torn.jpg", 2, 2)];
    let found = detect_new_files(&store, &scan).unwrap();
    assert_eq!(found.new_files, vec!["locked.jpg".to_string(), "torn.jpg".to_string()]);
    assert!(found.changed.is_empty());
}

#[test]
fn transfer_stops_at_a_time_before_the_epoch() {
    let mut store = PhotoSyncStore::new();
    let staged = vec![copied("a", 1, b"a"), copied("b", -1, b"b"), copied("c", 3, b"c")];
    assert_eq!(
        transfer_new_files(&mut store, &staged),
        Err(TransferError { index: 1, error: StoreError::TimeBeforeEpoch })
    );
    assert!(store.source_row("a").is_some());
    assert!(store.source_row("b").is_none());
    assert!(store.source_row("c").is_none());
    assert_eq!(
        transfer_new_file(&mut store, &copied("b", -1, b"b")),
        Err(StoreError::TimeBeforeEpoch)
    );
}

#[test]
fn interrupted_transfer_is_resumed_with_the_remaining_files() {
    let names = ["f0", "f1", "f2", "f3", "f4"];
    let scan: Vec<ScannedFile> =
        names.iter().enumerate().map(|(i, n)| scanned(n, 100 + i as i64, 2)).collect();
    let stage = |paths: &[String]| -> Vec<Candidate> {
        paths
            .iter()
            .map(|p| {
                let i = names.iter().position(|n| n == p).unwrap();
                copied(p, 100 + i as i64, p.as_bytes())
            })
            .collect()
    };

    let mut store = PhotoSyncStore::new();
    let first = detect_new_files(&store, &scan).unwrap();
    assert_eq!(first.new_files.len(), 5);

    // The run is cut short after two of the five candidates.
    let outcomes = transfer_new_files(&mut store, &stage(&first.new_files[..2])).unwrap();
    assert_eq!(outcomes, vec![FileOutcome::Publish, FileOutcome::Publish]);
    let rows_before: Vec<_> = ["f0", "f1"]
        .iter()
        .map(|p| store.source_row(p).map(|r| (r.mtime, r.size, r.digest)))
        .collect();

    // A new run from scratch.
    let second = detect_new_files(&store, &scan).unwrap();
    assert_eq!(second.new_files, vec!["f2".to_string(), "f3".to_string(), "f4".to_string()]);
    assert!(second.changed.is_empty());
    assert_eq!(
        store.was_transferred_from_source("f0", secs(100), 2).unwrap(),
        WasTransferredFromSourceResult::Transferred
    );
    let outcomes = transfer_new_files(&mut store, &stage(&second.new_files)).unwrap();
    assert_eq!(outcomes, vec![FileOutcome::Publish; 3]);
    let rows_after: Vec<_> = ["f0", "f1"]
        .iter()
        .map(|p| store.source_row(p).map(|r| (r.mtime, r.size, r.digest)))
        .collect();
    assert_eq!(rows_before, rows_after);

    let third = detect_new_files(&store, &scan).unwrap();
    assert!(third.new_files.is_empty());
}

#[test]
fn a_whole_run_over_old_archive_and_source() {
    let mut store = PhotoSyncStore::new();

    // Phase one: the old archive holds one picture.
    let old_scan = vec![scanned("2020/sea.jpg", 1_600_000_000, 3)];
    assert_eq!(old_files_to_hash(&store, &old_scan), Ok(vec![0]));
    let old = vec![hashed("2020/sea.jpg", 1_600_000_000, 3, digest(b"sea"))];
    assert_eq!(ensure_old_out_dir_properly_indexed(&mut store, &old), Ok(()));

    // Phase two: the source holds that picture under another name, and a new one.
    let scan = vec![scanned("copy-of-sea.jpg", 1_700_000_000, 3), scanned("hill.jpg", 1_700_000_001, 4)];
    let found = detect_new_files(&store, &scan).unwrap();
    assert_eq!(found.new_files, vec!["copy-of-sea.jpg".to_string(), "hill.jpg".to_string()]);

    // Phase three.
    let staged = vec![
        copied("copy-of-sea.jpg", 1_700_000_000, b"sea"),
        copied("hill.jpg", 1_700_000_001, b"hill"),
    ];
    assert_eq!(
        transfer_new_files(&mut store, &staged),
        Ok(vec![FileOutcome::Discard, FileOutcome::Publish])
    );

    // Nothing is left to do.
    assert_eq!(old_files_to_hash(&store, &old_scan), Ok(Vec::new()));
    let again = detect_new_files(&store, &scan).unwrap();
    assert!(again.new_files.is_empty());
    assert!(again.changed.is_empty());
}

#[test]
fn volume_counts_copied_bytes_and_leaves_duplicates_out_of_the_stored_ones() {
    let mut store = PhotoSyncStore::new();
    let staged = vec![
        copied("a", 1, b"12345"),
        Candidate { path: "locked".to_string(), staged: Staged::FailedToOpen },
        copied("b", 2, b"12345"),
        copied("c", 3, b"123"),
        Candidate { path: "torn".to_string(), staged: Staged::FailedToCopy },
    ];
    let outcomes = transfer_new_files(&mut store, &staged).unwrap();
    assert_eq!(
        transfer_volume(&staged, &outcomes),
        TransferVolume { bytes_considered: 13, bytes_stored: 8 }
    );
    assert_eq!(
        transfer_volume(&Vec::new(), &Vec::new()),
        TransferVolume { bytes_considered: 0, bytes_stored: 0 }
    );
    // Only candidates that have an outcome count.
    assert_eq!(
        transfer_volume(&staged, &outcomes[..1].to_vec()),
        TransferVolume { bytes_considered: 5, bytes_stored: 5 }
    );
}

#[test]
fn volume_wraps_around() {
    let big = |path: &str, size: u64| Candidate {
        path: path.to_string(),
        staged: Staged::Copied { digest: d(1), last_modified: secs(1), size },
    };
    let staged = vec![big("a", u64::MAX), big("b", 3), big("c", u64::MAX)];
    let outcomes = vec![FileOutcome::Publish, FileOutcome::Discard, FileOutcome::Publish];
    assert_eq!(
        transfer_volume(&staged, &outcomes),
        TransferVolume { bytes_considered: 1, bytes_stored: u64::MAX - 1 }
    );
}

#[test]
fn published_files_are_readable_by_all_and_writable_by_their_owner() {
    assert_eq!(PUBLISHED_MODE, 0o644);
}
