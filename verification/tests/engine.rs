use std::collections::HashMap;

use freeze::checksum::{fingerprint, fingerprint_chunks, to_hex, Fingerprinter};
use freeze::codec::{compress, decompress};
use freeze::db::{CompareSide, Database, Selector};
use freeze::error::EngineError;
use freeze::snapshot::{Snapshot, WalkStep};
use freeze::store::{is_compressed_blob, is_temp_file, ContentStore};
use freeze::utils::{check_directory, check_path, FileStatus};

const HELLO: &str = "2cf24dba5fb0a30e26e83b2ac5b9e29e1b161e5c1fa7425e73043362938b9824";

/// A directory of files held in memory, on which the plans of the store
/// are carried out.
struct Disk {
    files: HashMap<String, Vec<u8>>,
}

impl Disk {
    fn new() -> Disk {
        Disk { files: HashMap::new() }
    }

    fn listing(&self) -> Vec<String> {
        let mut names: Vec<String> = self.files.keys().cloned().collect();
        names.sort();
        names
    }
}

/// Captures `content` at `path` the way a caller of the library does:
/// plan, write under the temporary name, rename, record.
fn capture(
    db: &mut Database,
    store: &mut ContentStore,
    disk: &mut Disk,
    path: &str,
    content: &[u8],
    date: &str,
) -> Option<i64> {
    let (snapshot, write) = Snapshot::stamped(path, content, date, store).unwrap();
    if let Some(blob) = write {
        disk.files.insert(blob.temp_path.clone(), blob.frame);
        let frame = disk.files.remove(&blob.temp_path).unwrap();
        disk.files.insert(blob.target_path, frame);
    }
    snapshot.save_file(db, store).unwrap()
}

fn restore(db: &Database, disk: &Disk, path: &str, selector: &Selector) -> Result<Vec<u8>, EngineError> {
    let plan = Snapshot::restore_single(path, selector, db)?;
    let version = db.resolve_version(path, selector)?;
    let blob = disk.files.get(&plan.blob_path).expect("the blob is in the store");
    version.restored_content(blob)
}

fn fresh() -> (Database, ContentStore, Disk) {
    let (store, swept) = ContentStore::open("/home/u/.freeze/storage", &Vec::new());
    assert!(swept.is_empty());
    (Database::new(), store, Disk::new())
}

#[test]
fn fingerprint_is_sha256_in_lowercase_hex() {
    assert_eq!(fingerprint(b"hello"), HELLO);
    assert_eq!(
        fingerprint(b""),
        "e3b0c44298fc1c149afbf4c8996fb92427ae41e4649b934ca495991b7852b855"
    );
    assert_eq!(to_hex(&[0x00, 0x0f, 0xa5, 0xff]), "000fa5ff");
}

#[test]
fn fingerprint_is_the_same_however_the_content_is_cut() {
    let whole = fingerprint(b"hello world");
    assert_eq!(whole, fingerprint(b"hello world"));
    let chunks = vec![b"hel".to_vec(), Vec::new(), b"lo wor".to_vec(), b"ld".to_vec()];
    assert_eq!(fingerprint_chunks(&chunks), whole);
    let mut state = Fingerprinter::new();
    state.update(b"hello ");
    state.update(b"world");
    assert_eq!(state.finish(), whole);
    assert_eq!(
        whole,
        "b94d27b9934d3e08a52e52d7da7dabfac484efe37a5380ee9088f7ace2efcde9"
    );
}

#[test]
fn one_changed_bit_changes_the_fingerprint() {
    assert_ne!(fingerprint(b"hello"), fingerprint(b"hellp"));
    assert_ne!(fingerprint(&[0u8]), fingerprint(&[1u8]));
}

#[test]
fn compression_gives_back_what_went_in() {
    let data = b"aaaaaaaaaaaaaaaaaaaaaaaaaaaaaaaaaaaaaaaaaaaaaaaaaaaaaaaaaaaaaaaaaaaaaaaaaaaa".to_vec();
    let frame = compress(&data).unwrap();
    assert_ne!(frame, data);
    assert!(frame.len() < data.len());
    assert_eq!(&frame[..4], &[0x28, 0xb5, 0x2f, 0xfd]);
    assert_eq!(decompress(&frame).unwrap(), data);
    let empty = compress(b"").unwrap();
    assert_eq!(decompress(&empty).unwrap(), Vec::<u8>::new());
}

#[test]
fn a_damaged_blob_is_corrupt() {
    assert!(matches!(decompress(b"this is no zstd frame"), Err(EngineError::CorruptBlob)));
    let mut frame = compress(b"some content that is long enough to matter").unwrap();
    frame.truncate(frame.len() / 2);
    assert!(matches!(decompress(&frame), Err(EngineError::CorruptBlob)));
}

#[test]
fn round_trip_of_text_and_binary_content() {
    let (mut db, mut store, mut disk) = fresh();
    let text = b"line one\nline two\n".to_vec();
    let binary = vec![0u8, 1, 2, 0, 255, 0, 0, 13, 10, 0];
    capture(&mut db, &mut store, &mut disk, "/tmp/t.txt", &text, "2024-01-01T00:00:00+00:00");
    capture(&mut db, &mut store, &mut disk, "/tmp/b.bin", &binary, "2024-01-01T00:00:01+00:00");
    capture(&mut db, &mut store, &mut disk, "/tmp/e", b"", "2024-01-01T00:00:02+00:00");
    assert_eq!(restore(&db, &disk, "/tmp/t.txt", &Selector::Latest).unwrap(), text);
    assert_eq!(restore(&db, &disk, "/tmp/b.bin", &Selector::Latest).unwrap(), binary);
    assert_eq!(restore(&db, &disk, "/tmp/e", &Selector::Latest).unwrap(), Vec::<u8>::new());
}

#[test]
fn a_capture_is_planned_with_its_names() {
    let (_, store, _) = fresh();
    let (snapshot, write) =
        Snapshot::stamped("/tmp/a.txt", b"hello", "2024-01-01T00:00:00+00:00", &store).unwrap();
    assert_eq!(snapshot.path, "/tmp/a.txt");
    assert_eq!(snapshot.checksum, HELLO);
    assert_eq!(snapshot.size, 5);
    assert_eq!(snapshot.date, "2024-01-01T00:00:00+00:00");
    assert_eq!(snapshot.content_path, format!("/home/u/.freeze/storage/{}.zstd", HELLO));
    let blob = write.unwrap();
    assert_eq!(blob.target_path, snapshot.content_path);
    assert_eq!(blob.temp_path, format!("/home/u/.freeze/storage/{}.zstd.tmp", HELLO));
    assert_eq!(decompress(&blob.frame).unwrap(), b"hello");
    assert!(is_temp_file(&blob.temp_path));
    assert!(is_compressed_blob(&blob.target_path));
}

#[test]
fn equal_contents_share_one_blob() {
    let (mut db, mut store, mut disk) = fresh();
    capture(&mut db, &mut store, &mut disk, "/tmp/a.txt", b"same bytes", "2024-01-01T00:00:00+00:00");
    let (_, second) =
        Snapshot::stamped("/tmp/b.txt", b"same bytes", "2024-01-01T00:00:01+00:00", &store).unwrap();
    assert!(second.is_none());
    capture(&mut db, &mut store, &mut disk, "/tmp/b.txt", b"same bytes", "2024-01-01T00:00:01+00:00");
    assert_eq!(disk.files.len(), 1);
    assert_eq!(db.list_all_snapshots().len(), 2);
    let blob = store.blob_path(&fingerprint(b"same bytes"));

    let (count, removed) = db.clear_snapshots("/tmp/a.txt", &mut store);
    assert_eq!(count, 1);
    assert!(removed.is_empty());
    assert!(store.holds(&fingerprint(b"same bytes")));

    let (count, removed) = db.clear_snapshots("/tmp/b.txt", &mut store);
    assert_eq!(count, 1);
    assert_eq!(removed, vec![blob]);
    assert!(!store.holds(&fingerprint(b"same bytes")));
}

#[test]
fn capturing_unchanged_content_again_records_nothing() {
    let (mut db, mut store, mut disk) = fresh();
    let first = capture(&mut db, &mut store, &mut disk, "/tmp/a.txt", b"hello", "2024-01-01T00:00:00+00:00");
    let again = capture(&mut db, &mut store, &mut disk, "/tmp/a.txt", b"hello", "2024-01-01T00:00:05+00:00");
    assert_eq!(first, Some(1));
    assert_eq!(again, None);
    assert_eq!(db.get_snapshots_for_path("/tmp/a.txt").len(), 1);
    assert_eq!(disk.files.len(), 1);
}

#[test]
fn content_that_comes_back_is_recorded_again() {
    let (mut db, mut store, mut disk) = fresh();
    capture(&mut db, &mut store, &mut disk, "/tmp/a.txt", b"one", "2024-01-01T00:00:00+00:00");
    capture(&mut db, &mut store, &mut disk, "/tmp/a.txt", b"two", "2024-01-01T00:00:01+00:00");
    let third = capture(&mut db, &mut store, &mut disk, "/tmp/a.txt", b"one", "2024-01-01T00:00:02+00:00");
    assert_eq!(third, Some(3));
    assert_eq!(db.get_snapshots_for_path("/tmp/a.txt").len(), 3);
    assert_eq!(disk.files.len(), 2);
}

#[test]
fn save_modify_save_and_check() {
    let (mut db, mut store, mut disk) = fresh();
    capture(&mut db, &mut store, &mut disk, "/tmp/a.txt", b"hello", "2024-01-01T10:00:00+00:00");
    let rows = db.get_snapshots_for_path("/tmp/a.txt");
    assert_eq!(rows.len(), 1);
    assert_eq!(rows[0].checksum, HELLO);

    capture(&mut db, &mut store, &mut disk, "/tmp/a.txt", b"hello!", "2024-01-01T10:00:01+00:00");
    let rows = db.get_snapshots_for_path("/tmp/a.txt");
    assert_eq!(rows.len(), 2);
    assert_eq!(rows[0].checksum, fingerprint(b"hello!"));
    assert_eq!(rows[1].checksum, HELLO);
    assert_ne!(rows[0].checksum, rows[1].checksum);
    assert_eq!(rows[0].path, "/tmp/a.txt");
    assert_eq!(rows[1].path, "/tmp/a.txt");
    assert_eq!(rows[0].date, "2024-01-01T10:00:01+00:00");

    assert_eq!(
        check_path("/tmp/a.txt", &fingerprint(b"hello!"), &db),
        FileStatus::Unchanged
    );
    assert_eq!(check_path("/tmp/a.txt", HELLO, &db), FileStatus::Modified);
    assert_eq!(
        check_path("/tmp/a.txt", &fingerprint(b"other"), &db),
        FileStatus::Modified
    );
    assert_eq!(check_path("/tmp/none.txt", HELLO, &db), FileStatus::NoSnapshot);

    assert_eq!(restore(&db, &disk, "/tmp/a.txt", &Selector::Latest).unwrap(), b"hello!");
    let old = Selector::Prefix("2cf24d".to_string());
    assert_eq!(restore(&db, &disk, "/tmp/a.txt", &old).unwrap(), b"hello");
}

#[test]
fn files_of_a_directory_are_checked_one_by_one() {
    let (mut db, mut store, mut disk) = fresh();
    capture(&mut db, &mut store, &mut disk, "/d/a", b"a", "2024-01-01T10:00:00+00:00");
    capture(&mut db, &mut store, &mut disk, "/d/b", b"b", "2024-01-01T10:00:01+00:00");
    let found = vec![
        ("/d/a".to_string(), fingerprint(b"a")),
        ("/d/b".to_string(), fingerprint(b"changed")),
        ("/d/c".to_string(), fingerprint(b"c")),
    ];
    let report = check_directory(&found, &db);
    assert_eq!(
        report.statuses,
        vec![
            ("/d/a".to_string(), FileStatus::Unchanged),
            ("/d/b".to_string(), FileStatus::Modified),
            ("/d/c".to_string(), FileStatus::New),
        ]
    );
    assert_eq!((report.unchanged, report.modified, report.new), (1, 1, 1));
}

#[test]
fn an_excluded_directory_is_pruned_with_all_below_it() {
    let rules = vec![("node_modules".to_string(), "directory".to_string())];
    assert_eq!(Snapshot::save_recursive("a/node_modules", false, &rules), WalkStep::Prune);
    assert_eq!(Snapshot::save_recursive("a/node_modules/b.txt", true, &rules), WalkStep::Prune);
    assert_eq!(Snapshot::save_recursive("a", false, &rules), WalkStep::Pass);
    assert_eq!(Snapshot::save_recursive("a/c.txt", true, &rules), WalkStep::Capture);
    assert!(Snapshot::is_excluded("a/node_modules/b.txt", &rules));
    assert!(!Snapshot::is_excluded("a/c.txt", &rules));

    // A walk over the tree a/{c.txt, node_modules/b.txt} that goes by the steps.
    let tree: Vec<(&str, bool)> = vec![
        ("a", false),
        ("a/c.txt", true),
        ("a/node_modules", false),
        ("a/node_modules/b.txt", true),
    ];
    let mut pruned: Vec<&str> = Vec::new();
    let mut read: Vec<&str> = Vec::new();
    for (path, is_file) in tree {
        if pruned.iter().any(|dir| path.starts_with(&format!("{}/", dir))) {
            continue;
        }
        match Snapshot::save_recursive(path, is_file, &rules) {
            WalkStep::Prune => pruned.push(path),
            WalkStep::Capture => read.push(path),
            WalkStep::Pass => {}
        }
    }
    assert_eq!(read, vec!["a/c.txt"]);
    assert_eq!(pruned, vec!["a/node_modules"]);
}

#[test]
fn rules_by_extension_and_by_name() {
    let rules = vec![
        (".log".to_string(), "extension".to_string()),
        ("tmp".to_string(), "extension".to_string()),
        ("Thumbs.db".to_string(), "file".to_string()),
        ("x".to_string(), "unknown".to_string()),
    ];
    assert!(Snapshot::is_excluded("/a/b/server.log", &rules));
    assert!(Snapshot::is_excluded("/a/b/work.tmp", &rules));
    assert!(!Snapshot::is_excluded("/a/b/server.LOG", &rules));
    assert!(!Snapshot::is_excluded("/a/b/log", &rules));
    assert!(!Snapshot::is_excluded("/a/b/.log", &rules));
    assert!(Snapshot::is_excluded("/a/Thumbs.db", &rules));
    assert!(!Snapshot::is_excluded("/a/Thumbs.db.bak", &rules));
    assert!(!Snapshot::is_excluded("/a/x", &rules));
    assert!(!Snapshot::is_excluded("/a/b/server.log", &Vec::new()));
}

#[test]
fn a_prefix_of_two_fingerprints_is_ambiguous() {
    let mut db = Database::new();
    let first = Snapshot {
        path: "/tmp/a.txt".to_string(),
        content_path: "/s/abc123.zstd".to_string(),
        checksum: "abc123aaaaaaaaaaaaaaaaaaaaaaaaaaaaaaaaaaaaaaaaaaaaaaaaaaaaaaaaaaaaaa".to_string(),
        date: "2024-01-01T10:00:00+00:00".to_string(),
        size: 1,
    };
    let second = Snapshot {
        path: "/tmp/a.txt".to_string(),
        content_path: "/s/abc999.zstd".to_string(),
        checksum: "abc999aaaaaaaaaaaaaaaaaaaaaaaaaaaaaaaaaaaaaaaaaaaaaaaaaaaaaaaaaaaaaa".to_string(),
        date: "2024-01-01T10:00:01+00:00".to_string(),
        size: 2,
    };
    db.save_snapshot(&first).unwrap();
    db.save_snapshot(&second).unwrap();

    let outcome = db.resolve_version("/tmp/a.txt", &Selector::Prefix("abc".to_string()));
    match outcome {
        Err(EngineError::AmbiguousSelector(candidates)) => {
            assert_eq!(candidates, vec![second.checksum.clone(), first.checksum.clone()]);
        }
        other => panic!("the choice was not refused: {:?}", other),
    }
    assert!(matches!(
        Snapshot::restore_single("/tmp/a.txt", &Selector::Prefix("abc".to_string()), &db),
        Err(EngineError::AmbiguousSelector(_))
    ));
    assert!(matches!(
        db.get_snapshot_by_checksum("abc"),
        Err(EngineError::AmbiguousSelector(_))
    ));

    let chosen = db.resolve_version("/tmp/a.txt", &Selector::Prefix("abc1".to_string())).unwrap();
    assert_eq!(chosen.checksum, first.checksum);
    let chosen = db.get_snapshot_by_checksum("abc9").unwrap();
    assert_eq!(chosen.size, 2);
    assert!(matches!(
        db.resolve_version("/tmp/a.txt", &Selector::Prefix("abd".to_string())),
        Err(EngineError::NotFound)
    ));
    assert!(matches!(
        db.resolve_version("/tmp/other.txt", &Selector::Latest),
        Err(EngineError::NotFound)
    ));
}

#[test]
fn a_prefix_that_fits_one_content_captured_twice_stands_for_the_latest() {
    let (mut db, mut store, mut disk) = fresh();
    capture(&mut db, &mut store, &mut disk, "/tmp/a.txt", b"one", "2024-01-01T00:00:00+00:00");
    capture(&mut db, &mut store, &mut disk, "/tmp/a.txt", b"two", "2024-01-01T00:00:01+00:00");
    capture(&mut db, &mut store, &mut disk, "/tmp/a.txt", b"one", "2024-01-01T00:00:02+00:00");
    let prefix = Selector::Prefix(fingerprint(b"one"));
    let chosen = db.resolve_version("/tmp/a.txt", &prefix).unwrap();
    assert_eq!(chosen.date, "2024-01-01T00:00:02+00:00");
}

#[test]
fn a_write_that_was_cut_short_is_swept() {
    let (_, store, mut disk) = fresh();
    let (snapshot, write) =
        Snapshot::stamped("/tmp/a.txt", b"hello", "2024-01-01T00:00:00+00:00", &store).unwrap();
    let blob = write.unwrap();
    // The temporary file is written; the run ends before the rename.
    disk.files.insert(blob.temp_path.clone(), blob.frame.clone());

    let swept = Snapshot::cleanup_temp_files(&disk.listing());
    assert_eq!(swept, vec![blob.temp_path.clone()]);
    let (reopened, handed_back) = ContentStore::open("/home/u/.freeze/storage", &disk.listing());
    assert_eq!(handed_back, vec![blob.temp_path.clone()]);
    for name in handed_back {
        disk.files.remove(&name);
    }
    assert!(disk.files.is_empty());
    assert!(!disk.files.contains_key(&snapshot.content_path));
    assert!(!reopened.holds(HELLO));

    // The capture can simply be made again.
    let (_, again) =
        Snapshot::stamped("/tmp/a.txt", b"hello", "2024-01-01T00:00:09+00:00", &reopened).unwrap();
    assert!(again.is_some());
}

#[test]
fn an_opened_store_knows_its_blobs() {
    let found = vec![
        format!("/s/{}.zstd", HELLO),
        "/s/half.tmp".to_string(),
        "/s/legacy-blob".to_string(),
        format!("/s/{}.zstd", HELLO),
    ];
    let (store, swept) = ContentStore::open("/s", &found);
    assert_eq!(swept, vec!["/s/half.tmp".to_string()]);
    assert!(store.holds(HELLO));
    assert!(!store.holds("0000"));
    assert_eq!(store.blob_path(HELLO), format!("/s/{}.zstd", HELLO));
}

#[test]
fn a_blob_from_before_compression_is_restored_as_it_is() {
    let legacy = Snapshot {
        path: "/tmp/a.txt".to_string(),
        content_path: "/s/2cf24dba".to_string(),
        checksum: HELLO.to_string(),
        date: "2023-01-01T10:00:00+00:00".to_string(),
        size: 5,
    };
    assert_eq!(legacy.restored_content(b"hello").unwrap(), b"hello");
    let plan = legacy.restore_snapshot("/tmp/out/a.txt");
    assert!(!plan.compressed);
    assert_eq!(plan.blob_path, "/s/2cf24dba");
    assert_eq!(plan.destination, "/tmp/out/a.txt");
    assert_eq!(plan.temp_path, "/tmp/out/a.txt.tmp");
    let onto_tmp = legacy.restore_snapshot("/x/a.tmp");
    assert_eq!(onto_tmp.temp_path, "/x/a.tmp.tmp");
    assert_ne!(onto_tmp.temp_path, onto_tmp.destination);

    let compressed = Snapshot { content_path: "/s/2cf24dba.zstd".to_string(), ..legacy };
    assert!(matches!(compressed.restored_content(b"hello"), Err(EngineError::CorruptBlob)));
    assert!(compressed.restore_snapshot("/tmp/a.txt").compressed);
}

#[test]
fn a_directory_is_restored_file_by_file_from_the_latest_versions() {
    let (mut db, mut store, mut disk) = fresh();
    capture(&mut db, &mut store, &mut disk, "/d/b.txt", b"b1", "2024-01-01T00:00:00+00:00");
    capture(&mut db, &mut store, &mut disk, "/d/a.txt", b"a1", "2024-01-01T00:00:01+00:00");
    capture(&mut db, &mut store, &mut disk, "/d/a.txt", b"a2", "2024-01-01T00:00:02+00:00");
    capture(&mut db, &mut store, &mut disk, "/dd/x.txt", b"x", "2024-01-01T00:00:03+00:00");
    let plans = Snapshot::restore("/d", &db).unwrap();
    assert_eq!(plans.len(), 2);
    assert_eq!(plans[0].destination, "/d/a.txt");
    assert_eq!(plans[0].blob_path, store.blob_path(&fingerprint(b"a2")));
    assert_eq!(plans[1].destination, "/d/b.txt");
    assert_eq!(plans[1].blob_path, store.blob_path(&fingerprint(b"b1")));
    assert!(matches!(Snapshot::restore("/nowhere", &db), Err(EngineError::NotFound)));
    let single = Snapshot::restore("/d/b.txt", &db).unwrap();
    assert_eq!(single.len(), 1);
}

#[test]
fn the_beginning_of_a_content_can_be_looked_at() {
    let (mut db, mut store, mut disk) = fresh();
    capture(&mut db, &mut store, &mut disk, "/tmp/a.txt", b"0123456789", "2024-01-01T00:00:00+00:00");
    let version = db.resolve_version("/tmp/a.txt", &Selector::Latest).unwrap();
    let blob = disk.files.get(&version.content_path).unwrap();
    assert_eq!(version.peek_content(blob, 4).unwrap(), b"0123");
    assert_eq!(version.peek_content(blob, 10).unwrap(), b"0123456789");
    assert_eq!(version.peek_content(blob, 99).unwrap(), b"0123456789");
    assert_eq!(version.peek_content(blob, 0).unwrap(), b"");
    assert!(matches!(version.peek_content(b"junk", 4), Err(EngineError::CorruptBlob)));
}

#[test]
fn a_path_is_restored_as_a_file_or_as_a_directory() {
    let (mut db, mut store, mut disk) = fresh();
    capture(&mut db, &mut store, &mut disk, "/d/a.txt", b"a1", "2024-01-01T00:00:01+00:00");
    capture(&mut db, &mut store, &mut disk, "/d/a.txt", b"a2", "2024-01-01T00:00:02+00:00");
    capture(&mut db, &mut store, &mut disk, "/d/b.txt", b"b1", "2024-01-01T00:00:03+00:00");
    let plans = Snapshot::restore_target("/d/a.txt", &Selector::Latest, &db).unwrap();
    assert_eq!(plans.len(), 1);
    assert_eq!(plans[0].blob_path, store.blob_path(&fingerprint(b"a2")));
    let old = Selector::Prefix(fingerprint(b"a1"));
    let plans = Snapshot::restore_target("/d/a.txt", &old, &db).unwrap();
    assert_eq!(plans.len(), 1);
    assert_eq!(plans[0].blob_path, store.blob_path(&fingerprint(b"a1")));
    assert!(matches!(
        Snapshot::restore_target("/d/a.txt", &Selector::Prefix("zz".to_string()), &db),
        Err(EngineError::NotFound)
    ));
    let plans = Snapshot::restore_target("/d", &Selector::Latest, &db).unwrap();
    assert_eq!(plans.len(), 2);
    for plan in &plans {
        let blob = disk.files.get(&plan.blob_path).unwrap();
        let content = plan.content(blob).unwrap();
        assert_eq!(content.len(), 2);
    }
    assert_eq!(plans[0].content(disk.files.get(&plans[0].blob_path).unwrap()).unwrap(), b"a2");
    assert_eq!(plans[1].content(disk.files.get(&plans[1].blob_path).unwrap()).unwrap(), b"b1");
    assert!(matches!(
        Snapshot::restore_target("/e", &Selector::Latest, &db),
        Err(EngineError::NotFound)
    ));
}

#[test]
fn content_with_a_zero_byte_comes_back_whole() {
    let (mut db, mut store, mut disk) = fresh();
    capture(&mut db, &mut store, &mut disk, "/tmp/p", b"Hello\0world", "2024-01-01T00:00:00+00:00");
    let restored = restore(&db, &disk, "/tmp/p", &Selector::Latest).unwrap();
    assert_eq!(restored, b"Hello\0world");
    assert_eq!(restored.len(), 11);
    assert_eq!(restored[5], 0);
}

#[test]
fn sides_of_a_comparison() {
    let (mut db, mut store, mut disk) = fresh();
    capture(&mut db, &mut store, &mut disk, "/tmp/a.txt", b"one", "2024-01-01T00:00:00+00:00");
    capture(&mut db, &mut store, &mut disk, "/tmp/a.txt", b"two", "2024-01-01T00:00:01+00:00");
    assert!(matches!(
        db.compare_side("/tmp/a.txt", Some("current"), 0),
        Ok(CompareSide::Current)
    ));
    match db.compare_side("/tmp/a.txt", None, 0).unwrap() {
        CompareSide::Stored(snapshot) => assert_eq!(snapshot.checksum, fingerprint(b"two")),
        CompareSide::Current => panic!("a stored version was meant"),
    }
    match db.compare_side("/tmp/a.txt", None, 1).unwrap() {
        CompareSide::Stored(snapshot) => assert_eq!(snapshot.checksum, fingerprint(b"one")),
        CompareSide::Current => panic!("a stored version was meant"),
    }
    match db.compare_side("/tmp/a.txt", None, 7).unwrap() {
        CompareSide::Stored(snapshot) => assert_eq!(snapshot.checksum, fingerprint(b"two")),
        CompareSide::Current => panic!("a stored version was meant"),
    }
    assert!(matches!(db.compare_side("/tmp/b.txt", None, 0), Err(EngineError::NotFound)));
    assert!(matches!(
        db.compare_side("/tmp/a.txt", Some("zz"), 0),
        Err(EngineError::NotFound)
    ));
}

#[test]
fn the_storage_directory_lies_below_the_home_directory() {
    assert_eq!(Snapshot::storage_dir_in("/home/alice"), "/home/alice/.freeze/storage");
    assert_eq!(Snapshot::storage_dir_in("/"), "/.freeze/storage");
    assert!(matches!(Snapshot::storage_dir_for(None), Err(EngineError::ConfigError)));
    assert_eq!(
        Snapshot::storage_dir_for(Some("/root".to_string())).unwrap(),
        "/root/.freeze/storage"
    );
}

#[test]
fn a_capture_by_the_clock_carries_a_timestamp() {
    let (_, store, _) = fresh();
    let (snapshot, _) = Snapshot::new("/tmp/a.txt", b"hello", &store).unwrap();
    assert_eq!(snapshot.checksum, HELLO);
    assert!(snapshot.date.len() >= 20);
    assert_eq!(&snapshot.date[4..5], "-");
    assert_eq!(&snapshot.date[10..11], "T");
}
