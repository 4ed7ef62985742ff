use freeze::cli::ExclusionType;
use freeze::db::{clear_scope, Database, Order, Scope};
use freeze::store::ContentStore;
use freeze::error::EngineError;
use freeze::snapshot::Snapshot;
use freeze::utils::{capture_target, select_snapshot, validate_path, Target};

fn snap(path: &str, checksum: &str, date: &str) -> Snapshot {
    Snapshot {
        path: path.to_string(),
        content_path: format!("/s/{}.zstd", checksum),
        checksum: checksum.to_string(),
        date: date.to_string(),
        size: 10,
    }
}

fn sample() -> Database {
    let mut db = Database::new();
    db.save_snapshot(&snap("/p/a.txt", "aa11", "2024-01-01T10:00:00+00:00")).unwrap();
    db.save_snapshot(&snap("/p/sub/b.txt", "bb22", "2024-01-03T10:00:00+00:00")).unwrap();
    db.save_snapshot(&snap("/p/a.txt", "aa33", "2024-01-02T10:00:00+00:00")).unwrap();
    db.save_snapshot(&snap("/q/c.txt", "cc44", "2024-01-04T10:00:00+00:00")).unwrap();
    db.save_snapshot(&snap("/p", "dd55", "2024-01-05T10:00:00+00:00")).unwrap();
    db
}

fn paths(lines: &[(String, String, i64, String)]) -> Vec<String> {
    lines.iter().map(|line| format!("{}@{}", line.0, &line.1[8..10])).collect()
}

#[test]
fn kinds_of_exclusion_have_their_words() {
    assert_eq!(ExclusionType::Directory.as_str(), "directory");
    assert_eq!(ExclusionType::Extension.as_str(), "extension");
    assert_eq!(ExclusionType::File.as_str(), "file");
    assert_eq!(ExclusionType::parse("file"), Some(ExclusionType::File));
    assert_eq!(ExclusionType::parse("extension"), Some(ExclusionType::Extension));
    assert_eq!(ExclusionType::parse("directory"), Some(ExclusionType::Directory));
    assert_eq!(ExclusionType::parse("File"), None);
    assert_eq!(ExclusionType::parse(""), None);
}

#[test]
fn listings_are_newest_first() {
    let db = sample();
    assert_eq!(
        paths(&db.list_all_snapshots()),
        vec!["/p@05", "/q/c.txt@04", "/p/sub/b.txt@03", "/p/a.txt@02", "/p/a.txt@01"]
    );
    let with_id = db.list_all_snapshots_with_id();
    assert_eq!(with_id.iter().map(|line| line.0).collect::<Vec<i64>>(), vec![5, 4, 2, 3, 1]);
    let versions = db.get_snapshots_for_path("/p/a.txt");
    assert_eq!(versions.len(), 2);
    assert_eq!(versions[0].checksum, "aa33");
    assert_eq!(versions[1].checksum, "aa11");
    let with_id = db.get_snapshots_for_path_with_id("/p/a.txt");
    assert_eq!(with_id[0].0, 3);
    assert_eq!(with_id[1].0, 1);
}

#[test]
fn captures_of_one_instant_count_by_their_insertion() {
    let mut db = Database::new();
    db.save_snapshot(&snap("/p/a.txt", "aa11", "2024-01-01T10:00:00+00:00")).unwrap();
    db.save_snapshot(&snap("/p/a.txt", "aa22", "2024-01-01T10:00:00+00:00")).unwrap();
    let versions = db.get_snapshots_for_path("/p/a.txt");
    assert_eq!(versions[0].checksum, "aa22");
    assert_eq!(versions[1].checksum, "aa11");
}

#[test]
fn a_directory_scopes_its_own_path_and_what_lies_below() {
    let db = sample();
    assert_eq!(
        paths(&db.list_directory_snapshots("/p")),
        vec!["/p@05", "/p/a.txt@02", "/p/a.txt@01", "/p/sub/b.txt@03"]
    );
    assert_eq!(
        paths(&db.list_current_directory_snapshots("/p")),
        vec!["/p/sub/b.txt@03", "/p/a.txt@02", "/p/a.txt@01"]
    );
    assert_eq!(db.list_current_directory_snapshots_with_id("/p")[0].0, 2);
    assert!(db.list_directory_snapshots("/p/su").is_empty());
    assert!(db.list_directory_snapshots("/P").is_empty());
}

#[test]
fn search_finds_a_text_anywhere_in_the_path() {
    let db = sample();
    assert_eq!(paths(&db.search_snapshots("sub")), vec!["/p/sub/b.txt@03"]);
    assert_eq!(paths(&db.search_snapshots(".txt")).len(), 4);
    assert!(db.search_snapshots("SUB").is_empty());
    assert!(db.search_snapshots("%").is_empty());
    assert_eq!(db.search_snapshots("").len(), 5);
}

fn store_of(db: &Database) -> ContentStore {
    ContentStore::open("/s", &db.content_paths()).0
}

#[test]
fn rows_are_found_and_deleted_by_id() {
    let mut db = sample();
    let mut store = store_of(&db);
    assert_eq!(db.get_snapshot_by_id(3).unwrap().checksum, "aa33");
    assert!(db.get_snapshot_by_id(9).is_none());
    assert_eq!(db.delete_snapshot(3, &mut store), (true, vec!["/s/aa33.zstd".to_string()]));
    assert_eq!(db.delete_snapshot(3, &mut store), (false, Vec::new()));
    assert!(db.get_snapshot_by_id(3).is_none());
    assert_eq!(db.get_snapshots_for_path("/p/a.txt").len(), 1);
    // An id is given once.
    let id = db.save_snapshot(&snap("/z", "ee66", "2024-01-06T10:00:00+00:00")).unwrap();
    assert_eq!(id, Some(6));
}

#[test]
fn rows_are_deleted_by_path_by_directory_and_all() {
    let mut db = sample();
    let mut store = store_of(&db);
    let (count, removed) = db.clear_snapshots("/p/a.txt", &mut store);
    assert_eq!(count, 2);
    assert_eq!(removed, vec!["/s/aa11.zstd".to_string(), "/s/aa33.zstd".to_string()]);
    assert_eq!(db.clear_snapshots("/p/a.txt", &mut store), (0, Vec::new()));
    assert_eq!(db.list_all_snapshots().len(), 3);
    let (count, removed) = db.clear_directory_snapshots("/p", &mut store);
    assert_eq!(count, 2);
    assert_eq!(removed, vec!["/s/bb22.zstd".to_string(), "/s/dd55.zstd".to_string()]);
    assert_eq!(paths(&db.list_all_snapshots()), vec!["/q/c.txt@04"]);
    assert_eq!(db.clear_all_snapshots(&mut store), (1, vec!["/s/cc44.zstd".to_string()]));
    assert!(db.list_all_snapshots().is_empty());
    let mut db = sample();
    let mut store = store_of(&db);
    assert_eq!(db.clear(&Scope::Matching("sub".to_string()), &mut store).0, 1);
    assert_eq!(db.select(&Scope::All, Order::ByPath).len(), 4);
    assert!(matches!(clear_scope("/p", "/p"), Scope::Within(dir) if dir == "/p"));
    assert!(matches!(clear_scope("/p/a.txt", "/p"), Scope::Path(path) if path == "/p/a.txt"));
}

#[test]
fn the_content_paths_are_those_that_rows_refer_to() {
    let mut db = Database::new();
    db.save_snapshot(&snap("/a", "aa11", "2024-01-01T10:00:00+00:00")).unwrap();
    db.save_snapshot(&snap("/b", "aa11", "2024-01-02T10:00:00+00:00")).unwrap();
    db.save_snapshot(&snap("/c", "cc33", "2024-01-03T10:00:00+00:00")).unwrap();
    assert_eq!(db.content_paths(), vec!["/s/aa11.zstd".to_string(), "/s/cc33.zstd".to_string()]);
}

#[test]
fn rows_come_back_in_the_order_of_their_ids() {
    let mut db = Database::new();
    assert!(db.load_row(4, snap("/a", "aa11", "2024-01-01T10:00:00+00:00")));
    assert!(!db.load_row(4, snap("/b", "bb22", "2024-01-02T10:00:00+00:00")));
    assert!(!db.load_row(2, snap("/b", "bb22", "2024-01-02T10:00:00+00:00")));
    assert!(!db.load_row(i64::MAX, snap("/b", "bb22", "2024-01-02T10:00:00+00:00")));
    assert!(db.load_row(7, snap("/b", "bb22", "2024-01-02T10:00:00+00:00")));
    let id = db.save_snapshot(&snap("/c", "cc33", "2024-01-03T10:00:00+00:00")).unwrap();
    assert_eq!(id, Some(8));
}

#[test]
fn an_index_that_has_given_out_every_id_takes_no_row() {
    let mut db = Database::new();
    assert!(db.load_row(i64::MAX - 1, snap("/a", "aa11", "2024-01-01T10:00:00+00:00")));
    let outcome = db.save_snapshot(&snap("/b", "bb22", "2024-01-02T10:00:00+00:00"));
    assert!(matches!(outcome, Err(EngineError::Io(_))));
    // What is the latest state already is still no news.
    let outcome = db.save_snapshot(&snap("/a", "aa11", "2024-01-05T10:00:00+00:00"));
    assert!(matches!(outcome, Ok(None)));
}

#[test]
fn rules_are_listed_by_kind_and_pattern() {
    let mut db = Database::new();
    db.add_exclusion("target", "directory");
    db.add_exclusion(".log", "extension");
    db.add_exclusion("node_modules", "directory");
    db.add_exclusion("a.txt", "file");
    db.add_exclusion(".git", "directory");
    let listed = db.list_exclusions();
    let shown: Vec<String> = listed.iter().map(|rule| format!("{}:{}", rule.1, rule.0)).collect();
    assert_eq!(
        shown,
        vec![
            "directory:.git",
            "directory:node_modules",
            "directory:target",
            "extension:.log",
            "file:a.txt"
        ]
    );
    assert_eq!(db.get_exclusions(), listed);
    db.remove_exclusion("node_modules");
    db.remove_exclusion("nothing");
    assert_eq!(db.list_exclusions().len(), 4);
    assert!(Snapshot::is_excluded("/x/.git/config", &db.get_exclusions()));
    assert!(!Snapshot::is_excluded("/x/node_modules/y", &db.get_exclusions()));
}

#[test]
fn one_of_several_versions_is_picked_by_its_number() {
    let versions = vec![
        snap("/a", "aa11", "2024-01-02T10:00:00+00:00"),
        snap("/a", "bb22", "2024-01-01T10:00:00+00:00"),
    ];
    assert!(matches!(select_snapshot(&[], None), Err(EngineError::NotFound)));
    assert_eq!(select_snapshot(&versions[..1], None).unwrap().checksum, "aa11");
    assert_eq!(select_snapshot(&versions[..1], Some(9)).unwrap().checksum, "aa11");
    assert_eq!(select_snapshot(&versions, Some(1)).unwrap().checksum, "aa11");
    assert_eq!(select_snapshot(&versions, Some(2)).unwrap().checksum, "bb22");
    for selection in [None, Some(0), Some(3)] {
        match select_snapshot(&versions, selection) {
            Err(EngineError::AmbiguousSelector(candidates)) => {
                assert_eq!(candidates, vec!["aa11".to_string(), "bb22".to_string()]);
            }
            other => panic!("a choice was made: {:?}", other.map(|s| s.checksum.clone())),
        }
    }
}

#[test]
fn a_path_to_capture_is_a_file_or_a_directory() {
    assert!(validate_path(true).is_ok());
    assert!(matches!(validate_path(false), Err(EngineError::PathInvalid)));
    assert_eq!(capture_target(true, true, false).unwrap(), Target::File);
    assert_eq!(capture_target(true, false, true).unwrap(), Target::Directory);
    assert!(matches!(capture_target(true, false, false), Err(EngineError::PathInvalid)));
    assert!(matches!(capture_target(false, true, false), Err(EngineError::PathInvalid)));
}

#[test]
fn rows_that_show_the_same_are_listed_once() {
    let mut db = Database::new();
    db.save_snapshot(&snap("/a", "aa11", "2024-01-01T10:00:00+00:00")).unwrap();
    db.save_snapshot(&snap("/a", "bb22", "2024-01-01T10:00:00+00:00")).unwrap();
    db.save_snapshot(&snap("/a", "aa11", "2024-01-01T10:00:00+00:00")).unwrap();
    assert_eq!(db.list_all_snapshots_with_id().len(), 3);
    let listed = db.list_all_snapshots();
    assert_eq!(listed.len(), 2);
    assert_eq!(listed[0].3, "aa11");
    assert_eq!(listed[1].3, "bb22");
    assert_eq!(db.search_snapshots("a").len(), 2);
    assert_eq!(db.list_directory_snapshots("/a").len(), 2);
    assert_eq!(db.get_snapshots_for_path("/a").len(), 3);
}
