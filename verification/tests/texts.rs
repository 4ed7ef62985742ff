use freeze::db::Database;
use freeze::diff::{compare, diff, Comparison, DiffLine, SizeChange};
use freeze::error::EngineError;
use freeze::exclusion::available;
use freeze::snapshot::CaptureSummary;
use freeze::store::{is_temp_file, temp_path_of, SweepSummary};
use freeze::utils::file_target;
use freeze::web::api::preview;
use freeze::path::{extension_of, file_name, join, trim};
use freeze::snapshot::{expand_home, Snapshot};
use freeze::utils::{exceeds_limit, view_content, ViewOutcome};
use freeze::web::api::{
    generate_diff, is_full_fingerprint, AddExclusionInput, ApiResponse, CreateSnapshotInput,
    DiffInput, ExclusionDto, ExportInput, SnapshotDto, StatsDto, MAX_DIFF_SIZE,
};

fn chars(text: &str) -> Vec<char> {
    text.chars().collect()
}

fn text(chars: Vec<char>) -> String {
    chars.into_iter().collect()
}

#[test]
fn final_components_and_extensions() {
    assert_eq!(file_name(&chars("/usr/bin/")).map(text), Some("bin".to_string()));
    assert_eq!(file_name(&chars("tmp/foo.txt")).map(text), Some("foo.txt".to_string()));
    assert_eq!(file_name(&chars("foo.txt")).map(text), Some("foo.txt".to_string()));
    assert_eq!(file_name(&chars("foo.txt/..")), None);
    assert_eq!(file_name(&chars("/")), None);
    assert_eq!(file_name(&chars("")), None);
    assert_eq!(extension_of(&chars("/a/foo.tar.gz")).map(text), Some("gz".to_string()));
    assert_eq!(extension_of(&chars("/a/foo")), None);
    assert_eq!(extension_of(&chars("/a/.bashrc")), None);
    assert_eq!(extension_of(&chars("/a.b/c")), None);
    assert_eq!(extension_of(&chars("/a/foo.")).map(text), Some("".to_string()));
    assert_eq!(text(trim(&chars("/a/foo///"))), "/a/foo");
    assert_eq!(text(trim(&chars("/a/foo"))), "/a/foo");
    assert_eq!(text(trim(&chars("///"))), "");
    assert_eq!(text(join(&chars("/a"), &chars("b"))), "/a/b");
    assert_eq!(text(join(&chars("/a/"), &chars("b"))), "/a/b");
    assert_eq!(text(join(&chars("/a"), &chars("/b"))), "/b");
    assert_eq!(text(join(&chars(""), &chars("b"))), "b");
}

#[test]
fn std_paths_agree_on_ordinary_paths() {
    for path in ["/usr/bin/env", "a/b.c/d.e.f", "/tmp/x.zstd", "name", "/a/.hidden", "/a/b/"] {
        let std_path = std::path::Path::new(path);
        assert_eq!(
            file_name(&chars(path)).map(text),
            std_path.file_name().map(|name| name.to_string_lossy().into_owned()),
            "{}",
            path
        );
        assert_eq!(
            extension_of(&chars(path)).map(text),
            std_path.extension().map(|ext| ext.to_string_lossy().into_owned()),
            "{}",
            path
        );
        assert_eq!(
            text(join(&chars("/base"), &chars(path))),
            std::path::Path::new("/base").join(path).to_string_lossy(),
            "{}",
            path
        );
    }
}

#[test]
fn texts_are_compared_line_by_line() {
    let out = generate_diff("old.txt", "new.txt", b"a\nb\nc\n", b"a\nx\nc\nd\n");
    assert_eq!(out, "--- old.txt\n+++ new.txt\n a\n-b\n+x\n c\n+d\n");
    let out = generate_diff("1", "2", b"a\r\nb", b"a\n");
    assert_eq!(out, "--- 1\n+++ 2\n a\n-b\n");
    let out = generate_diff("1", "2", b"", b"");
    assert_eq!(out, "--- 1\n+++ 2\n");
}

#[test]
fn bytes_that_are_no_text_are_replaced_before_the_comparison() {
    let out = generate_diff("1", "2", &[b'a', 0xff, b'\n'], b"a\n");
    assert_eq!(out, "--- 1\n+++ 2\n-a\u{fffd}\n+a\n");
}

#[test]
fn a_text_compared_with_itself_shows_no_difference() {
    let same = diff("one\ntwo\nthree", "one\ntwo\nthree");
    assert!(same.is_empty());
    assert_eq!((same.added, same.removed), (0, 0));
    assert_eq!(same.lines.len(), 3);
    assert!(same.lines.iter().all(|line| matches!(line, DiffLine::Keep(_))));
    let other = diff("one\ntwo", "one\n2\nthree");
    assert!(!other.is_empty());
    assert_eq!((other.added, other.removed), (2, 1));
    assert_eq!(other.render("a", "b"), "--- a\n+++ b\n one\n-two\n+2\n+three\n");
}

#[test]
fn a_line_put_in_between_is_the_only_change() {
    let out = generate_diff("1", "2", b"a\nc\n", b"a\nb\nc\n");
    assert_eq!(out, "--- 1\n+++ 2\n a\n+b\n c\n");
    let found = diff("a\nc\n", "a\nb\nc\n");
    assert_eq!((found.added, found.removed), (1, 0));
    let found = diff("a\nb\nc\n", "a\nc\n");
    assert_eq!((found.added, found.removed), (0, 1));
    assert_eq!(found.render("1", "2"), "--- 1\n+++ 2\n a\n-b\n c\n");
}

#[test]
fn a_comparison_keeps_the_lines_that_both_texts_have() {
    let old = "one\ntwo\nthree\nfour\nfive\nsix\n";
    let new = "zero\none\nthree\nfour\n4.5\nsix\nseven\n";
    let found = diff(old, new);
    assert_eq!(
        found.render("a", "b"),
        "--- a\n+++ b\n+zero\n one\n-two\n three\n four\n-five\n+4.5\n six\n+seven\n"
    );
    assert_eq!((found.added, found.removed), (3, 2));
    let kept = found.lines.iter().filter(|line| matches!(line, DiffLine::Keep(_))).count();
    assert_eq!(kept, 4);
    let nothing_shared = diff("a\nb\n", "c\nd\n");
    assert_eq!(nothing_shared.render("a", "b"), "--- a\n+++ b\n-a\n-b\n+c\n+d\n");
    let all_new = diff("", "x\ny\n");
    assert_eq!((all_new.added, all_new.removed), (2, 0));
    let all_gone = diff("x\ny\n", "");
    assert_eq!((all_gone.added, all_gone.removed), (0, 2));
}

#[test]
fn contents_with_the_same_bytes_are_identical() {
    assert!(matches!(compare(b"same\n", b"same\n"), Comparison::Identical));
    assert!(matches!(compare(b"\0x", b"\0x"), Comparison::Identical));
    assert!(matches!(compare(b"", b""), Comparison::Identical));
    assert!(!matches!(compare(b"a", b"b"), Comparison::Identical));
}

#[test]
fn a_temporary_name_is_never_the_name_itself() {
    assert_eq!(temp_path_of("/x/a.txt"), "/x/a.txt.tmp");
    assert_eq!(temp_path_of("/x/a.tmp"), "/x/a.tmp.tmp");
    assert_eq!(temp_path_of("/x/a"), "/x/a.tmp");
    assert_eq!(temp_path_of("/x/dir/"), "/x/dir.tmp");
    for target in ["/x/a.txt", "/x/a.tmp", "/x/a", "/x/dir/", "a", ".tmp", "/x/.tmp"] {
        assert_ne!(temp_path_of(target), target);
        assert!(is_temp_file(&temp_path_of(target)), "{}", target);
    }
    assert_ne!(temp_path_of("/"), "/");
    assert_ne!(temp_path_of(""), "");
}

#[test]
fn a_capture_goes_on_past_a_file_that_fails() {
    let mut summary = CaptureSummary::new();
    assert!(summary.is_clean());
    summary.note("/d/a", Ok(Some(1)));
    summary.note("/d/b", Err(EngineError::PathInvalid));
    summary.note("/d/c", Ok(None));
    summary.note("/d/d", Ok(Some(2)));
    summary.note("/d/e", Err(EngineError::Io("unreadable".to_string())));
    assert_eq!((summary.recorded, summary.unchanged), (2, 1));
    assert!(!summary.is_clean());
    assert_eq!(summary.failures.len(), 2);
    assert_eq!(summary.failures[0].0, "/d/b");
    assert!(matches!(summary.failures[0].1, EngineError::PathInvalid));
    assert_eq!(summary.failures[1].0, "/d/e");
    assert!(matches!(&summary.failures[1].1, EngineError::Io(text) if text == "unreadable"));
}

#[test]
fn a_sweep_goes_on_past_a_file_that_stays() {
    let mut summary = SweepSummary::new();
    summary.note("/s/a.zstd", true);
    summary.note("/s/b.zstd", false);
    summary.note("/s/c.zstd", true);
    assert_eq!(summary.removed, 2);
    assert_eq!(summary.failed, vec!["/s/b.zstd".to_string()]);
}

#[test]
fn a_single_capture_needs_a_regular_file() {
    assert!(file_target(true, true).is_ok());
    assert!(matches!(file_target(true, false), Err(EngineError::PathInvalid)));
    assert!(matches!(file_target(false, false), Err(EngineError::PathInvalid)));
    assert!(matches!(file_target(false, true), Err(EngineError::PathInvalid)));
}

#[test]
fn rules_that_cannot_be_read_exclude_nothing() {
    let rules = vec![("node_modules".to_string(), "directory".to_string())];
    assert_eq!(available(Some(rules.clone())), rules);
    let none = available(None);
    assert!(none.is_empty());
    assert!(!Snapshot::is_excluded("/a/node_modules/b", &none));
}

#[test]
fn a_preview_says_where_it_was_cut() {
    assert_eq!(preview(b"hello".to_vec(), 50000), "hello");
    assert_eq!(preview(b"hello".to_vec(), 5), "hello\n\n[... content truncated ...]");
    assert_eq!(preview(b"hello".to_vec(), 4), "hello\n\n[... content truncated ...]");
    assert_eq!(preview(vec![b'a', 0xff], 50000), "[Binary content - cannot display as text]");
    assert_eq!(preview(Vec::new(), 10), "");
}

#[test]
fn binary_contents_are_compared_by_size() {
    assert!(matches!(compare(b"a\0b", b"a\0bcd"), Comparison::Binary(SizeChange::Grew(2))));
    assert!(matches!(compare(b"abcd", b"\0"), Comparison::Binary(SizeChange::Shrank(3))));
    assert!(matches!(compare(b"\0a", b"\0b"), Comparison::Binary(SizeChange::Same)));
    match compare(b"a\nb\n", b"a\n") {
        Comparison::Text(found) => assert_eq!((found.added, found.removed), (0, 1)),
        Comparison::Binary(_) | Comparison::Identical => panic!("two different texts"),
    }
}

#[test]
fn a_content_is_shown_as_text_where_it_is_text() {
    assert!(matches!(view_content(b"a\0b".to_vec()), ViewOutcome::Binary));
    assert!(matches!(view_content(vec![b'a', 0xff]), ViewOutcome::Undecodable));
    match view_content("gr\u{fc}n".as_bytes().to_vec()) {
        ViewOutcome::Text(found) => assert_eq!(found, "gr\u{fc}n"),
        other => panic!("the content is text: {:?}", other),
    }
    assert!(!exceeds_limit(5 * 1024 * 1024, 5));
    assert!(exceeds_limit(5 * 1024 * 1024 + 1, 5));
    assert!(exceeds_limit(1, 0));
    assert!(!exceeds_limit(u64::MAX, u64::MAX));
}

#[test]
fn an_export_goes_where_the_destination_says() {
    let version = Snapshot {
        path: "/data/report.txt".to_string(),
        content_path: "/s/abc.zstd".to_string(),
        checksum: "abc".to_string(),
        date: "2024-01-01T10:00:00+00:00".to_string(),
        size: 1,
    };
    assert_eq!(version.export_destination(None, false, "/cwd"), "/cwd/report.txt");
    assert_eq!(version.export_destination(Some("/out"), true, "/cwd"), "/out/report.txt");
    assert_eq!(version.export_destination(Some("out/r.txt"), false, "/cwd"), "out/r.txt");
    assert_eq!(version.export_destination(Some("out\\r.txt"), false, "/cwd"), "out\\r.txt");
    assert_eq!(version.export_destination(Some("r.txt"), false, "/cwd"), "/cwd/r.txt");
    let nameless = Snapshot { path: "/".to_string(), ..version };
    assert_eq!(nameless.export_destination(None, false, "/cwd"), "/cwd/abc");
    assert_eq!(expand_home("~/x/y", Some("/home/u")), "/home/u/x/y");
    assert_eq!(expand_home("~x/y", Some("/home/u")), "~x/y");
    assert_eq!(expand_home("~/x/y", None), "~/x/y");
    assert_eq!(expand_home("/x/~/y", Some("/home/u")), "/x/~/y");
}

#[test]
fn values_for_the_web_interface() {
    let version = Snapshot {
        path: "/data/report.txt".to_string(),
        content_path: "/s/abc.zstd".to_string(),
        checksum: "abc".to_string(),
        date: "2024-01-01T10:00:00+00:00".to_string(),
        size: 2048,
    };
    let dto = SnapshotDto::new(4, &version);
    assert_eq!(dto.id, 4);
    assert_eq!(dto.path, "/data/report.txt");
    assert_eq!(dto.checksum, "abc");
    assert_eq!(dto.size, 2048);
    assert_eq!(dto.size_formatted, "2.00 KB");

    let lines = vec![
        (1, "/a".to_string(), "d1".to_string(), 1024, "c1".to_string()),
        (2, "/b".to_string(), "d2".to_string(), 1024 * 1024, "c2".to_string()),
    ];
    let dtos = SnapshotDto::list(&lines);
    assert_eq!(dtos.len(), 2);
    assert_eq!(dtos[1].date, "d2");
    assert_eq!(dtos[1].size_formatted, "1.00 MB");

    let stats = StatsDto::new(&lines, 3);
    assert_eq!(stats.total_snapshots, 2);
    assert_eq!(stats.total_storage, 1024 + 1024 * 1024);
    assert_eq!(stats.storage_formatted, "1.00 MB");
    assert_eq!(stats.total_exclusions, 3);
    let huge = vec![
        (1, "/a".to_string(), "d".to_string(), i64::MAX, "c".to_string()),
        (2, "/b".to_string(), "d".to_string(), 5, "c".to_string()),
    ];
    assert_eq!(StatsDto::new(&huge, 0).total_storage, i64::MAX);

    let rules = vec![
        ("a".to_string(), "directory".to_string()),
        ("b".to_string(), "file".to_string()),
    ];
    let dtos = ExclusionDto::list(&rules);
    assert_eq!(dtos[0].id, 1);
    assert_eq!(dtos[1].id, 2);
    assert_eq!(dtos[1].pattern, "b");
    assert_eq!(dtos[1].exclusion_type, "file");
    let added = ExclusionDto::added(&AddExclusionInput {
        pattern: "x".to_string(),
        exclusion_type: "file".to_string(),
    });
    assert_eq!(added.id, 0);
    assert_eq!(added.pattern, "x");

    let ok: ApiResponse<i32> = ApiResponse::from(Ok(3));
    assert!(ok.ok);
    assert_eq!(ok.data, Some(3));
    assert_eq!(ok.err, None);
    let failed: ApiResponse<i32> = ApiResponse::from(Err("no".to_string()));
    assert!(!failed.ok);
    assert_eq!(failed.data, None);
    assert_eq!(failed.err, Some("no".to_string()));
}

#[test]
fn paths_sent_over_the_web() {
    let version = Snapshot {
        path: "/data/report.txt".to_string(),
        content_path: "/s/abc.zstd".to_string(),
        checksum: "abc".to_string(),
        date: "2024-01-01T10:00:00+00:00".to_string(),
        size: 1,
    };
    let create = CreateSnapshotInput { path: "~/notes".to_string() };
    assert_eq!(create.target(Some("/home/u")), "/home/u/notes");
    assert_eq!(create.target(None), "~/notes");
    let export = ExportInput { destination: Some("~/out/r.txt".to_string()) };
    assert_eq!(export.target(&version, "/cwd", Some("/home/u")), "/home/u/out/r.txt");
    let export = ExportInput { destination: Some("/out/r.txt".to_string()) };
    assert_eq!(export.target(&version, "/cwd", Some("/home/u")), "/out/r.txt");
    let export = ExportInput { destination: None };
    assert_eq!(export.target(&version, "/cwd", Some("/home/u")), "/cwd/report.txt");
}

#[test]
fn bytes_that_are_no_utf8_are_no_text() {
    for bytes in [
        vec![0xed, 0xa0, 0x80],
        vec![0xc0, 0x80],
        vec![0xf4, 0x90, 0x80, 0x80],
        vec![0xe2, 0x82],
        vec![0x80],
    ] {
        assert!(matches!(view_content(bytes), ViewOutcome::Undecodable));
    }
    for text in ["", "a", "\u{7ff}", "\u{800}", "\u{ffff}", "\u{10000}", "\u{10ffff}"] {
        match view_content(text.as_bytes().to_vec()) {
            ViewOutcome::Text(found) => assert_eq!(found, text),
            other => panic!("the content is text: {:?}", other),
        }
    }
}

#[test]
fn subjects_of_a_comparison_over_the_web() {
    let whole = "2cf24dba5fb0a30e26e83b2ac5b9e29e1b161e5c1fa7425e73043362938b9824";
    assert!(is_full_fingerprint(whole));
    assert!(is_full_fingerprint(&whole.to_uppercase()));
    assert!(!is_full_fingerprint(&whole[..63]));
    assert!(!is_full_fingerprint(&whole.replace('2', "g")));
    let mut db = Database::new();
    for (checksum, date) in [(whole, "2024-01-01"), ("bb", "2024-01-02")] {
        db.save_snapshot(&Snapshot {
            path: "/a".to_string(),
            content_path: format!("/s/{}.zstd", checksum),
            checksum: checksum.to_string(),
            date: date.to_string(),
            size: 1,
        })
        .unwrap();
    }
    assert_eq!(DiffInput::subject(whole, &db).unwrap().date, "2024-01-01");
    assert_eq!(DiffInput::subject("/a", &db).unwrap().checksum, whole);
    assert!(DiffInput::subject("/b", &db).is_none());
    assert!(DiffInput::subject(&whole.replace('2', "3"), &db).is_none());
    assert!(DiffInput::comparable(MAX_DIFF_SIZE, 0));
    assert!(!DiffInput::comparable(MAX_DIFF_SIZE + 1, 0));
    assert!(!DiffInput::comparable(0, MAX_DIFF_SIZE + 1));
}
