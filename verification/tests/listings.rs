use freeze::mcp::{format_snapshots_list, format_snapshots_list_with_id};

#[test]
fn test_format_snapshots_list_with_id() {
    let snapshots = vec![
        (
            1,
            String::from("/test/file1.txt"),
            "2024-01-15T10:30:00+00:00".to_string(),
            1024,
            "abc123def4567890".to_string(),
        ),
        (
            2,
            String::from("/test/file2.txt"),
            "2024-01-15T11:30:00+00:00".to_string(),
            2048,
            "def456ghi7890123".to_string(),
        ),
    ];

    let result = format_snapshots_list_with_id(&snapshots, None);
    assert!(result.contains("ID"));
    assert!(result.contains("abc123def4567890"));
    assert!(result.contains("file1.txt"));
}

#[test]
fn test_format_snapshots_list_with_id_pagination() {
    let snapshots: Vec<(i64, String, String, i64, String)> = (1..=25)
        .map(|i| {
            (
                i,
                format!("/test/file{}.txt", i),
                "2024-01-15T10:00:00+00:00".to_string(),
                1024,
                format!("checksum{:12}", i),
            )
        })
        .collect();

    let page1 = format_snapshots_list_with_id(&snapshots, Some(1));
    let page2 = format_snapshots_list_with_id(&snapshots, Some(2));
    let page3 = format_snapshots_list_with_id(&snapshots, Some(3));

    assert!(page1.contains("ID"));
    assert!(page2.contains("Page 2 of 3"));
    assert!(page3.contains("Page 3 of 3"));
}

#[test]
fn test_format_snapshots_list() {
    let snapshots = vec![
        (
            String::from("/test/file1.txt"),
            "2024-01-15T10:30:00+00:00".to_string(),
            1024,
            "abc123def4567890".to_string(),
        ),
        (
            String::from("/test/file2.txt"),
            "2024-01-15T11:30:00+00:00".to_string(),
            2048,
            "def456ghi7890123".to_string(),
        ),
    ];

    let result = format_snapshots_list(&snapshots, None);
    assert!(result.contains("Snapshots:"));
    assert!(result.contains("file1.txt"));
    assert!(result.contains("abc123def4567890"));
}

#[test]
fn test_format_snapshots_list_empty() {
    let snapshots: Vec<(String, String, i64, String)> = vec![];
    let result = format_snapshots_list(&snapshots, Some(1));
    assert!(result.contains("Snapshots:"));
}

#[test]
fn test_format_snapshots_list_with_id_empty() {
    let snapshots: Vec<(i64, String, String, i64, String)> = vec![];
    let result = format_snapshots_list_with_id(&snapshots, Some(1));
    assert!(result.contains("Snapshots:"));
}

#[test]
fn listing_with_id_has_the_exact_layout() {
    let snapshots = vec![(
        7,
        String::from("/test/file1.txt"),
        "2024-01-15T10:30:00+00:00".to_string(),
        1024,
        "abc123def4567890ffff".to_string(),
    )];
    let rule = "\u{e2}\u{201d}\u{20ac}";
    let expected = format!(
        "Snapshots:\n{}\n{}\n{}\n{}\n{}\nPage 1 of 1 (1 items)\n{}\n",
        rule.repeat(50),
        "ID      | Date/Time                      | Size      | Checksum            | Path",
        rule.repeat(80),
        "     7  | 2024-01-15T10:30:00+00       |  1.00 KB  | abc123def4567890 | file1.txt",
        rule.repeat(80),
        "Use checksum prefix with restore/view/export to select specific snapshot",
    );
    assert_eq!(format_snapshots_list_with_id(&snapshots, Some(1)), expected);
}

#[test]
fn listing_without_id_has_the_exact_layout() {
    let snapshots = vec![(
        String::from("/test/file1.txt"),
        "2024-01-15T10:30:00+00:00".to_string(),
        2048,
        "abc123def4567890ffff".to_string(),
    )];
    let rule = "\u{e2}\u{201d}\u{20ac}";
    let expected = format!(
        "Snapshots:\n{}\n\u{f0}\u{178}\u{201c} /test/file1.txt\n  \u{f0}\u{178}\u{201c}\u{2026} 2024-01-15T10:30:00+00:00 | \u{f0}\u{178}\u{2019}\u{be} 2.00 KB | \u{f0}\u{178}\u{201d} abc123def4567890\n",
        rule.repeat(50),
    );
    assert_eq!(format_snapshots_list(&snapshots, None), expected);
}

#[test]
fn pages_beyond_the_last_and_page_zero_are_refused() {
    let snapshots: Vec<(String, String, i64, String)> = (1..=25)
        .map(|i| {
            (
                format!("/test/file{}.txt", i),
                "2024-01-15T10:00:00+00:00".to_string(),
                1024,
                format!("checksum{:12}", i),
            )
        })
        .collect();
    assert_eq!(
        format_snapshots_list(&snapshots, Some(4)),
        "Invalid page number. Total pages: 3"
    );
    assert_eq!(
        format_snapshots_list(&snapshots, Some(0)),
        "Invalid page number. Total pages: 3"
    );
    let last = format_snapshots_list(&snapshots, Some(3));
    assert!(last.contains("/test/file21.txt"));
    assert!(last.contains("/test/file25.txt"));
    assert!(!last.contains("/test/file20.txt"));
    assert!(last.contains("Page 3 of 3 (25 items)"));
}

fn line_by_std_formatting(line: &(i64, String, String, i64, String)) -> String {
    let (id, path, date, size, checksum) = line;
    let date_short = if date.len() > 22 { &date[..22] } else { date.as_str() };
    let file_name = std::path::Path::new(path)
        .file_name()
        .map(|name| name.to_string_lossy().into_owned())
        .unwrap_or_else(|| path.clone());
    format!(
        "{:6}  | {:28} | {:>8}  | {:16} | {}\n",
        id,
        date_short,
        freeze::utils::format_size(*size),
        &checksum[..16],
        file_name
    )
}

#[test]
fn lines_are_laid_out_as_std_formatting_lays_them_out() {
    let lines: Vec<(i64, String, String, i64, String)> = vec![
        (1, "/a/b.txt".into(), "2024-01-15T10:30:00+00:00".into(), 0, "0123456789abcdef0123".into()),
        (-42, "/a/".into(), "2024".into(), 1023, "0123456789abcdef".into()),
        (1234567, "/".into(), "".into(), 1024, "0123456789abcdefXYZ".into()),
        (i64::MAX, "relative/name".into(), "2024-01-15T10:30:00.123456789+00:00".into(), 5_000_000_000, "ffffffffffffffffffffffffffffffff".into()),
        (i64::MIN, "a-very-long-file-name-that-goes-on-and-on.tar.gz".into(), "x".repeat(22), 123_456_789, "abcdefabcdefabcdef".into()),
        (7, "/x/..".into(), "x".repeat(23), 999_999_999_999, "0000000000000000".into()),
    ];
    let listing = format_snapshots_list_with_id(&lines, None);
    let rule = "\u{e2}\u{201d}\u{20ac}";
    let mut expected = format!(
        "Snapshots:\n{}\nID      | Date/Time                      | Size      | Checksum            | Path\n{}\n",
        rule.repeat(50),
        rule.repeat(80)
    );
    for line in &lines {
        expected.push_str(&line_by_std_formatting(line));
    }
    assert_eq!(listing, expected);
}

#[test]
fn every_page_shows_its_ten_lines() {
    let lines: Vec<(i64, String, String, i64, String)> = (1..=23)
        .map(|i| {
            (
                i,
                format!("/dir/file{}.txt", i),
                format!("2024-01-15T10:00:{:02}+00:00", i),
                i * 1000,
                format!("{:064x}", i),
            )
        })
        .collect();
    let rule = "\u{e2}\u{201d}\u{20ac}";
    for page in 1..=3u32 {
        let start = (page as usize - 1) * 10;
        let end = std::cmp::min(start + 10, lines.len());
        let mut expected = format!(
            "Snapshots:\n{}\nID      | Date/Time                      | Size      | Checksum            | Path\n{}\n",
            rule.repeat(50),
            rule.repeat(80)
        );
        for line in &lines[start..end] {
            expected.push_str(&line_by_std_formatting(line));
        }
        expected.push_str(&format!(
            "{}\nPage {} of 3 (23 items)\nUse checksum prefix with restore/view/export to select specific snapshot\n",
            rule.repeat(80),
            page
        ));
        assert_eq!(format_snapshots_list_with_id(&lines, Some(page)), expected);

        let plain: Vec<(String, String, i64, String)> = lines
            .iter()
            .map(|line| (line.1.clone(), line.2.clone(), line.3, line.4.clone()))
            .collect();
        let mut expected = format!("Snapshots:\n{}\n", rule.repeat(50));
        for line in &plain[start..end] {
            expected.push_str(&format!(
                "\u{f0}\u{178}\u{201c} {}\n  \u{f0}\u{178}\u{201c}\u{2026} {} | \u{f0}\u{178}\u{2019}\u{be} {} | \u{f0}\u{178}\u{201d} {}\n",
                line.0,
                line.1,
                freeze::utils::format_size(line.2),
                &line.3[..16]
            ));
        }
        expected.push_str(&format!("{}\nPage {} of 3 (23 items)\n", rule.repeat(50), page));
        assert_eq!(format_snapshots_list(&plain, Some(page)), expected);
    }
}

#[test]
fn a_short_fingerprint_is_shown_whole() {
    let lines = vec![(1, "/a".to_string(), "d".to_string(), 1, "abc".to_string())];
    let listing = format_snapshots_list_with_id(&lines, None);
    assert!(listing.ends_with("     1  | d                            |      1 B  | abc              | a\n"));
    let plain = vec![("/a".to_string(), "d".to_string(), 1, "abc".to_string())];
    assert!(format_snapshots_list(&plain, None).ends_with(" abc\n"));
}
