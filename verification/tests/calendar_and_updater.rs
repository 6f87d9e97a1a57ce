use std::io::Write;
use bop::calendar::epoch_days_to_date;
use bop::updater::{
    collect_pr_files, current_year_str, files_differ, generate_branch_name, has_changes, hymn_usage_path,
    is_patchable_file, should_report_hymn_usage, update_available, usage_sent_marker, zip_entry_target,
};

fn s(x: &str) -> String {
    x.to_string()
}

#[test]
fn epoch_day_zero_is_new_year_1970() {
    assert_eq!(epoch_days_to_date(0), (1970, 1, 1));
}

#[test]
fn epoch_days_cross_years_and_leap_days() {
    assert_eq!(epoch_days_to_date(365), (1971, 1, 1));
    assert_eq!(epoch_days_to_date(10957), (2000, 1, 1));
    assert_eq!(epoch_days_to_date(11016), (2000, 2, 29));
    assert_eq!(epoch_days_to_date(19723), (2024, 1, 1));
    assert_eq!(epoch_days_to_date(19782), (2024, 2, 29));
    assert_eq!(epoch_days_to_date(19783), (2024, 3, 1));
    assert_eq!(epoch_days_to_date(20538), (2026, 3, 26));
}

#[test]
fn epoch_days_roundtrip_on_concrete_days() {
    // days_since_epoch(civil_date(d)) == d, checked by walking day by day.
    let mut prev = epoch_days_to_date(0);
    for d in 1..3000u64 {
        let cur = epoch_days_to_date(d);
        if cur.2 == 1 {
            assert!(cur.1 != prev.1 || cur.0 != prev.0);
        } else {
            assert_eq!((cur.0, cur.1, cur.2 - 1), prev);
        }
        prev = cur;
    }
}

#[test]
fn branch_name_at_epoch() {
    assert_eq!(generate_branch_name(0), "bop-edit/19700101-000000");
}

#[test]
fn branch_name_example_from_docs() {
    // 2026-03-26 14:30:52 UTC
    assert_eq!(generate_branch_name(1774535452), "bop-edit/20260326-143052");
}

#[test]
fn current_year_of_a_time() {
    assert_eq!(current_year_str(1774535452), "2026");
    assert_eq!(current_year_str(0), "1970");
}

#[test]
fn report_due_when_old_entries_and_not_sent() {
    let log = "Jan-05-2025 H38\nMar-26-2026 H50\n";
    assert!(should_report_hymn_usage(Some(log), "2026", ""));
    assert!(should_report_hymn_usage(Some(log), "2026", "2025\n"));
}

#[test]
fn report_not_due_when_sent_this_year() {
    let log = "Jan-05-2025 H38\n";
    assert!(!should_report_hymn_usage(Some(log), "2026", " 2026\n"));
}

#[test]
fn report_not_due_without_old_entries_or_content() {
    assert!(!should_report_hymn_usage(Some("Mar-26-2026 H50\n"), "2026", ""));
    assert!(!should_report_hymn_usage(Some("  \n "), "2026", ""));
    assert!(!should_report_hymn_usage(None, "2026", ""));
}

#[test]
fn usage_paths() {
    assert_eq!(hymn_usage_path(None, "/home/u/.local/share/bop", '/'), "/home/u/.local/share/bop/HymnUsage.txt");
    assert_eq!(hymn_usage_path(Some("/tmp/usage.txt"), "/d", '/'), "/tmp/usage.txt");
    assert_eq!(usage_sent_marker("/home/u/.cache/bop", '/'), "/home/u/.cache/bop/hymn_usage_sent");
}

#[test]
fn update_needed_unless_same_tag() {
    assert!(!update_available(Some("v1.2\n"), "v1.2"));
    assert!(update_available(Some("v1.1"), "v1.2"));
    assert!(update_available(None, "v1.2"));
}

#[test]
fn archive_entries_under_lilypond_and_photos() {
    assert_eq!(zip_entry_target("owner-repo-abc/lilypond/psalm1/notes.ly", '/'), Some(s("lilypond/psalm1/notes.ly")));
    assert_eq!(zip_entry_target("owner-repo-abc/photos/a.jpg", '/'), Some(s("photos/a.jpg")));
    assert_eq!(zip_entry_target("owner-repo-abc/lilypond/psalm1/", '/'), Some(s("lilypond/psalm1/")));
}

#[test]
fn archive_entries_skipped() {
    assert_eq!(zip_entry_target("owner-repo-abc/lilypond/", '/'), None);
    assert_eq!(zip_entry_target("owner-repo-abc/photos/", '/'), None);
    assert_eq!(zip_entry_target("owner-repo-abc/README.md", '/'), None);
    assert_eq!(zip_entry_target("owner-repo-abc/", '/'), None);
    assert_eq!(zip_entry_target("toplevel.txt", '/'), None);
}

#[test]
fn patchable_files() {
    assert!(is_patchable_file("notes.ly"));
    assert!(is_patchable_file("lyrics_3.ly"));
    assert!(is_patchable_file("song.yaml"));
    assert!(!is_patchable_file("1.svg"));
    assert!(!is_patchable_file("song.yaml.bak"));
}

#[test]
fn unchanged_directory_has_no_changes() {
    let files = vec![(s("notes.ly"), s("c d e")), (s("song.yaml"), s("composer: X"))];
    assert!(!files_differ(&files, &files.clone()));
    let reordered = vec![(s("song.yaml"), s("composer: X")), (s("notes.ly"), s("c d e"))];
    assert!(!files_differ(&files, &reordered));
}

#[test]
fn changed_directory_is_detected() {
    let orig = vec![(s("notes.ly"), s("c d e"))];
    assert!(files_differ(&orig, &vec![(s("notes.ly"), s("c d f"))]));
    assert!(files_differ(&orig, &vec![(s("notes.ly"), s("c d e")), (s("lyrics_1.ly"), s("x"))]));
    assert!(files_differ(&orig, &vec![(s("lyrics_1.ly"), s("c d e"))]));
    assert!(files_differ(&vec![], &vec![(s("notes.ly"), s("x"))]));
}

#[test]
fn any_changed_directory_counts() {
    let same = (vec![(s("notes.ly"), s("a"))], vec![(s("notes.ly"), s("a"))]);
    let changed = (vec![(s("notes.ly"), s("a"))], vec![(s("notes.ly"), s("b"))]);
    assert!(!has_changes(&vec![]));
    assert!(!has_changes(&vec![same.clone()]));
    assert!(has_changes(&vec![same, changed]));
}

#[test]
fn pr_files_under_repository_paths() {
    let dirs = vec![
        (s("/home/u/bop/lilypond/psalm42"), vec![(s("notes.ly"), s("N")), (s("song.yaml"), s("Y"))]),
        (s("songs/hymn7"), vec![(s("lyrics_1.ly"), s("L"))]),
    ];
    assert_eq!(
        collect_pr_files(&dirs, '/'),
        vec![
            (s("lilypond/psalm42/notes.ly"), s("N")),
            (s("lilypond/psalm42/song.yaml"), s("Y")),
            (s("hymn7/lyrics_1.ly"), s("L")),
        ]
    );
}

#[test]
fn pull_request_title() {
    let dirs = vec![s("/home/u/lilypond/psalm42"), s("songs/hymn7")];
    assert_eq!(bop::updater::pr_title(&dirs, '/'), "BOP edits: psalm42, hymn7");
    assert_eq!(bop::updater::pr_title(&vec![], '/'), "BOP edits: ");
}

fn archive(entries: &[(&str, Option<&str>)]) -> Vec<u8> {
    let mut w = zip::ZipWriter::new(std::io::Cursor::new(Vec::new()));
    let opts = zip::write::SimpleFileOptions::default();
    for (name, content) in entries {
        match content {
            Some(c) => {
                w.start_file(name.to_string(), opts).unwrap();
                w.write_all(c.as_bytes()).unwrap();
            },
            None => w.add_directory(name.to_string(), opts).unwrap(),
        }
    }
    w.finish().unwrap().into_inner()
}

#[test]
fn update_writes_only_lilypond_and_photos() {
    let bytes = archive(&[
        ("repo-abc/", None),
        ("repo-abc/README.md", Some("readme")),
        ("repo-abc/lilypond/", None),
        ("repo-abc/lilypond/psalm1/", None),
        ("repo-abc/lilypond/psalm1/notes.ly", Some("c d e")),
        ("repo-abc/photos/a.jpg", Some("jpg")),
    ]);
    let (writes, error) = bop::updater::update_writes(&bytes, '/');
    assert_eq!(error, None);
    assert_eq!(
        writes,
        vec![
            (s("lilypond/psalm1/"), None),
            (s("lilypond/psalm1/notes.ly"), Some(b"c d e".to_vec())),
            (s("photos/a.jpg"), Some(b"jpg".to_vec())),
        ]
    );
}

#[test]
fn update_writes_reports_unreadable_archive() {
    let (writes, error) = bop::updater::update_writes(b"not a zip archive", '/');
    assert!(writes.is_empty());
    assert!(error.unwrap().starts_with("Zip error: "));
}

#[test]
fn windows_separator_in_paths() {
    assert_eq!(zip_entry_target("o/lilypond/psalm1/notes.ly", '\\'), Some(s("lilypond\\psalm1/notes.ly")));
    assert_eq!(hymn_usage_path(None, "C:\\Users\\u\\bop", '\\'), "C:\\Users\\u\\bop\\HymnUsage.txt");
    assert_eq!(bop::updater::pr_title(&vec![s("C:\\x\\lilypond\\psalm42")], '\\'), "BOP edits: psalm42");
    let dirs = vec![(s("C:\\x\\lilypond\\psalm42"), vec![(s("notes.ly"), s("N"))])];
    assert_eq!(collect_pr_files(&dirs, '\\'), vec![(s("lilypond/psalm42/notes.ly"), s("N"))]);
}

#[test]
fn update_replaces_only_the_directories_it_brings() {
    let writes = vec![(s("lilypond/psalm1/"), None), (s("lilypond/psalm1/notes.ly"), Some(b"c".to_vec()))];
    assert_eq!(bop::updater::replaced_dirs(&writes, '/'), (true, false));
    let writes = vec![(s("photos\\a.jpg"), Some(b"j".to_vec()))];
    assert_eq!(bop::updater::replaced_dirs(&writes, '\\'), (false, true));
    assert_eq!(bop::updater::replaced_dirs(&vec![], '/'), (false, false));
    let writes = vec![(s("lilypondx/a"), None)];
    assert_eq!(bop::updater::replaced_dirs(&writes, '/'), (false, false));
}

#[test]
fn pr_files_keep_each_path_once() {
    let dirs = vec![
        (s("/a/lilypond/psalm42"), vec![(s("notes.ly"), s("old")), (s("song.yaml"), s("Y"))]),
        (s("/b/lilypond/psalm42"), vec![(s("notes.ly"), s("new"))]),
    ];
    let files = collect_pr_files(&dirs, '/');
    assert_eq!(
        files,
        vec![(s("lilypond/psalm42/notes.ly"), s("new")), (s("lilypond/psalm42/song.yaml"), s("Y"))]
    );
    assert!(bop::updater::paths_distinct(&files));
    assert!(!bop::updater::paths_distinct(&vec![(s("a"), s("1")), (s("b"), s("2")), (s("a"), s("3"))]));
    assert!(bop::updater::paths_distinct(&vec![]));
}

#[test]
fn stored_tag_is_not_fetched_again() {
    assert!(!update_available(Some("v2.0"), "v2.0"));
    assert!(!update_available(Some("v2.0\n"), "v2.0"));
    assert!(update_available(Some(" v2.0"), " v2.0"));
}
