use bop::model::{
    base_dir, hymn_usage_entry, increment_verify, is_tracked_hymn, read_verify_count, record_hymn_usage,
    scan_verses, AppState, LiturgyEntry, SongLibrary, SongType, DEFAULT_RENDER_WIDTH,
};
use bop::render_ly::SongMeta;
use bop::show::{liturgy_summary, mismatch_text, needs_render, next_to_render, position_label, verify_button};

fn s(x: &str) -> String {
    x.to_string()
}

fn names(v: &[&str]) -> Vec<String> {
    v.iter().map(|x| x.to_string()).collect()
}

// 2026-03-26 14:30:52 UTC
const MAR_26_2026: u64 = 1774535452;

#[test]
fn song_type_prefix_and_label() {
    assert_eq!(SongType::Psalm.prefix(), "psalm");
    assert_eq!(SongType::Hymn.prefix(), "hymn");
    assert_eq!(SongType::Psalm.label(42), "Psalm 42");
    assert_eq!(SongType::Hymn.label(7), "Hymn 7");
}

#[test]
fn verses_from_file_names() {
    let files = names(&["10.svg", "2a.png", "1.svg", "lyrics_3.ly", "notes.ly", "song.yaml", "2b.png", "lyrics_x.ly"]);
    assert_eq!(scan_verses(&files), vec![1, 2, 3, 10]);
    assert_eq!(scan_verses(&names(&["notes.ly"])), Vec::<u32>::new());
}

#[test]
fn library_from_listing() {
    let listing = vec![
        (s("psalm1"), names(&["1.svg", "2.svg"])),
        (s("hymn5"), names(&["lyrics_1.ly", "notes.ly"])),
        (s("hymn6"), names(&["notes.ly"])),
        (s("psalmx"), names(&["1.svg"])),
        (s("photos"), names(&["1.jpg"])),
    ];
    let lib = SongLibrary::scan(&listing);
    assert_eq!(lib.get(SongType::Psalm, 1), Some(&vec![1, 2]));
    assert_eq!(lib.get(SongType::Hymn, 5), Some(&vec![1]));
    assert_eq!(lib.get(SongType::Hymn, 6), None);
    assert_eq!(lib.get(SongType::Psalm, 5), None);
    assert_eq!(lib.get(SongType::Hymn, 1), None);
}

#[test]
fn verify_count_read_after_increment() {
    let mut meta = SongMeta::default();
    assert_eq!(read_verify_count(&meta, 1), 0);
    assert_eq!(increment_verify(&mut meta, 1), 1);
    assert_eq!(increment_verify(&mut meta, 1), 2);
    assert_eq!(read_verify_count(&meta, 1), 2);
    assert_eq!(read_verify_count(&meta, 2), 0);
}

#[test]
fn tracked_hymns() {
    for n in [38u32, 50, 66, 79] {
        assert!(is_tracked_hymn(SongType::Hymn, n));
        assert!(!is_tracked_hymn(SongType::Psalm, n));
    }
    assert!(!is_tracked_hymn(SongType::Hymn, 1));
}

#[test]
fn usage_entry_format() {
    assert_eq!(hymn_usage_entry(MAR_26_2026, 38), "Mar-26-2026 H38");
    // 2024-01-05
    assert_eq!(hymn_usage_entry(19727 * 86400 + 5, 50), "Jan-05-2024 H50");
}

#[test]
fn usage_recorded_once_a_day() {
    let first = record_hymn_usage(SongType::Hymn, 38, MAR_26_2026, "");
    assert_eq!(first, Some(s("Mar-26-2026 H38")));
    let log = format!("{}\n", first.unwrap());
    assert_eq!(record_hymn_usage(SongType::Hymn, 38, MAR_26_2026 + 60, &log), None);
    assert_eq!(record_hymn_usage(SongType::Hymn, 38, MAR_26_2026 + 86400, &log), Some(s("Mar-27-2026 H38")));
    assert_eq!(record_hymn_usage(SongType::Hymn, 50, MAR_26_2026, &log), Some(s("Mar-26-2026 H50")));
}

#[test]
fn usage_matches_trimmed_lines() {
    let log = "Jan-05-2024 H50\r\n  Mar-26-2026 H38  \n";
    assert_eq!(record_hymn_usage(SongType::Hymn, 38, MAR_26_2026, log), None);
}

#[test]
fn untracked_songs_are_not_recorded() {
    assert_eq!(record_hymn_usage(SongType::Psalm, 38, MAR_26_2026, ""), None);
    assert_eq!(record_hymn_usage(SongType::Hymn, 1, MAR_26_2026, ""), None);
}

#[test]
fn base_dir_choice() {
    assert_eq!(base_dir(true, true, "/d/bop", "/cwd", '/'), "/d/bop/lilypond");
    assert_eq!(base_dir(true, false, "/d/bop", "/cwd", '/'), "/cwd/lilypond");
    assert_eq!(base_dir(false, true, "/d/bop", "/cwd", '/'), "/cwd/lilypond");
    assert_eq!(base_dir(false, false, "/d/bop", "", '/'), "lilypond");
}

fn library() -> SongLibrary {
    SongLibrary::scan(&vec![
        (s("psalm1"), names(&["1.svg", "2.svg"])),
        (s("hymn38"), names(&["lyrics_1.ly", "lyrics_2.ly", "lyrics_3.ly"])),
    ])
}

#[test]
fn new_state_is_empty() {
    let st = AppState::new(s("/songs"), library());
    assert_eq!(st.songs_dir, "/songs");
    assert!(st.liturgy.is_empty());
    assert!(st.slides.is_empty());
    assert_eq!(st.current_slide, 0);
    assert_eq!(st.render_width, DEFAULT_RENDER_WIDTH);
    assert_eq!(DEFAULT_RENDER_WIDTH, 2400);
}

#[test]
fn add_song_uses_library_verses() {
    let mut st = AppState::new(s("/songs"), library());
    assert!(st.add_song(SongType::Psalm, 1));
    assert!(!st.add_song(SongType::Psalm, 2));
    assert_eq!(st.liturgy.len(), 1);
    assert_eq!(st.liturgy[0].song_name, "Psalm 1");
    assert_eq!(st.liturgy[0].song_dir, "psalm1");
    assert_eq!(st.liturgy[0].verses, vec![1, 2]);
}

#[test]
fn add_song_with_verses_skips_empty() {
    let mut st = AppState::new(s("/songs"), library());
    assert!(!st.add_song_with_verses(SongType::Hymn, 38, vec![]));
    assert!(st.add_song_with_verses(SongType::Hymn, 38, vec![3, 1]));
    assert_eq!(st.liturgy[0].song_name, "Hymn 38");
    assert_eq!(st.liturgy[0].song_dir, "hymn38");
    assert_eq!(st.liturgy[0].verses, vec![3, 1]);
}

#[test]
fn rebuild_builds_one_slide_per_part() {
    let mut st = AppState::new(s("/songs"), library());
    st.add_song(SongType::Psalm, 1);
    st.rebuild_slides(&vec![vec![1, 2]], '/');
    assert_eq!(st.slides.len(), 3);
    let paths: Vec<&str> = st.slides.iter().map(|x| x.path.as_str()).collect();
    assert_eq!(paths, vec!["/songs/psalm1/1.svg", "/songs/psalm1/2.svg", "/songs/psalm1/2a.svg"]);
    let parts: Vec<u32> = st.slides.iter().map(|x| x.part).collect();
    assert_eq!(parts, vec![0, 0, 1]);
    let verses: Vec<u32> = st.slides.iter().map(|x| x.current_verse).collect();
    assert_eq!(verses, vec![1, 2, 2]);
    assert_eq!(st.slides[0].title, "Psalm 1");
    assert_eq!(st.slides[0].song_dir, "/songs/psalm1");
    assert_eq!(st.slides[2].all_verses, vec![1, 2]);
    assert_eq!(st.current_slide, 0);
}

#[test]
fn rebuild_skips_verses_without_files() {
    let mut st = AppState::new(s("/songs"), library());
    st.add_song(SongType::Psalm, 1);
    st.rebuild_slides(&vec![vec![0, 1]], '/');
    assert_eq!(st.slides.len(), 1);
    assert_eq!(st.slides[0].path, "/songs/psalm1/2.svg");
}

#[test]
fn rebuild_keeps_song_and_verse_shown() {
    let mut st = AppState::new(s("/songs"), library());
    st.add_song(SongType::Psalm, 1);
    st.rebuild_slides(&vec![vec![3, 2]], '/');
    assert_eq!(st.slides[3].path, "/songs/psalm1/2.svg");
    st.navigate(4);
    assert_eq!(st.current_slide, 4);
    st.add_song_with_verses(SongType::Hymn, 38, vec![2]);
    st.rebuild_slides(&vec![vec![1, 1], vec![1]], '/');
    assert_eq!(st.slides.len(), 3);
    assert_eq!(st.current_slide, 1);
    assert_eq!(st.slides[2].path, "/songs/hymn38/2.svg");
}

#[test]
fn rebuild_falls_back_to_first_slide() {
    let mut st = AppState::new(s("/songs"), library());
    st.add_song_with_verses(SongType::Hymn, 38, vec![1, 2]);
    st.rebuild_slides(&vec![vec![1, 1]], '/');
    st.navigate(1);
    assert_eq!(st.current_slide, 1);
    st.rebuild_slides(&vec![vec![1, 0]], '/');
    assert_eq!(st.current_slide, 0);
}

#[test]
fn navigate_clamps() {
    let mut st = AppState::new(s("/songs"), library());
    st.navigate(3);
    assert_eq!(st.current_slide, 0);
    st.add_song(SongType::Psalm, 1);
    st.rebuild_slides(&vec![vec![1, 2]], '/');
    st.navigate(1);
    assert_eq!(st.current_slide, 1);
    st.navigate(10);
    assert_eq!(st.current_slide, 2);
    st.navigate(-10);
    assert_eq!(st.current_slide, 0);
}

#[test]
fn liturgy_summary_line() {
    assert_eq!(liturgy_summary(&vec![]), "");
    let lit = vec![
        LiturgyEntry { song_name: s("Psalm 1"), song_dir: s("psalm1"), verses: vec![1, 2] },
        LiturgyEntry { song_name: s("Hymn 38"), song_dir: s("hymn38"), verses: vec![3] },
    ];
    assert_eq!(liturgy_summary(&lit), "Liturgy: Psalm 1 (1,2) | Hymn 38 (3)");
}

#[test]
fn svg_slides_need_render_until_cached() {
    assert!(needs_render("/songs/psalm1/1.svg", false));
    assert!(needs_render("/songs/psalm1/1.SVG", false));
    assert!(!needs_render("/songs/psalm1/1.svg", true));
    assert!(!needs_render("/songs/psalm1/1.png", false));
    assert!(!needs_render("/songs/psalm1/.svg", false));
    assert!(!needs_render("/songs/x.svg/1", false));
}

#[test]
fn next_render_wraps_around() {
    assert_eq!(next_to_render(0, &vec![]), None);
    assert_eq!(next_to_render(1, &vec![true, false, false, true]), Some(3));
    assert_eq!(next_to_render(3, &vec![true, false, false, true]), Some(0));
    assert_eq!(next_to_render(0, &vec![true, false, false]), None);
    assert_eq!(next_to_render(0, &vec![true]), None);
}

#[test]
fn navigation_label() {
    assert_eq!(position_label(Some(0), 3), "1/3");
    assert_eq!(position_label(Some(2), 3), "3/3");
    assert_eq!(position_label(None, 0), "0/0");
}

#[test]
fn verify_button_states() {
    assert_eq!(verify_button(0), (s("Verify"), true));
    assert_eq!(verify_button(1), (s("Verified"), false));
    assert_eq!(verify_button(5), (s("Verified"), false));
}

#[test]
fn mismatch_note() {
    assert_eq!(mismatch_text(&vec![]), "");
    let pairs = vec![(s("abc"), s("abd")), (s("x"), s(""))];
    assert_eq!(mismatch_text(&pairs), "src: abc\nsvg: abd\nsrc: x\nsvg: ");
}

#[test]
fn title_line_marks_current_verse() {
    assert_eq!(
        bop::show::title_line("Psalm 1", &vec![1, 2], 2),
        "<tspan>Psalm 1: </tspan><tspan fill=\"grey\">1 </tspan><tspan fill=\"black\">2 </tspan>"
    );
    assert_eq!(bop::show::title_line("A & <B>", &vec![], 1), "<tspan>A &amp; &lt;B&gt;: </tspan>");
}

#[test]
fn startup_defaults_to_psalm_one() {
    let none = bop::model::Cli { psalm: vec![], hymn: vec![], update: false, force_one_slide: false };
    assert_eq!(bop::model::startup_songs(&none), vec![(SongType::Psalm, 1)]);
    let some = bop::model::Cli { psalm: vec![23, 1], hymn: vec![38], update: false, force_one_slide: false };
    assert_eq!(
        bop::model::startup_songs(&some),
        vec![(SongType::Psalm, 23), (SongType::Psalm, 1), (SongType::Hymn, 38)]
    );
}

#[test]
fn slides_use_the_platform_separator() {
    let mut st = AppState::new(s("C:\\songs"), library());
    st.add_song(SongType::Psalm, 1);
    st.rebuild_slides(&vec![vec![1, 0]], '\\');
    assert_eq!(st.slides[0].path, "C:\\songs\\psalm1\\1.svg");
    assert_eq!(st.slides[0].song_dir, "C:\\songs\\psalm1");
}

#[test]
fn session_starts_with_psalm_one() {
    let none = bop::model::Cli { psalm: vec![], hymn: vec![], update: false, force_one_slide: false };
    let (st, added) = AppState::start(s("/songs"), library(), &none);
    assert_eq!(added, vec![(SongType::Psalm, 1)]);
    assert_eq!(st.liturgy.len(), 1);
    assert_eq!(st.liturgy[0].song_name, "Psalm 1");
    assert_eq!(st.liturgy[0].song_dir, "psalm1");
    assert_eq!(st.liturgy[0].verses, vec![1, 2]);
    assert_eq!(st.current_slide, 0);
    assert!(st.slides.is_empty());
}

#[test]
fn session_starts_with_the_songs_asked_for() {
    let cli = bop::model::Cli { psalm: vec![99], hymn: vec![38], update: false, force_one_slide: false };
    let (st, added) = AppState::start(s("/songs"), library(), &cli);
    assert_eq!(added, vec![(SongType::Hymn, 38)]);
    assert_eq!(st.liturgy.len(), 1);
    assert_eq!(st.liturgy[0].song_name, "Hymn 38");
    assert_eq!(st.liturgy[0].verses, vec![1, 2, 3]);
}
