use bop::render_ly::{
    build_combined_ly, build_combined_parts_for_verse, cache_dir, cached_svg_path, content_hash, count_note_lines,
    data_dir, effective_n_parts, is_svg_current, legacy_song_meta, lilypond_cache_dir, max_notes_per_line,
    modify_notes, note_name_to_pitch_class, num_parts_for_verse, pitch_class_to_name, sanitize_lyrics,
    split_lyrics, split_notes, svg_cache_dir, svg_path_for_verse, track_pitch, AbsPitch, PlatformEnv, SongMeta,
    SplitStyle, COMBINE_LINES_THRESHOLD,
};
use bop::preferences::path as preferences_path;
use std::hash::{Hash, Hasher};

fn s(x: &str) -> String {
    x.to_string()
}

fn p(pc: i32, octave: i32) -> AbsPitch {
    AbsPitch { pc, octave }
}

#[test]
fn split_style_labels_and_default() {
    assert_eq!(SplitStyle::Default.label(), "default");
    assert_eq!(SplitStyle::SingleSlide.label(), "single slide");
    assert_eq!(SplitStyle::MultiSlide.label(), "multi slide");
    assert_eq!(SplitStyle::CombineLines.label(), "combine lines");
    assert_eq!(SplitStyle::default(), SplitStyle::Default);
    let m = SongMeta::default();
    assert_eq!(m.composer, None);
    assert_eq!(m.split_style, SplitStyle::Default);
    assert!(m.verified.is_empty());
}

#[test]
fn legacy_composer() {
    assert_eq!(legacy_song_meta(Some("  J.S. Bach \n")).composer, Some(s("J.S. Bach")));
    assert_eq!(legacy_song_meta(Some("  \n")).composer, None);
    assert_eq!(legacy_song_meta(None).composer, None);
}

#[test]
fn parts_from_break_count() {
    assert_eq!(COMBINE_LINES_THRESHOLD, 7);
    assert_eq!(effective_n_parts(&SplitStyle::Default, 0), 1);
    assert_eq!(effective_n_parts(&SplitStyle::Default, 6), 1);
    assert_eq!(effective_n_parts(&SplitStyle::Default, 7), 2);
    assert_eq!(effective_n_parts(&SplitStyle::MultiSlide, 0), 2);
    assert_eq!(effective_n_parts(&SplitStyle::MultiSlide, 6), 2);
    assert_eq!(effective_n_parts(&SplitStyle::MultiSlide, 13), 2);
    assert_eq!(effective_n_parts(&SplitStyle::MultiSlide, 14), 3);
    assert_eq!(effective_n_parts(&SplitStyle::SingleSlide, 20), 1);
    assert_eq!(effective_n_parts(&SplitStyle::CombineLines, 20), 1);
}

#[test]
fn parts_for_verse() {
    let notes = "a \\break ".repeat(7);
    assert_eq!(num_parts_for_verse(Some(&notes), &SongMeta::default()), 2);
    assert_eq!(num_parts_for_verse(Some("c d e"), &SongMeta::default()), 1);
    assert_eq!(num_parts_for_verse(None, &SongMeta::default()), 1);
}

#[test]
fn pitch_names() {
    assert_eq!(note_name_to_pitch_class("g"), Some(4));
    assert_eq!(note_name_to_pitch_class("bes"), Some(6));
    assert_eq!(note_name_to_pitch_class("x"), None);
    assert_eq!(note_name_to_pitch_class(""), None);
    assert_eq!(pitch_class_to_name(0), "c");
    assert_eq!(pitch_class_to_name(7), "c");
    assert_eq!(pitch_class_to_name(-1), "b");
}

#[test]
fn parse_absolute_pitches() {
    assert_eq!(AbsPitch::parse("c'"), Some(p(0, 1)));
    assert_eq!(AbsPitch::parse("gis,,"), Some(p(4, -2)));
    assert_eq!(AbsPitch::parse("bes''"), Some(p(6, 2)));
    assert_eq!(AbsPitch::parse("f"), Some(p(3, 0)));
    assert_eq!(AbsPitch::parse("x'"), None);
    assert_eq!(AbsPitch::parse(""), None);
}

#[test]
fn relative_pitches_go_to_nearest_octave() {
    assert_eq!(AbsPitch::resolve_relative(p(0, 1), "b"), Some(p(6, 0)));
    assert_eq!(AbsPitch::resolve_relative(p(6, 0), "c"), Some(p(0, 1)));
    assert_eq!(AbsPitch::resolve_relative(p(0, 1), "f"), Some(p(3, 1)));
    assert_eq!(AbsPitch::resolve_relative(p(0, 1), "e'"), Some(p(2, 2)));
    assert_eq!(AbsPitch::resolve_relative(p(0, 1), "g,"), Some(p(4, -1)));
    assert_eq!(AbsPitch::resolve_relative(p(0, 1), "r"), None);
}

#[test]
fn pitches_print_back() {
    assert_eq!(p(6, -1).to_ly_string(), "b,");
    assert_eq!(p(0, 2).to_ly_string(), "c''");
    assert_eq!(p(4, 0).to_ly_string(), "g");
    assert_eq!(AbsPitch::parse(&p(5, -3).to_ly_string()), Some(p(5, -3)));
}

#[test]
fn pitch_tracking_skips_commands_strings_and_comments() {
    assert_eq!(track_pitch("c d e f g", p(0, 1)), p(4, 1));
    assert_eq!(track_pitch("c4 \\break b", p(0, 1)), p(6, 0));
    assert_eq!(track_pitch("c \\bar \"|.\" g", p(0, 1)), p(4, 0));
    assert_eq!(track_pitch("c % b a g", p(0, 1)), p(0, 1));
    assert_eq!(track_pitch("", p(2, 3)), p(2, 3));
}

#[test]
fn note_lines_are_breaks_and_bars() {
    assert_eq!(count_note_lines("a \\break b \\break c \\bar \"|.\""), 3);
    assert_eq!(count_note_lines("c d e"), 0);
}

#[test]
fn lyrics_markup_is_removed() {
    assert_eq!(
        sanitize_lyrics("\\textit Hel -- lo \\\"x\\\" \\u00e9"),
        "Hel -- lo \u{201c}x\u{201c} "
    );
    assert_eq!(sanitize_lyrics("plain words"), "plain words");
}

#[test]
fn widest_line_counts_events() {
    assert_eq!(max_notes_per_line("c4 d4 e4 \\break f4 g4"), 8);
    assert_eq!(max_notes_per_line("c4 d4 e4 f4 g4 a4 b4 c4 d4 e4 \\bar \"|.\""), 10);
    assert_eq!(max_notes_per_line("r4 c'4 d,8 e4 fis4 ges2 a4 b4 c4\n% a4 b4\n"), 9);
}

const NOTES: &str = "melody = \\relative c' {\n  \\clef treble\n  c4 d e f \\break\n  g a b c \\break\n  d e f g \\bar \"|.\"\n}\n";

#[test]
fn notes_stay_whole_for_one_part() {
    assert_eq!(split_notes(NOTES, 1), vec![s(NOTES)]);
}

#[test]
fn notes_split_in_two_parts() {
    let parts = split_notes(NOTES, 2);
    assert_eq!(
        parts,
        vec![
            s("melody = \\relative c' {\n  \\clef treble\n\n  c4 d e f \\break\n  g a b c \n}\n"),
            s("melody = \\relative c'' {\n  \\clef treble\n\n  d e f g \\bar \"|.\"\n}\n"),
        ]
    );
}

const LYRICS: &str = "verse = \\lyricmode {\n  one two\n  three four\n  five six\n}\n";

#[test]
fn lyrics_split_like_notes() {
    assert_eq!(split_lyrics(LYRICS, 1, 3), vec![s(LYRICS)]);
    assert_eq!(
        split_lyrics(LYRICS, 2, 3),
        vec![
            s("verse = \\lyricmode  {\n  one two\n  three four\n}\n"),
            s("verse = \\lyricmode  {\n  five six\n}\n"),
        ]
    );
    assert_eq!(
        split_lyrics(LYRICS, 4, 3),
        vec![
            s("verse = \\lyricmode  {\n  one two\n}\n"),
            s("verse = \\lyricmode  {\n  three four\n}\n"),
            s("verse = \\lyricmode  {\n  five six\n}\n"),
            s("verse = \\lyricmode  {\n}\n"),
        ]
    );
}

#[test]
fn notes_get_hidden_rests_and_clef() {
    let notes = "  c4 d e f \\break\n  g4 a b c \\bar \"|.\"";
    assert_eq!(
        modify_notes(notes, false),
        "  \\once \\hide Rest r4 c4 d e f \\once \\hide Rest r2 \\break\n  \\omit Staff.Clef\n  \\once \\hide Rest r4 g4 a b c \\once \\hide Rest r2 \\bar \"|.\""
    );
}

#[test]
fn combining_drops_odd_breaks() {
    let notes = "  c4 d \\break\n  e4 f \\break\n  g4 a \\bar \"|.\"";
    assert_eq!(
        modify_notes(notes, true),
        "  \\once \\hide Rest r4 c4 d \n  e4 f \\once \\hide Rest r2 \\break\n  \\omit Staff.Clef\n  \\once \\hide Rest r4 g4 a \\once \\hide Rest r2 \\bar \"|.\""
    );
}

fn expected_ly(width: usize, header: &str, notes: &str, lyrics: &str, lyrics_score: &str) -> String {
    format!(
        r#"\version "2.24.0"

\paper {{
  paper-width = {width}\mm
  line-width = {width}\mm
  left-margin = 0\cm
  right-margin = 0\cm
}}

{header}

{notes}

{lyrics}

\score {{
  <<
    \new Voice = "melody" {{ \melody }}
{lyrics_score}
  >>
  \layout {{
    indent = 0
    \context {{
      \Score
      \override SpacingSpanner.uniform-stretching = ##t
      \override SpacingSpanner.strict-note-spacing = ##t
    }}
    \context {{
      \Lyrics
      \override LyricText.self-alignment-X = #CENTER
    }}
  }}
}}
"#
    )
}

#[test]
fn combined_file_with_composer_and_lyrics() {
    let got = build_combined_ly("N", "L", Some("Bach"), 92);
    let want = expected_ly(
        92,
        "\\header {\n  composer = \"Bach\"\n  tagline = ##f\n}",
        "N",
        "L",
        "    \\new Lyrics \\lyricsto \"melody\" { \\verse }",
    );
    assert_eq!(got, want);
}

#[test]
fn combined_file_without_lyrics_forgets_accidentals() {
    let got = build_combined_ly("\\cadenzaOn c d", "  \n", None, 20);
    let want = expected_ly(
        20,
        "\\header {\n  tagline = ##f\n}",
        "\\cadenzaOn\n  \\accidentalStyle forget c d",
        "  \n",
        "",
    );
    assert_eq!(got, want);
    let with_bars = build_combined_ly("\\cadenzaOn c | d", "", None, 20);
    assert!(with_bars.contains("\\cadenzaOn c | d"));
    assert!(!with_bars.contains("forget"));
}

#[test]
fn parts_for_a_verse() {
    let meta = SongMeta::default();
    assert!(build_combined_parts_for_verse(None, Some("x"), &meta).is_empty());
    let notes = "melody = \\relative c' {\n  c4 d e f\n}\n";
    let parts = build_combined_parts_for_verse(Some(notes), Some("verse = \\lyricmode { la }"), &meta);
    assert_eq!(parts.len(), 1);
    let modified = modify_notes(notes, false);
    assert_eq!(
        parts[0],
        build_combined_ly(&modified, "verse = \\lyricmode { la }", None, max_notes_per_line(&modified) * 9 + 20)
    );
}

#[test]
fn hash_is_sixteen_hex_digits_of_default_hasher() {
    let mut h = std::collections::hash_map::DefaultHasher::new();
    "some content".hash(&mut h);
    assert_eq!(content_hash("some content"), format!("{:016x}", h.finish()));
    assert_eq!(content_hash("some content").len(), 16);
    assert_ne!(content_hash("a"), content_hash("b"));
}

#[test]
fn cache_paths() {
    assert_eq!(svg_cache_dir("/c/bop", '/'), "/c/bop/svg");
    assert_eq!(cached_svg_path("/c/bop", "x", '/'), format!("/c/bop/svg/{}.svg", content_hash("x")));
    let parts = vec![s("p0"), s("p1")];
    let existing = vec![cached_svg_path("/c", "p1", '/')];
    assert_eq!(svg_path_for_verse("/c", &parts, 1, &existing, '/'), Some(cached_svg_path("/c", "p1", '/')));
    assert_eq!(svg_path_for_verse("/c", &parts, 0, &existing, '/'), None);
    assert_eq!(svg_path_for_verse("/c", &parts, 2, &existing, '/'), None);
    assert!(is_svg_current("/c", &parts, 1, &existing, '/'));
    assert!(!is_svg_current("/c", &parts, 0, &existing, '/'));
}

fn linux_env(home: Option<&str>) -> PlatformEnv {
    PlatformEnv {
        windows: false,
        appdata: None,
        local_appdata: None,
        xdg_data_home: None,
        xdg_cache_home: None,
        home: home.map(|h| h.to_string()),
    }
}

#[test]
fn platform_directories() {
    let env = linux_env(Some("/home/u"));
    assert_eq!(data_dir(&env), "/home/u/.local/share/bop");
    assert_eq!(cache_dir(&env), "/home/u/.cache/bop");
    assert_eq!(lilypond_cache_dir(&env), "/home/u/.cache/bop/lilypond-bin");
    assert_eq!(data_dir(&linux_env(None)), "/tmp/.local/share/bop");
    let mut xdg = linux_env(Some("/home/u"));
    xdg.xdg_data_home = Some(s("/x/data"));
    xdg.xdg_cache_home = Some(s("/x/cache"));
    assert_eq!(data_dir(&xdg), "/x/data/bop");
    assert_eq!(cache_dir(&xdg), "/x/cache/bop");
    assert_eq!(preferences_path("/x/data/bop", '/'), "/x/data/bop/preference.yaml");
}

#[test]
fn split_style_positions() {
    assert_eq!(SplitStyle::at(0), SplitStyle::Default);
    assert_eq!(SplitStyle::at(3), SplitStyle::CombineLines);
    assert_eq!(SplitStyle::at(9), SplitStyle::Default);
    for i in 0..4 {
        assert_eq!(SplitStyle::at(i).index(), i);
    }
}

#[test]
fn render_file_names() {
    let h = content_hash("src");
    assert_eq!(
        bop::render_ly::render_paths("/c/bop", "src", '/'),
        (
            format!("/c/bop/svg/{h}.svg"),
            format!("/c/bop/svg/_combined_{h}.ly"),
            format!("/c/bop/svg/{h}"),
            format!("/c/bop/svg/{h}.cropped.svg"),
        )
    );
}

#[test]
fn lilypond_download_urls() {
    assert_eq!(
        bop::render_ly::lilypond_url(false),
        "https://gitlab.com/lilypond/lilypond/-/releases/v2.24.4/downloads/lilypond-2.24.4-linux-x86_64.tar.gz"
    );
    assert_eq!(
        bop::render_ly::lilypond_url(true),
        "https://gitlab.com/lilypond/lilypond/-/releases/v2.24.4/downloads/lilypond-2.24.4-mingw-x86_64.zip"
    );
}

#[test]
fn many_lines_are_combined_without_asking() {
    let seven = "  c4 d \\break\n".repeat(7) + "  e4 f \\bar \"|.\"";
    assert_eq!(modify_notes(&seven, false).matches("\\break").count(), 3);
    assert_eq!(modify_notes(&seven, false), modify_notes(&seven, true));
    let six = "  c4 d \\break\n".repeat(6) + "  e4 f \\bar \"|.\"";
    assert_eq!(modify_notes(&six, false).matches("\\break").count(), 6);
    assert_eq!(modify_notes(&six, true).matches("\\break").count(), 3);
}

#[test]
fn relative_pitch_of_the_melody() {
    assert_eq!(bop::render_ly::relative_pitch(NOTES), "c'");
    assert_eq!(bop::render_ly::relative_pitch("melody = \\relative g, {\n  c\n}\n"), "g,");
    assert_eq!(bop::render_ly::relative_pitch("melody = {\n  c\n}\n"), "c'");
}

#[test]
fn windows_platform_directories() {
    let env = PlatformEnv {
        windows: true,
        appdata: Some(s("C:\\Users\\u\\AppData\\Roaming")),
        local_appdata: None,
        xdg_data_home: None,
        xdg_cache_home: None,
        home: None,
    };
    assert_eq!(data_dir(&env), "C:\\Users\\u\\AppData\\Roaming\\bop");
    assert_eq!(cache_dir(&env), "C:\\Temp\\bop");
    assert_eq!(lilypond_cache_dir(&env), "C:\\Temp\\bop\\lilypond-bin");
    assert_eq!(cached_svg_path("C:\\Temp\\bop", "x", '\\'), format!("C:\\Temp\\bop\\svg\\{}.svg", content_hash("x")));
}
