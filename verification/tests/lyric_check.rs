use bop::lyric_check::{
    compare_svg_to_source, decode_entities, extract_svg_lyrics, is_lyric, join_syllables, load_source_lyrics,
    mismatch_pairs_nospace, normalize, parse_svg_text, source_lyrics_path, source_slice_for_part,
};
use bop::render_ly::SplitStyle;

fn s(x: &str) -> String {
    x.to_string()
}

fn v(xs: &[&str]) -> Vec<String> {
    xs.iter().map(|x| x.to_string()).collect()
}

#[test]
fn entities_are_decoded_in_order() {
    assert_eq!(decode_entities("a &amp;lt; b &quot;c&quot; &apos;d&apos; &gt;"), "a < b \"c\" 'd' >");
    assert_eq!(decode_entities("plain"), "plain");
}

#[test]
fn svg_text_items() {
    let svg = "<svg><g transform=\"translate(10.5, 20)\"><text><tspan x=\"0\">Hel</tspan><tspan>&amp;</tspan><tspan></tspan></text></g>\n<g transform=\"translate(30,20)\" ><tspan>lo</tspan></g><g><tspan>no</tspan></g></svg>";
    let items = parse_svg_text(svg);
    let got: Vec<(String, String, String)> =
        items.into_iter().map(|t| (t.x, t.y, t.text)).collect();
    assert_eq!(
        got,
        vec![
            (s("10.5"), s("20"), s("Hel")),
            (s("10.5"), s("20"), s("&")),
            (s("30"), s("20"), s("lo")),
        ]
    );
}

#[test]
fn lyric_text_is_not_blank_nor_a_number() {
    assert!(!is_lyric("  "));
    assert!(!is_lyric("12"));
    assert!(!is_lyric(" 3 "));
    assert!(is_lyric("la"));
    assert!(is_lyric("1a"));
}

#[test]
fn syllables_merge_across_hyphens() {
    assert_eq!(join_syllables(&v(&["Hal", "-", "le", "lu", "\u{2013}", "jah"])), "Halle lujah");
    assert_eq!(join_syllables(&v(&["-", "a", "b"])), "a b");
    assert_eq!(join_syllables(&v(&["a", "\u{2014}", "\u{2014}", "b"])), "ab");
    assert_eq!(join_syllables(&v(&[])), "");
}

#[test]
fn displayed_lines_drop_blank_ones() {
    let lines = vec![v(&["Hal", "-", "le"]), v(&["  "]), v(&["lu"])];
    assert_eq!(extract_svg_lyrics(&lines), v(&["Halle", "lu"]));
}

#[test]
fn lenient_form() {
    assert_eq!(normalize("Hello, World! 42"), "helloworld42");
    assert_eq!(normalize("ÀB-c"), "àbc");
}

#[test]
fn source_lyrics_by_verse() {
    let m = load_source_lyrics("intro\n1.\nline a\n\nline b  \n2. \nline c\n");
    assert_eq!(m.len(), 2);
    assert_eq!(m.get(&1), Some(&v(&["line a", "line b"])));
    assert_eq!(m.get(&2), Some(&v(&["line c"])));
    assert!(load_source_lyrics("").is_empty());
}

#[test]
fn source_lyrics_location() {
    assert_eq!(source_lyrics_path("/home/u/repo/lilypond/hymn1", '/'), Some(s("/home/u/repo/lyrics/hymn1.txt")));
    assert_eq!(source_lyrics_path("lilypond/hymn1", '/'), Some(s("lyrics/hymn1.txt")));
    assert_eq!(source_lyrics_path("/lilypond/hymn1", '/'), Some(s("/lyrics/hymn1.txt")));
    assert_eq!(source_lyrics_path("hymn1", '/'), None);
    assert_eq!(source_lyrics_path("/hymn1", '/'), None);
}

#[test]
fn slices_of_a_verse() {
    let ls = v(&["a", "b", "c"]);
    assert_eq!(source_slice_for_part(&ls, &SplitStyle::CombineLines, 1, 0), v(&["a b", "c"]));
    assert_eq!(source_slice_for_part(&ls, &SplitStyle::Default, 2, 0), v(&["a", "b"]));
    assert_eq!(source_slice_for_part(&ls, &SplitStyle::Default, 2, 1), v(&["c"]));
    assert_eq!(source_slice_for_part(&ls, &SplitStyle::Default, 2, 2), v(&[]));
    assert_eq!(source_slice_for_part(&ls, &SplitStyle::MultiSlide, 1, 0), ls);
    let mut all = Vec::new();
    for part in 0..3 {
        all.extend(source_slice_for_part(&ls, &SplitStyle::Default, 3, part));
    }
    assert_eq!(all, ls);
}

const SRC: &str = "1.\nline a\nline b\n";

#[test]
fn comparison_reports_differing_lines() {
    let displayed = v(&["Line, a!", "line X"]);
    assert_eq!(
        compare_svg_to_source(SRC, "lyrics/h.txt", 1, 0, &SplitStyle::Default, 1, &displayed),
        v(&["  line 2:", "    src: line b", "    svg: line X"])
    );
    assert_eq!(
        compare_svg_to_source(SRC, "lyrics/h.txt", 1, 0, &SplitStyle::Default, 1, &v(&["line a"])),
        v(&["  line 2:", "    src: line b", "    svg: "])
    );
    assert!(compare_svg_to_source(SRC, "lyrics/h.txt", 1, 0, &SplitStyle::Default, 1, &v(&["line a", "LINE B"]))
        .is_empty());
}

#[test]
fn comparison_of_missing_verse() {
    assert_eq!(
        compare_svg_to_source(SRC, "lyrics/h.txt", 3, 0, &SplitStyle::Default, 1, &v(&[])),
        v(&["source verse 3 missing in lyrics/h.txt"])
    );
}

#[test]
fn mismatch_pairs_without_spaces() {
    let displayed = v(&["line a", "line X y"]);
    assert_eq!(
        mismatch_pairs_nospace(SRC, 1, 0, &SplitStyle::Default, 1, &displayed),
        vec![(s("lineb"), s("lineXy"))]
    );
    assert!(mismatch_pairs_nospace(SRC, 3, 0, &SplitStyle::Default, 1, &displayed).is_empty());
}

#[test]
fn source_lyrics_location_on_windows() {
    assert_eq!(
        source_lyrics_path("C:\\repo\\lilypond\\hymn1", '\\'),
        Some(s("C:\\repo\\lyrics\\hymn1.txt"))
    );
}

#[test]
fn report_has_three_lines_per_differing_pair() {
    for displayed in [v(&["x", "y", "z"]), v(&["line a"]), v(&[]), v(&["line a", "line b"])] {
        let report = compare_svg_to_source(SRC, "lyrics/h.txt", 1, 0, &SplitStyle::Default, 1, &displayed);
        let pairs = mismatch_pairs_nospace(SRC, 1, 0, &SplitStyle::Default, 1, &displayed);
        assert_eq!(report.len(), 3 * pairs.len());
    }
}
