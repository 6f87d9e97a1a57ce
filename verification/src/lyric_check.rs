//! Verification of rendered lyric text against the source lyrics.
//!
//! The rendered SVG's text items are taken apart here (the coordinate-based
//! grouping into lines happens at the caller, on floating-point positions);
//! syllables are merged, lines compared with the source under a lenient
//! normalization, with `combine lines` and multi-part slides accounted for.
use vstd::prelude::*;
use std::collections::HashMap;
use crate::outside;
use crate::render_ly;
use crate::render_ly::SplitStyle;
use crate::show;
use crate::text;

verus! {

broadcast use vstd::std_specs::hash::group_hash_axioms;

/// XML character entities decoded (`&amp;` last-first as written: `&amp;`,
/// `&lt;`, `&gt;`, `&apos;`, `&quot;`, each replaced in turn).
pub open spec fn decoded(s: Seq<char>) -> Seq<char> {
    text::replace(
        text::replace(
            text::replace(text::replace(text::replace(s, "&amp;"@, "&"@), "&lt;"@, "<"@), "&gt;"@, ">"@),
            "&apos;"@,
            "'"@,
        ),
        "&quot;"@,
        "\""@,
    )
}

/// Decodes the XML entities of SVG text.
pub fn decode_entities(s: &str) -> (r: String)
    ensures
        r@ == decoded(s@),
{
    proof {
        reveal_strlit("&amp;");
        reveal_strlit("&lt;");
        reveal_strlit("&gt;");
        reveal_strlit("&apos;");
        reveal_strlit("&quot;");
    }
    let v = text::chars_of(s);
    let v = text::replace_chars(&v, &text::chars_of("&amp;"), &text::chars_of("&"), None);
    let v = text::replace_chars(&v, &text::chars_of("&lt;"), &text::chars_of("<"), None);
    let v = text::replace_chars(&v, &text::chars_of("&gt;"), &text::chars_of(">"), None);
    let v = text::replace_chars(&v, &text::chars_of("&apos;"), &text::chars_of("'"), None);
    let v = text::replace_chars(&v, &text::chars_of("&quot;"), &text::chars_of("\""), None);
    outside::string_from_chars(v.as_slice())
}

/// A text item of a rendered SVG: the `translate(x, y)` of its group, as
/// written, and its decoded text.
pub struct SvgText {
    pub x: String,
    pub y: String,
    pub text: String,
}

/// Regex of a positioned SVG group with its content.
pub open spec fn group_re() -> Seq<char> {
    "(?s)<g transform=\"translate\\(([-0-9.]+),\\s*([-0-9.]+)\\)\"\\s*>(.*?)</g>"@
}

/// Regex of a `tspan` with its text.
pub open spec fn tspan_re() -> Seq<char> {
    "<tspan[^>]*>([^<]*)</tspan>"@
}

/// Capture group `k` of a match (empty if absent).
pub open spec fn group_at(c: Seq<Option<Seq<char>>>, k: int) -> Seq<char> {
    if 0 <= k < c.len() && c[k] is Some {
        c[k]->0
    } else {
        seq![]
    }
}

/// The non-empty decoded texts of the `tspan`s of a group's content.
pub open spec fn tspan_texts(inner: Seq<char>) -> Seq<Seq<char>> {
    outside::regex_captures(tspan_re(), inner).map_values(|t: Seq<Option<Seq<char>>>| decoded(group_at(t, 1))).filter(
        |s: Seq<char>| s.len() > 0,
    )
}

/// The text items of an SVG, in document order: for each positioned group,
/// its position and each non-empty `tspan` text.
pub open spec fn svg_items(svg: Seq<char>) -> Seq<(Seq<char>, Seq<char>, Seq<char>)> {
    outside::regex_captures(group_re(), svg).map_values(
        |c: Seq<Option<Seq<char>>>|
            tspan_texts(group_at(c, 3)).map_values(
                |t: Seq<char>| (group_at(c, 1), group_at(c, 2), t),
            ),
    ).flatten()
}

/// Position and text of each SVG text item.
pub open spec fn items_view(v: Seq<SvgText>) -> Seq<(Seq<char>, Seq<char>, Seq<char>)> {
    v.map_values(|t: SvgText| (t.x@, t.y@, t.text@))
}

fn group_text(c: &Vec<Option<String>>, k: usize) -> (r: String)
    ensures
        r@ == group_at(outside::captures_view(seq![*c])[0], k as int),
{
    assert(outside::captures_view(seq![*c])[0] == c@.map_values(
        |o: Option<String>|
            match o {
                Some(s) => Some(s@),
                None => None,
            },
    ));
    if k < c.len() {
        match &c[k] {
            Some(s) => s.clone(),
            None => {
                let r = text::owned("");
                proof {
                    reveal_strlit("");
                }
                r
            },
        }
    } else {
        let r = text::owned("");
        proof {
            reveal_strlit("");
        }
        r
    }
}

/// The text items of a rendered SVG in document order: each non-empty,
/// decoded `tspan` text with the position of its group as written.
pub fn parse_svg_text(svg: &str) -> (r: Vec<SvgText>)
    ensures
        items_view(r@) == svg_items(svg@),
{
    let groups = outside::regex_captures_all(
        "(?s)<g transform=\"translate\\(([-0-9.]+),\\s*([-0-9.]+)\\)\"\\s*>(.*?)</g>",
        svg,
    );
    let ghost gv = outside::captures_view(groups@);
    let ghost per_group = gv.map_values(
        |c: Seq<Option<Seq<char>>>|
            tspan_texts(group_at(c, 3)).map_values(
                |t: Seq<char>| (group_at(c, 1), group_at(c, 2), t),
            ),
    );
    let mut out: Vec<SvgText> = Vec::new();
    let mut i: usize = 0;
    assert(per_group.take(0).flatten() =~= Seq::<(Seq<char>, Seq<char>, Seq<char>)>::empty());
    while i < groups.len()
        invariant
            i <= groups.len(),
            gv == outside::captures_view(groups@),
            gv == outside::regex_captures(group_re(), svg@),
            per_group == gv.map_values(
                |c: Seq<Option<Seq<char>>>|
                    tspan_texts(group_at(c, 3)).map_values(
                        |t: Seq<char>| (group_at(c, 1), group_at(c, 2), t),
                    ),
            ),
            items_view(out@) == per_group.take(i as int).flatten(),
        decreases groups.len() - i,
    {
        let c = &groups[i];
        assert(outside::captures_view(seq![*c])[0] == gv[i as int]);
        let x = group_text(c, 1);
        let y = group_text(c, 2);
        let inner = group_text(c, 3);
        let spans = outside::regex_captures_all("<tspan[^>]*>([^<]*)</tspan>", inner.as_str());
        let ghost sv = outside::captures_view(spans@);
        let ghost decoded_all = sv.map_values(|t: Seq<Option<Seq<char>>>| decoded(group_at(t, 1)));
        let ghost texts = decoded_all.filter(|s: Seq<char>| s.len() > 0);
        let ghost before = items_view(out@);
        let ghost mk = |t: Seq<char>| (x@, y@, t);
        let mut j: usize = 0;
        assert(decoded_all.take(0).filter(|s: Seq<char>| s.len() > 0) =~= Seq::<Seq<char>>::empty());
        assert(before + Seq::<Seq<char>>::empty().map_values(mk) =~= before);
        while j < spans.len()
            invariant
                j <= spans.len(),
                sv == outside::captures_view(spans@),
                decoded_all == sv.map_values(|t: Seq<Option<Seq<char>>>| decoded(group_at(t, 1))),
                items_view(out@) == before + decoded_all.take(j as int).filter(|s: Seq<char>| s.len() > 0).map_values(mk),
                mk == |t: Seq<char>| (x@, y@, t),
            decreases spans.len() - j,
        {
            let t = &spans[j];
            assert(outside::captures_view(seq![*t])[0] == sv[j as int]);
            let raw = group_text(t, 1);
            let d = decode_entities(raw.as_str());
            let ghost prev = decoded_all.take(j as int);
            assert(decoded_all.take(j + 1) =~= prev.push(d@));
            proof {
                prev.lemma_filter_push(d@, |s: Seq<char>| s.len() > 0);
            }
            if d.unicode_len() > 0 {
                let ghost o0 = items_view(out@);
                out.push(SvgText { x: x.clone(), y: y.clone(), text: d });
                assert(items_view(out@) =~= o0.push((x@, y@, d@)));
                assert(prev.filter(|s: Seq<char>| s.len() > 0).push(d@).map_values(mk) =~= prev.filter(
                    |s: Seq<char>| s.len() > 0,
                ).map_values(mk).push(mk(d@)));
            }
            j += 1;
        }
        assert(decoded_all.take(spans.len() as int) =~= decoded_all);
        assert(texts == tspan_texts(inner@));
        assert(per_group[i as int] =~= texts.map_values(mk));
        assert(per_group.take(i + 1) =~= per_group.take(i as int).push(per_group[i as int]));
        proof {
            per_group.take(i as int).lemma_flatten_push(per_group[i as int]);
        }
        i += 1;
    }
    assert(per_group.take(groups.len() as int) =~= per_group);
    out
}

/// Text that counts as lyrics: not blank and not just a number.
pub open spec fn lyric_text(t: Seq<char>) -> bool {
    let tt = text::trim(t);
    tt.len() > 0 && !text::all_digits(tt)
}

/// Is this SVG text a lyric (not blank, not a verse or bar number)?
pub fn is_lyric(t: &str) -> (r: bool)
    ensures
        r == lyric_text(t@),
{
    let tt = text::trimmed(&text::chars_of(t));
    if tt.len() == 0 {
        return false;
    }
    let mut i: usize = 0;
    while i < tt.len()
        invariant
            i <= tt.len(),
            tt@ == text::trim(t@),
            tt.len() > 0,
            forall|j: int| 0 <= j < i ==> text::is_digit(#[trigger] tt@[j]),
        decreases tt.len() - i,
    {
        if !text::digit(tt[i]) {
            assert(!text::is_digit(tt@[i as int]));
            assert(!text::all_digits(tt@));
            return true;
        }
        i += 1;
    }
    false
}

/// A hyphen token between two syllables of a word.
pub open spec fn is_hyphen(t: Seq<char>) -> bool {
    t == "-"@ || t == "\u{2013}"@ || t == "\u{2014}"@
}

/// One token while merging syllables: a hyphen joins the next token to the
/// previous word.
pub open spec fn syllable_step(st: (Seq<Seq<char>>, bool), tok: Seq<char>) -> (Seq<Seq<char>>, bool) {
    if is_hyphen(tok) {
        (st.0, true)
    } else if st.1 && st.0.len() > 0 {
        (st.0.update(st.0.len() - 1, st.0.last() + tok), false)
    } else {
        (st.0.push(tok), false)
    }
}

/// The words of a line's tokens, and whether a hyphen waits to join the
/// next token.
pub open spec fn syllable_words(toks: Seq<Seq<char>>) -> (Seq<Seq<char>>, bool)
    decreases toks.len(),
{
    if toks.len() == 0 {
        (seq![], false)
    } else {
        syllable_step(syllable_words(toks.drop_last()), toks.last())
    }
}

/// A displayed line from its tokens in order: hyphenated syllables merged
/// into words, words separated by spaces.
pub open spec fn joined_syllables(toks: Seq<Seq<char>>) -> Seq<char> {
    text::join(syllable_words(toks).0, " "@)
}

/// Merges the tokens of one displayed line (in order) into text, joining
/// syllables separated by hyphen tokens.
pub fn join_syllables(line: &Vec<String>) -> (r: String)
    ensures
        r@ == joined_syllables(text::strings_view(line@)),
{
    let ghost lv = text::strings_view(line@);
    let mut out: Vec<Vec<char>> = Vec::new();
    let mut pending = false;
    let mut i: usize = 0;
    let h1 = text::chars_of("-");
    let h2 = text::chars_of("\u{2013}");
    let h3 = text::chars_of("\u{2014}");
    assert(text::views(out@) =~= Seq::<Seq<char>>::empty());
    while i < line.len()
        invariant
            i <= line.len(),
            lv == text::strings_view(line@),
            h1@ == "-"@,
            h2@ == "\u{2013}"@,
            h3@ == "\u{2014}"@,
            (text::views(out@), pending) == syllable_words(lv.take(i as int)),
        decreases line.len() - i,
    {
        assert(lv.take(i + 1).drop_last() =~= lv.take(i as int));
        assert(lv.take(i + 1).last() == line@[i as int]@);
        let tok = text::chars_of(line[i].as_str());
        let ghost o0 = text::views(out@);
        if text::same(&tok, &h1) || text::same(&tok, &h2) || text::same(&tok, &h3) {
            pending = true;
        } else if pending && out.len() > 0 {
            let k = out.len() - 1;
            let mut w = out[k].clone();
            assert(w@ == o0[k as int]);
            text::push_all(&mut w, &tok);
            out.set(k, w);
            assert(text::views(out@) =~= o0.update(k as int, o0.last() + tok@));
            pending = false;
        } else {
            out.push(tok);
            assert(text::views(out@) =~= o0.push(tok@));
            pending = false;
        }
        i += 1;
    }
    assert(lv.take(line.len() as int) =~= lv);
    outside::string_from_chars(text::join_chars(&out, &text::chars_of(" ")).as_slice())
}

/// The displayed lyric lines of grouped SVG text: each line's tokens merged,
/// blank lines dropped.
pub open spec fn lyric_lines(lines: Seq<Seq<Seq<char>>>) -> Seq<Seq<char>> {
    lines.map_values(|l: Seq<Seq<char>>| joined_syllables(l)).filter(|s: Seq<char>| text::trim(s).len() > 0)
}

/// The displayed lyric lines, in melody order, of the text of a rendered SVG
/// already grouped into lines (each line's tokens ordered left to right).
pub fn extract_svg_lyrics(lines: &Vec<Vec<String>>) -> (r: Vec<String>)
    ensures
        text::strings_view(r@) == lyric_lines(lines@.map_values(|l: Vec<String>| text::strings_view(l@))),
{
    let ghost lv = lines@.map_values(|l: Vec<String>| text::strings_view(l@));
    let ghost joined = lv.map_values(|l: Seq<Seq<char>>| joined_syllables(l));
    let mut out: Vec<String> = Vec::new();
    let mut i: usize = 0;
    assert(joined.take(0).filter(|s: Seq<char>| text::trim(s).len() > 0) =~= Seq::<Seq<char>>::empty());
    while i < lines.len()
        invariant
            i <= lines.len(),
            lv == lines@.map_values(|l: Vec<String>| text::strings_view(l@)),
            joined == lv.map_values(|l: Seq<Seq<char>>| joined_syllables(l)),
            text::strings_view(out@) == joined.take(i as int).filter(|s: Seq<char>| text::trim(s).len() > 0),
        decreases lines.len() - i,
    {
        let j = join_syllables(&lines[i]);
        assert(j@ == joined[i as int]);
        let ghost prev = joined.take(i as int);
        assert(joined.take(i + 1) =~= prev.push(j@));
        proof {
            prev.lemma_filter_push(j@, |s: Seq<char>| text::trim(s).len() > 0);
        }
        if text::trimmed(&text::chars_of(j.as_str())).len() > 0 {
            let ghost o0 = text::strings_view(out@);
            out.push(j);
            assert(text::strings_view(out@) =~= o0.push(joined[i as int]));
        }
        i += 1;
    }
    assert(joined.take(lines.len() as int) =~= joined);
    out
}

/// Lenient text for comparison: lowercased, alphanumerics only.
pub open spec fn normalized(s: Seq<char>) -> Seq<char> {
    outside::lowercase(s).filter(|c: char| outside::alphanumeric(c))
}

/// The source lyrics file of a song directory `.../<repo>/lilypond/<song>`:
/// `<repo>/lyrics/<song>.txt`. `None` when the path has no directory two
/// levels up (paths are taken as components separated by `/` or the
/// platform's `sep`, with no trailing separator).
pub open spec fn source_lyrics(p: Seq<char>, sep: char) -> Option<Seq<char>> {
    match show::last_sep(p, sep, p.len() as int) {
        None => None,
        Some(i1) => {
            let name = p.skip(i1 + 1);
            let parent = p.take(i1);
            if name.len() == 0 || i1 == 0 {
                None
            } else {
                let repo = match show::last_sep(parent, sep, parent.len() as int) {
                    None => Seq::empty(),
                    Some(i2) => if i2 == 0 {
                        "/"@
                    } else {
                        parent.take(i2)
                    },
                };
                Some(text::joined(text::joined(repo, "lyrics"@, sep), name + ".txt"@, sep))
            }
        },
    }
}

/// Locates the repository's `lyrics/<song>.txt` for a song directory.
pub fn source_lyrics_path(song_dir: &str, sep: char) -> (r: Option<String>)
    ensures
        match r {
            Some(s) => source_lyrics(song_dir@, sep) == Some(s@),
            None => source_lyrics(song_dir@, sep) is None,
        },
{
    let p = text::chars_of(song_dir);
    let i1 = match show::last_sep_index(&p, sep) {
        Some(i) => i,
        None => {
            return None;
        },
    };
    let len = p.len();
    let name = text::slice_of(&p, i1 + 1, len);
    let parent = text::slice_of(&p, 0, i1);
    assert(name@ =~= song_dir@.skip(i1 + 1));
    assert(parent@ =~= song_dir@.take(i1 as int));
    if name.len() == 0 || i1 == 0 {
        return None;
    }
    let repo: Vec<char> = match show::last_sep_index(&parent, sep) {
        None => Vec::new(),
        Some(i2) => {
            if i2 == 0 {
                proof {
                    reveal_strlit("/");
                }
                let v = text::chars_of("/");
                v
            } else {
                let v = text::slice_of(&parent, 0, i2);
                assert(v@ =~= parent@.take(i2 as int));
                v
            }
        },
    };
    assert(repo@ == match show::last_sep(parent@, sep, parent@.len() as int) {
        None => Seq::<char>::empty(),
        Some(i2) => if i2 == 0 {
            "/"@
        } else {
            parent@.take(i2)
        },
    });
    let repo_s = outside::string_from_chars(repo.as_slice());
    let lyrics_dir = text::join_path(repo_s.as_str(), "lyrics", sep);
    let mut file = name;
    text::push_all(&mut file, &text::chars_of(".txt"));
    let file_s = outside::string_from_chars(file.as_slice());
    Some(text::join_path(lyrics_dir.as_str(), file_s.as_str(), sep))
}

/// Lenient text comparison form: lowercase, keep only alphanumerics.
pub fn normalize(s: &str) -> (r: String)
    ensures
        r@ == normalized(s@),
{
    let low = text::chars_of(outside::to_lowercase(s).as_str());
    let mut out: Vec<char> = Vec::new();
    let mut i: usize = 0;
    assert(low@.take(0).filter(|c: char| outside::alphanumeric(c)) =~= Seq::<char>::empty());
    while i < low.len()
        invariant
            i <= low.len(),
            low@ == outside::lowercase(s@),
            out@ == low@.take(i as int).filter(|c: char| outside::alphanumeric(c)),
        decreases low.len() - i,
    {
        let ghost prev = low@.take(i as int);
        assert(low@.take(i + 1) =~= prev.push(low@[i as int]));
        proof {
            prev.lemma_filter_push(low@[i as int], |c: char| outside::alphanumeric(c));
        }
        if outside::is_alphanumeric(low[i]) {
            out.push(low[i]);
        }
        i += 1;
    }
    assert(low@.take(low.len() as int) =~= low@);
    outside::string_from_chars(out.as_slice())
}

// ---------------------------------------------------------------------------
// Source lyrics

/// Regex of a verse header line (`3.`).
pub open spec fn verse_header_re() -> Seq<char> {
    "^(\\d+)\\.\\s*$"@
}

/// The verse a header line starts (`Some(None)` when its number does not
/// parse), or `None` for a line that is no header.
pub open spec fn header_of(line: Seq<char>) -> Option<Option<u32>> {
    let caps = outside::regex_captures(verse_header_re(), line);
    if caps.len() > 0 {
        Some(text::parse_u32(group_at(caps[0], 1)))
    } else {
        None
    }
}

/// One line of a lyrics source file: a header selects the verse; a
/// non-blank line (trailing whitespace removed) is added to the current verse.
pub open spec fn source_step(st: (Map<u32, Seq<Seq<char>>>, Option<u32>), l: Seq<char>) -> (Map<u32, Seq<Seq<char>>>, Option<u32>) {
    let line = text::trim_end(l);
    match header_of(line) {
        Some(v) => (st.0, v),
        None => match st.1 {
            Some(v) => if text::trim(line).len() > 0 {
                (
                    st.0.insert(
                        v,
                        (if st.0.contains_key(v) {
                            st.0[v]
                        } else {
                            seq![]
                        }).push(line),
                    ),
                    st.1,
                )
            } else {
                st
            },
            None => st,
        },
    }
}

/// The verses read from the lines of a lyrics file, and the verse that
/// the lines read last belong to.
pub open spec fn source_scan(ls: Seq<Seq<char>>) -> (Map<u32, Seq<Seq<char>>>, Option<u32>)
    decreases ls.len(),
{
    if ls.len() == 0 {
        (Map::empty(), None)
    } else {
        source_step(source_scan(ls.drop_last()), ls.last())
    }
}

/// The verses of a `lyrics/<song>.txt` file: each verse number with its lines.
pub open spec fn source_verses(content: Seq<char>) -> Map<u32, Seq<Seq<char>>> {
    source_scan(text::lines(content)).0
}

/// The views of the verses' lines.
pub open spec fn verses_view(m: Map<u32, Vec<String>>) -> Map<u32, Seq<Seq<char>>> {
    m.map_values(|v: Vec<String>| text::strings_view(v@))
}

/// Parses the content of a `lyrics/<song>.txt` file into `{verse -> lines}`.
pub fn load_source_lyrics(content: &str) -> (r: HashMap<u32, Vec<String>>)
    ensures
        verses_view(r@) == source_verses(content@),
{
    let ls = text::lines_of(&text::chars_of(content));
    let mut verses: HashMap<u32, Vec<String>> = HashMap::new();
    let mut current: Option<u32> = None;
    let mut i: usize = 0;
    assert(verses_view(verses@) =~= Map::<u32, Seq<Seq<char>>>::empty());
    while i < ls.len()
        invariant
            i <= ls.len(),
            text::views(ls@) == text::lines(content@),
            (verses_view(verses@), current) == source_scan(text::views(ls@).take(i as int)),
        decreases ls.len() - i,
    {
        let ghost pv = text::views(ls@).take(i + 1);
        assert(pv.drop_last() =~= text::views(ls@).take(i as int));
        assert(pv.last() == ls@[i as int]@);
        let line = text::trimmed_end(&ls[i]);
        let line_s = outside::string_from_chars(line.as_slice());
        let caps = outside::regex_captures_all("^(\\d+)\\.\\s*$", line_s.as_str());
        let ghost cv = outside::captures_view(caps@);
        if caps.len() > 0 {
            assert(outside::captures_view(seq![caps@[0]])[0] == cv[0]);
            let g = group_text(&caps[0], 1);
            current = text::parse_u32_chars(&text::chars_of(g.as_str()));
        } else {
            match current {
                Some(v) => {
                    if text::trimmed(&line).len() > 0 {
                        let ghost m0 = verses_view(verses@);
                        let mut cur: Vec<String> = match verses.get(&v) {
                            Some(existing) => existing.clone(),
                            None => Vec::new(),
                        };
                        assert(text::strings_view(cur@) == (if m0.contains_key(v) { m0[v] } else { seq![] })) by {
                            if m0.contains_key(v) {
                                assert(text::strings_view(cur@) =~= m0[v]);
                            } else {
                                assert(text::strings_view(cur@) =~= Seq::<Seq<char>>::empty());
                            }
                        }
                        let ghost c0 = text::strings_view(cur@);
                        cur.push(line_s);
                        assert(text::strings_view(cur@) =~= c0.push(line@));
                        verses.insert(v, cur);
                        assert(verses_view(verses@) =~= m0.insert(v, c0.push(line@)));
                    }
                },
                None => {},
            }
        }
        i += 1;
    }
    assert(text::views(ls@).take(ls.len() as int) =~= text::views(ls@));
    verses
}

/// Adjacent lines paired with a space (a last odd line stays alone).
pub open spec fn combine_pairs(ls: Seq<Seq<char>>) -> Seq<Seq<char>>
    decreases ls.len(),
{
    if ls.len() == 0 {
        seq![]
    } else if ls.len() == 1 {
        ls
    } else {
        seq![ls[0] + " "@ + ls[1]] + combine_pairs(ls.skip(2))
    }
}

/// The smaller of two integers.
pub open spec fn min(a: int, b: int) -> int {
    if a < b {
        a
    } else {
        b
    }
}

/// The source lines that should appear on part `part` of a verse split in
/// `n` parts: pairs of lines for `combine lines`; the part's contiguous
/// share of the lines for a multi-part verse; otherwise the whole verse.
pub open spec fn source_slice(ls: Seq<Seq<char>>, style: SplitStyle, n: int, part: int) -> Seq<Seq<char>> {
    if style == SplitStyle::CombineLines {
        combine_pairs(ls)
    } else if n > 1 {
        let per = (ls.len() + n - 1) / n;
        ls.subrange(min(part * per, ls.len() as int), min((part + 1) * per, ls.len() as int))
    } else {
        ls
    }
}

/// The slices of parts `0..k` of a verse split in `n` parts, one after the
/// other.
pub open spec fn slices_upto(ls: Seq<Seq<char>>, style: SplitStyle, n: int, k: int) -> Seq<Seq<char>>
    decreases k,
{
    if k <= 0 {
        Seq::empty()
    } else {
        slices_upto(ls, style, n, k - 1) + source_slice(ls, style, n, k - 1)
    }
}

proof fn lemma_slices_prefix(ls: Seq<Seq<char>>, style: SplitStyle, n: int, k: int)
    requires
        style != SplitStyle::CombineLines,
        n > 1,
        0 <= k,
    ensures
        slices_upto(ls, style, n, k) == ls.subrange(0, min(k * ((ls.len() + n - 1) / n), ls.len() as int)),
    decreases k,
{
    let per = (ls.len() + n - 1) / n;
    assert(per >= 0) by (nonlinear_arith)
        requires
            n > 1,
            ls.len() >= 0,
            per == (ls.len() + n - 1) / n,
    ;
    if k == 0 {
        assert(ls.subrange(0, 0) =~= Seq::<Seq<char>>::empty());
    } else {
        lemma_slices_prefix(ls, style, n, k - 1);
        assert((k - 1) * per <= k * per) by (nonlinear_arith)
            requires
                per >= 0,
                k >= 1,
        ;
        assert(k * per == (k - 1) * per + per) by (nonlinear_arith);
        let a = min((k - 1) * per, ls.len() as int);
        let b = min(k * per, ls.len() as int);
        assert(((k - 1) + 1) * per == k * per);
        assert(source_slice(ls, style, n, k - 1) == ls.subrange(a, b));
        assert(slices_upto(ls, style, n, k) == slices_upto(ls, style, n, k - 1) + source_slice(ls, style, n, k - 1));
        assert(ls.subrange(0, a) + ls.subrange(a, b) =~= ls.subrange(0, b));
    }
}

/// Law: split over `n > 1` parts (and not combined), the parts of a verse
/// hold all its lines, in order, each once.
pub proof fn law_parts_cover_lines(ls: Seq<Seq<char>>, style: SplitStyle, n: int)
    requires
        style != SplitStyle::CombineLines,
        n > 1,
    ensures
        slices_upto(ls, style, n, n) == ls,
{
    lemma_slices_prefix(ls, style, n, n);
    let per = (ls.len() + n - 1) / n;
    assert(n * per >= ls.len()) by (nonlinear_arith)
        requires
            n > 1,
            per == (ls.len() + n - 1) / n,
    ;
    assert(ls.subrange(0, ls.len() as int) =~= ls);
}

/// `min(k * per, len)` without overflow.
fn capped_product(k: usize, per: usize, len: usize) -> (r: usize)
    ensures
        r == min(k * per, len as int),
{
    if per == 0 {
        assert(k * per == 0) by (nonlinear_arith)
            requires
                per == 0,
        ;
        0
    } else if k <= len / per {
        assert(k * per <= len) by (nonlinear_arith)
            requires
                per > 0,
                k <= len / per,
        ;
        k * per
    } else {
        assert(k * per > len) by (nonlinear_arith)
            requires
                per > 0,
                k > len / per,
        ;
        len
    }
}

/// The slice of source lines that should appear on the given part.
pub fn source_slice_for_part(src_lines: &Vec<String>, split_style: &SplitStyle, n_parts: usize, part: usize) -> (r: Vec<String>)
    ensures
        text::strings_view(r@) == source_slice(text::strings_view(src_lines@), *split_style, n_parts as int, part as int),
{
    let ghost sv = text::strings_view(src_lines@);
    if *split_style == SplitStyle::CombineLines {
        let mut out: Vec<String> = Vec::new();
        let mut i: usize = 0;
        assert(sv.skip(0) =~= sv);
        assert(text::strings_view(out@) =~= Seq::<Seq<char>>::empty());
        while i < src_lines.len()
            invariant
                i <= src_lines.len(),
                sv == text::strings_view(src_lines@),
                combine_pairs(sv) == text::strings_view(out@) + combine_pairs(sv.skip(i as int)),
            decreases src_lines.len() - i,
        {
            let ghost o0 = text::strings_view(out@);
            let ghost rest = sv.skip(i as int);
            if i + 1 < src_lines.len() {
                let mut v = text::chars_of(src_lines[i].as_str());
                text::push_all(&mut v, &text::chars_of(" "));
                text::push_all(&mut v, &text::chars_of(src_lines[i + 1].as_str()));
                out.push(outside::string_from_chars(v.as_slice()));
                assert(rest.skip(2) =~= sv.skip(i + 2));
                assert(rest[0] == sv[i as int] && rest[1] == sv[i + 1]);
                assert(text::strings_view(out@) =~= o0.push(rest[0] + " "@ + rest[1]));
                assert(o0 + combine_pairs(rest) =~= text::strings_view(out@) + combine_pairs(sv.skip(i + 2)));
                i += 2;
            } else {
                out.push(src_lines[i].clone());
                assert(rest =~= seq![sv[i as int]]);
                assert(text::strings_view(out@) =~= o0.push(sv[i as int]));
                assert(sv.skip(i + 1) =~= Seq::<Seq<char>>::empty());
                i += 1;
            }
        }
        assert(sv.skip(src_lines.len() as int) =~= Seq::<Seq<char>>::empty());
        return out;
    }
    if n_parts > 1 {
        let len = src_lines.len();
        assert(len / n_parts < usize::MAX) by (nonlinear_arith)
            requires
                n_parts >= 2,
                len <= usize::MAX,
        ;
        let per = len / n_parts + if len % n_parts == 0 { 0 } else { 1 };
        assert(per == (len + n_parts - 1) / n_parts as int) by (nonlinear_arith)
            requires
                n_parts >= 2,
                per == len / n_parts + if len % n_parts == 0 { 0int } else { 1int },
        ;
        let start = capped_product(part, per, len);
        let end = if part == usize::MAX {
            if per == 0 {
                assert(len == 0) by (nonlinear_arith)
                    requires
                        n_parts >= 2,
                        per == len / n_parts + if len % n_parts == 0 { 0int } else { 1int },
                        per == 0,
                ;
                assert((part + 1) * per == 0) by (nonlinear_arith)
                    requires
                        per == 0,
                ;
                0
            } else {
                assert((part + 1) * per >= len) by (nonlinear_arith)
                    requires
                        part == usize::MAX,
                        len <= usize::MAX,
                        per >= 1,
                ;
                len
            }
        } else {
            capped_product(part + 1, per, len)
        };
        assert(start <= end) by (nonlinear_arith)
            requires
                start == min(part * per, len as int),
                end == min((part + 1) * per, len as int),
                per >= 0,
        ;
        let mut out: Vec<String> = Vec::new();
        let mut j = start;
        assert(text::strings_view(out@) =~= sv.subrange(start as int, start as int));
        while j < end
            invariant
                start <= j <= end <= len == src_lines.len(),
                sv == text::strings_view(src_lines@),
                text::strings_view(out@) == sv.subrange(start as int, j as int),
            decreases end - j,
        {
            let ghost o0 = text::strings_view(out@);
            let item = src_lines[j].clone();
            assert(item@ == sv[j as int]);
            out.push(item);
            assert(text::strings_view(out@) =~= o0.push(sv[j as int]));
            j += 1;
            assert(text::strings_view(out@) =~= sv.subrange(start as int, j as int));
        }
        return out;
    }
    let r = src_lines.clone();
    assert(text::strings_view(r@) =~= sv);
    r
}

// ---------------------------------------------------------------------------
// Comparing

/// Line `i`, or empty past the end.
pub open spec fn line_at(s: Seq<Seq<char>>, i: int) -> Seq<char> {
    if 0 <= i < s.len() {
        s[i]
    } else {
        seq![]
    }
}

/// Line `i` of the expected and of the displayed lyrics differ under
/// normalization.
pub open spec fn differs(exp: Seq<Seq<char>>, disp: Seq<Seq<char>>, i: int) -> bool {
    normalized(line_at(exp, i)) != normalized(line_at(disp, i))
}

/// Human-readable report of the differing lines among the first `n`.
pub open spec fn mismatch_report(exp: Seq<Seq<char>>, disp: Seq<Seq<char>>, n: int) -> Seq<Seq<char>>
    decreases n,
{
    if n <= 0 {
        seq![]
    } else {
        let prev = mismatch_report(exp, disp, n - 1);
        let i = n - 1;
        if differs(exp, disp, i) {
            prev + seq![
                "  line "@ + text::decimal((i + 1) as nat) + ":"@,
                "    src: "@ + line_at(exp, i),
                "    svg: "@ + line_at(disp, i),
            ]
        } else {
            prev
        }
    }
}

/// Law: a verse part whose rendered lines are exactly the expected source
/// lines has nothing to report, and neither does one whose lines differ
/// only in case, spacing or punctuation.
pub proof fn law_matching_lines_report_nothing(exp: Seq<Seq<char>>, disp: Seq<Seq<char>>, n: int)
    requires
        exp.len() == disp.len(),
        forall|i: int| 0 <= i < exp.len() ==> normalized(#[trigger] exp[i]) == normalized(disp[i]),
    ensures
        mismatch_report(exp, disp, n) == Seq::<Seq<char>>::empty(),
    decreases n,
{
    if n > 0 {
        law_matching_lines_report_nothing(exp, disp, n - 1);
        let i = n - 1;
        if 0 <= i < exp.len() {
            assert(normalized(exp[i]) == normalized(disp[i]));
        }
        assert(!differs(exp, disp, i));
    }
}

/// The expected lines of a verse part, from the source file's content.
pub open spec fn expected_lines(src_text: Seq<char>, verse: u32, style: SplitStyle, n_parts: int, part: int) -> Seq<Seq<char>> {
    source_slice(source_verses(src_text)[verse], style, n_parts, part)
}

/// The comparison report of a verse part: a note when the source lacks the
/// verse, else one entry per differing line.
pub open spec fn comparison(
    src_text: Seq<char>,
    src_path: Seq<char>,
    verse: u32,
    part: int,
    style: SplitStyle,
    n_parts: int,
    displayed: Seq<Seq<char>>,
) -> Seq<Seq<char>> {
    if !source_verses(src_text).contains_key(verse) {
        seq!["source verse "@ + text::decimal(verse as nat) + " missing in "@ + src_path]
    } else {
        let exp = expected_lines(src_text, verse, style, n_parts, part);
        mismatch_report(exp, displayed, if exp.len() > displayed.len() { exp.len() as int } else { displayed.len() as int })
    }
}

fn line_at_exec(s: &Vec<String>, i: usize) -> (r: String)
    ensures
        r@ == line_at(text::strings_view(s@), i as int),
{
    if i < s.len() {
        s[i].clone()
    } else {
        let r = text::owned("");
        proof {
            reveal_strlit("");
        }
        r
    }
}

fn expected_for(src_text: &str, verse: u32, part: u32, split_style: &SplitStyle, n_parts: usize) -> (r: Option<Vec<String>>)
    ensures
        match r {
            Some(e) => source_verses(src_text@).contains_key(verse) && text::strings_view(e@) == expected_lines(
                src_text@,
                verse,
                *split_style,
                n_parts as int,
                part as int,
            ),
            None => !source_verses(src_text@).contains_key(verse),
        },
{
    let src_all = load_source_lyrics(src_text);
    match src_all.get(&verse) {
        Some(src_lines) => Some(source_slice_for_part(src_lines, split_style, n_parts, part as usize)),
        None => None,
    }
}

/// Compares the rendered lyrics of one verse part (`displayed`, in melody
/// order) with the source lyrics file (`src_text`, found at `src_path`).
/// Returns human-readable mismatch lines, empty when everything matches.
pub fn compare_svg_to_source(
    src_text: &str,
    src_path: &str,
    verse: u32,
    part: u32,
    split_style: &SplitStyle,
    n_parts: usize,
    displayed: &Vec<String>,
) -> (r: Vec<String>)
    ensures
        text::strings_view(r@) == comparison(
            src_text@,
            src_path@,
            verse,
            part as int,
            *split_style,
            n_parts as int,
            text::strings_view(displayed@),
        ),
{
    let expected = match expected_for(src_text, verse, part, split_style, n_parts) {
        Some(e) => e,
        None => {
            let mut m = text::chars_of("source verse ");
            text::push_all(&mut m, &text::decimal_chars(verse as u64));
            text::push_all(&mut m, &text::chars_of(" missing in "));
            text::push_all(&mut m, &text::chars_of(src_path));
            let r = vec![outside::string_from_chars(m.as_slice())];
            assert(text::strings_view(r@) =~= seq![m@]);
            return r;
        },
    };
    let ghost ev = text::strings_view(expected@);
    let ghost dv = text::strings_view(displayed@);
    let max_len = if displayed.len() > expected.len() { displayed.len() } else { expected.len() };
    let mut out: Vec<String> = Vec::new();
    let mut i: usize = 0;
    assert(text::strings_view(out@) =~= Seq::<Seq<char>>::empty());
    while i < max_len
        invariant
            i <= max_len,
            ev == text::strings_view(expected@),
            dv == text::strings_view(displayed@),
            text::strings_view(out@) == mismatch_report(ev, dv, i as int),
        decreases max_len - i,
    {
        let src = line_at_exec(&expected, i);
        let svg = line_at_exec(displayed, i);
        let a = text::chars_of(normalize(src.as_str()).as_str());
        let b = text::chars_of(normalize(svg.as_str()).as_str());
        if !text::same(&a, &b) {
            let ghost o0 = text::strings_view(out@);
            let mut l1 = text::chars_of("  line ");
            text::push_all(&mut l1, &text::decimal_chars((i + 1) as u64));
            text::push_all(&mut l1, &text::chars_of(":"));
            let mut l2 = text::chars_of("    src: ");
            text::push_all(&mut l2, &text::chars_of(src.as_str()));
            let mut l3 = text::chars_of("    svg: ");
            text::push_all(&mut l3, &text::chars_of(svg.as_str()));
            out.push(outside::string_from_chars(l1.as_slice()));
            out.push(outside::string_from_chars(l2.as_slice()));
            out.push(outside::string_from_chars(l3.as_slice()));
            assert(text::strings_view(out@) =~= o0 + seq![l1@, l2@, l3@]);
        }
        i += 1;
    }
    out
}

/// A line with its ASCII spaces removed.
pub open spec fn without_spaces(s: Seq<char>) -> Seq<char> {
    s.filter(|c: char| c != ' ')
}

/// The differing line pairs `(src, svg)` among the first `n`, spaces removed.
pub open spec fn mismatch_pairs(exp: Seq<Seq<char>>, disp: Seq<Seq<char>>, n: int) -> Seq<(Seq<char>, Seq<char>)>
    decreases n,
{
    if n <= 0 {
        seq![]
    } else {
        let prev = mismatch_pairs(exp, disp, n - 1);
        let i = n - 1;
        if differs(exp, disp, i) {
            prev.push((without_spaces(line_at(exp, i)), without_spaces(line_at(disp, i))))
        } else {
            prev
        }
    }
}

/// The report has three lines (the line number, the source line and the
/// rendered line) for each differing pair.
pub proof fn lemma_report_len(exp: Seq<Seq<char>>, disp: Seq<Seq<char>>, n: int)
    ensures
        mismatch_report(exp, disp, n).len() == 3 * mismatch_pairs(exp, disp, n).len(),
    decreases n,
{
    if n > 0 {
        lemma_report_len(exp, disp, n - 1);
    }
}

/// Law: for a verse the source has, the comparison report of a verse part
/// (`compare_svg_to_source`) has exactly three lines for each pair of
/// differing lines (`mismatch_pairs_nospace`): both see the same lines differ.
pub proof fn law_report_matches_pairs(
    src_text: Seq<char>,
    src_path: Seq<char>,
    verse: u32,
    part: int,
    style: SplitStyle,
    n_parts: int,
    displayed: Seq<Seq<char>>,
)
    requires
        source_verses(src_text).contains_key(verse),
    ensures
        ({
            let exp = expected_lines(src_text, verse, style, n_parts, part);
            comparison(src_text, src_path, verse, part, style, n_parts, displayed).len() == 3 * mismatch_pairs(
                exp,
                displayed,
                if exp.len() > displayed.len() { exp.len() as int } else { displayed.len() as int },
            ).len()
        }),
{
    let exp = expected_lines(src_text, verse, style, n_parts, part);
    lemma_report_len(exp, displayed, if exp.len() > displayed.len() { exp.len() as int } else { displayed.len() as int });
}

fn strip_spaces(s: &String) -> (r: String)
    ensures
        r@ == without_spaces(s@),
{
    let v = text::chars_of(s.as_str());
    let mut out: Vec<char> = Vec::new();
    let mut i: usize = 0;
    assert(v@.take(0).filter(|c: char| c != ' ') =~= Seq::<char>::empty());
    while i < v.len()
        invariant
            i <= v.len(),
            out@ == v@.take(i as int).filter(|c: char| c != ' '),
        decreases v.len() - i,
    {
        let ghost prev = v@.take(i as int);
        assert(v@.take(i + 1) =~= prev.push(v@[i as int]));
        proof {
            prev.lemma_filter_push(v@[i as int], |c: char| c != ' ');
        }
        if v[i] != ' ' {
            out.push(v[i]);
        }
        i += 1;
    }
    assert(v@.take(v.len() as int) =~= v@);
    outside::string_from_chars(out.as_slice())
}

/// The views of a list of string pairs.
pub open spec fn pairs_view(v: Seq<(String, String)>) -> Seq<(Seq<char>, Seq<char>)> {
    v.map_values(|p: (String, String)| (p.0@, p.1@))
}

/// The `(src, svg)` pairs of the lines of a verse part that differ, with
/// ASCII spaces removed from both; empty when the source lacks the verse.
pub fn mismatch_pairs_nospace(
    src_text: &str,
    verse: u32,
    part: u32,
    split_style: &SplitStyle,
    n_parts: usize,
    displayed: &Vec<String>,
) -> (r: Vec<(String, String)>)
    ensures
        pairs_view(r@) == if source_verses(src_text@).contains_key(verse) {
            let exp = expected_lines(src_text@, verse, *split_style, n_parts as int, part as int);
            let dv = text::strings_view(displayed@);
            mismatch_pairs(exp, dv, if exp.len() > dv.len() { exp.len() as int } else { dv.len() as int })
        } else {
            Seq::empty()
        },
{
    let expected = match expected_for(src_text, verse, part, split_style, n_parts) {
        Some(e) => e,
        None => {
            let r: Vec<(String, String)> = Vec::new();
            assert(pairs_view(r@) =~= Seq::<(Seq<char>, Seq<char>)>::empty());
            return r;
        },
    };
    let ghost ev = text::strings_view(expected@);
    let ghost dv = text::strings_view(displayed@);
    let max_len = if displayed.len() > expected.len() { displayed.len() } else { expected.len() };
    let mut out: Vec<(String, String)> = Vec::new();
    let mut i: usize = 0;
    assert(pairs_view(out@) =~= Seq::<(Seq<char>, Seq<char>)>::empty());
    while i < max_len
        invariant
            i <= max_len,
            ev == text::strings_view(expected@),
            dv == text::strings_view(displayed@),
            pairs_view(out@) == mismatch_pairs(ev, dv, i as int),
        decreases max_len - i,
    {
        let src = line_at_exec(&expected, i);
        let svg = line_at_exec(displayed, i);
        let a = text::chars_of(normalize(src.as_str()).as_str());
        let b = text::chars_of(normalize(svg.as_str()).as_str());
        if !text::same(&a, &b) {
            let ghost o0 = pairs_view(out@);
            let p = (strip_spaces(&src), strip_spaces(&svg));
            let ghost pv = (p.0@, p.1@);
            out.push(p);
            assert(pairs_view(out@) =~= o0.push(pv));
        }
        i += 1;
    }
    out
}

} // verus!
