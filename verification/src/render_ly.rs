//! Assembling LilyPond sources for rendering: split styles, song metadata,
//! relative-pitch tracking, splitting long songs across slides, and the
//! content-addressed cache names of rendered SVGs.
use vstd::prelude::*;
use std::collections::HashMap;
use crate::outside;
use crate::text;

verus! {

/// Minimum number of `\break`s before lines are combined in pairs; also the
/// number of lines a slide holds when a song is split across slides.
pub const COMBINE_LINES_THRESHOLD: usize = 7;

/// How a song's lines should be split across slides.
#[derive(Clone, Copy, PartialEq, Eq, Structural, Debug)]
pub enum SplitStyle {
    /// Automatically decide based on line count thresholds.
    Default,
    /// Force everything onto a single slide.
    SingleSlide,
    /// Force rendering across multiple slides.
    MultiSlide,
    /// Force combining line pairs into single lines.
    CombineLines,
}

impl Default for SplitStyle {
    fn default() -> (r: Self)
        ensures
            r == SplitStyle::Default,
    {
        SplitStyle::Default
    }
}

/// The name of a split style as written in `song.yaml`.
pub open spec fn style_label(s: SplitStyle) -> Seq<char> {
    match s {
        SplitStyle::Default => "default"@,
        SplitStyle::SingleSlide => "single slide"@,
        SplitStyle::MultiSlide => "multi slide"@,
        SplitStyle::CombineLines => "combine lines"@,
    }
}

/// The styles in the order the style chooser lists them.
pub open spec fn style_order(i: int) -> SplitStyle {
    if i == 1 {
        SplitStyle::SingleSlide
    } else if i == 2 {
        SplitStyle::MultiSlide
    } else if i == 3 {
        SplitStyle::CombineLines
    } else {
        SplitStyle::Default
    }
}

impl SplitStyle {
    /// The style at position `i` of the chooser (`Default` past the end).
    pub fn at(i: u32) -> (r: SplitStyle)
        ensures
            r == style_order(i as int),
    {
        if i == 1 {
            SplitStyle::SingleSlide
        } else if i == 2 {
            SplitStyle::MultiSlide
        } else if i == 3 {
            SplitStyle::CombineLines
        } else {
            SplitStyle::Default
        }
    }

    /// The position of this style in the chooser.
    pub fn index(&self) -> (r: u32)
        ensures
            r < 4,
            style_order(r as int) == *self,
    {
        match self {
            SplitStyle::Default => 0,
            SplitStyle::SingleSlide => 1,
            SplitStyle::MultiSlide => 2,
            SplitStyle::CombineLines => 3,
        }
    }

    /// The name of this style as written in `song.yaml`.
    pub fn label(&self) -> (r: &'static str)
        ensures
            r@ == style_label(*self),
    {
        match self {
            SplitStyle::Default => "default",
            SplitStyle::SingleSlide => "single slide",
            SplitStyle::MultiSlide => "multi slide",
            SplitStyle::CombineLines => "combine lines",
        }
    }
}

/// Song metadata stored in `song.yaml`.
pub struct SongMeta {
    pub composer: Option<String>,
    pub split_style: SplitStyle,
    /// How many times each verse has been verified.
    pub verified: HashMap<u32, u32>,
}

impl Default for SongMeta {
    fn default() -> (r: Self)
        ensures
            r.composer is None,
            r.split_style == SplitStyle::Default,
            r.verified@ == Map::<u32, u32>::empty(),
    {
        SongMeta { composer: None, split_style: SplitStyle::Default, verified: HashMap::new() }
    }
}

/// The metadata of a song without `song.yaml`: the composer is the trimmed
/// content of the legacy `composer.txt`, if any and not blank.
pub fn legacy_song_meta(composer_txt: Option<&str>) -> (r: SongMeta)
    ensures
        match composer_txt {
            Some(t) => if text::trim(t@).len() > 0 {
                r.composer matches Some(c) && c@ == text::trim(t@)
            } else {
                r.composer is None
            },
            None => r.composer is None,
        },
        r.split_style == SplitStyle::Default,
        r.verified@ == Map::<u32, u32>::empty(),
{
    let composer = match composer_txt {
        Some(t) => {
            let c = text::trimmed(&text::chars_of(t));
            if c.len() > 0 {
                Some(outside::string_from_chars(c.as_slice()))
            } else {
                None
            }
        },
        None => None,
    };
    SongMeta { composer, split_style: SplitStyle::Default, verified: HashMap::new() }
}

/// Number of slides a verse is split into. The automatic style takes one
/// slide per started group of `COMBINE_LINES_THRESHOLD` lines (a song has one
/// line more than it has `\break`s); the multi-slide style does the same but
/// always takes at least two slides; the single-slide and combined-lines
/// styles take one.
pub open spec fn n_parts(style: SplitStyle, break_count: int) -> int {
    let by_lines = (break_count + 1 + 7 - 1) / 7;
    match style {
        SplitStyle::Default => by_lines,
        SplitStyle::MultiSlide => if by_lines < 2 {
            2
        } else {
            by_lines
        },
        SplitStyle::SingleSlide | SplitStyle::CombineLines => 1,
    }
}

/// The number of slide parts for a song with the given split style and
/// number of `\break`s.
pub fn effective_n_parts(split_style: &SplitStyle, break_count: usize) -> (r: usize)
    ensures
        r == n_parts(*split_style, break_count as int),
        r >= 1,
        *split_style == SplitStyle::MultiSlide ==> r >= 2,
{
    // (break_count + 1 + 6) / 7, without overflow
    let by_lines = break_count / COMBINE_LINES_THRESHOLD + 1;
    match split_style {
        SplitStyle::Default => by_lines,
        SplitStyle::MultiSlide => if by_lines < 2 {
            2
        } else {
            by_lines
        },
        SplitStyle::SingleSlide | SplitStyle::CombineLines => 1,
    }
}

/// Number of slides for a verse: from the `\break`s of `notes.ly` when it
/// can be read (`raw_notes`), one otherwise.
pub fn num_parts_for_verse(raw_notes: Option<&str>, meta: &SongMeta) -> (r: usize)
    ensures
        r == match raw_notes {
            Some(n) => n_parts(meta.split_style, text::count(n@, "\\break"@) as int),
            None => 1,
        },
{
    match raw_notes {
        Some(n) => {
            let brk = text::chars_of("\\break");
            proof {
                reveal_strlit("\\break");
            }
            let breaks = text::count_chars(&text::chars_of(n), &brk);
            effective_n_parts(&meta.split_style, breaks)
        },
        None => 1,
    }
}

// ---------------------------------------------------------------------------
// The SVG cache

/// `format!("{:016x}", h)`.
pub open spec fn hex16(h: u64) -> Seq<char> {
    text::pad_zero(text::radix(h as nat, 16), 16)
}

/// The cache key of a combined `.ly` source: its hash in 16 hex digits.
pub fn content_hash(data: &str) -> (r: String)
    ensures
        r@ == hex16(outside::str_hash(data@)),
{
    let h = outside::default_hash(data);
    let v = text::pad_zero_chars(text::radix_chars(h, 16), 16);
    outside::string_from_chars(v.as_slice())
}

/// The environment that the platform directories are found from: the
/// platform, and each variable's value when it is set.
pub struct PlatformEnv {
    pub windows: bool,
    pub appdata: Option<String>,
    pub local_appdata: Option<String>,
    pub xdg_data_home: Option<String>,
    pub xdg_cache_home: Option<String>,
    pub home: Option<String>,
}

/// The variable's value, or `default` when it is not set.
pub open spec fn or_default(v: Option<String>, default: Seq<char>) -> Seq<char> {
    match v {
        Some(s) => s@,
        None => default,
    }
}

fn or_default_exec(v: &Option<String>, default: &str) -> (r: String)
    ensures
        r@ == or_default(*v, default@),
{
    match v {
        Some(s) => s.clone(),
        None => text::owned(default),
    }
}

/// The path separator of the platform the environment is from.
pub open spec fn env_sep(env: PlatformEnv) -> char {
    if env.windows {
        '\\'
    } else {
        '/'
    }
}

fn env_sep_exec(env: &PlatformEnv) -> (c: char)
    ensures
        c == env_sep(*env),
{
    if env.windows {
        '\\'
    } else {
        '/'
    }
}

/// The platform data directory: `%APPDATA%\bop` on Windows (`C:\Temp`
/// standing in for an unset `APPDATA`), else `$XDG_DATA_HOME/bop`, by
/// default `$HOME/.local/share/bop` (`/tmp` standing in for an unset `HOME`).
pub open spec fn data_dir_of(env: PlatformEnv) -> Seq<char> {
    let base = if env.windows {
        or_default(env.appdata, "C:\\Temp"@)
    } else {
        match env.xdg_data_home {
            Some(x) => x@,
            None => text::joined(text::joined(or_default(env.home, "/tmp"@), ".local"@, env_sep(env)), "share"@, env_sep(env)),
        }
    };
    text::joined(base, "bop"@, env_sep(env))
}

/// The platform cache directory: `%LOCALAPPDATA%\bop` on Windows, else
/// `$XDG_CACHE_HOME/bop`, by default `$HOME/.cache/bop`.
pub open spec fn cache_dir_of(env: PlatformEnv) -> Seq<char> {
    let base = if env.windows {
        or_default(env.local_appdata, "C:\\Temp"@)
    } else {
        match env.xdg_cache_home {
            Some(x) => x@,
            None => text::joined(or_default(env.home, "/tmp"@), ".cache"@, env_sep(env)),
        }
    };
    text::joined(base, "bop"@, env_sep(env))
}

/// The platform data directory for persistent app data.
pub fn data_dir(env: &PlatformEnv) -> (r: String)
    ensures
        r@ == data_dir_of(*env),
{
    let sep = env_sep_exec(env);
    let base = if env.windows {
        or_default_exec(&env.appdata, "C:\\Temp")
    } else {
        match &env.xdg_data_home {
            Some(x) => x.clone(),
            None => {
                let home = or_default_exec(&env.home, "/tmp");
                let local = text::join_path(home.as_str(), ".local", sep);
                text::join_path(local.as_str(), "share", sep)
            },
        }
    };
    text::join_path(base.as_str(), "bop", sep)
}

/// The platform cache directory.
pub fn cache_dir(env: &PlatformEnv) -> (r: String)
    ensures
        r@ == cache_dir_of(*env),
{
    let sep = env_sep_exec(env);
    let base = if env.windows {
        or_default_exec(&env.local_appdata, "C:\\Temp")
    } else {
        match &env.xdg_cache_home {
            Some(x) => x.clone(),
            None => {
                let home = or_default_exec(&env.home, "/tmp");
                text::join_path(home.as_str(), ".cache", sep)
            },
        }
    };
    text::join_path(base.as_str(), "bop", sep)
}

/// Where a downloaded LilyPond is kept: `lilypond-bin` in the cache
/// directory.
pub fn lilypond_cache_dir(env: &PlatformEnv) -> (r: String)
    ensures
        r@ == text::joined(cache_dir_of(*env), "lilypond-bin"@, env_sep(*env)),
{
    let c = cache_dir(env);
    let sep = env_sep_exec(env);
    text::join_path(c.as_str(), "lilypond-bin", sep)
}

/// The directory of rendered SVGs inside the platform cache directory.
pub fn svg_cache_dir(cache_dir: &str, sep: char) -> (r: String)
    ensures
        r@ == text::joined(cache_dir@, "svg"@, sep),
{
    text::join_path(cache_dir, "svg", sep)
}

/// Where the SVG rendered from the combined `.ly` content is cached:
/// `<svg cache>/<hash>.svg`.
pub open spec fn cached_svg(cache_dir: Seq<char>, combined: Seq<char>, sep: char) -> Seq<char> {
    text::joined(text::joined(cache_dir, "svg"@, sep), hex16(outside::str_hash(combined)) + ".svg"@, sep)
}

/// A lowercase hexadecimal digit.
pub open spec fn is_hex_digit(c: char) -> bool {
    ('0' <= c && c <= '9') || ('a' <= c && c <= 'f')
}

/// `16` to the power `k`.
pub open spec fn pow16(k: nat) -> nat
    decreases k,
{
    if k == 0 {
        1
    } else {
        16 * pow16((k - 1) as nat)
    }
}

proof fn lemma_radix16(n: nat, k: nat)
    requires
        k >= 1,
        n < pow16(k),
    ensures
        1 <= text::radix(n, 16).len() <= k,
        forall|i: int| 0 <= i < text::radix(n, 16).len() ==> is_hex_digit(#[trigger] text::radix(n, 16)[i]),
    decreases k,
{
    if n >= 16 {
        assert(n / 16 < pow16((k - 1) as nat)) by (nonlinear_arith)
            requires
                n < 16 * pow16((k - 1) as nat),
        ;
        assert(k - 1 >= 1) by {
            if k == 1 {
                assert(pow16(0) == 1);
            }
        }
        lemma_radix16(n / 16, (k - 1) as nat);
        assert(text::radix(n, 16) == text::radix(n / 16, 16) + seq![text::digit_char(n % 16)]);
    }
}

/// Law: a rendered SVG is cached as `<cache>/svg/<16 lowercase hex
/// digits>.svg`, the digits naming its combined source (equal sources, equal
/// paths).
pub proof fn law_cached_svg_name(cache_dir: Seq<char>, combined: Seq<char>, sep: char)
    ensures
        ({
            let name = hex16(outside::str_hash(combined));
            &&& cached_svg(cache_dir, combined, sep) == text::joined(text::joined(cache_dir, "svg"@, sep), name + ".svg"@, sep)
            &&& name.len() == 16
            &&& forall|i: int| 0 <= i < 16 ==> is_hex_digit(#[trigger] name[i])
        }),
{
    let h = outside::str_hash(combined);
    reveal_with_fuel(pow16, 17);
    assert(pow16(16) == 0x1_0000_0000_0000_0000);
    lemma_radix16(h as nat, 16);
    let r = text::radix(h as nat, 16);
    let name = hex16(h);
    assert forall|i: int| 0 <= i < 16 implies is_hex_digit(#[trigger] name[i]) by {
        if r.len() < 16 {
            let pad = (16 - r.len()) as int;
            if i >= pad {
                assert(name[i] == r[i - pad]);
            }
        }
    }
}

/// The cached SVG path for the given combined `.ly` content, under the
/// platform cache directory `cache_dir`.
pub fn cached_svg_path(cache_dir: &str, combined_ly_content: &str, sep: char) -> (r: String)
    ensures
        r@ == cached_svg(cache_dir@, combined_ly_content@, sep),
{
    let dir = svg_cache_dir(cache_dir, sep);
    let mut name = text::chars_of(content_hash(combined_ly_content).as_str());
    text::push_all(&mut name, &text::chars_of(".svg"));
    let name = outside::string_from_chars(name.as_slice());
    text::join_path(dir.as_str(), name.as_str(), sep)
}

/// The files of one render, all in the SVG cache: the SVG, the combined
/// source handed to LilyPond (`_combined_<hash>.ly`), the output stem given
/// to LilyPond (`<hash>`), and the cropped SVG it writes
/// (`<hash>.cropped.svg`).
pub open spec fn render_files(cache_dir: Seq<char>, combined: Seq<char>, sep: char) -> (Seq<char>, Seq<char>, Seq<char>, Seq<char>) {
    let dir = text::joined(cache_dir, "svg"@, sep);
    let h = hex16(outside::str_hash(combined));
    (
        text::joined(dir, h + ".svg"@, sep),
        text::joined(dir, "_combined_"@ + h + ".ly"@, sep),
        text::joined(dir, h, sep),
        text::joined(dir, h + ".cropped.svg"@, sep),
    )
}

/// The paths of a render of the combined source `combined`.
pub fn render_paths(cache_dir: &str, combined: &str, sep: char) -> (r: (String, String, String, String))
    ensures
        (r.0@, r.1@, r.2@, r.3@) == render_files(cache_dir@, combined@, sep),
{
    let dir = svg_cache_dir(cache_dir, sep);
    let h = text::chars_of(content_hash(combined).as_str());
    let with = |pre: &str, post: &str| -> (r: String)
        ensures
            r@ == text::joined(dir@, pre@ + h@ + post@, sep),
        {
            let mut v = text::chars_of(pre);
            text::push_all(&mut v, &h);
            text::push_all(&mut v, &text::chars_of(post));
            let name = outside::string_from_chars(v.as_slice());
            text::join_path(dir.as_str(), name.as_str(), sep)
        };
    let svg = with("", ".svg");
    let ly = with("_combined_", ".ly");
    let stem = with("", "");
    let cropped = with("", ".cropped.svg");
    proof {
        reveal_strlit("");
        assert(""@ + h@ + ".svg"@ =~= h@ + ".svg"@);
        assert(""@ + h@ + ""@ =~= h@);
        assert(""@ + h@ + ".cropped.svg"@ =~= h@ + ".cropped.svg"@);
    }
    (svg, ly, stem, cropped)
}

/// The LilyPond release that is downloaded when none is installed.
pub const LILYPOND_VERSION: &'static str = "2.24.4";

/// Where the LilyPond release for this platform is downloaded from.
pub open spec fn lilypond_url_of(windows: bool) -> Seq<char> {
    "https://gitlab.com/lilypond/lilypond/-/releases/v"@ + LILYPOND_VERSION@ + "/downloads/lilypond-"@
        + LILYPOND_VERSION@ + (if windows {
        "-mingw-x86_64.zip"@
    } else {
        "-linux-x86_64.tar.gz"@
    })
}

/// The download URL of the LilyPond release for this platform.
pub fn lilypond_url(windows: bool) -> (r: String)
    ensures
        r@ == lilypond_url_of(windows),
{
    let mut v = text::chars_of("https://gitlab.com/lilypond/lilypond/-/releases/v");
    text::push_all(&mut v, &text::chars_of(LILYPOND_VERSION));
    text::push_all(&mut v, &text::chars_of("/downloads/lilypond-"));
    text::push_all(&mut v, &text::chars_of(LILYPOND_VERSION));
    if windows {
        text::push_all(&mut v, &text::chars_of("-mingw-x86_64.zip"));
    } else {
        text::push_all(&mut v, &text::chars_of("-linux-x86_64.tar.gz"));
    }
    outside::string_from_chars(v.as_slice())
}

/// Is `path` one of the `existing` paths?
fn path_listed(existing: &Vec<String>, path: &String) -> (r: bool)
    ensures
        r == text::strings_view(existing@).contains(path@),
{
    let p = text::chars_of(path.as_str());
    let mut k: usize = 0;
    while k < existing.len()
        invariant
            k <= existing.len(),
            p@ == path@,
            forall|q: int| 0 <= q < k ==> existing@[q]@ != path@,
        decreases existing.len() - k,
    {
        if text::same(&text::chars_of(existing[k].as_str()), &p) {
            assert(text::strings_view(existing@)[k as int] == path@);
            return true;
        }
        k += 1;
    }
    assert forall|q: int| 0 <= q < text::strings_view(existing@).len() implies text::strings_view(existing@)[q] != path@ by {
        assert(text::strings_view(existing@)[q] == existing@[q]@);
    }
    false
}

/// The cached SVG path of part `part` of a verse whose combined sources are
/// `parts`, given the cached files that `existing` lists; `None` when the
/// verse has no such part or its SVG is not in the cache.
pub fn svg_path_for_verse(cache_dir: &str, parts: &Vec<String>, part: u32, existing: &Vec<String>, sep: char) -> (r: Option<String>)
    ensures
        match r {
            Some(p) => (part as int) < parts.len() && p@ == cached_svg(cache_dir@, parts@[part as int]@, sep)
                && text::strings_view(existing@).contains(p@),
            None => part as int >= parts.len() || !text::strings_view(existing@).contains(
                cached_svg(cache_dir@, parts@[part as int]@, sep),
            ),
        },
{
    if (part as usize) < parts.len() {
        let path = cached_svg_path(cache_dir, parts[part as usize].as_str(), sep);
        if path_listed(existing, &path) {
            Some(path)
        } else {
            None
        }
    } else {
        None
    }
}

/// Whether the cache holds the SVG of part `part` of a verse whose combined
/// sources are `parts`, given the cached files that `existing` lists.
pub fn is_svg_current(cache_dir: &str, parts: &Vec<String>, part: u32, existing: &Vec<String>, sep: char) -> (r: bool)
    ensures
        r == ((part as int) < parts.len() && text::strings_view(existing@).contains(
            cached_svg(cache_dir@, parts@[part as int]@, sep),
        )),
{
    svg_path_for_verse(cache_dir, parts, part, existing, sep).is_some()
}

// ---------------------------------------------------------------------------
// Pitches in LilyPond's relative mode

/// Absolute pitch: pitch class (0 = c .. 6 = b) and LilyPond octave
/// (0 = `c`, 1 = `c'` (middle C), -1 = `c,`).
#[derive(Clone, Copy, PartialEq, Eq, Structural, Debug)]
pub struct AbsPitch {
    pub pc: i32,
    pub octave: i32,
}

/// The pitch class of a LilyPond note name's first letter.
pub open spec fn note_pc(c: char) -> Option<i32> {
    if c == 'c' {
        Some(0i32)
    } else if c == 'd' {
        Some(1i32)
    } else if c == 'e' {
        Some(2i32)
    } else if c == 'f' {
        Some(3i32)
    } else if c == 'g' {
        Some(4i32)
    } else if c == 'a' {
        Some(5i32)
    } else if c == 'b' {
        Some(6i32)
    } else {
        None
    }
}

fn pc_of(c: char) -> (r: Option<i32>)
    ensures
        r == note_pc(c),
{
    match c {
        'c' => Some(0),
        'd' => Some(1),
        'e' => Some(2),
        'f' => Some(3),
        'g' => Some(4),
        'a' => Some(5),
        'b' => Some(6),
        _ => None,
    }
}

/// Maps a LilyPond note name to a pitch class (0–6, C = 0 .. B = 6) by its
/// first letter.
pub fn note_name_to_pitch_class(name: &str) -> (r: Option<i32>)
    ensures
        r == (if name@.len() == 0 {
            None
        } else {
            note_pc(name@[0])
        }),
{
    let v = text::chars_of(name);
    if v.len() == 0 {
        None
    } else {
        pc_of(v[0])
    }
}

/// The note name of a pitch class, taken modulo 7.
pub open spec fn pc_name(pc: int) -> Seq<char> {
    let r = pc % 7;
    if r == 0 {
        "c"@
    } else if r == 1 {
        "d"@
    } else if r == 2 {
        "e"@
    } else if r == 3 {
        "f"@
    } else if r == 4 {
        "g"@
    } else if r == 5 {
        "a"@
    } else {
        "b"@
    }
}

/// Converts a pitch class (taken modulo 7) to a LilyPond note name.
pub fn pitch_class_to_name(pc: i32) -> (r: &'static str)
    ensures
        r@ == pc_name(pc as int),
{
    let m = pc % 7;
    let m = if m < 0 { m + 7 } else { m };
    assert(m == pc % 7);
    if m == 0 {
        "c"
    } else if m == 1 {
        "d"
    } else if m == 2 {
        "e"
    } else if m == 3 {
        "f"
    } else if m == 4 {
        "g"
    } else if m == 5 {
        "a"
    } else {
        "b"
    }
}

/// Octave marks after a note name: `'` raises, `,` lowers.
pub open spec fn octave_marks(s: Seq<char>) -> int {
    text::count(s, seq!['\'']) - text::count(s, seq![','])
}

/// The pitch a LilyPond absolute pitch like `c'`, `gis,` or `bes''` names:
/// the class of its first letter (`a`..`g`) and the octave given by its
/// marks (accidentals do not move the octave).
pub open spec fn parse_pitch(s: Seq<char>) -> Option<AbsPitch> {
    if s.len() > 0 && note_pc(s[0]) is Some {
        Some(AbsPitch { pc: note_pc(s[0])->0, octave: octave_marks(s.drop_first()) as i32 })
    } else {
        None
    }
}

/// Octave change that places a note of class `pc` closest to `prev_pc`
/// (within a fourth).
pub open spec fn nearest_shift(prev_pc: int, pc: int) -> int {
    let diff = pc - prev_pc;
    if diff > 3 {
        -1
    } else if diff < -3 {
        1
    } else {
        0
    }
}

/// The absolute pitch of the relative note `tok` following `prev`.
pub open spec fn resolve_spec(prev: AbsPitch, tok: Seq<char>) -> Option<AbsPitch> {
    if tok.len() > 0 && note_pc(tok[0]) is Some {
        let pc = note_pc(tok[0])->0;
        Some(
            AbsPitch {
                pc,
                octave: (prev.octave + nearest_shift(prev.pc as int, pc as int) + octave_marks(tok.drop_first())) as i32,
            },
        )
    } else {
        None
    }
}

/// Resolving `tok` after `prev` stays within `i32` at every step.
pub open spec fn resolve_fits(prev: AbsPitch, tok: Seq<char>) -> bool {
    let rest = tok.drop_first();
    let pc = note_pc(tok[0])->0;
    let oct = prev.octave + nearest_shift(prev.pc as int, pc as int);
    &&& tok.len() <= 0x8000_0000
    &&& prev.pc >= i32::MIN + 7
    &&& i32::MIN <= oct <= i32::MAX
    &&& i32::MIN <= oct + text::count(rest, seq!['\'']) <= i32::MAX
    &&& i32::MIN <= oct + octave_marks(rest) <= i32::MAX
}

proof fn lemma_count_le(s: Seq<char>, p: Seq<char>, i: int)
    requires
        p.len() > 0,
        0 <= i <= s.len(),
    ensures
        count_from_bound(s, p, i),
    decreases s.len() - i,
{
    if i < s.len() {
        if text::matches_at(s, p, i) {
            if i + p.len() <= s.len() {
                lemma_count_le(s, p, i + p.len());
            }
        } else {
            lemma_count_le(s, p, i + 1);
        }
    }
}

spec fn count_from_bound(s: Seq<char>, p: Seq<char>, i: int) -> bool {
    text::count_from(s, p, i) <= s.len() - i
}

/// Counts of the two octave marks in `s`.
fn mark_counts(s: &Vec<char>) -> (r: (usize, usize))
    ensures
        r.0 == text::count(s@, seq!['\'']),
        r.1 == text::count(s@, seq![',']),
        r.0 <= s.len(),
        r.1 <= s.len(),
{
    let up: Vec<char> = vec!['\''];
    let down: Vec<char> = vec![','];
    assert(up@ =~= seq!['\'']);
    assert(down@ =~= seq![',']);
    proof {
        lemma_count_le(s@, up@, 0);
        lemma_count_le(s@, down@, 0);
    }
    (text::count_chars(s, &up), text::count_chars(s, &down))
}

impl AbsPitch {
    /// Parses a LilyPond absolute pitch like `c'`, `gis,`, `bes''`.
    /// Accidentals are ignored: they do not move the octave.
    pub fn parse(s: &str) -> (r: Option<AbsPitch>)
        requires
            s@.len() <= 0x8000_0000,
        ensures
            r == parse_pitch(s@),
    {
        let v = text::chars_of(s);
        if v.len() == 0 {
            return None;
        }
        let pc = match pc_of(v[0]) {
            Some(pc) => pc,
            None => {
                return None;
            },
        };
        let rest = text::slice_of(&v, 1, v.len());
        assert(rest@ =~= s@.drop_first());
        let (ups, downs) = mark_counts(&rest);
        Some(AbsPitch { pc, octave: ups as i32 - downs as i32 })
    }

    /// Given the previous absolute pitch, resolves a relative note token: the
    /// note goes to the octave closest to `prev` (within a fourth), then its
    /// own octave marks apply.
    pub fn resolve_relative(prev: AbsPitch, token: &str) -> (r: Option<AbsPitch>)
        requires
            token@.len() > 0 && note_pc(token@[0]) is Some ==> resolve_fits(prev, token@),
        ensures
            r == resolve_spec(prev, token@),
    {
        let v = text::chars_of(token);
        if v.len() == 0 {
            return None;
        }
        let pc = match pc_of(v[0]) {
            Some(pc) => pc,
            None => {
                return None;
            },
        };
        let rest = text::slice_of(&v, 1, v.len());
        assert(rest@ =~= token@.drop_first());
        let (ups, downs) = mark_counts(&rest);
        let diff = pc - prev.pc;
        let octave = if diff > 3 {
            prev.octave - 1
        } else if diff < -3 {
            prev.octave + 1
        } else {
            prev.octave
        };
        Some(AbsPitch { pc, octave: octave + ups as i32 - downs as i32 })
    }

    /// Formats as a LilyPond absolute pitch (`c'`, `g,`, `b''`).
    pub fn to_ly_string(self) -> (r: String)
        requires
            self.octave > i32::MIN,
        ensures
            r@ == pitch_text(self),
    {
        let mut v = text::chars_of(pitch_class_to_name(self.pc));
        let (mark, n): (char, i32) = if self.octave > 0 {
            ('\'', self.octave)
        } else {
            (',', -self.octave)
        };
        let ghost start = v@;
        let mut i: i32 = 0;
        while i < n
            invariant
                0 <= i <= n,
                v@ == start + Seq::new(i as nat, |k: int| mark),
            decreases n - i,
        {
            v.push(mark);
            i += 1;
            assert(v@ =~= start + Seq::new(i as nat, |k: int| mark));
        }
        proof {
            if self.octave == 0 {
                assert(v@ =~= start);
            }
        }
        outside::string_from_chars(v.as_slice())
    }
}

/// The text of an absolute pitch: note name and octave marks.
pub open spec fn pitch_text(p: AbsPitch) -> Seq<char> {
    pc_name(p.pc as int) + if p.octave > 0 {
        Seq::new(p.octave as nat, |k: int| '\'')
    } else if p.octave < 0 {
        Seq::new((-p.octave) as nat, |k: int| ',')
    } else {
        seq![]
    }
}

proof fn lemma_count_repeat(n: nat, c: char, d: char, i: int)
    requires
        0 <= i <= n,
    ensures
        text::count_from(Seq::new(n, |k: int| c), seq![d], i) == (if c == d { n - i } else { 0int }),
    decreases n - i,
{
    let s = Seq::new(n, |k: int| c);
    if i < n {
        lemma_count_repeat(n, c, d, i + 1);
        assert(s.subrange(i, i + 1) =~= seq![c]);
        if c != d {
            assert(s.subrange(i, i + 1) != seq![d]) by {
                assert(s.subrange(i, i + 1)[0] != seq![d][0]);
            }
        }
    }
}

/// Law: printing an absolute pitch and parsing it back gives the pitch
/// again (its class reduced modulo 7).
pub proof fn law_pitch_roundtrip(p: AbsPitch)
    requires
        p.octave > i32::MIN,
    ensures
        parse_pitch(pitch_text(p)) == Some(AbsPitch { pc: (p.pc as int % 7) as i32, octave: p.octave }),
{
    let t = pitch_text(p);
    let name = pc_name(p.pc as int);
    reveal_strlit("c");
    reveal_strlit("d");
    reveal_strlit("e");
    reveal_strlit("f");
    reveal_strlit("g");
    reveal_strlit("a");
    reveal_strlit("b");
    assert(name.len() == 1);
    assert(t[0] == name[0]);
    assert(note_pc(t[0]) == Some((p.pc as int % 7) as i32));
    let rest = t.drop_first();
    if p.octave > 0 {
        assert(rest =~= Seq::new(p.octave as nat, |k: int| '\''));
        lemma_count_repeat(p.octave as nat, '\'', '\'', 0);
        lemma_count_repeat(p.octave as nat, '\'', ',', 0);
    } else if p.octave < 0 {
        assert(rest =~= Seq::new((-p.octave) as nat, |k: int| ','));
        lemma_count_repeat((-p.octave) as nat, ',', '\'', 0);
        lemma_count_repeat((-p.octave) as nat, ',', ',', 0);
    } else {
        assert(rest =~= Seq::<char>::empty());
    }
}

/// Law: a relative note without octave marks lands in the octave closest to
/// the previous note: at most a fourth (three steps) away from it.
pub proof fn law_nearest_octave(prev: AbsPitch, tok: Seq<char>)
    requires
        0 <= prev.pc <= 6,
        resolve_spec(prev, tok) is Some,
        octave_marks(tok.drop_first()) == 0,
        resolve_fits(prev, tok),
    ensures
        ({
            let r = resolve_spec(prev, tok)->0;
            let step = 7 * r.octave + r.pc - (7 * prev.octave + prev.pc);
            -3 <= step <= 3
        }),
{
}

/// Regex of LilyPond commands (`\break`, `\clef`, ...).
pub open spec fn command_re() -> Seq<char> {
    "\\\\[a-zA-Z]+"@
}

/// Regex of quoted strings (`"|."`).
pub open spec fn quoted_re() -> Seq<char> {
    "\"[^\"]*\""@
}

/// Regex of `%` comments.
pub open spec fn comment_re() -> Seq<char> {
    "%.*"@
}

/// Regex of a note name with optional accidental and octave marks.
pub open spec fn note_token_re() -> Seq<char> {
    "[a-g](is|es|isis|eses)?[',]*"@
}

/// Notes text with commands, quoted strings and comments blanked out, so
/// that their letters are not taken for notes.
pub open spec fn stripped_notes(s: Seq<char>) -> Seq<char> {
    outside::regex_replaced(
        comment_re(),
        outside::regex_replaced(quoted_re(), outside::regex_replaced(command_re(), s, 0, " "@), 0, " "@),
        0,
        " "@,
    )
}

/// The whole match of a capture list (empty if absent).
pub open spec fn group0(c: Seq<Option<Seq<char>>>) -> Seq<char> {
    if c.len() > 0 && c[0] is Some {
        c[0]->0
    } else {
        seq![]
    }
}

/// The note tokens of a notes text, in order.
pub open spec fn pitch_tokens(s: Seq<char>) -> Seq<Seq<char>> {
    outside::regex_captures(note_token_re(), stripped_notes(s)).map_values(|c: Seq<Option<Seq<char>>>| group0(c))
}

/// An accidental of LilyPond's note names: sharp, flat, double sharp or
/// double flat.
pub open spec fn is_accidental(a: Seq<char>) -> bool {
    a == "is"@ || a == "es"@ || a == "isis"@ || a == "eses"@
}

/// A run of characters free of the mark `m` adds no count of `m` in front.
proof fn lemma_count_skip_free(a: Seq<char>, m: Seq<char>, c: char, j: int)
    requires
        0 <= j <= m.len(),
        forall|k: int| 0 <= k < a.len() ==> a[k] != c,
    ensures
        text::count_from(a + m, seq![c], a.len() + j) == text::count_from(m, seq![c], j),
    decreases m.len() - j,
{
    let s = a + m;
    let i = a.len() + j;
    if j < m.len() {
        lemma_count_skip_free(a, m, c, j + 1);
        assert(text::matches_at(s, seq![c], i) <==> text::matches_at(m, seq![c], j)) by {
            assert(s.subrange(i, i + 1) =~= m.subrange(j, j + 1));
        }
    }
}

proof fn lemma_count_prefix_free(a: Seq<char>, m: Seq<char>, c: char, i: int)
    requires
        0 <= i <= a.len(),
        forall|k: int| 0 <= k < a.len() ==> a[k] != c,
    ensures
        text::count_from(a + m, seq![c], i) == text::count(m, seq![c]),
    decreases a.len() - i,
{
    let s = a + m;
    if i < a.len() {
        lemma_count_prefix_free(a, m, c, i + 1);
        assert(!text::matches_at(s, seq![c], i)) by {
            if text::matches_at(s, seq![c], i) {
                assert(s.subrange(i, i + 1)[0] == s[i]);
            }
        }
    } else {
        lemma_count_skip_free(a, m, c, 0);
    }
}

/// Law: an accidental does not move a note's octave. The note name with an
/// accidental and octave marks (`bes'`, `fis,,`) resolves, after any pitch, to
/// the pitch class of its letter and the octave its marks give, as the bare
/// letter with the same marks does: the marks count after the accidental.
pub proof fn law_accidental_keeps_octave(prev: AbsPitch, letter: char, acc: Seq<char>, marks: Seq<char>)
    requires
        note_pc(letter) is Some,
        is_accidental(acc),
    ensures
        resolve_spec(prev, seq![letter] + acc + marks) == resolve_spec(prev, seq![letter] + marks),
{
    reveal_strlit("is");
    reveal_strlit("es");
    reveal_strlit("isis");
    reveal_strlit("eses");
    let t1 = seq![letter] + acc + marks;
    let t2 = seq![letter] + marks;
    assert(t1.drop_first() =~= acc + marks);
    assert(t2.drop_first() =~= marks);
    lemma_count_prefix_free(acc, marks, '\'', 0);
    lemma_count_prefix_free(acc, marks, ',', 0);
}

/// Law: the note tokens of a notes text are the matches of LilyPond's note
/// pattern, a letter `a`..`g`, an optional accidental (`is`, `es`, `isis`,
/// `eses`) and octave marks, so that `bes'` is one note and not `b` and `e`.
/// What the pattern matches is the `regex` crate's; the pattern itself is
/// stated here.
pub proof fn law_note_tokens_take_accidentals(s: Seq<char>, start: AbsPitch)
    ensures
        pitch_tokens(s) == outside::regex_captures("[a-g](is|es|isis|eses)?[',]*"@, stripped_notes(s)).map_values(
            |c: Seq<Option<Seq<char>>>| group0(c),
        ),
        track_spec(s, start) == track_tokens(pitch_tokens(s), start),
        stripped_notes(s) == outside::regex_replaced(
            "%.*"@,
            outside::regex_replaced(
                "\"[^\"]*\""@,
                outside::regex_replaced("\\\\[a-zA-Z]+"@, s, 0, " "@),
                0,
                " "@,
            ),
            0,
            " "@,
        ),
{
}

/// The pitch after the note `tok` following `p`: its resolution, unless `tok`
/// is no note or the octave would leave the `i32` range (where `p` stays).
pub open spec fn step_pitch(p: AbsPitch, tok: Seq<char>) -> AbsPitch {
    match resolve_spec(p, tok) {
        Some(r) => if resolve_fits(p, tok) && r.octave > i32::MIN {
            r
        } else {
            p
        },
        None => p,
    }
}

/// The pitch after a sequence of note tokens.
pub open spec fn track_tokens(toks: Seq<Seq<char>>, start: AbsPitch) -> AbsPitch
    decreases toks.len(),
{
    if toks.len() == 0 {
        start
    } else {
        step_pitch(track_tokens(toks.drop_last(), start), toks.last())
    }
}

/// The absolute pitch after the last note of `content`, in relative mode
/// from `start`.
pub open spec fn track_spec(content: Seq<char>, start: AbsPitch) -> AbsPitch {
    track_tokens(pitch_tokens(content), start)
}

fn step(p: AbsPitch, tok: &str) -> (r: AbsPitch)
    ensures
        r == step_pitch(p, tok@),
{
    let v = text::chars_of(tok);
    if v.len() == 0 {
        return p;
    }
    let pc = match pc_of(v[0]) {
        Some(pc) => pc,
        None => {
            return p;
        },
    };
    let rest = text::slice_of(&v, 1, v.len());
    assert(rest@ =~= tok@.drop_first());
    let (ups, downs) = mark_counts(&rest);
    if v.len() > 0x8000_0000 || p.pc < i32::MIN + 7 {
        return p;
    }
    let diff = pc as i64 - p.pc as i64;
    let oct: i64 = if diff > 3 {
        p.octave as i64 - 1
    } else if diff < -3 {
        p.octave as i64 + 1
    } else {
        p.octave as i64
    };
    let up = oct + ups as i64;
    let fin = up - downs as i64;
    if oct < i32::MIN as i64 || oct > i32::MAX as i64 || up > i32::MAX as i64 || fin <= i32::MIN as i64
        || fin > i32::MAX as i64 {
        return p;
    }
    match AbsPitch::resolve_relative(p, tok) {
        Some(r) => r,
        None => p,
    }
}

/// Tracks the absolute pitch through LilyPond notes in relative mode:
/// the pitch after the last note of `content`, starting from `start`.
/// Commands, quoted strings and comments are blanked out first so that their
/// letters are not taken for note names.
pub fn track_pitch(content: &str, start: AbsPitch) -> (r: AbsPitch)
    ensures
        r == track_spec(content@, start),
{
    let cleaned = outside::regex_replacen("\\\\[a-zA-Z]+", content, 0, " ");
    let cleaned = outside::regex_replacen("\"[^\"]*\"", cleaned.as_str(), 0, " ");
    let cleaned = outside::regex_replacen("%.*", cleaned.as_str(), 0, " ");
    let caps = outside::regex_captures_all("[a-g](is|es|isis|eses)?[',]*", cleaned.as_str());
    let ghost toks = pitch_tokens(content@);
    assert(toks.len() == caps@.len());
    let mut current = start;
    let mut i: usize = 0;
    while i < caps.len()
        invariant
            i <= caps.len(),
            toks == pitch_tokens(content@),
            toks == outside::captures_view(caps@).map_values(|c: Seq<Option<Seq<char>>>| group0(c)),
            current == track_tokens(toks.take(i as int), start),
        decreases caps.len() - i,
    {
        let c = &caps[i];
        assert(toks[i as int] == group0(outside::captures_view(caps@)[i as int]));
        let tok: String = if c.len() > 0 {
            match &c[0] {
                Some(t) => t.clone(),
                None => text::owned(""),
            }
        } else {
            text::owned("")
        };
        proof {
            reveal_strlit("");
        }
        assert(tok@ == toks[i as int]);
        assert(toks.take(i + 1).drop_last() =~= toks.take(i as int));
        current = step(current, tok.as_str());
        i += 1;
    }
    assert(toks.take(caps.len() as int) =~= toks);
    current
}

// ---------------------------------------------------------------------------
// Splitting notes across slides

/// Length of the leading run of characters that are neither `{` nor whitespace.
pub open spec fn word_run(s: Seq<char>) -> nat
    decreases s.len(),
{
    if s.len() > 0 && s[0] != '{' && !text::is_white(s[0]) {
        1 + word_run(s.drop_first())
    } else {
        0
    }
}

/// The pitch written after `\relative`: the leading characters that are
/// neither `{` nor whitespace.
pub open spec fn pitch_word(s: Seq<char>) -> Seq<char> {
    s.take(word_run(s) as int)
}

/// A setup command kept with the preamble of every part.
pub open spec fn is_setup_command(t: Seq<char>) -> bool {
    ||| text::starts_with(t, "\\clef"@)
    ||| text::starts_with(t, "\\key"@)
    ||| text::starts_with(t, "\\cadenzaOn"@)
    ||| text::starts_with(t, "\\omit"@)
}

/// State while reading `notes.ly`: inside the melody block yet, preamble
/// lines, body text, and the pitch after `\relative`.
pub type NotesScan = (bool, Seq<Seq<char>>, Seq<char>, Seq<char>);

/// One line of `notes.ly`: before the opening brace, lines go to the
/// preamble (and a `\relative` pitch is noted); inside, a lone `}` is
/// dropped, setup commands go to the preamble and the rest to the body.
pub open spec fn scan_step(st: NotesScan, line: Seq<char>) -> NotesScan {
    if !st.0 {
        let rel = match text::find(line, "\\relative"@) {
            Some(pos) => {
                let w = pitch_word(text::trim(line.skip(pos + 9)));
                if w.len() > 0 {
                    w
                } else {
                    st.3
                }
            },
            None => st.3,
        };
        (text::contains(line, "{"@), st.1.push(line), st.2, rel)
    } else {
        let t = text::trim(line);
        if t == "}"@ {
            st
        } else if t.len() > 0 && is_setup_command(t) {
            (st.0, st.1.push(line), st.2, st.3)
        } else {
            (st.0, st.1, st.2 + line + seq!['\n'], st.3)
        }
    }
}

/// Reading the lines of `notes.ly` in order.
pub open spec fn scan_notes(ls: Seq<Seq<char>>) -> NotesScan
    decreases ls.len(),
{
    if ls.len() == 0 {
        (false, seq![], seq![], "c'"@)
    } else {
        scan_step(scan_notes(ls.drop_last()), ls.last())
    }
}

/// One body line while grouping the body into note lines: blank and comment
/// lines stay with the current group; a line with `\break` or `\bar` ends it.
pub open spec fn group_step(st: (Seq<Seq<char>>, Seq<char>), line: Seq<char>) -> (Seq<Seq<char>>, Seq<char>) {
    let t = text::trim(line);
    let cur = (if st.1.len() > 0 {
        st.1 + seq!['\n']
    } else {
        st.1
    }) + line;
    if t.len() == 0 || text::starts_with(t, "%"@) {
        (st.0, cur)
    } else if text::contains(t, "\\break"@) || text::contains(t, "\\bar"@) {
        (st.0.push(cur), seq![])
    } else {
        (st.0, cur)
    }
}

/// The note lines of a body (each ending at a `\break` or `\bar`, with
/// the comments and blank lines before it), and the unfinished line.
pub open spec fn group_notes(ls: Seq<Seq<char>>) -> (Seq<Seq<char>>, Seq<char>)
    decreases ls.len(),
{
    if ls.len() == 0 {
        (seq![], seq![])
    } else {
        group_step(group_notes(ls.drop_last()), ls.last())
    }
}

/// The note lines of a melody body: groups of lines ending in `\break` or
/// `\bar`, and a last unfinished group unless blank.
pub open spec fn note_lines(body: Seq<char>) -> Seq<Seq<char>> {
    let g = group_notes(text::lines(body));
    if text::trim(g.1).len() > 0 {
        g.0.push(g.1)
    } else {
        g.0
    }
}

/// The preamble lines repeated in every part: trimmed, without the
/// `\relative`/`melody` declaration, blank lines and a lone `{`.
pub open spec fn setup_lines(pre: Seq<Seq<char>>) -> Seq<Seq<char>>
    decreases pre.len(),
{
    if pre.len() == 0 {
        seq![]
    } else {
        let l = pre.last();
        let t = text::trim(l);
        let rest = setup_lines(pre.drop_last());
        if !text::contains(l, "\\relative"@) && !text::contains(l, "melody"@) && t.len() > 0 && t != "{"@ {
            rest.push(t)
        } else {
            rest
        }
    }
}

/// The body of a part: note lines `start..end`, each followed by a newline;
/// with `strip`, the `\break` of the last one is removed.
pub open spec fn part_lines(nl: Seq<Seq<char>>, start: int, end: int, strip: bool) -> Seq<char>
    decreases end - start,
{
    if start >= end {
        seq![]
    } else {
        let piece = if start == end - 1 && strip {
            text::replace(nl[start], "\\break"@, ""@)
        } else {
            nl[start]
        };
        piece + seq!['\n'] + part_lines(nl, start + 1, end, strip)
    }
}

/// The pitch after note lines `start..end`.
pub open spec fn track_lines(nl: Seq<Seq<char>>, start: int, end: int, p: AbsPitch) -> AbsPitch
    decreases end - start,
{
    if start >= end {
        p
    } else {
        track_lines(nl, start + 1, end, track_spec(nl[start], p))
    }
}

/// A melody block: `melody = \relative <pitch> {`, the setup, the body.
pub open spec fn melody_block(pitch: Seq<char>, setup: Seq<char>, body: Seq<char>) -> Seq<char> {
    "melody = \\relative "@ + pitch + " {\n  "@ + setup + "\n\n"@ + body + "}\n"@
}

/// Parts `k..n` of a split melody: part `k` holds the note lines from
/// `start` (at most `per` of them) and starts from the pitch `cur` reached so
/// far (the declared pitch `rel` for the first part).
pub open spec fn notes_parts(
    nl: Seq<Seq<char>>,
    n: int,
    per: int,
    setup: Seq<char>,
    rel: Seq<char>,
    k: int,
    start: int,
    cur: AbsPitch,
) -> Seq<Seq<char>>
    decreases n - k,
{
    if k >= n || start >= nl.len() {
        seq![]
    } else {
        let end = if start + per < nl.len() {
            start + per
        } else {
            nl.len() as int
        };
        let pitch = if k == 0 {
            rel
        } else {
            pitch_text(cur)
        };
        seq![melody_block(pitch, setup, part_lines(nl, start, end, k < n - 1))] + notes_parts(
            nl,
            n,
            per,
            setup,
            rel,
            k + 1,
            start + per,
            track_lines(nl, start, end, cur),
        )
    }
}

proof fn lemma_notes_parts_len(
    nl: Seq<Seq<char>>,
    n: int,
    per: int,
    setup: Seq<char>,
    rel: Seq<char>,
    k: int,
    start: int,
    cur: AbsPitch,
)
    ensures
        notes_parts(nl, n, per, setup, rel, k, start, cur).len() <= if k >= n {
            0
        } else {
            n - k
        },
    decreases n - k,
{
    if k < n && start < nl.len() {
        let end = if start + per < nl.len() {
            start + per
        } else {
            nl.len() as int
        };
        lemma_notes_parts_len(nl, n, per, setup, rel, k + 1, start + per, track_lines(nl, start, end, cur));
    }
}

/// Law: notes split for `n > 1` slides come in at most `n` melody blocks
/// (fewer when there are fewer note lines than slides), and stay whole for
/// one slide; so each melody block has its lyrics block.
pub proof fn law_melody_block_count(raw: Seq<char>, lyrics: Seq<char>, n: int, total: int)
    ensures
        split_notes_spec(raw, n).len() <= split_lyrics_spec(lyrics, n, total).len(),
        n <= 1 ==> split_notes_spec(raw, n).len() == 1,
{
    law_lyric_block_count(lyrics, n, total);
    if n > 1 {
        let sc = scan_notes(text::lines(raw));
        let nl = note_lines(sc.2);
        let start = match parse_pitch(sc.3) {
            Some(p) => p,
            None => AbsPitch { pc: 0, octave: 1 },
        };
        lemma_notes_parts_len(nl, n, (nl.len() + n - 1) / n, text::join(setup_lines(sc.1), "\n  "@), sc.3, 0, 0, start);
    }
}

/// The pitch written after `\relative` in the declaration of the melody
/// (`c'` when none is written).
pub open spec fn declared_pitch(raw: Seq<char>) -> Seq<char> {
    scan_notes(text::lines(raw)).3
}

/// After reading the first `m` lines, the reader is inside the melody block
/// exactly when one of them opened it with `{`.
proof fn lemma_scan_inside(ls: Seq<Seq<char>>, m: int)
    requires
        0 <= m <= ls.len(),
    ensures
        scan_notes(ls.take(m)).0 <==> exists|i: int| 0 <= i < m && text::contains(#[trigger] ls[i], "{"@),
    decreases m,
{
    if m > 0 {
        lemma_scan_inside(ls, m - 1);
        assert(ls.take(m).drop_last() =~= ls.take(m - 1));
        assert(ls.take(m).last() == ls[m - 1]);
        if exists|i: int| 0 <= i < m && text::contains(#[trigger] ls[i], "{"@) {
            let i = choose|i: int| 0 <= i < m && text::contains(#[trigger] ls[i], "{"@);
            if i < m - 1 {
                assert(exists|i2: int| 0 <= i2 < m - 1 && text::contains(#[trigger] ls[i2], "{"@));
            }
        }
    } else {
        assert(ls.take(0) =~= Seq::<Seq<char>>::empty());
    }
}

/// A setup line inside the melody block stays in the preamble once read.
proof fn lemma_scan_keeps_setup(ls: Seq<Seq<char>>, j: int, m: int)
    requires
        0 <= j < m <= ls.len(),
        scan_notes(ls.take(j)).0,
        text::trim(ls[j]).len() > 0,
        text::trim(ls[j]) != "}"@,
        is_setup_command(text::trim(ls[j])),
    ensures
        scan_notes(ls.take(m)).1.contains(ls[j]),
    decreases m,
{
    assert(ls.take(m).drop_last() =~= ls.take(m - 1));
    let prev = scan_notes(ls.take(m - 1));
    let st = scan_notes(ls.take(m));
    assert(st == scan_step(prev, ls[m - 1]));
    if m - 1 == j {
        assert(st.1 == prev.1.push(ls[j]));
        assert(st.1[prev.1.len() as int] == ls[j]);
    } else {
        lemma_scan_keeps_setup(ls, j, m - 1);
        let q = choose|q: int| 0 <= q < prev.1.len() && prev.1[q] == ls[j];
        assert(st.1 == prev.1 || st.1 == prev.1.push(ls[m - 1]));
        assert(st.1[q] == ls[j]);
    }
}

/// A preamble line that is no declaration and not blank is a setup line.
proof fn lemma_setup_lines_has(pre: Seq<Seq<char>>, l: Seq<char>)
    requires
        pre.contains(l),
        !text::contains(l, "\\relative"@),
        !text::contains(l, "melody"@),
        text::trim(l).len() > 0,
        text::trim(l) != "{"@,
    ensures
        setup_lines(pre).contains(text::trim(l)),
    decreases pre.len(),
{
    let rest = setup_lines(pre.drop_last());
    if pre.last() == l {
        assert(setup_lines(pre) == rest.push(text::trim(l)));
        assert(setup_lines(pre)[rest.len() as int] == text::trim(l));
    } else {
        let q = choose|q: int| 0 <= q < pre.len() && pre[q] == l;
        assert(pre.drop_last()[q] == l);
        lemma_setup_lines_has(pre.drop_last(), l);
        let q2 = choose|q2: int| 0 <= q2 < rest.len() && rest[q2] == text::trim(l);
        assert(setup_lines(pre)[q2] == text::trim(l));
    }
}

/// An element of a joined list sits between separators (or the ends).
proof fn lemma_join_around(xs: Seq<Seq<char>>, sep: Seq<char>, t: Seq<char>) -> (r: (Seq<char>, Seq<char>))
    requires
        xs.contains(t),
    ensures
        text::join(xs, sep) == r.0 + t + r.1,
        r.0.len() == 0 || (r.0.len() >= sep.len() && r.0.skip(r.0.len() - sep.len()) == sep),
        r.1.len() == 0 || (r.1.len() >= sep.len() && r.1.take(sep.len() as int) == sep),
    decreases xs.len(),
{
    if xs.len() == 1 {
        assert(xs[0] == t);
        assert(text::join(xs, sep) =~= Seq::<char>::empty() + t + Seq::<char>::empty());
        (Seq::<char>::empty(), Seq::<char>::empty())
    } else if xs.last() == t {
        let a = text::join(xs.drop_last(), sep) + sep;
        assert(a.skip(a.len() - sep.len()) =~= sep);
        assert(text::join(xs, sep) =~= a + t + Seq::<char>::empty());
        (a, Seq::<char>::empty())
    } else {
        let q = choose|q: int| 0 <= q < xs.len() && xs[q] == t;
        assert(xs.drop_last()[q] == t);
        let (a, b) = lemma_join_around(xs.drop_last(), sep, t);
        let b2 = b + sep + xs.last();
        assert(text::join(xs, sep) =~= a + t + b2);
        if b.len() == 0 {
            assert(b2.take(sep.len() as int) =~= sep);
        } else {
            assert(b2.take(sep.len() as int) =~= b.take(sep.len() as int));
        }
        (a, b2)
    }
}

/// A setup line appears, on a line of its own, in a melody block whose
/// setup holds it.
proof fn lemma_block_has_setup_line(pitch: Seq<char>, setup: Seq<char>, body: Seq<char>, t: Seq<char>, a: Seq<char>, b: Seq<char>)
    requires
        setup == a + t + b,
        a.len() == 0 || (a.len() >= 3 && a.skip(a.len() - 3) == "\n  "@),
        b.len() == 0 || (b.len() >= 3 && b.take(3) == "\n  "@),
    ensures
        text::contains(melody_block(pitch, setup, body), "\n  "@ + t + "\n"@),
{
    reveal_strlit("melody = \\relative ");
    reveal_strlit(" {\n  ");
    reveal_strlit("\n\n");
    reveal_strlit("}\n");
    reveal_strlit("\n  ");
    reveal_strlit("\n");
    let p1 = "melody = \\relative "@ + pitch + " {\n  "@;
    let p2 = "\n\n"@ + body + "}\n"@;
    let before = p1 + a;
    let after = b + p2;
    assert(before.skip(before.len() - 3) =~= "\n  "@) by {
        if a.len() == 0 {
            assert(before =~= p1);
        } else {
            assert(before.skip(before.len() - 3) =~= a.skip(a.len() - 3));
        }
    }
    assert(after[0] == '\n') by {
        if b.len() == 0 {
            assert(after[0] == p2[0]);
        } else {
            assert(after[0] == b.take(3)[0]);
        }
    }
    let x = before.take(before.len() - 3);
    let z = after.skip(1);
    assert(melody_block(pitch, setup, body) =~= x + ("\n  "@ + t + "\n"@) + z) by {
        assert(before =~= x + "\n  "@);
        assert(after =~= "\n"@ + z);
    }
    text::lemma_contains_mid(x, "\n  "@ + t + "\n"@, z);
}

/// Every melody block of a split shares the setup, so each holds what its
/// setup holds.
proof fn lemma_parts_have_setup_line(
    nl: Seq<Seq<char>>,
    n: int,
    per: int,
    setup: Seq<char>,
    rel: Seq<char>,
    k: int,
    start: int,
    cur: AbsPitch,
    t: Seq<char>,
    a: Seq<char>,
    b: Seq<char>,
)
    requires
        setup == a + t + b,
        a.len() == 0 || (a.len() >= 3 && a.skip(a.len() - 3) == "\n  "@),
        b.len() == 0 || (b.len() >= 3 && b.take(3) == "\n  "@),
    ensures
        forall|i: int|
            0 <= i < notes_parts(nl, n, per, setup, rel, k, start, cur).len() ==> text::contains(
                #[trigger] notes_parts(nl, n, per, setup, rel, k, start, cur)[i],
                "\n  "@ + t + "\n"@,
            ),
    decreases n - k,
{
    if k < n && start < nl.len() {
        let end = if start + per < nl.len() {
            start + per
        } else {
            nl.len() as int
        };
        let pitch = if k == 0 {
            rel
        } else {
            pitch_text(cur)
        };
        let next = track_lines(nl, start, end, cur);
        lemma_parts_have_setup_line(nl, n, per, setup, rel, k + 1, start + per, next, t, a, b);
        lemma_block_has_setup_line(pitch, setup, part_lines(nl, start, end, k < n - 1), t, a, b);
        let ps = notes_parts(nl, n, per, setup, rel, k, start, cur);
        let tail = notes_parts(nl, n, per, setup, rel, k + 1, start + per, next);
        assert forall|i: int| 0 <= i < ps.len() implies text::contains(#[trigger] ps[i], "\n  "@ + t + "\n"@) by {
            if i > 0 {
                assert(ps[i] == tail[i - 1]);
            }
        }
    }
}

/// Law: the setup of the melody (`\clef`, `\key`, `\cadenzaOn` and `\omit`
/// lines inside the melody block) is repeated in every slide. When notes are
/// split for several slides, each melody block holds every such line, on a
/// line of its own in its preamble, so that no slide after the first loses
/// the clef or key signature.
pub proof fn law_setup_in_every_part(raw: Seq<char>, n: int, j: int)
    requires
        n >= 2,
        0 <= j < text::lines(raw).len(),
        exists|i: int| 0 <= i < j && text::contains(#[trigger] text::lines(raw)[i], "{"@),
        ({
            let t = text::trim(text::lines(raw)[j]);
            ||| text::starts_with(t, "\\clef"@)
            ||| text::starts_with(t, "\\key"@)
            ||| text::starts_with(t, "\\cadenzaOn"@)
            ||| text::starts_with(t, "\\omit"@)
        }),
        !text::contains(text::lines(raw)[j], "\\relative"@),
        !text::contains(text::lines(raw)[j], "melody"@),
    ensures
        forall|k: int|
            0 <= k < split_notes_spec(raw, n).len() ==> text::contains(
                #[trigger] split_notes_spec(raw, n)[k],
                "\n  "@ + text::trim(text::lines(raw)[j]) + "\n"@,
            ),
{
    let ls = text::lines(raw);
    let l = ls[j];
    let t = text::trim(l);
    reveal_strlit("\\clef");
    reveal_strlit("\\key");
    reveal_strlit("\\cadenzaOn");
    reveal_strlit("\\omit");
    reveal_strlit("}");
    reveal_strlit("{");
    assert(t.len() > 0 && t[0] == '\\') by {
        assert(t.subrange(0, 1)[0] == t[0]);
    }
    assert(t != "}"@);
    assert(t != "{"@);
    lemma_scan_inside(ls, j);
    lemma_scan_keeps_setup(ls, j, ls.len() as int);
    assert(ls.take(ls.len() as int) =~= ls);
    let sc = scan_notes(ls);
    lemma_setup_lines_has(sc.1, l);
    let (a, b) = lemma_join_around(setup_lines(sc.1), "\n  "@, t);
    reveal_strlit("\n  ");
    let nl = note_lines(sc.2);
    let start = match parse_pitch(sc.3) {
        Some(p) => p,
        None => AbsPitch { pc: 0, octave: 1 },
    };
    lemma_parts_have_setup_line(
        nl,
        n,
        (nl.len() + n - 1) / n,
        text::join(setup_lines(sc.1), "\n  "@),
        sc.3,
        0,
        0,
        start,
        t,
        a,
        b,
    );
}

/// `notes.ly` split into `n` melody blocks at `\break`/`\bar` boundaries,
/// each with the correct `\relative` starting pitch.
pub open spec fn split_notes_spec(raw: Seq<char>, n: int) -> Seq<Seq<char>> {
    if n <= 1 {
        seq![raw]
    } else {
        let sc = scan_notes(text::lines(raw));
        let nl = note_lines(sc.2);
        let start = match parse_pitch(sc.3) {
            Some(p) => p,
            None => AbsPitch { pc: 0, octave: 1 },
        };
        notes_parts(nl, n, (nl.len() + n - 1) / n, text::join(setup_lines(sc.1), "\n  "@), sc.3, 0, 0, start)
    }
}

fn word_run_len(s: &Vec<char>, from: usize) -> (n: usize)
    requires
        from <= s.len(),
    ensures
        n == word_run(s@.skip(from as int)),
        from + n <= s.len(),
{
    let mut n: usize = 0;
    while from + n < s.len() && s[from + n] != '{' && !text::white(s[from + n])
        invariant
            from + n <= s.len(),
            word_run(s@.skip(from as int)) == n + word_run(s@.skip(from + n)),
        decreases s.len() - from - n,
    {
        assert(s@.skip(from + n).drop_first() =~= s@.skip(from + n + 1));
        n += 1;
    }
    if from + n < s.len() {
        assert(s@.skip(from + n)[0] == s@[from + n]);
    }
    n
}

/// One line of `notes.ly`, as `scan_step`.
fn scan_step_exec(st: (bool, Vec<Vec<char>>, Vec<char>, Vec<char>), line: &Vec<char>) -> (r: (
    bool,
    Vec<Vec<char>>,
    Vec<char>,
    Vec<char>,
))
    ensures
        (r.0, text::views(r.1@), r.2@, r.3@) == scan_step((st.0, text::views(st.1@), st.2@, st.3@), line@),
{
    let (in_body, mut pre, mut body, rel) = st;
    let ghost st_v = (in_body, text::views(pre@), body@, rel@);
    if !in_body {
        let relk = text::chars_of("\\relative");
        proof {
            reveal_strlit("\\relative");
        }
        assert(relk@.len() == 9);
        let rel2 = match text::find_at_or_after(line, &relk, 0) {
            Some(pos) => {
                proof {
                    text::lemma_find_from(line@, relk@, 0);
                    assert(text::find_from(line@, relk@, 0) == Some(pos as int));
                    assert(text::matches_at(line@, relk@, pos as int));
                    assert(relk@.len() == 9);
                    assert(pos + 9 <= line@.len());
                }
                assert(pos + 9 <= line.len());
                let from: usize = pos + 9;
                let after = text::slice_of(line, from, line.len());
                assert(after@ =~= line@.skip(pos + 9));
                let t = text::trimmed(&after);
                let n = word_run_len(&t, 0);
                assert(t@.skip(0) =~= t@);
                if n > 0 {
                    let w = text::slice_of(&t, 0, n);
                    assert(w@ =~= pitch_word(t@));
                    w
                } else {
                    rel
                }
            },
            None => rel,
        };
        let opens = text::has(line, &text::chars_of("{"));
        let ghost pre0 = text::views(pre@);
        pre.push(line.clone());
        assert(text::views(pre@) =~= pre0.push(line@));
        (opens, pre, body, rel2)
    } else {
        let t = text::trimmed(line);
        if text::same(&t, &text::chars_of("}")) {
            (in_body, pre, body, rel)
        } else if t.len() > 0 && (text::begins_with(&t, &text::chars_of("\\clef")) || text::begins_with(
            &t,
            &text::chars_of("\\key"),
        ) || text::begins_with(&t, &text::chars_of("\\cadenzaOn")) || text::begins_with(
            &t,
            &text::chars_of("\\omit"),
        )) {
            let ghost pre0 = text::views(pre@);
            pre.push(line.clone());
            assert(text::views(pre@) =~= pre0.push(line@));
            (in_body, pre, body, rel)
        } else {
            text::push_all(&mut body, line);
            body.push('\n');
            (in_body, pre, body, rel)
        }
    }
}

fn scan_notes_exec(ls: &Vec<Vec<char>>) -> (r: (bool, Vec<Vec<char>>, Vec<char>, Vec<char>))
    ensures
        (r.0, text::views(r.1@), r.2@, r.3@) == scan_notes(text::views(ls@)),
{
    let mut st: (bool, Vec<Vec<char>>, Vec<char>, Vec<char>) = (false, Vec::new(), Vec::new(), text::chars_of("c'"));
    assert(text::views(st.1@) =~= Seq::<Seq<char>>::empty());
    let mut i: usize = 0;
    while i < ls.len()
        invariant
            i <= ls.len(),
            (st.0, text::views(st.1@), st.2@, st.3@) == scan_notes(text::views(ls@).take(i as int)),
        decreases ls.len() - i,
    {
        assert(text::views(ls@).take(i + 1).drop_last() =~= text::views(ls@).take(i as int));
        st = scan_step_exec(st, &ls[i]);
        i += 1;
    }
    assert(text::views(ls@).take(ls.len() as int) =~= text::views(ls@));
    st
}

/// The note lines of a melody body, as `note_lines`.
fn note_lines_exec(body: &Vec<char>) -> (r: Vec<Vec<char>>)
    ensures
        text::views(r@) == note_lines(body@),
{
    let ls = text::lines_of(body);
    let brk = text::chars_of("\\break");
    let bar = text::chars_of("\\bar");
    let pct = text::chars_of("%");
    let mut done: Vec<Vec<char>> = Vec::new();
    let mut cur: Vec<char> = Vec::new();
    let mut i: usize = 0;
    assert(text::views(done@) =~= Seq::<Seq<char>>::empty());
    while i < ls.len()
        invariant
            i <= ls.len(),
            text::views(ls@) == text::lines(body@),
            brk@ == "\\break"@,
            bar@ == "\\bar"@,
            pct@ == "%"@,
            (text::views(done@), cur@) == group_notes(text::views(ls@).take(i as int)),
        decreases ls.len() - i,
    {
        assert(text::views(ls@).take(i + 1).drop_last() =~= text::views(ls@).take(i as int));
        let line = &ls[i];
        let t = text::trimmed(line);
        let ghost prev = (text::views(done@), cur@);
        assert(ls@[i as int]@ == text::views(ls@).take(i + 1).last());
        if cur.len() > 0 {
            cur.push('\n');
        }
        text::push_all(&mut cur, line);
        assert(cur@ =~= (if prev.1.len() > 0 { prev.1 + seq!['\n'] } else { prev.1 }) + line@);
        if t.len() == 0 || text::begins_with(&t, &pct) {
        } else if text::has(&t, &brk) || text::has(&t, &bar) {
            let ghost d0 = text::views(done@);
            done.push(cur);
            assert(text::views(done@) =~= d0.push(cur@));
            cur = Vec::new();
        }
        i += 1;
    }
    assert(text::views(ls@).take(ls.len() as int) =~= text::views(ls@));
    if text::trimmed(&cur).len() > 0 {
        let ghost d0 = text::views(done@);
        done.push(cur);
        assert(text::views(done@) =~= d0.push(cur@));
    }
    done
}

fn setup_lines_exec(pre: &Vec<Vec<char>>) -> (r: Vec<Vec<char>>)
    ensures
        text::views(r@) == setup_lines(text::views(pre@)),
{
    let relk = text::chars_of("\\relative");
    let mel = text::chars_of("melody");
    let brace = text::chars_of("{");
    proof {
        reveal_strlit("\\relative");
        reveal_strlit("melody");
    }
    let mut out: Vec<Vec<char>> = Vec::new();
    assert(text::views(out@) =~= Seq::<Seq<char>>::empty());
    let mut i: usize = 0;
    while i < pre.len()
        invariant
            i <= pre.len(),
            relk@ == "\\relative"@,
            mel@ == "melody"@,
            brace@ == "{"@,
            relk@.len() > 0,
            mel@.len() > 0,
            text::views(out@) == setup_lines(text::views(pre@).take(i as int)),
        decreases pre.len() - i,
    {
        assert(text::views(pre@).take(i + 1).drop_last() =~= text::views(pre@).take(i as int));
        let l = &pre[i];
        let t = text::trimmed(l);
        if !text::has(l, &relk) && !text::has(l, &mel) && t.len() > 0 && !text::same(&t, &brace) {
            let ghost o0 = text::views(out@);
            out.push(t);
            assert(text::views(out@) =~= o0.push(text::trim(l@)));
        }
        i += 1;
    }
    assert(text::views(pre@).take(pre.len() as int) =~= text::views(pre@));
    out
}

proof fn lemma_track_tokens_octave(toks: Seq<Seq<char>>, p: AbsPitch)
    requires
        p.octave > i32::MIN,
    ensures
        track_tokens(toks, p).octave > i32::MIN,
    decreases toks.len(),
{
    if toks.len() > 0 {
        lemma_track_tokens_octave(toks.drop_last(), p);
    }
}

proof fn lemma_track_lines_octave(nl: Seq<Seq<char>>, start: int, end: int, p: AbsPitch)
    requires
        p.octave > i32::MIN,
    ensures
        track_lines(nl, start, end, p).octave > i32::MIN,
    decreases end - start,
{
    if start < end {
        lemma_track_tokens_octave(pitch_tokens(nl[start]), p);
        lemma_track_lines_octave(nl, start + 1, end, track_spec(nl[start], p));
    }
}

/// The pitch written after `\relative` in the melody's declaration (`c'`
/// when none is written).
pub fn relative_pitch(raw_notes: &str) -> (r: String)
    ensures
        r@ == declared_pitch(raw_notes@),
{
    let ls = text::lines_of(&text::chars_of(raw_notes));
    let (_, _, _, rel) = scan_notes_exec(&ls);
    outside::string_from_chars(rel.as_slice())
}

/// Splits `notes.ly` content into `n_parts` melody blocks at `\break`/`\bar`
/// boundaries, each with the correct `\relative` starting pitch.
pub fn split_notes(raw_notes: &str, n_parts: usize) -> (r: Vec<String>)
    requires
        n_parts <= 1 || declared_pitch(raw_notes@).len() <= 0x8000_0000,
    ensures
        text::strings_view(r@) == split_notes_spec(raw_notes@, n_parts as int),
{
    if n_parts <= 1 {
        let r = vec![text::owned(raw_notes)];
        assert(text::strings_view(r@) =~= seq![raw_notes@]);
        return r;
    }
    let raw = text::chars_of(raw_notes);
    let ls = text::lines_of(&raw);
    let (_, pre, body, rel) = scan_notes_exec(&ls);
    let nl = note_lines_exec(&body);
    let setup = text::join_chars(&setup_lines_exec(&pre), &text::chars_of("\n  "));
    let total = nl.len();
    assert(total / n_parts < usize::MAX) by (nonlinear_arith)
        requires
            n_parts >= 2,
            total <= usize::MAX,
    ;
    let per = total / n_parts + if total % n_parts == 0 { 0 } else { 1 };
    assert(per == (total + n_parts - 1) / n_parts as int) by (nonlinear_arith)
        requires
            n_parts >= 2,
            per == total / n_parts + if total % n_parts == 0 { 0int } else { 1int },
    ;
    let rel_s = outside::string_from_chars(rel.as_slice());
    let start_pitch = match AbsPitch::parse(rel_s.as_str()) {
        Some(p) => p,
        None => AbsPitch { pc: 0, octave: 1 },
    };
    proof {
        if rel@.len() > 0 {
            lemma_count_le(rel@.drop_first(), seq![','], 0);
            lemma_count_le(rel@.drop_first(), seq!['\''], 0);
        }
    }
    let ghost nlv = text::views(nl@);
    let ghost whole = notes_parts(nlv, n_parts as int, per as int, setup@, rel@, 0, 0, start_pitch);
    let brk = text::chars_of("\\break");
    let empty = text::chars_of("");
    proof {
        reveal_strlit("\\break");
        reveal_strlit("");
    }
    assert(whole == split_notes_spec(raw_notes@, n_parts as int));
    let mut cur = start_pitch;
    let mut parts: Vec<String> = Vec::new();
    let mut k: usize = 0;
    let mut start: usize = 0;
    assert(text::strings_view(parts@) =~= Seq::<Seq<char>>::empty());
    while k < n_parts && start < total
        invariant
            n_parts >= 2,
            total == nl.len(),
            nlv == text::views(nl@),
            brk@ == "\\break"@,
            brk@.len() > 0,
            empty@ == ""@,
            cur.octave > i32::MIN,
            whole == split_notes_spec(raw_notes@, n_parts as int),
            whole == text::strings_view(parts@) + notes_parts(nlv, n_parts as int, per as int, setup@, rel@, k as int, start as int, cur),
        decreases n_parts - k,
    {
        let end = if per < total - start { start + per } else { total };
        let strip = k < n_parts - 1;
        let pitch = if k == 0 {
            rel.clone()
        } else {
            text::chars_of(cur.to_ly_string().as_str())
        };
        let ghost cur0 = cur;
        let mut pbody: Vec<char> = Vec::new();
        let mut j = start;
        assert(pbody@ =~= Seq::<char>::empty());
        while j < end
            invariant
                start <= j <= end <= total == nl.len(),
                nlv == text::views(nl@),
                brk@ == "\\break"@,
                brk@.len() > 0,
                empty@ == ""@,
                cur.octave > i32::MIN,
                part_lines(nlv, start as int, end as int, strip) == pbody@ + part_lines(nlv, j as int, end as int, strip),
                track_lines(nlv, start as int, end as int, cur0) == track_lines(nlv, j as int, end as int, cur),
            decreases end - j,
        {
            let line = &nl[j];
            assert(nlv[j as int] == line@);
            let ghost before = pbody@;
            if j == end - 1 && strip {
                text::push_all(&mut pbody, &text::replace_chars(line, &brk, &empty, None));
            } else {
                text::push_all(&mut pbody, line);
            }
            pbody.push('\n');
            proof {
                lemma_track_tokens_octave(pitch_tokens(line@), cur);
            }
            cur = track_pitch(outside::string_from_chars(line.as_slice()).as_str(), cur);
            j += 1;
            assert(before + part_lines(nlv, j - 1, end as int, strip) =~= pbody@ + part_lines(nlv, j as int, end as int, strip));
        }
        assert(part_lines(nlv, end as int, end as int, strip) =~= Seq::<char>::empty());
        let mut block = text::chars_of("melody = \\relative ");
        text::push_all(&mut block, &pitch);
        text::push_all(&mut block, &text::chars_of(" {\n  "));
        text::push_all(&mut block, &setup);
        text::push_all(&mut block, &text::chars_of("\n\n"));
        text::push_all(&mut block, &pbody);
        text::push_all(&mut block, &text::chars_of("}\n"));
        let ghost pv = text::strings_view(parts@);
        let ghost blk = block@;
        parts.push(outside::string_from_chars(block.as_slice()));
        assert(text::strings_view(parts@) =~= pv.push(blk));
        assert(blk == melody_block(if k == 0 { rel@ } else { pitch_text(cur0) }, setup@, part_lines(nlv, start as int, end as int, strip)));
        assert(notes_parts(nlv, n_parts as int, per as int, setup@, rel@, k as int, start as int, cur0)
            == seq![blk] + notes_parts(nlv, n_parts as int, per as int, setup@, rel@, k + 1, start + per, cur));
        if per >= total - start {
            k += 1;
            assert(notes_parts(nlv, n_parts as int, per as int, setup@, rel@, k as int, start + per, cur) =~= Seq::<Seq<char>>::empty());
            assert(whole =~= text::strings_view(parts@));
            return parts;
        }
        k += 1;
        start = start + per;
    }
    assert(notes_parts(nlv, n_parts as int, per as int, setup@, rel@, k as int, start as int, cur) =~= Seq::<Seq<char>>::empty());
    assert(whole =~= text::strings_view(parts@));
    parts
}

// ---------------------------------------------------------------------------
// Splitting lyrics across slides

/// `s` without its trailing characters `c` (`str::trim_end_matches`).
pub open spec fn strip_trailing(s: Seq<char>, c: char) -> Seq<char>
    decreases s.len(),
{
    if s.len() > 0 && s.last() == c {
        strip_trailing(s.drop_last(), c)
    } else {
        s
    }
}

/// State while reading a lyrics file: inside the lyric block yet, block
/// closed, text before the opening brace, lyric lines.
pub type LyricsScan = (bool, bool, Seq<char>, Seq<Seq<char>>);

/// One line of a lyrics file: the first line with `\lyricmode` or `{` opens
/// the block (text after its brace is a lyric line); inside, a lone `}`
/// closes it and every other non-blank line, trimmed, is a lyric line.
pub open spec fn lyrics_step(st: LyricsScan, line: Seq<char>) -> LyricsScan {
    if st.1 {
        st
    } else if !st.0 {
        if text::contains(line, "\\lyricmode"@) || text::contains(line, "{"@) {
            let pieces = text::split(line, "{"@);
            let ls = if pieces.len() > 1 {
                let c = text::trim(strip_trailing(text::trim(pieces[1]), '}'));
                if c.len() > 0 {
                    st.3.push(c)
                } else {
                    st.3
                }
            } else {
                st.3
            };
            (true, false, pieces[0], ls)
        } else {
            st
        }
    } else {
        let t = text::trim(line);
        if t == "}"@ {
            (st.0, true, st.2, st.3)
        } else if t.len() > 0 {
            (st.0, st.1, st.2, st.3.push(t))
        } else {
            st
        }
    }
}

/// The state after reading the lines of a lyrics file.
pub open spec fn scan_lyrics(ls: Seq<Seq<char>>) -> LyricsScan
    decreases ls.len(),
{
    if ls.len() == 0 {
        (false, false, seq![], seq![])
    } else {
        lyrics_step(scan_lyrics(ls.drop_last()), ls.last())
    }
}

/// Lyric lines indented by two spaces.
pub open spec fn indented(ls: Seq<Seq<char>>) -> Seq<Seq<char>> {
    ls.map_values(|l: Seq<char>| "  "@ + l)
}

/// Parts `k..n` of split lyrics, part `k` holding the lyric lines from
/// `start` (at most `per` of them); a part past the last line is an empty block.
pub open spec fn lyric_parts(ll: Seq<Seq<char>>, pre: Seq<char>, n: int, per: int, k: int, start: int) -> Seq<Seq<char>>
    decreases n - k,
{
    if k >= n {
        seq![]
    } else {
        let part = if start >= ll.len() {
            pre + " {\n}\n"@
        } else {
            let end = if start + per < ll.len() {
                start + per
            } else {
                ll.len() as int
            };
            pre + " {\n"@ + text::join(indented(ll.subrange(start, end)), "\n"@) + "\n}\n"@
        };
        seq![part] + lyric_parts(ll, pre, n, per, k + 1, start + per)
    }
}

proof fn lemma_lyric_parts_len(ll: Seq<Seq<char>>, pre: Seq<char>, n: int, per: int, k: int, start: int)
    ensures
        lyric_parts(ll, pre, n, per, k, start).len() == if k >= n {
            0
        } else {
            n - k
        },
    decreases n - k,
{
    if k < n {
        lemma_lyric_parts_len(ll, pre, n, per, k + 1, start + per);
    }
}

/// Law: lyrics split for `n > 1` slides come in exactly `n` blocks, one per
/// slide (blocks past the last lyric line are empty), and stay whole for
/// one slide.
pub proof fn law_lyric_block_count(raw: Seq<char>, n: int, total: int)
    ensures
        split_lyrics_spec(raw, n, total).len() == if n <= 1 {
            1
        } else {
            n
        },
{
    if n > 1 {
        let sc = scan_lyrics(text::lines(raw));
        lemma_lyric_parts_len(sc.3, sc.2, n, (total + n - 1) / n, 0, 0);
    }
}

/// Lyrics split into `n` blocks matching the split of `total` note lines
/// (one lyric line per note line).
pub open spec fn split_lyrics_spec(raw: Seq<char>, n: int, total: int) -> Seq<Seq<char>> {
    if n <= 1 {
        seq![raw]
    } else {
        let sc = scan_lyrics(text::lines(raw));
        lyric_parts(sc.3, sc.2, n, (total + n - 1) / n, 0, 0)
    }
}

fn strip_trailing_exec(s: &Vec<char>, c: char) -> (r: Vec<char>)
    ensures
        r@ == strip_trailing(s@, c),
{
    let mut k = s.len();
    assert(s@.take(k as int) =~= s@);
    while k > 0 && s[k - 1] == c
        invariant
            k <= s.len(),
            strip_trailing(s@, c) == strip_trailing(s@.take(k as int), c),
        decreases k,
    {
        assert(s@.take(k as int).drop_last() =~= s@.take(k - 1));
        k -= 1;
    }
    assert(s@.take(k as int) =~= s@.subrange(0, k as int));
    let r = text::slice_of(s, 0, k);
    proof {
        if k > 0 {
            assert(s@.take(k as int).last() == s@[k - 1]);
        }
        if k == s.len() {
            assert(s@.take(k as int) =~= s@);
        }
    }
    r
}

fn lyrics_step_exec(st: (bool, bool, Vec<char>, Vec<Vec<char>>), line: &Vec<char>) -> (r: (
    bool,
    bool,
    Vec<char>,
    Vec<Vec<char>>,
))
    ensures
        (r.0, r.1, r.2@, text::views(r.3@)) == lyrics_step((st.0, st.1, st.2@, text::views(st.3@)), line@),
{
    let (in_body, done, pre, mut ls) = st;
    if done {
        return (in_body, done, pre, ls);
    }
    if !in_body {
        let brace = text::chars_of("{");
        proof {
            reveal_strlit("{");
        }
        if text::has(line, &text::chars_of("\\lyricmode")) || text::has(line, &brace) {
            let pieces = text::split_chars(line, &brace);
            proof {
                text::lemma_split_nonempty(line@, brace@, 0);
            }
            assert(pieces@[0]@ == text::views(pieces@)[0]);
            if pieces.len() > 1 {
                assert(pieces@[1]@ == text::views(pieces@)[1]);
                let c = text::trimmed(&strip_trailing_exec(&text::trimmed(&pieces[1]), '}'));
                if c.len() > 0 {
                    let ghost l0 = text::views(ls@);
                    ls.push(c);
                    assert(text::views(ls@) =~= l0.push(c@));
                }
            }
            let p0 = pieces[0].clone();
            return (true, false, p0, ls);
        }
        (in_body, done, pre, ls)
    } else {
        let t = text::trimmed(line);
        if text::same(&t, &text::chars_of("}")) {
            (in_body, true, pre, ls)
        } else if t.len() > 0 {
            let ghost l0 = text::views(ls@);
            ls.push(t);
            assert(text::views(ls@) =~= l0.push(text::trim(line@)));
            (in_body, done, pre, ls)
        } else {
            (in_body, done, pre, ls)
        }
    }
}

proof fn lemma_lyric_parts_past_end(ll: Seq<Seq<char>>, pre: Seq<char>, n: int, per: int, k: int, a: int, b: int)
    requires
        a >= ll.len(),
        b >= ll.len(),
        per >= 0,
    ensures
        lyric_parts(ll, pre, n, per, k, a) == lyric_parts(ll, pre, n, per, k, b),
    decreases n - k,
{
    if k < n {
        lemma_lyric_parts_past_end(ll, pre, n, per, k + 1, a + per, b + per);
    }
}

/// Splits lyrics content into `n_parts` blocks matching the split of
/// `total_note_lines` note lines (one lyric line per note line).
pub fn split_lyrics(raw_lyrics: &str, n_parts: usize, total_note_lines: usize) -> (r: Vec<String>)
    ensures
        text::strings_view(r@) == split_lyrics_spec(raw_lyrics@, n_parts as int, total_note_lines as int),
{
    if n_parts <= 1 {
        let r = vec![text::owned(raw_lyrics)];
        assert(text::strings_view(r@) =~= seq![raw_lyrics@]);
        return r;
    }
    let raw = text::chars_of(raw_lyrics);
    let lines = text::lines_of(&raw);
    let mut st: (bool, bool, Vec<char>, Vec<Vec<char>>) = (false, false, Vec::new(), Vec::new());
    assert(text::views(st.3@) =~= Seq::<Seq<char>>::empty());
    let mut i: usize = 0;
    while i < lines.len()
        invariant
            i <= lines.len(),
            (st.0, st.1, st.2@, text::views(st.3@)) == scan_lyrics(text::views(lines@).take(i as int)),
        decreases lines.len() - i,
    {
        assert(text::views(lines@).take(i + 1).drop_last() =~= text::views(lines@).take(i as int));
        st = lyrics_step_exec(st, &lines[i]);
        i += 1;
    }
    assert(text::views(lines@).take(lines.len() as int) =~= text::views(lines@));
    let (_, _, pre, ll) = st;
    let ghost llv = text::views(ll@);
    let total = total_note_lines;
    assert(total / n_parts < usize::MAX) by (nonlinear_arith)
        requires
            n_parts >= 2,
            total <= usize::MAX,
    ;
    let per = total / n_parts + if total % n_parts == 0 { 0 } else { 1 };
    assert(per == (total + n_parts - 1) / n_parts as int) by (nonlinear_arith)
        requires
            n_parts >= 2,
            per == total / n_parts + if total % n_parts == 0 { 0int } else { 1int },
    ;
    let ghost whole = lyric_parts(llv, pre@, n_parts as int, per as int, 0, 0);
    assert(whole == split_lyrics_spec(raw_lyrics@, n_parts as int, total_note_lines as int));
    let nl = text::chars_of("\n");
    let mut parts: Vec<String> = Vec::new();
    let mut k: usize = 0;
    let mut start: usize = 0;
    let ghost mut gstart: int = 0;
    assert(text::strings_view(parts@) =~= Seq::<Seq<char>>::empty());
    while k < n_parts
        invariant
            llv == text::views(ll@),
            nl@ == "\n"@,
            k <= n_parts,
            per >= 0,
            start <= ll.len(),
            start == gstart || (start == ll.len() && gstart >= ll.len()),
            whole == split_lyrics_spec(raw_lyrics@, n_parts as int, total_note_lines as int),
            whole == text::strings_view(parts@) + lyric_parts(llv, pre@, n_parts as int, per as int, k as int, gstart),
        decreases n_parts - k,
    {
        proof {
            if start != gstart {
                lemma_lyric_parts_past_end(llv, pre@, n_parts as int, per as int, k as int, gstart, start as int);
            }
        }
        let ghost endg: int = if start + per < ll.len() { start + per } else { ll.len() as int };
        let mut part = pre.clone();
        assert(part@ == pre@);
        if start >= ll.len() {
            text::push_all(&mut part, &text::chars_of(" {\n}\n"));
        } else {
            let end = if per < ll.len() - start { start + per } else { ll.len() };
            let mut body: Vec<Vec<char>> = Vec::new();
            let mut j = start;
            while j < end
                invariant
                    start <= j <= end <= ll.len(),
                    llv == text::views(ll@),
                    text::views(body@) == indented(llv.subrange(start as int, j as int)),
                decreases end - j,
            {
                let mut l = text::chars_of("  ");
                text::push_all(&mut l, &ll[j]);
                let ghost b0 = text::views(body@);
                body.push(l);
                j += 1;
                assert(text::views(body@) =~= indented(llv.subrange(start as int, j as int))) by {
                    assert(text::views(body@) =~= b0.push("  "@ + llv[j - 1]));
                }
            }
            text::push_all(&mut part, &text::chars_of(" {\n"));
            text::push_all(&mut part, &text::join_chars(&body, &nl));
            text::push_all(&mut part, &text::chars_of("\n}\n"));
            assert(end == endg);
            assert(part@ == pre@ + " {\n"@ + text::join(indented(llv.subrange(start as int, end as int)), "\n"@) + "\n}\n"@);
        }
        let ghost pv = text::strings_view(parts@);
        let ghost pt = part@;
        parts.push(outside::string_from_chars(part.as_slice()));
        assert(text::strings_view(parts@) =~= pv.push(pt));
        assert(lyric_parts(llv, pre@, n_parts as int, per as int, k as int, start as int)
            == seq![pt] + lyric_parts(llv, pre@, n_parts as int, per as int, k + 1, start + per));
        proof {
            if start != gstart {
                lemma_lyric_parts_past_end(llv, pre@, n_parts as int, per as int, k + 1, gstart + per, start + per);
            }
            gstart = gstart + per;
        }
        if start < ll.len() {
            if per >= ll.len() - start {
                start = ll.len();
            } else {
                start = start + per;
            }
        }
        k += 1;
    }
    assert(whole =~= text::strings_view(parts@));
    parts
}

// ---------------------------------------------------------------------------
// Counting, cleaning and measuring

proof fn lemma_count_half(s: Seq<char>, p: Seq<char>, i: int)
    requires
        p.len() >= 2,
        0 <= i <= s.len(),
    ensures
        2 * text::count_from(s, p, i) <= s.len() - i,
    decreases s.len() - i,
{
    if i < s.len() {
        if text::matches_at(s, p, i) {
            lemma_count_half(s, p, i + p.len());
        } else {
            lemma_count_half(s, p, i + 1);
        }
    }
}

/// The number of note lines (segments ended by `\break` or `\bar`) in raw notes.
pub fn count_note_lines(raw_notes: &str) -> (r: usize)
    ensures
        r == text::count(raw_notes@, "\\break"@) + text::count(raw_notes@, "\\bar"@),
{
    let raw = text::chars_of(raw_notes);
    let brk = text::chars_of("\\break");
    let bar = text::chars_of("\\bar");
    proof {
        reveal_strlit("\\break");
        reveal_strlit("\\bar");
        lemma_count_half(raw@, brk@, 0);
        lemma_count_half(raw@, bar@, 0);
    }
    let a = text::count_chars(&raw, &brk);
    let b = text::count_chars(&raw, &bar);
    assert(2 * a <= raw@.len() && 2 * b <= raw@.len());
    let n = raw.len();
    assert(a + b <= n);
    a + b
}

/// Regex of LaTeX-style markup commands.
pub open spec fn markup_re() -> Seq<char> {
    "\\\\(left|right|textit|textbf|emph)\\s*"@
}

/// Regex of `\uXXXX` escapes.
pub open spec fn unicode_escape_re() -> Seq<char> {
    "\\\\u[0-9a-fA-F]{4}"@
}

/// Lyrics made safe for `\lyricmode`: escaped straight quotes become curly
/// quotes, LaTeX-style markup commands and `\uXXXX` escapes are removed.
pub open spec fn sanitized(s: Seq<char>) -> Seq<char> {
    outside::regex_replaced(
        unicode_escape_re(),
        outside::regex_replaced(markup_re(), text::replace(s, "\\\""@, "\u{201c}"@), 0, ""@),
        0,
        ""@,
    )
}

/// Strips or replaces LaTeX-style markup in lyrics so that they can be used
/// in LilyPond's `\lyricmode`.
pub fn sanitize_lyrics(content: &str) -> (r: String)
    ensures
        r@ == sanitized(content@),
{
    let pat = text::chars_of("\\\"");
    proof {
        reveal_strlit("\\\"");
    }
    let s = text::replace_chars(&text::chars_of(content), &pat, &text::chars_of("\u{201c}"), None);
    let s = outside::string_from_chars(s.as_slice());
    let s = outside::regex_replacen("\\\\(left|right|textit|textbf|emph)\\s*", s.as_str(), 0, "");
    outside::regex_replacen("\\\\u[0-9a-fA-F]{4}", s.as_str(), 0, "")
}

/// Regex of a note or rest event with a duration.
pub open spec fn note_event_re() -> Seq<char> {
    "[a-gr](is|es)?[',]*\\d"@
}

/// A line that counts towards a segment's notes: not blank, not a comment,
/// not an `\omit`.
pub open spec fn counted_line(l: Seq<char>) -> bool {
    let t = text::trim(l);
    t.len() > 0 && !text::starts_with(t, "%"@) && !text::starts_with(t, "\\omit"@)
}

/// The counted lines of a segment, in order.
pub open spec fn counted_lines(ls: Seq<Seq<char>>) -> Seq<Seq<char>>
    decreases ls.len(),
{
    if ls.len() == 0 {
        seq![]
    } else if counted_line(ls.last()) {
        counted_lines(ls.drop_last()).push(ls.last())
    } else {
        counted_lines(ls.drop_last())
    }
}

/// Number of note and rest events of a segment.
pub open spec fn segment_events(seg: Seq<char>) -> nat {
    outside::regex_captures(note_event_re(), text::join(counted_lines(text::lines(seg)), " "@)).len()
}

/// The segments of raw notes: split at every `\break`, then at every `\bar`.
pub open spec fn segments(raw: Seq<char>) -> Seq<Seq<char>> {
    text::split(raw, "\\break"@).map_values(|s: Seq<char>| text::split(s, "\\bar"@)).flatten()
}

/// The largest of a sequence of counts (0 when empty).
pub open spec fn max_of(s: Seq<nat>) -> nat
    decreases s.len(),
{
    if s.len() == 0 {
        0
    } else {
        let m = max_of(s.drop_last());
        if s.last() > m {
            s.last()
        } else {
            m
        }
    }
}

/// The most note/rest events on one line of the raw notes, at least 8.
pub open spec fn max_notes(raw: Seq<char>) -> nat {
    let m = max_of(segments(raw).map_values(|seg: Seq<char>| segment_events(seg)));
    if m > 8 {
        m
    } else {
        8
    }
}

fn segment_events_exec(seg: &Vec<char>) -> (n: usize)
    ensures
        n == segment_events(seg@),
{
    let ls = text::lines_of(seg);
    let mut kept: Vec<Vec<char>> = Vec::new();
    let pct = text::chars_of("%");
    let omit = text::chars_of("\\omit");
    let mut i: usize = 0;
    assert(text::views(kept@) =~= Seq::<Seq<char>>::empty());
    while i < ls.len()
        invariant
            i <= ls.len(),
            pct@ == "%"@,
            omit@ == "\\omit"@,
            text::views(kept@) == counted_lines(text::views(ls@).take(i as int)),
        decreases ls.len() - i,
    {
        assert(text::views(ls@).take(i + 1).drop_last() =~= text::views(ls@).take(i as int));
        assert(text::views(ls@).take(i + 1).last() == ls@[i as int]@);
        let t = text::trimmed(&ls[i]);
        if t.len() > 0 && !text::begins_with(&t, &pct) && !text::begins_with(&t, &omit) {
            let ghost k0 = text::views(kept@);
            kept.push(ls[i].clone());
            assert(text::views(kept@) =~= k0.push(ls@[i as int]@));
        }
        i += 1;
    }
    assert(text::views(ls@).take(ls.len() as int) =~= text::views(ls@));
    let content = outside::string_from_chars(text::join_chars(&kept, &text::chars_of(" ")).as_slice());
    let caps = outside::regex_captures_all("[a-gr](is|es)?[',]*\\d", content.as_str());
    assert(outside::captures_view(caps@).len() == caps@.len());
    caps.len()
}

/// The maximum number of note/rest events on one line of raw notes (lines
/// ended by `\break` or `\bar`), and at least 8.
pub fn max_notes_per_line(raw_notes: &str) -> (r: usize)
    ensures
        r == max_notes(raw_notes@),
{
    let brk = text::chars_of("\\break");
    let bar = text::chars_of("\\bar");
    proof {
        reveal_strlit("\\break");
        reveal_strlit("\\bar");
    }
    let pieces = text::split_chars(&text::chars_of(raw_notes), &brk);
    let ghost outer = text::views(pieces@).map_values(|s: Seq<char>| text::split(s, "\\bar"@));
    let ghost counts_of = |segs: Seq<Seq<char>>| segs.map_values(|seg: Seq<char>| segment_events(seg));
    let mut m: usize = 0;
    let mut i: usize = 0;
    assert(outer.take(0).flatten() =~= Seq::<Seq<char>>::empty());
    while i < pieces.len()
        invariant
            i <= pieces.len(),
            bar@ == "\\bar"@,
            bar@.len() > 0,
            outer == text::views(pieces@).map_values(|s: Seq<char>| text::split(s, "\\bar"@)),
            m == max_of(outer.take(i as int).flatten().map_values(|seg: Seq<char>| segment_events(seg))),
        decreases pieces.len() - i,
    {
        let segs = text::split_chars(&pieces[i], &bar);
        assert(text::views(segs@) == outer[i as int]);
        let ghost before = outer.take(i as int).flatten();
        let mut j: usize = 0;
        assert(before + text::views(segs@).take(0) =~= before);
        while j < segs.len()
            invariant
                j <= segs.len(),
                m == max_of((before + text::views(segs@).take(j as int)).map_values(|seg: Seq<char>| segment_events(seg))),
            decreases segs.len() - j,
        {
            let c = segment_events_exec(&segs[j]);
            let ghost prev = before + text::views(segs@).take(j as int);
            let ghost next = before + text::views(segs@).take(j + 1);
            assert(next =~= prev.push(segs@[j as int]@));
            let ghost pm = prev.map_values(|seg: Seq<char>| segment_events(seg));
            assert(next.map_values(|seg: Seq<char>| segment_events(seg)) =~= pm.push(segment_events(segs@[j as int]@)));
            assert(pm.push(c as nat).drop_last() =~= pm);
            if c > m {
                m = c;
            }
            j += 1;
        }
        assert(text::views(segs@).take(segs.len() as int) =~= text::views(segs@));
        assert(outer.take(i + 1).flatten() =~= before + text::views(segs@)) by {
            assert(outer.take(i + 1) =~= outer.take(i as int).push(outer[i as int]));
            outer.take(i as int).lemma_flatten_push(outer[i as int]);
        }
        i += 1;
    }
    assert(outer.take(pieces.len() as int) =~= outer);
    if m > 8 {
        m
    } else {
        8
    }
}

// ---------------------------------------------------------------------------
// Visual tweaks before rendering

/// The pieces between `\break`s joined again, keeping only every second
/// `\break` (the first, third, ... are dropped), which combines lines in pairs.
pub open spec fn alternate_breaks(pieces: Seq<Seq<char>>) -> Seq<char>
    decreases pieces.len(),
{
    if pieces.len() == 0 {
        seq![]
    } else if pieces.len() == 1 {
        pieces[0]
    } else {
        let sep = if (pieces.len() - 1) % 2 == 0 {
            "\\break"@
        } else {
            ""@
        };
        alternate_breaks(pieces.drop_last()) + sep + pieces.last()
    }
}

/// Regex of a note with a duration.
pub open spec fn note_re() -> Seq<char> {
    "[a-g](is|es)?[0-9]"@
}

/// Regex of a rest ending a line.
pub open spec fn rest_end_re() -> Seq<char> {
    "r[0-9]+\\.?\\s*(\\\\break|\\\\bar)"@
}

/// Regex of the line-ending command.
pub open spec fn break_bar_re() -> Seq<char> {
    "(\\s*\\\\break|\\s*\\\\bar)"@
}

/// The regex `p` matches somewhere in `h`.
pub open spec fn regex_matches(p: Seq<char>, h: Seq<char>) -> bool {
    outside::regex_captures(p, h).len() > 0
}

/// A line (given trimmed) that holds no notes to pad: comments, commands,
/// blanks, the closing brace, declarations, or lines without a note.
pub open spec fn plain_line(t: Seq<char>) -> bool {
    ||| text::starts_with(t, "%"@)
    ||| text::starts_with(t, "\\"@)
    ||| t.len() == 0
    ||| t == "}"@
    ||| text::contains(t, "melody"@)
    ||| text::contains(t, "="@)
    ||| !regex_matches(note_re(), t)
}

/// A note line padded with hidden rests: one at the start (unless it starts
/// with a rest, and in combined mode only on the first of each pair), and one
/// before the line-ending command unless the line ends in a rest.
pub open spec fn padded_line(line: Seq<char>, combined: bool, idx: nat) -> Seq<char> {
    let t = text::trim(line);
    let out = if !text::starts_with(t, "r"@) && (!combined || idx % 2 == 0) {
        text::replacen(line, t, "\\once \\hide Rest r4 "@ + t, 1)
    } else {
        line
    };
    if !regex_matches(rest_end_re(), text::trim(out)) {
        outside::regex_replaced(break_bar_re(), out, 1, " \\once \\hide Rest r2$1"@)
    } else {
        out
    }
}

/// `replacen(s, p, r, 1)` when the first occurrence of `p` is at `k`.
proof fn lemma_replace_first_at(s: Seq<char>, p: Seq<char>, r: Seq<char>, k: int, i: int)
    requires
        p.len() > 0,
        0 <= i <= k,
        text::matches_at(s, p, k),
        forall|j: int| i <= j < k ==> !text::matches_at(s, p, j),
    ensures
        text::replace_from(s, p, r, Some(1), i) == s.subrange(i, k) + r + s.skip(k + p.len()),
    decreases k - i,
{
    if i < k {
        lemma_replace_first_at(s, p, r, k, i + 1);
        assert(s.subrange(i, k) =~= seq![s[i]] + s.subrange(i + 1, k));
    } else {
        assert(text::replace_from(s, p, r, Some(0), k + p.len()) == s.skip(k + p.len()));
        assert(s.subrange(i, k) =~= Seq::<char>::empty());
    }
}

/// A line with its text `t` (its trim, not empty) given a prefix `pre` that
/// starts with a non-blank: the text becomes `pre + t`, and the line's
/// surrounding blanks stay.
proof fn lemma_prefix_text(line: Seq<char>, pre: Seq<char>)
    requires
        text::trim(line).len() > 0,
        pre.len() > 0,
        !text::is_white(pre[0]),
    ensures
        ({
            let t = text::trim(line);
            let out = text::replacen(line, t, pre + t, 1);
            text::trim(out) == pre + t
        }),
{
    let t = text::trim(line);
    let lead = text::lead_white(line) as int;
    let st = text::trim_start(line);
    text::lemma_lead_white(line);
    text::lemma_trail_white(st);
    let tw = text::trail_white(st) as int;
    assert(t =~= line.subrange(lead, lead + t.len()));
    assert(!text::is_white(t[0])) by {
        assert(t[0] == line[lead]);
    }
    assert(!text::is_white(t[t.len() - 1])) by {
        assert(t[t.len() - 1] == st[st.len() - tw - 1]);
    }
    assert forall|j: int| 0 <= j < lead implies !text::matches_at(line, t, j) by {
        if text::matches_at(line, t, j) {
            assert(line.subrange(j, j + t.len())[0] == line[j]);
        }
    }
    assert(text::matches_at(line, t, lead));
    lemma_replace_first_at(line, t, pre + t, lead, 0);
    let a = line.subrange(0, lead);
    let b = line.skip(lead + t.len());
    let out = text::replacen(line, t, pre + t, 1);
    assert(out =~= a + (pre + t) + b);
    assert forall|j: int| 0 <= j < b.len() implies text::is_white(#[trigger] b[j]) by {
        assert(b[j] == st[st.len() - tw + j]);
    }
    text::lemma_lead_white_unique(out, lead);
    let o2 = text::trim_start(out);
    assert(o2 =~= pre + t + b);
    text::lemma_trail_white_unique(o2, b.len() as int);
    assert(text::trim(out) =~= pre + t);
}

/// Law: a note line that already ends in a rest before its `\break` or
/// `\bar` (by the rest pattern `r<digits>[.] \break|\bar`) gets no hidden
/// half rest. A line left without a leading hidden rest (it starts with a
/// rest, or it is the second of a combined pair) stays as it is; any other
/// line only gets the leading hidden rest before its text.
pub proof fn law_no_half_rest_after_final_rest(line: Seq<char>, combined: bool, idx: nat)
    ensures
        ({
            let t = text::trim(line);
            let lead_rest = !text::starts_with(t, "r"@) && (!combined || idx % 2 == 0);
            !lead_rest && outside::regex_captures("r[0-9]+\\.?\\s*(\\\\break|\\\\bar)"@, t).len() > 0
                ==> padded_line(line, combined, idx) == line
        }),
        ({
            let t = text::trim(line);
            let lead_rest = !text::starts_with(t, "r"@) && (!combined || idx % 2 == 0);
            lead_rest && t.len() > 0 && outside::regex_captures(
                "r[0-9]+\\.?\\s*(\\\\break|\\\\bar)"@,
                "\\once \\hide Rest r4 "@ + t,
            ).len() > 0 ==> padded_line(line, combined, idx) == text::replacen(line, t, "\\once \\hide Rest r4 "@ + t, 1)
        }),
        ({
            let t = text::trim(line);
            let lead_rest = !text::starts_with(t, "r"@) && (!combined || idx % 2 == 0);
            !lead_rest && outside::regex_captures("r[0-9]+\\.?\\s*(\\\\break|\\\\bar)"@, t).len() == 0
                ==> padded_line(line, combined, idx) == outside::regex_replaced(
                "(\\s*\\\\break|\\s*\\\\bar)"@,
                line,
                1,
                " \\once \\hide Rest r2$1"@,
            )
        }),
        ({
            let t = text::trim(line);
            let lead_rest = !text::starts_with(t, "r"@) && (!combined || idx % 2 == 0);
            let out = text::replacen(line, t, "\\once \\hide Rest r4 "@ + t, 1);
            lead_rest && t.len() > 0 && outside::regex_captures(
                "r[0-9]+\\.?\\s*(\\\\break|\\\\bar)"@,
                "\\once \\hide Rest r4 "@ + t,
            ).len() == 0 ==> padded_line(line, combined, idx) == outside::regex_replaced(
                "(\\s*\\\\break|\\s*\\\\bar)"@,
                out,
                1,
                " \\once \\hide Rest r2$1"@,
            )
        }),
{
    let t = text::trim(line);
    let lead_rest = !text::starts_with(t, "r"@) && (!combined || idx % 2 == 0);
    if lead_rest && t.len() > 0 {
        let pre = "\\once \\hide Rest r4 "@;
        reveal_strlit("\\once \\hide Rest r4 ");
        lemma_prefix_text(line, pre);
    }
}

/// The lines after padding, and the number of note lines seen.
pub open spec fn padded_lines(ls: Seq<Seq<char>>, combined: bool) -> (Seq<Seq<char>>, nat)
    decreases ls.len(),
{
    if ls.len() == 0 {
        (seq![], 0)
    } else {
        let prev = padded_lines(ls.drop_last(), combined);
        let line = ls.last();
        if plain_line(text::trim(line)) {
            (prev.0.push(line), prev.1)
        } else {
            (prev.0.push(padded_line(line, combined, prev.1)), prev.1 + 1)
        }
    }
}

/// Lines are combined in pairs when asked to, or when the notes have at
/// least `COMBINE_LINES_THRESHOLD` `\break`s.
pub open spec fn combines(notes: Seq<char>, force: bool) -> bool {
    force || text::count(notes, "\\break"@) >= 7
}

/// Notes with the visual tweaks applied: lines combined in pairs when asked
/// or when there are enough lines (odd `\break`s removed), the clef hidden
/// after the first line, hidden rests at line boundaries.
pub open spec fn modified_notes(notes: Seq<char>, force: bool) -> Seq<char> {
    let combine = combines(notes, force);
    let n1 = if combine {
        alternate_breaks(text::split(notes, "\\break"@))
    } else {
        notes
    };
    let n2 = text::replacen(n1, "\\break"@, "\\break\n  \\omit Staff.Clef"@, 1);
    text::join(padded_lines(text::lines(n2), combine).0, "\n"@)
}

fn alternate_breaks_exec(pieces: &Vec<Vec<char>>) -> (r: Vec<char>)
    ensures
        r@ == alternate_breaks(text::views(pieces@)),
{
    let brk = text::chars_of("\\break");
    let mut out: Vec<char> = Vec::new();
    let mut i: usize = 0;
    while i < pieces.len()
        invariant
            i <= pieces.len(),
            brk@ == "\\break"@,
            out@ == alternate_breaks(text::views(pieces@).take(i as int)),
        decreases pieces.len() - i,
    {
        let ghost pv = text::views(pieces@).take(i + 1);
        assert(pv.drop_last() =~= text::views(pieces@).take(i as int));
        assert(pv.last() == pieces@[i as int]@);
        if i > 0 && i % 2 == 0 {
            text::push_all(&mut out, &brk);
        }
        text::push_all(&mut out, &pieces[i]);
        proof {
            reveal_strlit("");
            if i == 0 {
                assert(out@ =~= alternate_breaks(pv));
            } else if i % 2 != 0 {
                assert(out@ =~= alternate_breaks(pv.drop_last()) + ""@ + pv.last());
            }
        }
        i += 1;
    }
    assert(text::views(pieces@).take(pieces.len() as int) =~= text::views(pieces@));
    out
}

fn matches_exec(pattern: &str, h: &Vec<char>) -> (b: bool)
    ensures
        b == regex_matches(pattern@, h@),
{
    let caps = outside::regex_captures_all(pattern, outside::string_from_chars(h.as_slice()).as_str());
    assert(outside::captures_view(caps@).len() == caps@.len());
    caps.len() > 0
}

fn padded_line_exec(line: &Vec<char>, combined: bool, idx: usize) -> (r: Vec<char>)
    ensures
        r@ == padded_line(line@, combined, idx as nat),
{
    let t = text::trimmed(line);
    let out = if !text::begins_with(&t, &text::chars_of("r")) && (!combined || idx % 2 == 0) {
        let mut rep = text::chars_of("\\once \\hide Rest r4 ");
        text::push_all(&mut rep, &t);
        if t.len() > 0 {
            text::replace_chars(line, &t, &rep, Some(1))
        } else {
            let o = line.clone();
            assert(line@.skip(0) =~= line@);
            o
        }
    } else {
        line.clone()
    };
    if !matches_exec("r[0-9]+\\.?\\s*(\\\\break|\\\\bar)", &text::trimmed(&out)) {
        let r = outside::regex_replacen(
            "(\\s*\\\\break|\\s*\\\\bar)",
            outside::string_from_chars(out.as_slice()).as_str(),
            1,
            " \\once \\hide Rest r2$1",
        );
        text::chars_of(r.as_str())
    } else {
        out
    }
}

/// Applies visual tweaks to note content before rendering: combines lines in
/// pairs when asked (by dropping every other `\break`), hides the clef after
/// the first line break, and pads note lines with hidden rests.
pub fn modify_notes(notes: &str, force_combine: bool) -> (r: String)
    ensures
        r@ == modified_notes(notes@, force_combine),
{
    let v = text::chars_of(notes);
    let brk = text::chars_of("\\break");
    proof {
        reveal_strlit("\\break");
    }
    let breaks = text::count_chars(&v, &brk);
    let combined = force_combine || breaks >= COMBINE_LINES_THRESHOLD;
    assert(combined == combines(notes@, force_combine));
    let n1 = if combined {
        alternate_breaks_exec(&text::split_chars(&v, &brk))
    } else {
        v
    };
    let n2 = text::replace_chars(&n1, &brk, &text::chars_of("\\break\n  \\omit Staff.Clef"), Some(1));
    let ls = text::lines_of(&n2);
    let pct = text::chars_of("%");
    let bsl = text::chars_of("\\");
    let close = text::chars_of("}");
    let mel = text::chars_of("melody");
    let eq = text::chars_of("=");
    let mut out: Vec<Vec<char>> = Vec::new();
    let mut idx: usize = 0;
    let mut i: usize = 0;
    assert(text::views(out@) =~= Seq::<Seq<char>>::empty());
    while i < ls.len()
        invariant
            i <= ls.len(),
            pct@ == "%"@,
            bsl@ == "\\"@,
            close@ == "}"@,
            mel@ == "melody"@,
            eq@ == "="@,
            idx <= i,
            (text::views(out@), idx as nat) == padded_lines(text::views(ls@).take(i as int), combined),
        decreases ls.len() - i,
    {
        let ghost pv = text::views(ls@).take(i + 1);
        assert(pv.drop_last() =~= text::views(ls@).take(i as int));
        assert(pv.last() == ls@[i as int]@);
        let line = &ls[i];
        let t = text::trimmed(line);
        let plain = text::begins_with(&t, &pct) || text::begins_with(&t, &bsl) || t.len() == 0 || text::same(
            &t,
            &close,
        ) || text::has(&t, &mel) || text::has(&t, &eq) || !matches_exec("[a-g](is|es)?[0-9]", &t);
        let ghost o0 = text::views(out@);
        if plain {
            out.push(line.clone());
            assert(text::views(out@) =~= o0.push(line@));
        } else {
            let p = padded_line_exec(line, combined, idx);
            out.push(p);
            assert(text::views(out@) =~= o0.push(padded_line(line@, combined, idx as nat)));
            idx += 1;
        }
        i += 1;
    }
    assert(text::views(ls@).take(ls.len() as int) =~= text::views(ls@));
    let joined = text::join_chars(&out, &text::chars_of("\n"));
    outside::string_from_chars(joined.as_slice())
}

// ---------------------------------------------------------------------------
// The complete LilyPond file

/// `|` stands as a whitespace-separated token of `t`.
pub open spec fn has_bar_token(t: Seq<char>) -> bool {
    exists|i: int|
        0 <= i < t.len() && #[trigger] t[i] == '|' && (i == 0 || text::is_white(t[i - 1])) && (i == t.len() - 1
            || text::is_white(t[i + 1]))
}

/// Some non-comment line of the notes has a standalone `|` barline.
pub open spec fn has_barlines(notes: Seq<char>) -> bool {
    exists|k: int|
        0 <= k < text::lines(notes).len() && !text::starts_with(text::trim(#[trigger] text::lines(notes)[k]), "%"@)
            && has_bar_token(text::trim(text::lines(notes)[k]))
}

/// The `\header` block: an optional composer credit, no tagline.
pub open spec fn header_block(composer: Option<Seq<char>>) -> Seq<char> {
    let credit = match composer {
        Some(c) => "  composer = \""@ + c + "\"\n"@,
        None => seq![],
    };
    "\\header {\n"@ + credit + "  tagline = ##f"@ + "\n}"@
}

/// The complete LilyPond file for the given notes and lyrics blocks, an
/// optional composer credit and the paper width in millimetres. Without
/// standalone `|` barlines every accidental is printed (`\accidentalStyle forget`).
pub open spec fn combined_ly(notes: Seq<char>, lyrics: Seq<char>, composer: Option<Seq<char>>, width: nat) -> Seq<char> {
    let lyrics_score = if text::trim(lyrics).len() == 0 {
        seq![]
    } else {
        "    \\new Lyrics \\lyricsto \"melody\" { \\verse }"@
    };
    let notes2 = if has_barlines(notes) {
        notes
    } else {
        text::replacen(notes, "\\cadenzaOn"@, "\\cadenzaOn\n  \\accidentalStyle forget"@, 1)
    };
    let w = text::decimal(width);
    "\\version \"2.24.0\"\n\n\\paper {\n  paper-width = "@ + w + "\\mm\n  line-width = "@ + w + "\\mm\n  left-margin = 0\\cm\n  right-margin = 0\\cm\n}\n\n"@ + header_block(composer) + "\n\n"@ + notes2 + "\n\n"@ + lyrics + "\n\n\\score {\n  <<\n    \\new Voice = \"melody\" { \\melody }\n"@ + lyrics_score + "\n  >>\n  \\layout {\n    indent = 0\n    \\context {\n      \\Score\n      \\override SpacingSpanner.uniform-stretching = ##t\n      \\override SpacingSpanner.strict-note-spacing = ##t\n    }\n    \\context {\n      \\Lyrics\n      \\override LyricText.self-alignment-X = #CENTER\n    }\n  }\n}\n"@
}

fn has_bar_token_exec(t: &Vec<char>) -> (b: bool)
    ensures
        b == has_bar_token(t@),
{
    let mut i: usize = 0;
    while i < t.len()
        invariant
            i <= t.len(),
            forall|j: int|
                0 <= j < i ==> !(#[trigger] t@[j] == '|' && (j == 0 || text::is_white(t@[j - 1])) && (j == t@.len() - 1
                    || text::is_white(t@[j + 1]))),
        decreases t.len() - i,
    {
        if t[i] == '|' && (i == 0 || text::white(t[i - 1])) && (i == t.len() - 1 || text::white(t[i + 1])) {
            return true;
        }
        i += 1;
    }
    false
}

fn has_barlines_exec(notes: &Vec<char>) -> (b: bool)
    ensures
        b == has_barlines(notes@),
{
    let ls = text::lines_of(notes);
    let pct = text::chars_of("%");
    let mut i: usize = 0;
    while i < ls.len()
        invariant
            i <= ls.len(),
            pct@ == "%"@,
            text::views(ls@) == text::lines(notes@),
            forall|k: int|
                0 <= k < i ==> !(!text::starts_with(text::trim(#[trigger] text::lines(notes@)[k]), "%"@) && has_bar_token(
                    text::trim(text::lines(notes@)[k]),
                )),
        decreases ls.len() - i,
    {
        assert(text::lines(notes@)[i as int] == ls@[i as int]@);
        let t = text::trimmed(&ls[i]);
        if !text::begins_with(&t, &pct) && has_bar_token_exec(&t) {
            return true;
        }
        i += 1;
    }
    false
}

/// Assembles a complete LilyPond `.ly` file from notes, lyrics and an
/// optional composer credit, ready for rendering.
pub fn build_combined_ly(notes: &str, lyrics: &str, composer: Option<&str>, paper_width_mm: usize) -> (r: String)
    ensures
        r@ == combined_ly(
            notes@,
            lyrics@,
            match composer {
                Some(c) => Some(c@),
                None => None,
            },
            paper_width_mm as nat,
        ),
{
    let mut header = text::chars_of("\\header {\n");
    match composer {
        Some(c) => {
            text::push_all(&mut header, &text::chars_of("  composer = \""));
            text::push_all(&mut header, &text::chars_of(c));
            text::push_all(&mut header, &text::chars_of("\"\n"));
        },
        None => {},
    }
    text::push_all(&mut header, &text::chars_of("  tagline = ##f"));
    text::push_all(&mut header, &text::chars_of("\n}"));
    let lyr = text::chars_of(lyrics);
    let lyrics_score = if text::trimmed(&lyr).len() == 0 {
        Vec::new()
    } else {
        text::chars_of("    \\new Lyrics \\lyricsto \"melody\" { \\verse }")
    };
    let nv = text::chars_of(notes);
    let notes2 = if has_barlines_exec(&nv) {
        nv
    } else {
        let pat = text::chars_of("\\cadenzaOn");
        proof {
            reveal_strlit("\\cadenzaOn");
        }
        text::replace_chars(&nv, &pat, &text::chars_of("\\cadenzaOn\n  \\accidentalStyle forget"), Some(1))
    };
    let w = text::decimal_chars(paper_width_mm as u64);
    let mut out = text::chars_of("\\version \"2.24.0\"\n\n\\paper {\n  paper-width = ");
    text::push_all(&mut out, &w);
    text::push_all(&mut out, &text::chars_of("\\mm\n  line-width = "));
    text::push_all(&mut out, &w);
    text::push_all(&mut out, &text::chars_of("\\mm\n  left-margin = 0\\cm\n  right-margin = 0\\cm\n}\n\n"));
    text::push_all(&mut out, &header);
    text::push_all(&mut out, &text::chars_of("\n\n"));
    text::push_all(&mut out, &notes2);
    text::push_all(&mut out, &text::chars_of("\n\n"));
    text::push_all(&mut out, &lyr);
    text::push_all(&mut out, &text::chars_of("\n\n\\score {\n  <<\n    \\new Voice = \"melody\" { \\melody }\n"));
    text::push_all(&mut out, &lyrics_score);
    text::push_all(&mut out, &text::chars_of("\n  >>\n  \\layout {\n    indent = 0\n    \\context {\n      \\Score\n      \\override SpacingSpanner.uniform-stretching = ##t\n      \\override SpacingSpanner.strict-note-spacing = ##t\n    }\n    \\context {\n      \\Lyrics\n      \\override LyricText.self-alignment-X = #CENTER\n    }\n  }\n}\n"));
    proof {
        match composer {
            Some(c) => {},
            None => {
                assert(header@ =~= header_block(None));
            },
        }
    }
    outside::string_from_chars(out.as_slice())
}

/// Paper width in millimetres for the most notes on a line: 9 mm per
/// note plus 20 mm (capped at `usize::MAX`).
pub open spec fn paper_width(m: nat) -> nat {
    if m * 9 + 20 <= usize::MAX {
        m * 9 + 20
    } else {
        usize::MAX as nat
    }
}

/// The complete LilyPond source of a single-slide verse, or of one part.
pub open spec fn ly_part(notes: Seq<char>, lyrics: Seq<char>, composer: Option<Seq<char>>, combine: bool) -> Seq<char> {
    let m = modified_notes(notes, combine);
    combined_ly(m, lyrics, composer, paper_width(max_notes(m)))
}

/// The combined `.ly` sources of a verse, one per slide: `notes` is
/// `notes.ly`, `lyrics` the verse's lyrics file if it exists. Long songs are
/// split in parts whose lyrics follow the note lines; the composer is
/// credited on the first part (and on any part identical to it).
pub open spec fn combined_parts(
    notes: Seq<char>,
    lyrics: Option<Seq<char>>,
    composer: Option<Seq<char>>,
    style: SplitStyle,
) -> Seq<Seq<char>> {
    let lyr = match lyrics {
        Some(l) => sanitized(l),
        None => seq![],
    };
    let breaks = text::count(notes, "\\break"@);
    let n = n_parts(style, breaks as int);
    if n > 1 {
        let total = breaks + text::count(notes, "\\bar"@);
        let np = split_notes_spec(notes, n);
        let lp = split_lyrics_spec(lyr, n, total as int);
        let len = if np.len() < lp.len() {
            np.len()
        } else {
            lp.len()
        };
        Seq::new(len, |i: int| ly_part(np[i], lp[i], if np[i] == np[0] { composer } else { None }, false))
    } else {
        seq![ly_part(notes, lyr, composer, style == SplitStyle::CombineLines)]
    }
}

/// The header of a LilyPond file holds the credit line when a composer is
/// given, and is the bare `tagline` header when none is.
proof fn lemma_combined_ly_header(notes: Seq<char>, lyrics: Seq<char>, composer: Option<Seq<char>>, width: nat)
    ensures
        composer is None ==> text::contains(combined_ly(notes, lyrics, composer, width), "\\header {\n  tagline = ##f\n}"@),
        composer matches Some(c) ==> text::contains(
            combined_ly(notes, lyrics, composer, width),
            "  composer = \""@ + c + "\"\n"@,
        ),
{
    let s = combined_ly(notes, lyrics, composer, width);
    let lyrics_score = if text::trim(lyrics).len() == 0 {
        seq![]
    } else {
        "    \\new Lyrics \\lyricsto \"melody\" { \\verse }"@
    };
    let notes2 = if has_barlines(notes) {
        notes
    } else {
        text::replacen(notes, "\\cadenzaOn"@, "\\cadenzaOn\n  \\accidentalStyle forget"@, 1)
    };
    let w = text::decimal(width);
    let pre = "\\version \"2.24.0\"\n\n\\paper {\n  paper-width = "@ + w + "\\mm\n  line-width = "@ + w
        + "\\mm\n  left-margin = 0\\cm\n  right-margin = 0\\cm\n}\n\n"@;
    let post = "\n\n"@ + notes2 + "\n\n"@ + lyrics
        + "\n\n\\score {\n  <<\n    \\new Voice = \"melody\" { \\melody }\n"@ + lyrics_score
        + "\n  >>\n  \\layout {\n    indent = 0\n    \\context {\n      \\Score\n      \\override SpacingSpanner.uniform-stretching = ##t\n      \\override SpacingSpanner.strict-note-spacing = ##t\n    }\n    \\context {\n      \\Lyrics\n      \\override LyricText.self-alignment-X = #CENTER\n    }\n  }\n}\n"@;
    let h = header_block(composer);
    assert(s =~= pre + h + post);
    text::lemma_contains_mid(pre, h, post);
    reveal_strlit("\\header {\n");
    reveal_strlit("  tagline = ##f");
    reveal_strlit("\n}");
    match composer {
        None => {
            reveal_strlit("\\header {\n  tagline = ##f\n}");
            assert(h =~= "\\header {\n  tagline = ##f\n}"@);
        },
        Some(c) => {
            let credit = "  composer = \""@ + c + "\"\n"@;
            assert(h =~= "\\header {\n"@ + credit + ("  tagline = ##f"@ + "\n}"@));
            text::lemma_contains_mid("\\header {\n"@, credit, "  tagline = ##f"@ + "\n}"@);
            text::lemma_contains_trans(s, h, credit);
        },
    }
}

/// Law: a verse split over several slides credits its composer on the
/// first slide only. Every slide whose melody block differs from the first
/// slide's has the bare header, with no composer line; the first slide (and
/// the single slide of an unsplit verse) names the composer, when there is
/// one.
pub proof fn law_composer_on_first_part(
    notes: Seq<char>,
    lyrics: Option<Seq<char>>,
    composer: Option<Seq<char>>,
    style: SplitStyle,
)
    ensures
        ({
            let parts = combined_parts(notes, lyrics, composer, style);
            let n = n_parts(style, text::count(notes, "\\break"@) as int);
            n > 1 ==> forall|i: int|
                0 <= i < parts.len() && split_notes_spec(notes, n)[i] != split_notes_spec(notes, n)[0]
                    ==> text::contains(#[trigger] parts[i], "\\header {\n  tagline = ##f\n}"@)
        }),
        ({
            let parts = combined_parts(notes, lyrics, composer, style);
            parts.len() > 0 ==> (composer matches Some(c) ==> text::contains(parts[0], "  composer = \""@ + c + "\"\n"@))
        }),
{
    let parts = combined_parts(notes, lyrics, composer, style);
    let lyr = match lyrics {
        Some(l) => sanitized(l),
        None => seq![],
    };
    let breaks = text::count(notes, "\\break"@);
    let n = n_parts(style, breaks as int);
    if n > 1 {
        let total = breaks + text::count(notes, "\\bar"@);
        let np = split_notes_spec(notes, n);
        let lp = split_lyrics_spec(lyr, n, total as int);
        assert forall|i: int|
            0 <= i < parts.len() && np[i] != np[0] implies text::contains(
            #[trigger] parts[i],
            "\\header {\n  tagline = ##f\n}"@,
        ) by {
            let m = modified_notes(np[i], false);
            lemma_combined_ly_header(m, lp[i], None, paper_width(max_notes(m)));
        }
        if parts.len() > 0 {
            let m = modified_notes(np[0], false);
            lemma_combined_ly_header(m, lp[0], composer, paper_width(max_notes(m)));
        }
    } else {
        let m = modified_notes(notes, style == SplitStyle::CombineLines);
        lemma_combined_ly_header(m, lyr, composer, paper_width(max_notes(m)));
    }
}

fn ly_part_exec(notes: &str, lyrics: &str, composer: Option<&str>, combine: bool) -> (r: String)
    ensures
        r@ == ly_part(
            notes@,
            lyrics@,
            match composer {
                Some(c) => Some(c@),
                None => None,
            },
            combine,
        ),
{
    let modified = modify_notes(notes, combine);
    let m = max_notes_per_line(modified.as_str());
    let width = if m > (usize::MAX - 20) / 9 {
        usize::MAX
    } else {
        m * 9 + 20
    };
    build_combined_ly(modified.as_str(), lyrics, composer, width)
}

/// The composer credit of a song's metadata.
pub open spec fn composer_of(meta: SongMeta) -> Option<Seq<char>> {
    match meta.composer {
        Some(c) => Some(c@),
        None => None,
    }
}

/// Builds the combined `.ly` sources for a verse, one per slide, from the
/// content of `notes.ly` (`None` when it is missing or unreadable, giving no
/// parts), the verse's lyrics file (`None` when it does not exist) and the
/// song's metadata.
pub fn build_combined_parts_for_verse(raw_notes: Option<&str>, raw_lyrics: Option<&str>, meta: &SongMeta) -> (r: Vec<String>)
    requires
        raw_notes matches Some(n) ==> n_parts(meta.split_style, text::count(n@, "\\break"@) as int) <= 1
            || declared_pitch(n@).len() <= 0x8000_0000,
    ensures
        text::strings_view(r@) == match raw_notes {
            Some(n) => combined_parts(
                n@,
                match raw_lyrics {
                    Some(l) => Some(l@),
                    None => None,
                },
                composer_of(*meta),
                meta.split_style,
            ),
            None => Seq::<Seq<char>>::empty(),
        },
{
    let notes = match raw_notes {
        Some(n) => n,
        None => {
            let r: Vec<String> = Vec::new();
            assert(text::strings_view(r@) =~= Seq::<Seq<char>>::empty());
            return r;
        },
    };
    let lyrics: String = match raw_lyrics {
        Some(l) => sanitize_lyrics(l),
        None => String::new(),
    };
    let composer: Option<&str> = match &meta.composer {
        Some(c) => Some(c.as_str()),
        None => None,
    };
    let nv = text::chars_of(notes);
    let brk = text::chars_of("\\break");
    proof {
        reveal_strlit("\\break");
    }
    let breaks = text::count_chars(&nv, &brk);
    let n = effective_n_parts(&meta.split_style, breaks);
    if n > 1 {
        let total = count_note_lines(notes);
        let note_parts = split_notes(notes, n);
        let lyric_parts = split_lyrics(lyrics.as_str(), n, total);
        let ghost np = text::strings_view(note_parts@);
        let ghost lp = text::strings_view(lyric_parts@);
        let len = if note_parts.len() < lyric_parts.len() { note_parts.len() } else { lyric_parts.len() };
        let mut out: Vec<String> = Vec::new();
        let mut i: usize = 0;
        while i < len
            invariant
                i <= len,
                len <= note_parts.len(),
                len <= lyric_parts.len(),
                np == text::strings_view(note_parts@),
                lp == text::strings_view(lyric_parts@),
                match composer {
                    Some(c) => composer_of(*meta) == Some(c@),
                    None => composer_of(*meta) is None,
                },
                text::strings_view(out@) =~= Seq::new(
                    i as nat,
                    |j: int| ly_part(np[j], lp[j], if np[j] == np[0] { composer_of(*meta) } else { None }, false),
                ),
            decreases len - i,
        {
            let first = text::chars_of(note_parts[0].as_str());
            let this = text::chars_of(note_parts[i].as_str());
            let comp = if text::same(&this, &first) {
                composer
            } else {
                None
            };
            let part = ly_part_exec(note_parts[i].as_str(), lyric_parts[i].as_str(), comp, false);
            let ghost o0 = text::strings_view(out@);
            out.push(part);
            assert(text::strings_view(out@) =~= o0.push(part@));
            assert(np[i as int] == note_parts@[i as int]@ && lp[i as int] == lyric_parts@[i as int]@ && np[0] == note_parts@[0]@);
            assert(part@ == ly_part(np[i as int], lp[i as int], if np[i as int] == np[0] { composer_of(*meta) } else { None }, false));
            i += 1;
        }
        out
    } else {
        let part = ly_part_exec(notes, lyrics.as_str(), composer, meta.split_style == SplitStyle::CombineLines);
        let r = vec![part];
        assert(text::strings_view(r@) =~= seq![part@]);
        r
    }
}

} // verus!
