//! Decisions of the slide show that do not depend on the widgets: the
//! liturgy summary line, which slides still need a render, and which one to
//! render next.
use vstd::prelude::*;
use crate::model;
use crate::model::LiturgyEntry;
use crate::outside;
use crate::text;

verus! {

/// `"<title> (<v1>,<v2>,...)"`: one entry of the liturgy summary.
pub open spec fn entry_summary(e: model::EntryView) -> Seq<char> {
    e.0 + " ("@ + text::join(e.2.map_values(|v: u32| text::decimal(v as nat)), ","@) + ")"@
}

/// The liturgy summary line: empty for an empty liturgy, else `"Liturgy: "`
/// and the entries' summaries separated by `" | "`.
pub open spec fn summary(lit: Seq<model::EntryView>) -> Seq<char> {
    if lit.len() == 0 {
        Seq::empty()
    } else {
        "Liturgy: "@ + text::join(lit.map_values(|e: model::EntryView| entry_summary(e)), " | "@)
    }
}

fn entry_summary_chars(e: &LiturgyEntry) -> (r: Vec<char>)
    ensures
        r@ == entry_summary(e@),
{
    let mut nums: Vec<Vec<char>> = Vec::new();
    let mut k: usize = 0;
    while k < e.verses.len()
        invariant
            k <= e.verses.len(),
            text::views(nums@) == e.verses@.take(k as int).map_values(|v: u32| text::decimal(v as nat)),
        decreases e.verses.len() - k,
    {
        let d = text::decimal_chars(e.verses[k] as u64);
        let ghost n0 = text::views(nums@);
        nums.push(d);
        assert(text::views(nums@) =~= n0.push(d@));
        assert(e.verses@.take(k + 1).map_values(|v: u32| text::decimal(v as nat)) =~= e.verses@.take(
            k as int,
        ).map_values(|v: u32| text::decimal(v as nat)).push(d@));
        k += 1;
    }
    assert(e.verses@.take(e.verses.len() as int) =~= e.verses@);
    let mut r = text::chars_of(e.song_name.as_str());
    text::push_all(&mut r, &text::chars_of(" ("));
    text::push_all(&mut r, &text::join_chars(&nums, &text::chars_of(",")));
    text::push_all(&mut r, &text::chars_of(")"));
    r
}

/// The summary line of the liturgy shown above the slides.
pub fn liturgy_summary(liturgy: &Vec<LiturgyEntry>) -> (r: String)
    ensures
        r@ == summary(model::entries_view(liturgy@)),
{
    if liturgy.len() == 0 {
        return outside::string_from_chars(Vec::new().as_slice());
    }
    let ghost lit = model::entries_view(liturgy@);
    let mut items: Vec<Vec<char>> = Vec::new();
    let mut k: usize = 0;
    while k < liturgy.len()
        invariant
            k <= liturgy.len(),
            lit == model::entries_view(liturgy@),
            text::views(items@) == lit.take(k as int).map_values(|e: model::EntryView| entry_summary(e)),
        decreases liturgy.len() - k,
    {
        let c = entry_summary_chars(&liturgy[k]);
        let ghost i0 = text::views(items@);
        items.push(c);
        assert(lit[k as int] == liturgy@[k as int]@);
        assert(text::views(items@) =~= i0.push(c@));
        assert(lit.take(k + 1).map_values(|e: model::EntryView| entry_summary(e)) =~= lit.take(
            k as int,
        ).map_values(|e: model::EntryView| entry_summary(e)).push(c@));
        k += 1;
    }
    assert(lit.take(liturgy.len() as int) =~= lit);
    let mut r = text::chars_of("Liturgy: ");
    text::push_all(&mut r, &text::join_chars(&items, &text::chars_of(" | ")));
    outside::string_from_chars(r.as_slice())
}

/// Index of the last `c` in `s.take(k)`.
pub open spec fn last_of(s: Seq<char>, c: char, k: int) -> Option<int>
    decreases k,
{
    if k <= 0 {
        None
    } else if s[k - 1] == c {
        Some(k - 1)
    } else {
        last_of(s, c, k - 1)
    }
}

/// The last component of a path (what follows its last `/`).
pub open spec fn file_name(p: Seq<char>) -> Seq<char> {
    match last_of(p, '/', p.len() as int) {
        Some(i) => p.skip(i + 1),
        None => p,
    }
}

/// Index of the last path separator (`/` or `sep`) in `s.take(k)`.
pub open spec fn last_sep(s: Seq<char>, sep: char, k: int) -> Option<int>
    decreases k,
{
    if k <= 0 {
        None
    } else if text::is_sep(s[k - 1], sep) {
        Some(k - 1)
    } else {
        last_sep(s, sep, k - 1)
    }
}

/// The last component of a path whose separators are `/` and `sep`.
pub open spec fn base_name(p: Seq<char>, sep: char) -> Seq<char> {
    match last_sep(p, sep, p.len() as int) {
        Some(i) => p.skip(i + 1),
        None => p,
    }
}

/// Index of the last path separator (`/` or `sep`) in `s`.
pub fn last_sep_index(s: &Vec<char>, sep: char) -> (r: Option<usize>)
    ensures
        match r {
            Some(i) => i < s@.len() && last_sep(s@, sep, s@.len() as int) == Some(i as int),
            None => last_sep(s@, sep, s@.len() as int) is None,
        },
{
    let mut k: usize = s.len();
    while k > 0
        invariant
            k <= s.len(),
            last_sep(s@, sep, s@.len() as int) == last_sep(s@, sep, k as int),
        decreases k,
    {
        if s[k - 1] == '/' || s[k - 1] == sep {
            return Some(k - 1);
        }
        k -= 1;
    }
    None
}

/// The last component of a path whose separators are `/` and `sep`.
pub fn base_name_of(p: &Vec<char>, sep: char) -> (r: Vec<char>)
    ensures
        r@ == base_name(p@, sep),
{
    match last_sep_index(p, sep) {
        Some(i) => {
            let len = p.len();
            text::slice_of(p, i + 1, len)
        },
        None => p.clone(),
    }
}

/// `svg` in any ASCII case.
pub open spec fn is_svg_word(e: Seq<char>) -> bool {
    e.len() == 3 && (e[0] == 's' || e[0] == 'S') && (e[1] == 'v' || e[1] == 'V') && (e[2] == 'g' || e[2] == 'G')
}

/// The file name has the extension `svg`, in any ASCII case (a name whose
/// only dot is its first character has no extension).
pub open spec fn has_svg_extension(p: Seq<char>) -> bool {
    let name = file_name(p);
    match last_of(name, '.', name.len() as int) {
        Some(i) => i > 0 && is_svg_word(name.skip(i + 1)),
        None => false,
    }
}

pub fn last_index_of(s: &Vec<char>, c: char) -> (r: Option<usize>)
    ensures
        match r {
            Some(i) => i < s@.len() && last_of(s@, c, s@.len() as int) == Some(i as int),
            None => last_of(s@, c, s@.len() as int) is None,
        },
{
    let mut k: usize = s.len();
    while k > 0
        invariant
            k <= s.len(),
            last_of(s@, c, s@.len() as int) == last_of(s@, c, k as int),
        decreases k,
    {
        if s[k - 1] == c {
            return Some(k - 1);
        }
        k -= 1;
    }
    None
}

/// Whether a slide needs a render: its image is an SVG and the cache does not
/// hold its current render.
pub fn needs_render(path: &str, cached: bool) -> (r: bool)
    ensures
        r == (has_svg_extension(path@) && !cached),
{
    if cached {
        return false;
    }
    let p = text::chars_of(path);
    let name = match last_index_of(&p, '/') {
        Some(i) => text::slice_of(&p, i + 1, p.len()),
        None => p.clone(),
    };
    assert(name@ == file_name(path@));
    match last_index_of(&name, '.') {
        Some(i) => {
            if i == 0 {
                return false;
            }
            let ext = text::slice_of(&name, i + 1, name.len());
            assert(ext@ == name@.skip(i + 1));
            ext.len() == 3 && (ext[0] == 's' || ext[0] == 'S') && (ext[1] == 'v' || ext[1] == 'V') && (ext[2]
                == 'g' || ext[2] == 'G')
        },
        None => false,
    }
}

/// The first slide, walking forward from `start + 1` and wrapping round
/// (`start` itself last of all, and never), whose `needs` flag is set.
pub open spec fn next_needing(needs: Seq<bool>, start: int, offset: int) -> Option<int>
    decreases needs.len() - offset,
{
    if offset >= needs.len() || offset < 1 {
        None
    } else if needs[(start + offset) % (needs.len() as int)] {
        Some((start + offset) % (needs.len() as int))
    } else {
        next_needing(needs, start, offset + 1)
    }
}

/// Law: the slide picked for the next render is a slide of the list, other
/// than the current one, that needs a render; and when none is picked, no
/// other slide needs one.
pub proof fn law_next_to_render(needs: Seq<bool>, start: int, offset: int)
    requires
        0 <= start < needs.len(),
        1 <= offset,
    ensures
        next_needing(needs, start, offset) matches Some(i) ==> 0 <= i < needs.len() && i != start && needs[i],
        next_needing(needs, start, offset) is None ==> forall|o: int|
            offset <= o < needs.len() ==> !needs[#[trigger] ((start + o) % (needs.len() as int))],
    decreases needs.len() - offset,
{
    let n = needs.len() as int;
    if offset < n {
        assert(0 <= (start + offset) % n < n);
        assert((start + offset) % n != start) by {
            assert(start + offset < 2 * n);
            let x = start + offset;
            if x < n {
                assert(x % n == x) by (nonlinear_arith)
                    requires
                        0 <= x < n,
                ;
            } else {
                assert(x % n == x - n) by (nonlinear_arith)
                    requires
                        n <= x < 2 * n,
                ;
            }
        }
        law_next_to_render(needs, start, offset + 1);
    }
}

/// The next slide to render after the current one: `needs[i]` tells whether
/// slide `i` needs a render that is neither running nor failed.
pub fn next_to_render(start: usize, needs: &Vec<bool>) -> (r: Option<usize>)
    requires
        start + needs@.len() <= usize::MAX,
    ensures
        match r {
            Some(i) => next_needing(needs@, start as int, 1) == Some(i as int),
            None => next_needing(needs@, start as int, 1) is None,
        },
{
    let n = needs.len();
    if n == 0 {
        return None;
    }
    let mut offset: usize = 1;
    while offset < n
        invariant
            1 <= offset <= n,
            n == needs@.len(),
            start + n <= usize::MAX,
            next_needing(needs@, start as int, 1) == next_needing(needs@, start as int, offset as int),
        decreases n - offset,
    {
        let sum = start + offset;
        let i = sum % n;
        if needs[i] {
            return Some(i);
        }
        offset += 1;
    }
    None
}

/// `"<n>/<total>"`, `n` counting from one.
pub open spec fn position(idx: int, total: int) -> Seq<char> {
    text::decimal((idx + 1) as nat) + "/"@ + text::decimal(total as nat)
}

/// The navigation label: the current slide's position among all slides,
/// `"0/0"` when no slide is shown.
pub fn position_label(current: Option<usize>, total: usize) -> (r: String)
    requires
        current matches Some(i) ==> i < total,
    ensures
        r@ == match current {
            Some(i) => position(i as int, total as int),
            None => "0/0"@,
        },
{
    match current {
        Some(i) => {
            let mut v = text::decimal_chars((i + 1) as u64);
            text::push_all(&mut v, &text::chars_of("/"));
            text::push_all(&mut v, &text::decimal_chars(total as u64));
            outside::string_from_chars(v.as_slice())
        },
        None => text::owned("0/0"),
    }
}

/// The verify button: `"Verified"` and disabled once the verse was verified
/// at least once, else `"Verify"` and enabled.
pub fn verify_button(count: u32) -> (r: (String, bool))
    ensures
        count >= 1 ==> r.0@ == "Verified"@ && !r.1,
        count == 0 ==> r.0@ == "Verify"@ && r.1,
{
    if count >= 1 {
        (text::owned("Verified"), false)
    } else {
        (text::owned("Verify"), true)
    }
}

/// `"src: <s>\nsvg: <v>"` for one mismatching pair of lines.
pub open spec fn pair_text(p: (Seq<char>, Seq<char>)) -> Seq<char> {
    "src: "@ + p.0 + "\nsvg: "@ + p.1
}

/// The mismatch note shown under a slide: one entry per pair of source and
/// rendered lines that differ, separated by newlines.
pub fn mismatch_text(pairs: &Vec<(String, String)>) -> (r: String)
    ensures
        r@ == text::join(pairs@.map_values(|p: (String, String)| pair_text((p.0@, p.1@))), "\n"@),
{
    let ghost want = pairs@.map_values(|p: (String, String)| pair_text((p.0@, p.1@)));
    let mut items: Vec<Vec<char>> = Vec::new();
    let mut k: usize = 0;
    while k < pairs.len()
        invariant
            k <= pairs.len(),
            want == pairs@.map_values(|p: (String, String)| pair_text((p.0@, p.1@))),
            text::views(items@) == want.take(k as int),
        decreases pairs.len() - k,
    {
        let mut v = text::chars_of("src: ");
        text::push_all(&mut v, &text::chars_of(pairs[k].0.as_str()));
        text::push_all(&mut v, &text::chars_of("\nsvg: "));
        text::push_all(&mut v, &text::chars_of(pairs[k].1.as_str()));
        let ghost i0 = text::views(items@);
        items.push(v);
        assert(text::views(items@) =~= i0.push(v@));
        assert(want.take(k + 1) =~= want.take(k as int).push(want[k as int]));
        k += 1;
    }
    assert(want.take(pairs.len() as int) =~= want);
    let r = text::join_chars(&items, &text::chars_of("\n"));
    outside::string_from_chars(r.as_slice())
}

/// A title with `&`, `<` and `>` written as XML entities.
pub open spec fn escaped(t: Seq<char>) -> Seq<char> {
    text::replace(text::replace(text::replace(t, "&"@, "&amp;"@), "<"@, "&lt;"@), ">"@, "&gt;"@)
}

/// One verse number of the title line: black for the verse shown, grey for
/// the others.
pub open spec fn verse_mark(v: u32, current: u32) -> Seq<char> {
    "<tspan fill=\""@ + (if v == current {
        "black"@
    } else {
        "grey"@
    }) + "\">"@ + text::decimal(v as nat) + " </tspan>"@
}

/// The marks of the first `k` verses, in order.
pub open spec fn verse_marks(vs: Seq<u32>, current: u32, k: int) -> Seq<char>
    decreases k,
{
    if k <= 0 {
        Seq::empty()
    } else {
        verse_marks(vs, current, k - 1) + verse_mark(vs[k - 1], current)
    }
}

/// The SVG text of a slide's title line: the song's title, then each of its
/// verses, the one shown in black and the others in grey.
pub fn title_line(title: &str, all_verses: &Vec<u32>, current: u32) -> (r: String)
    ensures
        r@ == "<tspan>"@ + escaped(title@) + ": </tspan>"@ + verse_marks(all_verses@, current, all_verses@.len() as int),
{
    proof {
        reveal_strlit("&");
        reveal_strlit("<");
        reveal_strlit(">");
    }
    let t = text::chars_of(title);
    let t = text::replace_chars(&t, &text::chars_of("&"), &text::chars_of("&amp;"), None);
    let t = text::replace_chars(&t, &text::chars_of("<"), &text::chars_of("&lt;"), None);
    let t = text::replace_chars(&t, &text::chars_of(">"), &text::chars_of("&gt;"), None);
    let mut r = text::chars_of("<tspan>");
    text::push_all(&mut r, &t);
    text::push_all(&mut r, &text::chars_of(": </tspan>"));
    let ghost head = r@;
    let mut k: usize = 0;
    while k < all_verses.len()
        invariant
            k <= all_verses.len(),
            r@ == head + verse_marks(all_verses@, current, k as int),
        decreases all_verses.len() - k,
    {
        let v = all_verses[k];
        let mut m = text::chars_of("<tspan fill=\"");
        if v == current {
            text::push_all(&mut m, &text::chars_of("black"));
        } else {
            text::push_all(&mut m, &text::chars_of("grey"));
        }
        text::push_all(&mut m, &text::chars_of("\">"));
        text::push_all(&mut m, &text::decimal_chars(v as u64));
        text::push_all(&mut m, &text::chars_of(" </tspan>"));
        assert(m@ =~= verse_mark(v, current));
        text::push_all(&mut r, &m);
        k += 1;
        assert(r@ =~= head + verse_marks(all_verses@, current, k as int));
    }
    outside::string_from_chars(r.as_slice())
}

} // verus!
