//! Character-level text operations with their specifications.
//!
//! Strings are handled as sequences of `char`; every executable helper here
//! is proved against the spec function of the same name prefixed by `spec_`
//! or described in its contract.
use vstd::prelude::*;
use crate::outside;

verus! {

/// The characters of a string, in order.
pub fn chars_of(s: &str) -> (v: Vec<char>)
    ensures
        v@ == s@,
{
    let mut v: Vec<char> = Vec::new();
    for c in it: s.chars()
        invariant
            v@ == it.seq().take(it.index() as int),
            it.seq() == s@,
    {
        v.push(c);
    }
    v
}

// ---------------------------------------------------------------------------
// Character classes

/// `char::is_ascii_digit`.
pub open spec fn is_digit(c: char) -> bool {
    '0' <= c && c <= '9'
}

/// `char::is_whitespace`: the characters with the Unicode `White_Space` property.
pub open spec fn is_white(c: char) -> bool {
    ||| '\u{9}' <= c && c <= '\u{d}'
    ||| c == ' '
    ||| c == '\u{85}'
    ||| c == '\u{a0}'
    ||| c == '\u{1680}'
    ||| '\u{2000}' <= c && c <= '\u{200a}'
    ||| c == '\u{2028}'
    ||| c == '\u{2029}'
    ||| c == '\u{202f}'
    ||| c == '\u{205f}'
    ||| c == '\u{3000}'
}

pub fn digit(c: char) -> (b: bool)
    ensures
        b == is_digit(c),
{
    '0' <= c && c <= '9'
}

pub fn white(c: char) -> (b: bool)
    ensures
        b == is_white(c),
{
    ('\u{9}' <= c && c <= '\u{d}') || c == ' ' || c == '\u{85}' || c == '\u{a0}' || c == '\u{1680}'
        || ('\u{2000}' <= c && c <= '\u{200a}') || c == '\u{2028}' || c == '\u{2029}' || c
        == '\u{202f}' || c == '\u{205f}' || c == '\u{3000}'
}

/// Every character of `s` is an ASCII digit.
pub open spec fn all_digits(s: Seq<char>) -> bool {
    forall|i: int| 0 <= i < s.len() ==> is_digit(#[trigger] s[i])
}

// ---------------------------------------------------------------------------
// Trimming

/// Number of leading whitespace characters.
pub open spec fn lead_white(s: Seq<char>) -> nat
    decreases s.len(),
{
    if s.len() > 0 && is_white(s[0]) {
        1 + lead_white(s.drop_first())
    } else {
        0
    }
}

/// Number of trailing whitespace characters.
pub open spec fn trail_white(s: Seq<char>) -> nat
    decreases s.len(),
{
    if s.len() > 0 && is_white(s.last()) {
        1 + trail_white(s.drop_last())
    } else {
        0
    }
}

/// `str::trim_start`.
pub open spec fn trim_start(s: Seq<char>) -> Seq<char> {
    s.skip(lead_white(s) as int)
}

/// `str::trim_end`.
pub open spec fn trim_end(s: Seq<char>) -> Seq<char> {
    s.take(s.len() - trail_white(s))
}

/// `str::trim`.
pub open spec fn trim(s: Seq<char>) -> Seq<char> {
    trim_end(trim_start(s))
}

pub proof fn lemma_lead_white(s: Seq<char>)
    ensures
        lead_white(s) <= s.len(),
        forall|i: int| 0 <= i < lead_white(s) ==> is_white(#[trigger] s[i]),
        lead_white(s) < s.len() ==> !is_white(s[lead_white(s) as int]),
    decreases s.len(),
{
    if s.len() > 0 && is_white(s[0]) {
        lemma_lead_white(s.drop_first());
        assert forall|i: int| 0 <= i < lead_white(s) implies is_white(#[trigger] s[i]) by {
            if i > 0 {
                assert(s[i] == s.drop_first()[i - 1]);
            }
        }
    }
}

pub proof fn lemma_trail_white(s: Seq<char>)
    ensures
        trail_white(s) <= s.len(),
        forall|i: int| s.len() - trail_white(s) <= i < s.len() ==> is_white(#[trigger] s[i]),
        trail_white(s) < s.len() ==> !is_white(s[s.len() - trail_white(s) - 1]),
    decreases s.len(),
{
    if s.len() > 0 && is_white(s.last()) {
        lemma_trail_white(s.drop_last());
        assert forall|i: int| s.len() - trail_white(s) <= i < s.len() implies is_white(
            #[trigger] s[i],
        ) by {
            if i < s.len() - 1 {
                assert(s[i] == s.drop_last()[i]);
            }
        }
    }
}

/// A prefix of whitespace of length `k` followed by a non-whitespace (or the end)
/// is exactly the leading whitespace.
pub proof fn lemma_lead_white_unique(s: Seq<char>, k: int)
    requires
        0 <= k <= s.len(),
        forall|i: int| 0 <= i < k ==> is_white(#[trigger] s[i]),
        k < s.len() ==> !is_white(s[k]),
    ensures
        lead_white(s) == k,
    decreases s.len(),
{
    if k > 0 {
        assert(is_white(s[0]));
        assert forall|i: int| 0 <= i < k - 1 implies is_white(#[trigger] s.drop_first()[i]) by {
            assert(s.drop_first()[i] == s[i + 1]);
        }
        if k - 1 < s.drop_first().len() {
            assert(s.drop_first()[k - 1] == s[k]);
        }
        lemma_lead_white_unique(s.drop_first(), k - 1);
    } else if s.len() > 0 {
        assert(!is_white(s[0]));
    }
}

pub proof fn lemma_trail_white_unique(s: Seq<char>, k: int)
    requires
        0 <= k <= s.len(),
        forall|i: int| s.len() - k <= i < s.len() ==> is_white(#[trigger] s[i]),
        k < s.len() ==> !is_white(s[s.len() - k - 1]),
    ensures
        trail_white(s) == k,
    decreases s.len(),
{
    if k > 0 {
        assert(is_white(s[s.len() - 1]));
        assert forall|i: int| s.drop_last().len() - (k - 1) <= i < s.drop_last().len() implies is_white(
            #[trigger] s.drop_last()[i],
        ) by {
            assert(s.drop_last()[i] == s[i]);
        }
        if k - 1 < s.drop_last().len() {
            assert(s.drop_last()[s.drop_last().len() - (k - 1) - 1] == s[s.len() - k - 1]);
        }
        lemma_trail_white_unique(s.drop_last(), k - 1);
    } else if s.len() > 0 {
        assert(!is_white(s[s.len() - 1]));
    }
}

/// Copy of `v[a..b]`.
pub fn slice_of(v: &Vec<char>, a: usize, b: usize) -> (r: Vec<char>)
    requires
        a <= b <= v.len(),
    ensures
        r@ == v@.subrange(a as int, b as int),
{
    let mut r: Vec<char> = Vec::new();
    let mut i = a;
    while i < b
        invariant
            a <= i <= b <= v.len(),
            r@ == v@.subrange(a as int, i as int),
        decreases b - i,
    {
        r.push(v[i]);
        i += 1;
    }
    r
}

/// Bounds `(start, end)` of `trim(v)` inside `v`.
pub fn trim_bounds(v: &Vec<char>) -> (r: (usize, usize))
    ensures
        r.0 <= r.1 <= v.len(),
        v@.subrange(r.0 as int, r.1 as int) == trim(v@),
{
    let n = v.len();
    let mut a: usize = 0;
    while a < n && white(v[a])
        invariant
            a <= n == v.len(),
            forall|i: int| 0 <= i < a ==> is_white(#[trigger] v@[i]),
        decreases n - a,
    {
        a += 1;
    }
    proof {
        lemma_lead_white_unique(v@, a as int);
    }
    let ghost t = v@.skip(a as int);
    let mut b: usize = n;
    while b > a && white(v[b - 1])
        invariant
            a <= b <= n == v.len(),
            t == v@.skip(a as int),
            forall|i: int| b <= i < n ==> is_white(#[trigger] v@[i]),
        decreases b - a,
    {
        b -= 1;
    }
    proof {
        let k = (n - b) as int;
        assert forall|i: int| t.len() - k <= i < t.len() implies is_white(#[trigger] t[i]) by {
            assert(t[i] == v@[i + a]);
        }
        if k < t.len() {
            assert(t[t.len() - k - 1] == v@[b - 1]);
        }
        lemma_trail_white_unique(t, k);
        assert(v@.subrange(a as int, b as int) =~= trim(v@));
    }
    (a, b)
}

/// `str::trim_end`, as characters.
pub fn trimmed_end(v: &Vec<char>) -> (r: Vec<char>)
    ensures
        r@ == trim_end(v@),
{
    let n = v.len();
    let mut b: usize = n;
    while b > 0 && white(v[b - 1])
        invariant
            b <= n == v.len(),
            forall|i: int| b <= i < n ==> is_white(#[trigger] v@[i]),
        decreases b,
    {
        b -= 1;
    }
    proof {
        lemma_trail_white_unique(v@, (n - b) as int);
    }
    let r = slice_of(v, 0, b);
    assert(r@ =~= trim_end(v@));
    r
}

/// `str::trim`, as characters.
pub fn trimmed(v: &Vec<char>) -> (r: Vec<char>)
    ensures
        r@ == trim(v@),
{
    let (a, b) = trim_bounds(v);
    slice_of(v, a, b)
}

// ---------------------------------------------------------------------------
// Matching

/// `p` occurs in `s` at position `i`.
pub open spec fn matches_at(s: Seq<char>, p: Seq<char>, i: int) -> bool {
    0 <= i && i + p.len() <= s.len() && s.subrange(i, i + p.len()) == p
}

/// `str::starts_with`.
pub open spec fn starts_with(s: Seq<char>, p: Seq<char>) -> bool {
    matches_at(s, p, 0)
}

/// `str::ends_with`.
pub open spec fn ends_with(s: Seq<char>, p: Seq<char>) -> bool {
    matches_at(s, p, s.len() - p.len())
}

/// `str::contains`.
pub open spec fn contains(s: Seq<char>, p: Seq<char>) -> bool {
    exists|i: int| matches_at(s, p, i)
}

/// `b` occurs in `a + b + c`.
pub proof fn lemma_contains_mid(a: Seq<char>, b: Seq<char>, c: Seq<char>)
    ensures
        contains(a + b + c, b),
{
    assert((a + b + c).subrange(a.len() as int, (a.len() + b.len()) as int) =~= b);
    assert(matches_at(a + b + c, b, a.len() as int));
}

/// What occurs in a part of `s` occurs in `s`.
pub proof fn lemma_contains_trans(s: Seq<char>, x: Seq<char>, y: Seq<char>)
    requires
        contains(s, x),
        contains(x, y),
    ensures
        contains(s, y),
{
    let i = choose|i: int| matches_at(s, x, i);
    let j = choose|j: int| matches_at(x, y, j);
    assert(s.subrange(i + j, i + j + y.len()) =~= x.subrange(j, j + y.len()));
    assert(matches_at(s, y, i + j));
}

/// Leftmost occurrence of `p` in `s` at or after `i`.
pub open spec fn find_from(s: Seq<char>, p: Seq<char>, i: int) -> Option<int>
    decreases s.len() + 1 - i,
{
    if i < 0 || i + p.len() > s.len() {
        None
    } else if matches_at(s, p, i) {
        Some(i)
    } else {
        find_from(s, p, i + 1)
    }
}

/// `str::find`: leftmost occurrence of `p` in `s`.
pub open spec fn find(s: Seq<char>, p: Seq<char>) -> Option<int> {
    find_from(s, p, 0)
}

pub proof fn lemma_find_from(s: Seq<char>, p: Seq<char>, i: int)
    requires
        0 <= i,
    ensures
        match find_from(s, p, i) {
            Some(j) => i <= j && matches_at(s, p, j) && forall|k: int|
                i <= k < j ==> !matches_at(s, p, k),
            None => forall|k: int| i <= k ==> !matches_at(s, p, k),
        },
    decreases s.len() + 1 - i,
{
    if i + p.len() > s.len() {
    } else if matches_at(s, p, i) {
    } else {
        lemma_find_from(s, p, i + 1);
    }
}

pub proof fn lemma_contains_find(s: Seq<char>, p: Seq<char>)
    ensures
        contains(s, p) <==> find(s, p) is Some,
{
    lemma_find_from(s, p, 0);
    if find(s, p) is Some {
        assert(matches_at(s, p, find(s, p)->0));
    }
}

/// Does `p` occur at position `i` of `s`?
pub fn match_at(s: &Vec<char>, p: &Vec<char>, i: usize) -> (b: bool)
    ensures
        b == matches_at(s@, p@, i as int),
{
    if i > s.len() || p.len() > s.len() - i {
        return false;
    }
    let mut k: usize = 0;
    while k < p.len()
        invariant
            i + p.len() <= s.len(),
            k <= p.len(),
            forall|j: int| 0 <= j < k ==> s@[i + j] == p@[j],
        decreases p.len() - k,
    {
        if s[i + k] != p[k] {
            assert(s@.subrange(i as int, i + p.len())[k as int] != p@[k as int]);
            return false;
        }
        k += 1;
    }
    assert(s@.subrange(i as int, i + p.len()) =~= p@);
    true
}

/// `str::find` from position `i`.
pub fn find_at_or_after(s: &Vec<char>, p: &Vec<char>, i: usize) -> (r: Option<usize>)
    ensures
        match r {
            Some(j) => find_from(s@, p@, i as int) == Some(j as int),
            None => find_from(s@, p@, i as int) is None,
        },
{
    let mut j = i;
    while j <= s.len() && p.len() <= s.len() - j
        invariant
            i <= j,
            find_from(s@, p@, i as int) == find_from(s@, p@, j as int),
        decreases s.len() + 1 - j,
    {
        if match_at(s, p, j) {
            return Some(j);
        }
        if j == s.len() {
            proof {
                if p@.len() == 0 {
                    assert(s@.subrange(j as int, j as int) =~= p@);
                }
            }
            return None;
        }
        j += 1;
    }
    None
}

/// `str::contains`.
pub fn has(s: &Vec<char>, p: &Vec<char>) -> (b: bool)
    ensures
        b == contains(s@, p@),
{
    proof {
        lemma_contains_find(s@, p@);
    }
    find_at_or_after(s, p, 0).is_some()
}

/// `str::starts_with`.
pub fn begins_with(s: &Vec<char>, p: &Vec<char>) -> (b: bool)
    ensures
        b == starts_with(s@, p@),
{
    match_at(s, p, 0)
}

/// `str::ends_with`.
pub fn finishes_with(s: &Vec<char>, p: &Vec<char>) -> (b: bool)
    ensures
        b == ends_with(s@, p@),
{
    if p.len() > s.len() {
        false
    } else {
        match_at(s, p, s.len() - p.len())
    }
}

// ---------------------------------------------------------------------------
// Replacing, counting, splitting

/// `str::replacen(p, r, n)` applied to the part of `s` from `i` on;
/// `n == None` replaces every occurrence (`str::replace`).
pub open spec fn replace_from(s: Seq<char>, p: Seq<char>, r: Seq<char>, n: Option<nat>, i: int) -> Seq<char>
    decreases s.len() - i,
{
    if i < 0 || i >= s.len() || p.len() == 0 {
        s.skip(i)
    } else if n == Some(0nat) {
        s.skip(i)
    } else if matches_at(s, p, i) {
        r + replace_from(
            s,
            p,
            r,
            match n {
                Some(k) => Some((k - 1) as nat),
                None => None,
            },
            i + p.len(),
        )
    } else {
        seq![s[i]] + replace_from(s, p, r, n, i + 1)
    }
}

/// `str::replace(p, r)` for a non-empty pattern.
pub open spec fn replace(s: Seq<char>, p: Seq<char>, r: Seq<char>) -> Seq<char> {
    replace_from(s, p, r, None, 0)
}

/// `str::replacen(p, r, n)` for a non-empty pattern.
pub open spec fn replacen(s: Seq<char>, p: Seq<char>, r: Seq<char>, n: nat) -> Seq<char> {
    replace_from(s, p, r, Some(n), 0)
}

/// Appends all of `r` to `out`.
pub fn push_all(out: &mut Vec<char>, r: &Vec<char>)
    ensures
        final(out)@ == old(out)@ + r@,
{
    let ghost o = out@;
    let mut k: usize = 0;
    while k < r.len()
        invariant
            k <= r.len(),
            out@ == o + r@.take(k as int),
        decreases r.len() - k,
    {
        out.push(r[k]);
        k += 1;
        assert(r@.take(k as int) =~= r@.take(k - 1) + seq![r@[k - 1]]);
    }
    assert(r@.take(r.len() as int) =~= r@);
}

/// Appends `s[i..]` to `out`.
pub fn push_rest(out: &mut Vec<char>, s: &Vec<char>, i: usize)
    requires
        i <= s.len(),
    ensures
        final(out)@ == old(out)@ + s@.skip(i as int),
{
    let ghost o = out@;
    let mut j = i;
    while j < s.len()
        invariant
            i <= j <= s.len(),
            out@ == o + s@.subrange(i as int, j as int),
        decreases s.len() - j,
    {
        out.push(s[j]);
        j += 1;
        assert(s@.subrange(i as int, j as int) =~= s@.subrange(i as int, j - 1) + seq![s@[j - 1]]);
    }
    assert(s@.subrange(i as int, s.len() as int) =~= s@.skip(i as int));
}

/// A replacement limit as a number (`None` for no limit).
pub open spec fn opt_nat(n: Option<usize>) -> Option<nat> {
    match n {
        Some(k) => Some(k as nat),
        None => None,
    }
}

/// `str::replace` (`n == None`) or `str::replacen` (`n == Some(limit)`) over characters.
pub fn replace_chars(s: &Vec<char>, p: &Vec<char>, r: &Vec<char>, n: Option<usize>) -> (out: Vec<char>)
    requires
        p.len() > 0,
    ensures
        out@ == replace_from(s@, p@, r@, opt_nat(n), 0),
{
    let ghost target = replace_from(s@, p@, r@, opt_nat(n), 0);
    let mut out: Vec<char> = Vec::new();
    let mut left = n;
    let mut i: usize = 0;
    while i < s.len() && left != Some(0usize)
        invariant
            p.len() > 0,
            i <= s.len(),
            target == out@ + replace_from(s@, p@, r@, opt_nat(left), i as int),
        decreases s.len() - i,
    {
        if match_at(s, p, i) {
            let ghost before = out@;
            push_all(&mut out, r);
            left = match left {
                Some(k) => Some(k - 1),
                None => None,
            };
            i += p.len();
            assert(target == out@ + replace_from(s@, p@, r@, opt_nat(left), i as int)) by {
                assert(before + (r@ + replace_from(s@, p@, r@, opt_nat(left), i as int)) =~= out@
                    + replace_from(s@, p@, r@, opt_nat(left), i as int));
            }
        } else {
            let ghost before = out@;
            out.push(s[i]);
            i += 1;
            assert(before + (seq![s@[i - 1]] + replace_from(s@, p@, r@, opt_nat(left), i as int))
                =~= out@ + replace_from(s@, p@, r@, opt_nat(left), i as int));
        }
    }
    push_rest(&mut out, s, i);
    out
}

/// `str::matches(p).count()` over the part of `s` from `i` on.
pub open spec fn count_from(s: Seq<char>, p: Seq<char>, i: int) -> nat
    decreases s.len() + 1 - i,
{
    if i < 0 || i >= s.len() || p.len() == 0 {
        0
    } else if matches_at(s, p, i) {
        1 + count_from(s, p, i + p.len())
    } else {
        count_from(s, p, i + 1)
    }
}

/// `str::matches(p).count()` for a non-empty pattern.
pub open spec fn count(s: Seq<char>, p: Seq<char>) -> nat {
    count_from(s, p, 0)
}

pub fn count_chars(s: &Vec<char>, p: &Vec<char>) -> (n: usize)
    requires
        p.len() > 0,
    ensures
        n == count(s@, p@),
{
    let mut n: usize = 0;
    let mut i: usize = 0;
    while i < s.len()
        invariant
            p.len() > 0,
            i <= s.len(),
            n + count_from(s@, p@, i as int) == count(s@, p@),
            n <= i,
        decreases s.len() - i,
    {
        if match_at(s, p, i) {
            n += 1;
            i += p.len();
        } else {
            i += 1;
        }
    }
    n
}

/// `str::split(p)` over the part of `s` from `i` on, for a non-empty pattern.
pub open spec fn split_from(s: Seq<char>, p: Seq<char>, i: int) -> Seq<Seq<char>>
    decreases s.len() + 1 - i,
{
    if i < 0 || p.len() == 0 {
        seq![s.skip(i)]
    } else {
        match find_from(s, p, i) {
            Some(j) => {
                proof {
                    lemma_find_from(s, p, i);
                }
                seq![s.subrange(i, j)] + split_from(s, p, j + p.len())
            },
            None => seq![s.skip(i)],
        }
    }
}

/// `str::split(p)` for a non-empty pattern.
pub open spec fn split(s: Seq<char>, p: Seq<char>) -> Seq<Seq<char>> {
    split_from(s, p, 0)
}

pub proof fn lemma_split_nonempty(s: Seq<char>, p: Seq<char>, i: int)
    ensures
        split_from(s, p, i).len() >= 1,
        split_from(s, p, i)[0] == (if i >= 0 && p.len() > 0 && find_from(s, p, i) is Some {
            s.subrange(i, find_from(s, p, i)->0)
        } else {
            s.skip(i)
        }),
{
}

/// Views of a vector of character vectors.
/// The views of a sequence of strings.
pub open spec fn strings_view(v: Seq<String>) -> Seq<Seq<char>> {
    v.map_values(|s: String| s@)
}

/// The views of a sequence of character vectors.
pub open spec fn views(v: Seq<Vec<char>>) -> Seq<Seq<char>> {
    v.map_values(|x: Vec<char>| x@)
}

pub fn split_chars(s: &Vec<char>, p: &Vec<char>) -> (out: Vec<Vec<char>>)
    requires
        p.len() > 0,
    ensures
        views(out@) == split(s@, p@),
{
    let mut out: Vec<Vec<char>> = Vec::new();
    let mut i: usize = 0;
    loop
        invariant
            p.len() > 0,
            i <= s.len(),
            split(s@, p@) == views(out@) + split_from(s@, p@, i as int),
        decreases s.len() + 1 - i,
    {
        let ghost before = views(out@);
        match find_at_or_after(s, p, i) {
            Some(j) => {
                proof {
                    lemma_find_from(s@, p@, i as int);
                }
                let piece = slice_of(s, i, j);
                out.push(piece);
                assert(views(out@) =~= before + seq![s@.subrange(i as int, j as int)]);
                i = j + p.len();
            },
            None => {
                let piece = slice_of(s, i, s.len());
                out.push(piece);
                assert(views(out@) =~= before + seq![s@.skip(i as int)]);
                return out;
            },
        }
    }
}

/// Line content without a final carriage return.
pub open spec fn strip_cr(l: Seq<char>) -> Seq<char> {
    if l.len() > 0 && l.last() == '\r' {
        l.drop_last()
    } else {
        l
    }
}

/// `str::lines` over the part of `s` from `i` on.
pub open spec fn lines_from(s: Seq<char>, i: int) -> Seq<Seq<char>>
    decreases s.len() - i,
{
    if i < 0 || i >= s.len() {
        seq![]
    } else {
        match find_from(s, seq!['\n'], i) {
            Some(j) => {
                proof {
                    lemma_find_from(s, seq!['\n'], i);
                }
                seq![strip_cr(s.subrange(i, j))] + lines_from(s, j + 1)
            },
            None => seq![s.skip(i)],
        }
    }
}

/// `str::lines`: the lines of `s`, split at `\n` (a `\r` before it is
/// dropped); a final line ending adds no empty line.
pub open spec fn lines(s: Seq<char>) -> Seq<Seq<char>> {
    lines_from(s, 0)
}

/// `s` holds no line feed.
pub open spec fn no_newline(s: Seq<char>) -> bool {
    forall|i: int| 0 <= i < s.len() ==> s[i] != '\n'
}

proof fn lemma_nl_match(t: Seq<char>, k: int)
    requires
        0 <= k < t.len(),
    ensures
        matches_at(t, seq!['\n'], k) <==> t[k] == '\n',
{
    if t[k] == '\n' {
        assert(t.subrange(k, k + 1) =~= seq!['\n']);
    }
    if matches_at(t, seq!['\n'], k) {
        assert(t.subrange(k, k + 1)[0] == t[k]);
    }
}

proof fn lemma_lines_reach(log: Seq<char>, e: Seq<char>, i: int)
    requires
        log.len() == 0 || log.last() == '\n',
        no_newline(e),
        e.len() == 0 || e.last() != '\r',
        0 <= i <= log.len(),
        i == 0 || (log + e + seq!['\n'])[i - 1] == '\n',
    ensures
        lines_from(log + e + seq!['\n'], i).contains(e),
    decreases log.len() - i,
{
    let t = log + e + seq!['\n'];
    let nl = seq!['\n'];
    let l = log.len() as int;
    let end = l + e.len();
    lemma_find_from(t, nl, i);
    lemma_nl_match(t, end);
    if i == l {
        assert forall|k: int| l <= k < end implies !matches_at(t, nl, k) by {
            lemma_nl_match(t, k);
            assert(t[k] == e[k - l]);
        }
        let j = find_from(t, nl, i)->0;
        assert(j == end);
        assert(t.subrange(i, j) =~= e);
        assert(lines_from(t, i)[0] == e);
    } else {
        lemma_nl_match(t, l - 1);
        assert(t[l - 1] == log.last());
        let j = find_from(t, nl, i)->0;
        assert(j <= l - 1);
        lemma_nl_match(t, j);
        lemma_lines_reach(log, e, j + 1);
        let rest = lines_from(t, j + 1);
        let q = choose|q: int| 0 <= q < rest.len() && rest[q] == e;
        assert(lines_from(t, i)[q + 1] == e);
    }
}

/// A line appended, with its line feed, to text that is empty or ends with
/// a line feed is one of the lines of the result.
pub proof fn lemma_appended_line(log: Seq<char>, e: Seq<char>)
    requires
        log.len() == 0 || log.last() == '\n',
        no_newline(e),
        e.len() == 0 || e.last() != '\r',
    ensures
        lines(log + e + seq!['\n']).contains(e),
{
    lemma_lines_reach(log, e, 0);
}

/// The decimal digits of `n`: at least one, all ASCII digits.
pub proof fn lemma_decimal_digits(n: nat)
    ensures
        decimal(n).len() >= 1,
        all_digits(decimal(n)),
    decreases n,
{
    if n >= 10 {
        lemma_decimal_digits(n / 10);
        assert(decimal(n) == decimal(n / 10) + seq![digit_char(n % 10)]);
    }
}

pub fn lines_of(s: &Vec<char>) -> (out: Vec<Vec<char>>)
    ensures
        views(out@) == lines(s@),
{
    let nl: Vec<char> = vec!['\n'];
    assert(nl@ =~= seq!['\n']);
    let mut out: Vec<Vec<char>> = Vec::new();
    let mut i: usize = 0;
    while i < s.len()
        invariant
            nl@ == seq!['\n'],
            i <= s.len(),
            lines(s@) == views(out@) + lines_from(s@, i as int),
        decreases s.len() - i,
    {
        let ghost before = views(out@);
        match find_at_or_after(s, &nl, i) {
            Some(j) => {
                proof {
                    lemma_find_from(s@, nl@, i as int);
                }
                let mut e = j;
                if e > i && s[e - 1] == '\r' {
                    e = e - 1;
                }
                let piece = slice_of(s, i, e);
                assert(piece@ =~= strip_cr(s@.subrange(i as int, j as int)));
                out.push(piece);
                assert(views(out@) =~= before + seq![strip_cr(s@.subrange(i as int, j as int))]);
                i = j + 1;
            },
            None => {
                let piece = slice_of(s, i, s.len());
                out.push(piece);
                assert(views(out@) =~= before + seq![s@.skip(i as int)]);
                return out;
            },
        }
    }
    assert(views(out@) + lines_from(s@, i as int) =~= views(out@));
    out
}

/// `parts.join(sep)`.
pub open spec fn join(parts: Seq<Seq<char>>, sep: Seq<char>) -> Seq<char>
    decreases parts.len(),
{
    if parts.len() == 0 {
        seq![]
    } else if parts.len() == 1 {
        parts[0]
    } else {
        join(parts.drop_last(), sep) + sep + parts.last()
    }
}

pub fn join_chars(parts: &Vec<Vec<char>>, sep: &Vec<char>) -> (out: Vec<char>)
    ensures
        out@ == join(views(parts@), sep@),
{
    let mut out: Vec<char> = Vec::new();
    let mut i: usize = 0;
    while i < parts.len()
        invariant
            i <= parts.len(),
            out@ == join(views(parts@).take(i as int), sep@),
        decreases parts.len() - i,
    {
        assert(views(parts@).take(i + 1).drop_last() =~= views(parts@).take(i as int));
        if i > 0 {
            push_all(&mut out, sep);
        }
        push_all(&mut out, &parts[i]);
        i += 1;
        assert(views(parts@).take(i as int).last() == parts@[i - 1]@);
        if i == 1 {
            assert(out@ =~= join(views(parts@).take(i as int), sep@));
        }
    }
    assert(views(parts@).take(parts.len() as int) =~= views(parts@));
    out
}

// ---------------------------------------------------------------------------
// Numbers as text

/// The character of the digit `d` (`0..=9`, then `a..=f`).
pub open spec fn digit_char(d: nat) -> char {
    if d < 10 {
        ((d + 48) as u8) as char
    } else {
        ((d + 87) as u8) as char
    }
}

/// The digits of `n` in base `b` (no leading zeros; `0` is one digit).
pub open spec fn radix(n: nat, b: nat) -> Seq<char>
    recommends
        2 <= b <= 16,
    decreases n,
{
    if b < 2 || n < b {
        seq![digit_char(n)]
    } else {
        proof {
            assert(n / b < n) by (nonlinear_arith)
                requires
                    n >= b,
                    b >= 2,
            ;
        }
        radix(n / b, b) + seq![digit_char(n % b)]
    }
}

/// `format!("{}", n)`.
pub open spec fn decimal(n: nat) -> Seq<char> {
    radix(n, 10)
}

/// `s` left-padded with `'0'` to at least `w` characters (`format!("{:0w$}")`).
pub open spec fn pad_zero(s: Seq<char>, w: nat) -> Seq<char> {
    if s.len() < w {
        Seq::new((w - s.len()) as nat, |i: int| '0') + s
    } else {
        s
    }
}

fn digit_of(d: u64) -> (c: char)
    requires
        d < 16,
    ensures
        c == digit_char(d as nat),
{
    if d < 10 {
        ((d + 48) as u8) as char
    } else {
        ((d + 87) as u8) as char
    }
}

/// Digits of `n` in base `b`.
pub fn radix_chars(n: u64, b: u64) -> (v: Vec<char>)
    requires
        2 <= b <= 16,
    ensures
        v@ == radix(n as nat, b as nat),
    decreases n,
{
    if n < b {
        let mut v: Vec<char> = Vec::new();
        v.push(digit_of(n));
        assert(v@ =~= seq![digit_char(n as nat)]);
        v
    } else {
        assert(n / b < n) by (nonlinear_arith)
            requires
                n >= b,
                b >= 2,
        ;
        let mut v = radix_chars(n / b, b);
        v.push(digit_of(n % b));
        v
    }
}

/// `format!("{}", n)`.
pub fn decimal_chars(n: u64) -> (v: Vec<char>)
    ensures
        v@ == decimal(n as nat),
{
    radix_chars(n, 10)
}

/// `format!("{:0w$}", ...)` applied to already formatted digits.
pub fn pad_zero_chars(s: Vec<char>, w: usize) -> (v: Vec<char>)
    ensures
        v@ == pad_zero(s@, w as nat),
{
    if s.len() < w {
        let mut v: Vec<char> = Vec::new();
        let k = w - s.len();
        let mut i: usize = 0;
        while i < k
            invariant
                i <= k,
                v@ == Seq::new(i as nat, |j: int| '0'),
            decreases k - i,
        {
            v.push('0');
            i += 1;
            assert(v@ =~= Seq::new(i as nat, |j: int| '0'));
        }
        push_all(&mut v, &s);
        v
    } else {
        s
    }
}

/// Value of a string of ASCII digits.
pub open spec fn digits_value(s: Seq<char>) -> nat
    decreases s.len(),
{
    if s.len() == 0 {
        0
    } else {
        digits_value(s.drop_last()) * 10 + ((s.last() as nat) - 48) as nat
    }
}

/// `str::parse::<u32>()`: an optional `+` and then at least one ASCII digit,
/// with a value that fits in `u32`.
pub open spec fn parse_u32(s: Seq<char>) -> Option<u32> {
    let d = if s.len() > 0 && s[0] == '+' {
        s.drop_first()
    } else {
        s
    };
    if d.len() > 0 && all_digits(d) && digits_value(d) <= u32::MAX {
        Some(digits_value(d) as u32)
    } else {
        None
    }
}

proof fn lemma_digits_value_mono(s: Seq<char>, k: int)
    requires
        0 <= k <= s.len(),
        all_digits(s),
    ensures
        digits_value(s.take(k)) <= digits_value(s),
    decreases s.len() - k,
{
    if k < s.len() {
        lemma_digits_value_mono(s, k + 1);
        assert(s.take(k + 1).drop_last() =~= s.take(k));
        assert(is_digit(s[k]));
    } else {
        assert(s.take(k) =~= s);
    }
}

/// `str::parse::<u32>()`.
pub fn parse_u32_chars(s: &Vec<char>) -> (r: Option<u32>)
    ensures
        r == parse_u32(s@),
{
    let start: usize = if s.len() > 0 && s[0] == '+' { 1 } else { 0 };
    let ghost d = if s@.len() > 0 && s@[0] == '+' { s@.drop_first() } else { s@ };
    assert(d =~= s@.skip(start as int));
    if start >= s.len() {
        return None;
    }
    let mut v: u64 = 0;
    let mut i = start;
    while i < s.len()
        invariant
            start <= i <= s.len(),
            d == s@.skip(start as int),
            d == (if s@.len() > 0 && s@[0] == '+' { s@.drop_first() } else { s@ }),
            d.len() > 0,
            all_digits(d.take(i - start)),
            v == digits_value(d.take(i - start)),
            v <= u32::MAX,
        decreases s.len() - i,
    {
        let c = s[i];
        if !digit(c) {
            assert(d[i - start] == c);
            assert(!is_digit(d[i - start]));
            assert(!all_digits(d));
            return None;
        }
        assert(d.take(i + 1 - start).drop_last() =~= d.take(i - start));
        assert(d.take(i + 1 - start).last() == c);
        let nv = v * 10 + (c as u64 - 48);
        i += 1;
        assert(all_digits(d.take(i - start)));
        if nv > 4294967295 {
            proof {
                let k = (i - start) as int;
                assert(nv == digits_value(d.take(k)));
                if all_digits(d) {
                    lemma_digits_value_mono(d, k);
                }
            }
            return None;
        }
        v = nv;
    }
    assert(d.take(s.len() - start) =~= d);
    Some(v as u32)
}

/// Character-by-character equality.
pub fn same(a: &Vec<char>, b: &Vec<char>) -> (r: bool)
    ensures
        r == (a@ == b@),
{
    if a.len() != b.len() {
        return false;
    }
    let mut i: usize = 0;
    while i < a.len()
        invariant
            a.len() == b.len(),
            i <= a.len(),
            forall|j: int| 0 <= j < i ==> a@[j] == b@[j],
        decreases a.len() - i,
    {
        if a[i] != b[i] {
            return false;
        }
        i += 1;
    }
    assert(a@ =~= b@);
    true
}

/// The text of a string literal or other `&str`, as a `String`.
pub fn owned(s: &str) -> (r: String)
    ensures
        r@ == s@,
{
    s.to_owned()
}

// ---------------------------------------------------------------------------
// Paths

/// `c` separates path components: `/`, or the platform's separator `sep`
/// (`\\` on Windows).
pub open spec fn is_sep(c: char, sep: char) -> bool {
    c == '/' || c == sep
}

/// `name` inside the directory `base`, as `PathBuf::join` forms it with the
/// platform's separator `sep`: the two joined with one `sep` (`base` alone
/// when `name` is empty, no separator added when `base` ends with one), and
/// `name` alone when `base` is empty or `name` starts from the root. (A
/// rooted `name` joined onto a Windows path with a drive prefix keeps that
/// prefix in `PathBuf::join`; no such join is made here.)
pub open spec fn joined(base: Seq<char>, name: Seq<char>, sep: char) -> Seq<char> {
    if base.len() == 0 || (name.len() > 0 && is_sep(name[0], sep)) {
        name
    } else if name.len() == 0 || is_sep(base.last(), sep) {
        base + name
    } else {
        base + seq![sep] + name
    }
}

/// Joins a file name onto a directory path with the separator `sep`.
pub fn join_path(base: &str, name: &str, sep: char) -> (r: String)
    ensures
        r@ == joined(base@, name@, sep),
{
    let b = chars_of(base);
    let n = chars_of(name);
    if b.len() == 0 || (n.len() > 0 && (n[0] == '/' || n[0] == sep)) {
        return outside::string_from_chars(n.as_slice());
    }
    let mut v = b.clone();
    assert(v@ == b@);
    if n.len() > 0 && b[b.len() - 1] != '/' && b[b.len() - 1] != sep {
        v.push(sep);
    }
    push_all(&mut v, &n);
    outside::string_from_chars(v.as_slice())
}

} // verus!
