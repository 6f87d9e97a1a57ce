//! The song library, the liturgy and its slides, verse verification
//! counts and hymn-usage entries.
use vstd::prelude::*;
use std::collections::BTreeMap;
use crate::calendar;
use crate::outside;
use crate::render_ly::SongMeta;
use crate::text;

pub use crate::calendar::epoch_days_to_date;

verus! {

broadcast use vstd::laws_cmp::group_laws_cmp, vstd::std_specs::hash::group_hash_axioms;

/// What was asked for on the command line.
pub struct Cli {
    /// Psalm numbers to load on startup.
    pub psalm: Vec<u32>,
    /// Hymn numbers to load on startup.
    pub hymn: Vec<u32>,
    /// Check for updates on startup.
    pub update: bool,
    /// Render every verse onto a single slide, overriding per-song split style.
    pub force_one_slide: bool,
}

#[derive(Clone, Copy, PartialEq, Eq, Structural, Debug)]
pub enum SongType {
    Psalm,
    Hymn,
}

/// The file-system prefix of a song type.
pub open spec fn type_prefix(t: SongType) -> Seq<char> {
    match t {
        SongType::Psalm => "psalm"@,
        SongType::Hymn => "hymn"@,
    }
}

/// The title of a song: `Psalm 42`, `Hymn 7`.
pub open spec fn song_label(t: SongType, num: u32) -> Seq<char> {
    let title = match t {
        SongType::Psalm => "Psalm "@,
        SongType::Hymn => "Hymn "@,
    };
    title + text::decimal(num as nat)
}

impl SongType {
    /// The filesystem prefix for this song type (`"psalm"` or `"hymn"`).
    pub fn prefix(self) -> (r: &'static str)
        ensures
            r@ == type_prefix(self),
    {
        match self {
            SongType::Psalm => "psalm",
            SongType::Hymn => "hymn",
        }
    }

    /// A human-readable label like `"Psalm 42"` or `"Hymn 7"`.
    pub fn label(self, num: u32) -> (r: String)
        ensures
            r@ == song_label(self, num),
    {
        let mut v = match self {
            SongType::Psalm => text::chars_of("Psalm "),
            SongType::Hymn => text::chars_of("Hymn "),
        };
        text::push_all(&mut v, &text::decimal_chars(num as u64));
        outside::string_from_chars(v.as_slice())
    }
}

// ---------------------------------------------------------------------------
// Verse numbers from file names

/// `Path::file_stem` of a single file name: the name without its last
/// extension; a name whose only dot is the first character keeps it;
/// `.` and `..` have no stem.
pub open spec fn file_stem(name: Seq<char>) -> Seq<char> {
    if name == seq!['.'] || name == seq!['.', '.'] {
        seq![]
    } else {
        match last_dot(name, name.len() as int) {
            Some(i) => if i == 0 {
                name
            } else {
                name.take(i)
            },
            None => name,
        }
    }
}

/// Index of the last `.` in `name.take(k)`.
pub open spec fn last_dot(name: Seq<char>, k: int) -> Option<int>
    decreases k,
{
    if k <= 0 {
        None
    } else if name[k - 1] == '.' {
        Some(k - 1)
    } else {
        last_dot(name, k - 1)
    }
}

/// Number of leading ASCII digits.
pub open spec fn digit_run(s: Seq<char>) -> nat
    decreases s.len(),
{
    if s.len() > 0 && text::is_digit(s[0]) {
        1 + digit_run(s.drop_first())
    } else {
        0
    }
}

/// The verse that a file of a song directory belongs to: the number its
/// stem starts with (`1.svg`, `2a.png`), else the number after `lyrics_`
/// (`lyrics_3.ly`).
pub open spec fn verse_of_file(name: Seq<char>) -> Option<u32> {
    let stem = file_stem(name);
    match text::parse_u32(stem.take(digit_run(stem) as int)) {
        Some(v) => Some(v),
        None => if text::starts_with(stem, "lyrics_"@) {
            text::parse_u32(stem.skip(7))
        } else {
            None
        },
    }
}

/// All verse numbers named by the files of a song directory.
pub open spec fn verse_set(files: Seq<Seq<char>>) -> Set<u32> {
    Set::new(|v: u32| exists|i: int| 0 <= i < files.len() && verse_of_file(#[trigger] files[i]) == Some(v))
}

/// Strictly increasing.
pub open spec fn ascending(s: Seq<u32>) -> bool {
    forall|i: int, j: int| 0 <= i < j < s.len() ==> s[i] < s[j]
}

fn file_stem_chars(name: &Vec<char>) -> (r: Vec<char>)
    ensures
        r@ == file_stem(name@),
{
    if name.len() == 1 && name[0] == '.' {
        assert(name@ =~= seq!['.']);
        return Vec::new();
    }
    if name.len() == 2 && name[0] == '.' && name[1] == '.' {
        assert(name@ =~= seq!['.', '.']);
        return Vec::new();
    }
    assert(name@ != seq!['.']) by {
        if name@ == seq!['.'] {
            assert(name@.len() == 1 && name@[0] == '.');
        }
    }
    assert(name@ != seq!['.', '.']) by {
        if name@ == seq!['.', '.'] {
            assert(name@.len() == 2 && name@[0] == '.' && name@[1] == '.');
        }
    }
    let mut k = name.len();
    while k > 0 && name[k - 1] != '.'
        invariant
            k <= name.len(),
            last_dot(name@, name@.len() as int) == last_dot(name@, k as int),
        decreases k,
    {
        k -= 1;
    }
    if k == 0 {
        name.clone()
    } else if k == 1 {
        name.clone()
    } else {
        text::slice_of(name, 0, k - 1)
    }
}

fn digit_run_len(s: &Vec<char>) -> (n: usize)
    ensures
        n == digit_run(s@),
        n <= s.len(),
{
    let mut n: usize = 0;
    assert(s@.skip(0) =~= s@);
    while n < s.len() && text::digit(s[n])
        invariant
            n <= s.len(),
            digit_run(s@) == n + digit_run(s@.skip(n as int)),
        decreases s.len() - n,
    {
        assert(s@.skip(n as int).drop_first() =~= s@.skip(n + 1));
        n += 1;
    }
    if n < s.len() {
        assert(s@.skip(n as int)[0] == s@[n as int]);
    }
    n
}

/// The verse that the file `name` of a song directory belongs to.
pub fn verse_of_file_name(name: &Vec<char>) -> (r: Option<u32>)
    ensures
        r == verse_of_file(name@),
{
    let stem = file_stem_chars(name);
    let n = digit_run_len(&stem);
    match text::parse_u32_chars(&text::slice_of(&stem, 0, n)) {
        Some(v) => {
            assert(stem@.subrange(0, n as int) =~= stem@.take(n as int));
            Some(v)
        },
        None => {
            assert(stem@.subrange(0, n as int) =~= stem@.take(n as int));
            if text::begins_with(&stem, &text::chars_of("lyrics_")) {
                proof {
                    reveal_strlit("lyrics_");
                }
                let rest = text::slice_of(&stem, 7, stem.len());
                assert(rest@ =~= stem@.skip(7));
                text::parse_u32_chars(&rest)
            } else {
                None
            }
        },
    }
}

/// Inserts `v` into the strictly increasing `s`, unless present.
fn insert_sorted(s: &mut Vec<u32>, v: u32)
    requires
        ascending(old(s)@),
    ensures
        ascending(final(s)@),
        final(s)@.to_set() == old(s)@.to_set().insert(v),
{
    let mut i: usize = 0;
    while i < s.len() && s[i] < v
        invariant
            i <= s.len(),
            forall|j: int| 0 <= j < i ==> s@[j] < v,
        decreases s.len() - i,
    {
        i += 1;
    }
    if i < s.len() && s[i] == v {
        assert(s@.to_set() =~= s@.to_set().insert(v)) by {
            assert(s@.contains(v)) by {
                assert(s@[i as int] == v);
            }
        }
        return;
    }
    let ghost before = s@;
    s.insert(i, v);
    assert(s@.to_set() =~= before.to_set().insert(v)) by {
        assert forall|x: u32| #[trigger] s@.to_set().contains(x) <==> before.to_set().insert(v).contains(x) by {
            if s@.contains(x) {
                let k = choose|k: int| 0 <= k < s@.len() && s@[k] == x;
                if k < i {
                    assert(before[k] == x);
                } else if k > i {
                    assert(before[k - 1] == x);
                }
            }
            if before.contains(x) {
                let k = choose|k: int| 0 <= k < before.len() && before[k] == x;
                if k < i {
                    assert(s@[k] == x);
                } else {
                    assert(s@[k + 1] == x);
                }
            }
            if x == v {
                assert(s@[i as int] == v);
            }
        }
    }
}

/// The verse numbers found among the file names of a song directory, in
/// increasing order without repetition.
pub fn scan_verses(files: &Vec<String>) -> (r: Vec<u32>)
    ensures
        ascending(r@),
        r@.to_set() == verse_set(files@.map_values(|f: String| f@)),
{
    let ghost fs = files@.map_values(|f: String| f@);
    let mut r: Vec<u32> = Vec::new();
    let mut i: usize = 0;
    while i < files.len()
        invariant
            i <= files.len(),
            fs == files@.map_values(|f: String| f@),
            ascending(r@),
            r@.to_set() == verse_set(fs.take(i as int)),
        decreases files.len() - i,
    {
        let name = text::chars_of(files[i].as_str());
        let ghost prev = fs.take(i as int);
        let ghost next = fs.take(i + 1);
        assert(next =~= prev.push(fs[i as int]));
        match verse_of_file_name(&name) {
            Some(v) => {
                insert_sorted(&mut r, v);
                assert(r@.to_set() =~= verse_set(next)) by {
                    assert forall|x: u32| verse_set(next).contains(x) <==> verse_set(prev).insert(v).contains(x) by {
                        if verse_set(next).contains(x) {
                            let k = choose|k: int| 0 <= k < next.len() && verse_of_file(#[trigger] next[k]) == Some(x);
                            if k < i {
                                assert(prev[k] == next[k]);
                            }
                        }
                        if verse_set(prev).contains(x) {
                            let k = choose|k: int| 0 <= k < prev.len() && verse_of_file(#[trigger] prev[k]) == Some(x);
                            assert(next[k] == prev[k]);
                        }
                        if x == v {
                            assert(next[i as int] == fs[i as int]);
                        }
                    }
                }
            },
            None => {
                assert(r@.to_set() =~= verse_set(next)) by {
                    assert forall|x: u32| verse_set(next).contains(x) <==> verse_set(prev).contains(x) by {
                        if verse_set(next).contains(x) {
                            let k = choose|k: int| 0 <= k < next.len() && verse_of_file(#[trigger] next[k]) == Some(x);
                            if k < i {
                                assert(prev[k] == next[k]);
                            } else {
                                assert(next[k] == fs[i as int]);
                            }
                        }
                        if verse_set(prev).contains(x) {
                            let k = choose|k: int| 0 <= k < prev.len() && verse_of_file(#[trigger] prev[k]) == Some(x);
                            assert(next[k] == prev[k]);
                        }
                    }
                }
            },
        }
        i += 1;
    }
    assert(fs.take(files.len() as int) =~= fs);
    r
}

// ---------------------------------------------------------------------------
// The song library

/// The song that a directory of the library holds: `psalmN` or `hymnN`.
pub open spec fn song_of_dir(name: Seq<char>) -> Option<(SongType, u32)> {
    if text::starts_with(name, "psalm"@) {
        match text::parse_u32(name.skip(5)) {
            Some(n) => Some((SongType::Psalm, n)),
            None => None,
        }
    } else if text::starts_with(name, "hymn"@) {
        match text::parse_u32(name.skip(4)) {
            Some(n) => Some((SongType::Hymn, n)),
            None => None,
        }
    } else {
        None
    }
}

/// A directory listing: each subdirectory's name with the names of its files.
pub open spec fn listing_view(listing: Seq<(String, Vec<String>)>) -> Seq<(Seq<char>, Seq<Seq<char>>)> {
    listing.map_values(|e: (String, Vec<String>)| (e.0@, e.1@.map_values(|f: String| f@)))
}

/// The `i`-th directory of the listing is song `n` of type `t` and has verses.
pub open spec fn provides(listing: Seq<(Seq<char>, Seq<Seq<char>>)>, i: int, t: SongType, n: u32) -> bool {
    song_of_dir(listing[i].0) == Some((t, n)) && verse_set(listing[i].1) != Set::<u32>::empty()
}

/// The songs of type `t` that a listing provides, each with its verse numbers.
/// A later directory naming the same song replaces an earlier one; a song
/// without any verse file is left out.
pub open spec fn library_spec(listing: Seq<(Seq<char>, Seq<Seq<char>>)>, t: SongType) -> Map<u32, Set<u32>>
    decreases listing.len(),
{
    if listing.len() == 0 {
        Map::empty()
    } else {
        let prev = library_spec(listing.drop_last(), t);
        let e = listing.last();
        match song_of_dir(e.0) {
            Some((k, n)) => if k == t && verse_set(e.1) != Set::<u32>::empty() {
                prev.insert(n, verse_set(e.1))
            } else {
                prev
            },
            None => prev,
        }
    }
}

/// Law: the library has song `n` of type `t` exactly when some directory of
/// the listing is that song (`psalm<n>` or `hymn<n>`) and has verses; its
/// verses are then those of the last such directory. Psalms and hymns are
/// looked up apart.
pub proof fn law_library_lookup(listing: Seq<(Seq<char>, Seq<Seq<char>>)>, t: SongType, n: u32)
    ensures
        library_spec(listing, t).contains_key(n) <==> exists|i: int| 0 <= i < listing.len() && #[trigger] provides(listing, i, t, n),
        forall|i: int|
            0 <= i < listing.len() && #[trigger] provides(listing, i, t, n) && (forall|j: int|
                i < j < listing.len() ==> !provides(listing, j, t, n)) ==> library_spec(listing, t)[n] == verse_set(listing[i].1),
    decreases listing.len(),
{
    if listing.len() > 0 {
        let init = listing.drop_last();
        let last = listing.len() - 1;
        law_library_lookup(init, t, n);
        assert forall|i: int| 0 <= i < init.len() implies provides(init, i, t, n) == provides(listing, i, t, n) by {
            assert(init[i] == listing[i]);
        }
        if provides(listing, last, t, n) {
            assert(library_spec(listing, t).contains_key(n));
        } else {
            if exists|i: int| 0 <= i < listing.len() && #[trigger] provides(listing, i, t, n) {
                let i = choose|i: int| 0 <= i < listing.len() && #[trigger] provides(listing, i, t, n);
                assert(provides(init, i, t, n));
            }
        }
        assert forall|i: int|
            0 <= i < listing.len() && #[trigger] provides(listing, i, t, n) && (forall|j: int|
                i < j < listing.len() ==> !provides(listing, j, t, n)) implies library_spec(listing, t)[n] == verse_set(listing[i].1) by {
            if i < last {
                assert(!provides(listing, last, t, n));
                assert(provides(init, i, t, n));
                assert forall|j: int| i < j < init.len() implies !provides(init, j, t, n) by {
                    assert(!provides(listing, j, t, n));
                }
            }
        }
    }
}

/// The psalms and hymns available, each with its verse numbers.
pub struct SongLibrary {
    psalms: BTreeMap<u32, Vec<u32>>,
    hymns: BTreeMap<u32, Vec<u32>>,
}

impl SongLibrary {
    /// The songs of type `t`, each with its verses.
    pub closed spec fn songs(self, t: SongType) -> Map<u32, Seq<u32>> {
        match t {
            SongType::Psalm => self.psalms@.map_values(|v: Vec<u32>| v@),
            SongType::Hymn => self.hymns@.map_values(|v: Vec<u32>| v@),
        }
    }

    /// Every song has at least one verse, listed in increasing order.
    #[verifier::type_invariant]
    spec fn well_formed(self) -> bool {
        &&& forall|n: u32| #[trigger] self.psalms@.contains_key(n) ==> ascending(self.psalms@[n]@) && self.psalms@[n]@.len() > 0
        &&& forall|n: u32| #[trigger] self.hymns@.contains_key(n) ==> ascending(self.hymns@[n]@) && self.hymns@[n]@.len() > 0
    }

    /// Builds the library from a listing of the songs directory: each
    /// subdirectory `psalmN` or `hymnN` with the names of its files, from
    /// which the verse numbers are taken.
    pub fn scan(listing: &Vec<(String, Vec<String>)>) -> (r: Self)
        ensures
            forall|t: SongType| #[trigger] r.songs(t).dom() == library_spec(listing_view(listing@), t).dom(),
            forall|t: SongType, n: u32| #[trigger] r.songs(t).contains_key(n) ==> {
                &&& r.songs(t)[n].to_set() == library_spec(listing_view(listing@), t)[n]
                &&& ascending(r.songs(t)[n])
                &&& r.songs(t)[n].len() > 0
            },
    {
        let ghost lv = listing_view(listing@);
        let mut psalms: BTreeMap<u32, Vec<u32>> = BTreeMap::new();
        let mut hymns: BTreeMap<u32, Vec<u32>> = BTreeMap::new();
        let mut i: usize = 0;
        while i < listing.len()
            invariant
                i <= listing.len(),
                lv == listing_view(listing@),
                psalms@.dom() == library_spec(lv.take(i as int), SongType::Psalm).dom(),
                hymns@.dom() == library_spec(lv.take(i as int), SongType::Hymn).dom(),
                forall|n: u32| #[trigger] psalms@.contains_key(n) ==> {
                    &&& psalms@[n]@.to_set() == library_spec(lv.take(i as int), SongType::Psalm)[n]
                    &&& ascending(psalms@[n]@)
                    &&& psalms@[n]@.len() > 0
                },
                forall|n: u32| #[trigger] hymns@.contains_key(n) ==> {
                    &&& hymns@[n]@.to_set() == library_spec(lv.take(i as int), SongType::Hymn)[n]
                    &&& ascending(hymns@[n]@)
                    &&& hymns@[n]@.len() > 0
                },
            decreases listing.len() - i,
        {
            let name = text::chars_of(listing[i].0.as_str());
            let ghost prefix = lv.take(i + 1);
            assert(prefix.drop_last() =~= lv.take(i as int));
            assert(prefix.last() == lv[i as int]);
            assert(lv[i as int].0 == name@);
            let psalm = text::chars_of("psalm");
            let hymn = text::chars_of("hymn");
            proof {
                reveal_strlit("psalm");
                reveal_strlit("hymn");
            }
            let found: Option<(SongType, u32)> = if text::begins_with(&name, &psalm) {
                let rest = text::slice_of(&name, 5, name.len());
                assert(rest@ =~= name@.skip(5));
                match text::parse_u32_chars(&rest) {
                    Some(n) => Some((SongType::Psalm, n)),
                    None => None,
                }
            } else if text::begins_with(&name, &hymn) {
                let rest = text::slice_of(&name, 4, name.len());
                assert(rest@ =~= name@.skip(4));
                match text::parse_u32_chars(&rest) {
                    Some(n) => Some((SongType::Hymn, n)),
                    None => None,
                }
            } else {
                None
            };
            assert(found == song_of_dir(name@));
            if let Some((kind, num)) = found {
                let verses = scan_verses(&listing[i].1);
                assert(verses@.to_set() == verse_set(lv[i as int].1));
                if verses.len() > 0 {
                    assert(verses@.to_set().contains(verses@[0]));
                    assert(verse_set(lv[i as int].1) != Set::<u32>::empty()) by {
                        assert(verse_set(lv[i as int].1).contains(verses@[0]));
                    }
                    match kind {
                        SongType::Psalm => {
                            psalms.insert(num, verses);
                        },
                        SongType::Hymn => {
                            hymns.insert(num, verses);
                        },
                    }
                } else {
                    assert(verse_set(lv[i as int].1) =~= Set::<u32>::empty()) by {
                        assert(verses@.to_set() =~= Set::<u32>::empty());
                    }
                }
            }
            i += 1;
        }
        assert(lv.take(listing.len() as int) =~= lv);
        let r = SongLibrary { psalms, hymns };
        assert forall|t: SongType| #[trigger] r.songs(t).dom() == library_spec(lv, t).dom() by {
            match t {
                SongType::Psalm => {
                    assert(r.songs(t).dom() =~= psalms@.dom());
                },
                SongType::Hymn => {
                    assert(r.songs(t).dom() =~= hymns@.dom());
                },
            }
        }
        r
    }

    /// The verses available for a song, by type and number.
    pub fn get(&self, song_type: SongType, num: u32) -> (r: Option<&Vec<u32>>)
        ensures
            match r {
                Some(v) => self.songs(song_type).contains_key(num) && v@ == self.songs(song_type)[num],
                None => !self.songs(song_type).contains_key(num),
            },
            r matches Some(v) ==> ascending(v@) && v@.len() > 0,
    {
        proof {
            use_type_invariant(self);
        }
        match song_type {
            SongType::Psalm => self.psalms.get(&num),
            SongType::Hymn => self.hymns.get(&num),
        }
    }
}

// ---------------------------------------------------------------------------
// Verification counts

/// How many times verse `verse` has been verified, per the song's metadata.
pub open spec fn verify_count(meta: SongMeta, verse: u32) -> u32 {
    if meta.verified@.contains_key(verse) {
        meta.verified@[verse]
    } else {
        0
    }
}

/// Law: metadata without verification counts (such as that of a song with
/// no `song.yaml`) reads zero for every verse.
pub proof fn law_unverified_reads_zero(meta: SongMeta, verse: u32)
    requires
        meta.verified@ == Map::<u32, u32>::empty(),
    ensures
        verify_count(meta, verse) == 0,
{
}

/// The verification count of a verse in the song's metadata (`song.yaml`).
pub fn read_verify_count(meta: &SongMeta, verse: u32) -> (r: u32)
    ensures
        r == verify_count(*meta, verse),
{
    match meta.verified.get(&verse) {
        Some(c) => *c,
        None => 0,
    }
}

/// Increments the verification count of a verse in the song's metadata,
/// returning the new count; the caller persists the metadata.
pub fn increment_verify(meta: &mut SongMeta, verse: u32) -> (r: u32)
    requires
        verify_count(*old(meta), verse) < u32::MAX,
    ensures
        r == verify_count(*old(meta), verse) + 1,
        final(meta).verified@ == old(meta).verified@.insert(verse, r),
        final(meta).composer == old(meta).composer,
        final(meta).split_style == old(meta).split_style,
{
    let count = read_verify_count(meta, verse) + 1;
    meta.verified.insert(verse, count);
    count
}

/// Law: after incrementing a verse's count, reading it gives the previous
/// count plus one, and every other verse's count is unchanged.
pub proof fn law_verify_read_after_increment(before: SongMeta, after: SongMeta, verse: u32, r: u32, other: u32)
    requires
        verify_count(before, verse) < u32::MAX,
        r == verify_count(before, verse) + 1,
        after.verified@ == before.verified@.insert(verse, r),
    ensures
        verify_count(after, verse) == verify_count(before, verse) + 1,
        other != verse ==> verify_count(after, other) == verify_count(before, other),
{
}

// ---------------------------------------------------------------------------
// Hymn usage

/// Hymns whose use is tracked for licensing reports.
pub open spec fn usage_tracked(t: SongType, num: u32) -> bool {
    t == SongType::Hymn && (num == 38 || num == 50 || num == 66 || num == 79)
}

/// Is the use of this song tracked (for copyright/licensing reporting)?
pub fn is_tracked_hymn(song_type: SongType, num: u32) -> (r: bool)
    ensures
        r == usage_tracked(song_type, num),
{
    song_type == SongType::Hymn && (num == 38 || num == 50 || num == 66 || num == 79)
}

/// English month abbreviations.
pub open spec fn month_abbr(m: int) -> Seq<char> {
    if m == 1 {
        "Jan"@
    } else if m == 2 {
        "Feb"@
    } else if m == 3 {
        "Mar"@
    } else if m == 4 {
        "Apr"@
    } else if m == 5 {
        "May"@
    } else if m == 6 {
        "Jun"@
    } else if m == 7 {
        "Jul"@
    } else if m == 8 {
        "Aug"@
    } else if m == 9 {
        "Sep"@
    } else if m == 10 {
        "Oct"@
    } else if m == 11 {
        "Nov"@
    } else {
        "Dec"@
    }
}

/// The usage entry for hymn `num` used on day `days` (since the epoch):
/// `Mon-DD-YYYY H<num>`.
pub open spec fn usage_entry(days: int, num: u32) -> Seq<char> {
    let date = calendar::civil_date(days);
    month_abbr(date.1) + "-"@ + text::pad_zero(text::decimal(date.2 as nat), 2) + "-"@ + text::decimal(date.0 as nat)
        + " H"@ + text::decimal(num as nat)
}

fn month_abbr_exec(m: u64) -> (r: &'static str)
    ensures
        r@ == month_abbr(m as int),
{
    if m == 1 {
        "Jan"
    } else if m == 2 {
        "Feb"
    } else if m == 3 {
        "Mar"
    } else if m == 4 {
        "Apr"
    } else if m == 5 {
        "May"
    } else if m == 6 {
        "Jun"
    } else if m == 7 {
        "Jul"
    } else if m == 8 {
        "Aug"
    } else if m == 9 {
        "Sep"
    } else if m == 10 {
        "Oct"
    } else if m == 11 {
        "Nov"
    } else {
        "Dec"
    }
}

/// The usage entry for hymn `num` used at time `secs` (seconds since the epoch).
pub fn hymn_usage_entry(secs: u64, num: u32) -> (r: String)
    ensures
        r@ == usage_entry(secs as int / 86400, num),
{
    let (year, month, day) = calendar::epoch_days_to_date(secs / 86400);
    let mut v = text::chars_of(month_abbr_exec(month));
    text::push_all(&mut v, &text::chars_of("-"));
    text::push_all(&mut v, &text::pad_zero_chars(text::decimal_chars(day), 2));
    text::push_all(&mut v, &text::chars_of("-"));
    text::push_all(&mut v, &text::decimal_chars(year));
    text::push_all(&mut v, &text::chars_of(" H"));
    text::push_all(&mut v, &text::decimal_chars(num as u64));
    outside::string_from_chars(v.as_slice())
}

/// The usage log already holds this entry on a line of its own (surrounding
/// whitespace ignored).
pub open spec fn already_logged(log: Seq<char>, entry: Seq<char>) -> bool {
    exists|i: int| 0 <= i < text::lines(log).len() && text::trim(#[trigger] text::lines(log)[i]) == entry
}

/// The entry to append to the usage log for a use of song `num` at time
/// `secs`, given the log's current content: `None` for an untracked song or
/// when today's entry is already there (each entry is recorded once per day).
pub fn record_hymn_usage(song_type: SongType, num: u32, secs: u64, log: &str) -> (r: Option<String>)
    ensures
        match r {
            Some(e) => usage_tracked(song_type, num) && e@ == usage_entry(secs as int / 86400, num) && !already_logged(
                log@,
                e@,
            ),
            None => !usage_tracked(song_type, num) || already_logged(log@, usage_entry(secs as int / 86400, num)),
        },
{
    if !is_tracked_hymn(song_type, num) {
        return None;
    }
    let entry = hymn_usage_entry(secs, num);
    let e = text::chars_of(entry.as_str());
    let ls = text::lines_of(&text::chars_of(log));
    let mut i: usize = 0;
    while i < ls.len()
        invariant
            i <= ls.len(),
            text::views(ls@) == text::lines(log@),
            e@ == entry@,
            entry@ == usage_entry(secs as int / 86400, num),
            forall|j: int| 0 <= j < i ==> text::trim(#[trigger] text::lines(log@)[j]) != e@,
        decreases ls.len() - i,
    {
        assert(text::lines(log@)[i as int] == ls@[i as int]@);
        if text::same(&text::trimmed(&ls[i]), &e) {
            assert(text::trim(text::lines(log@)[i as int]) == e@);
            return None;
        }
        i += 1;
    }
    Some(entry)
}

proof fn lemma_month_abbr(m: int)
    ensures
        month_abbr(m).len() == 3,
        'A' <= month_abbr(m)[0] <= 'Z',
        text::no_newline(month_abbr(m)),
{
    reveal_strlit("Jan");
    reveal_strlit("Feb");
    reveal_strlit("Mar");
    reveal_strlit("Apr");
    reveal_strlit("May");
    reveal_strlit("Jun");
    reveal_strlit("Jul");
    reveal_strlit("Aug");
    reveal_strlit("Sep");
    reveal_strlit("Oct");
    reveal_strlit("Nov");
    reveal_strlit("Dec");
}

/// The text's last line is blank: after its last line feed (or from the
/// start, when it has none) there is only whitespace.
pub open spec fn ends_in_blank_line(log: Seq<char>) -> bool {
    exists|k: int| 0 <= k <= log.len() && #[trigger] blank_from(log, k)
}

/// A line starts at `k` in `log` and holds only whitespace up to the end.
pub open spec fn blank_from(log: Seq<char>, k: int) -> bool {
    &&& k == 0 || log[k - 1] == '\n'
    &&& forall|j: int| k <= j < log.len() ==> text::is_white(#[trigger] log[j]) && log[j] != '\n'
}

/// The usage log after a use of hymn `num` at time `secs`: today's entry
/// appended with its line feed, unless it is there already.
pub open spec fn log_after_use(log: Seq<char>, num: u32, secs: int) -> Seq<char> {
    let e = usage_entry(secs / 86400, num);
    if already_logged(log, e) {
        log
    } else {
        log + e + seq!['\n']
    }
}

/// Law: a use of a tracked hymn is logged at most once a day. After a use,
/// the log holds today's entry, so that `record_hymn_usage` gives `None` for
/// the same hymn on the same day. This holds for every log whose last line is
/// blank (in particular an empty log, or one that ends with a line feed) and
/// for every log that already holds the entry.
pub proof fn law_usage_logged_once_a_day(num: u32, secs: u64, log: Seq<char>)
    requires
        ends_in_blank_line(log) || already_logged(log, usage_entry(secs as int / 86400, num)),
    ensures
        already_logged(log_after_use(log, num, secs as int), usage_entry(secs as int / 86400, num)),
{
    let days = secs as int / 86400;
    let date = calendar::civil_date(days);
    let e = usage_entry(days, num);
    let day = text::pad_zero(text::decimal(date.2 as nat), 2);
    let year = text::decimal(date.0 as nat);
    let n = text::decimal(num as nat);
    lemma_month_abbr(date.1);
    text::lemma_decimal_digits(date.2 as nat);
    text::lemma_decimal_digits(date.0 as nat);
    text::lemma_decimal_digits(num as nat);
    reveal_strlit("-");
    reveal_strlit(" H");
    assert(text::no_newline(day)) by {
        assert forall|i: int| 0 <= i < day.len() implies day[i] != '\n' by {
            if text::decimal(date.2 as nat).len() < 2 {
                let pad = (2 - text::decimal(date.2 as nat).len()) as nat;
                if i >= pad {
                    assert(text::is_digit(text::decimal(date.2 as nat)[i - pad]));
                }
            } else {
                assert(text::is_digit(text::decimal(date.2 as nat)[i]));
            }
        }
    }
    assert(text::no_newline(year)) by {
        assert forall|i: int| 0 <= i < year.len() implies year[i] != '\n' by {
            assert(text::is_digit(year[i]));
        }
    }
    assert(text::no_newline(n)) by {
        assert forall|i: int| 0 <= i < n.len() implies n[i] != '\n' by {
            assert(text::is_digit(n[i]));
        }
    }
    assert(text::no_newline(e));
    assert(e.last() == n.last());
    assert(text::is_digit(n[n.len() - 1]));
    assert(e[0] == month_abbr(date.1)[0]);
    if already_logged(log, e) {
        return;
    }
    let k = choose|k: int| 0 <= k <= log.len() && #[trigger] blank_from(log, k);
    let head = log.take(k);
    let tail = log.skip(k);
    let line = tail + e;
    assert(log + e + seq!['\n'] =~= head + line + seq!['\n']);
    assert(text::no_newline(line)) by {
        assert forall|i: int| 0 <= i < line.len() implies line[i] != '\n' by {
            if i < tail.len() {
                assert(line[i] == log[k + i]);
            } else {
                assert(line[i] == e[i - tail.len()]);
            }
        }
    }
    assert(line.last() == e.last());
    text::lemma_appended_line(head, line);
    assert forall|i: int| 0 <= i < tail.len() implies text::is_white(#[trigger] line[i]) by {
        assert(line[i] == log[k + i]);
    }
    assert(line[tail.len() as int] == e[0]);
    text::lemma_lead_white_unique(line, tail.len() as int);
    assert(text::trim_start(line) =~= e);
    assert(text::lead_white(e) == 0);
    assert(text::trail_white(e) == 0);
    assert(text::trim(line) =~= e);
    let ls = text::lines(head + line + seq!['\n']);
    let q = choose|q: int| 0 <= q < ls.len() && ls[q] == line;
    assert(text::trim(ls[q]) == e);
}

// ---------------------------------------------------------------------------
// The liturgy and its slides

/// A song of the liturgy with the verses to show.
pub struct LiturgyEntry {
    pub song_name: String,
    pub song_dir: String,
    pub verses: Vec<u32>,
}

/// Title, song directory name and verses of a liturgy entry.
pub type EntryView = (Seq<char>, Seq<char>, Seq<u32>);

impl View for LiturgyEntry {
    type V = EntryView;

    open spec fn view(&self) -> EntryView {
        (self.song_name@, self.song_dir@, self.verses@)
    }
}

/// One slide: a part of a verse of a song.
pub struct Slide {
    pub title: String,
    pub all_verses: Vec<u32>,
    pub current_verse: u32,
    pub part: u32,
    pub path: String,
    pub song_dir: String,
}

/// Title, all verses, verse, part, image path and song directory of a slide.
pub type SlideView = (Seq<char>, Seq<u32>, u32, u32, Seq<char>, Seq<char>);

impl View for Slide {
    type V = SlideView;

    open spec fn view(&self) -> SlideView {
        (self.title@, self.all_verses@, self.current_verse, self.part, self.path@, self.song_dir@)
    }
}

/// The views of the liturgy's entries.
pub open spec fn entries_view(v: Seq<LiturgyEntry>) -> Seq<EntryView> {
    v.map_values(|e: LiturgyEntry| e@)
}

/// The views of the slides.
pub open spec fn slides_view(v: Seq<Slide>) -> Seq<SlideView> {
    v.map_values(|s: Slide| s@)
}

/// The file-name suffix of part `part` of a verse shown on `n` slides.
pub open spec fn part_suffix(n: int, part: int) -> Seq<char> {
    if n > 1 && part == 1 {
        "a"@
    } else if n > 1 && part == 2 {
        "b"@
    } else if n > 1 && part == 3 {
        "c"@
    } else {
        ""@
    }
}

/// The slides of verse `v` of a liturgy entry, shown on `n` slides.
pub open spec fn verse_slides(songs_dir: Seq<char>, e: EntryView, v: u32, n: int, sep: char) -> Seq<SlideView> {
    let dir = text::joined(songs_dir, e.1, sep);
    Seq::new(
        n as nat,
        |p: int| (e.0, e.2, v, p as u32, text::joined(dir, text::decimal(v as nat) + part_suffix(n, p) + ".svg"@, sep), dir),
    )
}

/// The slides of the first `k` verses of a liturgy entry whose verses take
/// `parts[j]` slides each.
pub open spec fn entry_slides_upto(songs_dir: Seq<char>, e: EntryView, parts: Seq<usize>, k: int, sep: char) -> Seq<
    SlideView,
>
    decreases k,
{
    if k <= 0 {
        Seq::empty()
    } else {
        entry_slides_upto(songs_dir, e, parts, k - 1, sep) + verse_slides(songs_dir, e, e.2[k - 1], parts[k - 1] as int, sep)
    }
}

/// The slides of a liturgy entry whose verses take `parts[j]` slides each.
pub open spec fn entry_slides(songs_dir: Seq<char>, e: EntryView, parts: Seq<usize>, sep: char) -> Seq<SlideView> {
    entry_slides_upto(songs_dir, e, parts, parts.len() as int, sep)
}

/// The slides of the first `k` entries of the liturgy.
pub open spec fn all_slides_upto(songs_dir: Seq<char>, lit: Seq<EntryView>, parts: Seq<Seq<usize>>, k: int, sep: char) -> Seq<
    SlideView,
>
    decreases k,
{
    if k <= 0 {
        Seq::empty()
    } else {
        all_slides_upto(songs_dir, lit, parts, k - 1, sep) + entry_slides(songs_dir, lit[k - 1], parts[k - 1], sep)
    }
}

/// The slides of the whole liturgy.
pub open spec fn all_slides(songs_dir: Seq<char>, lit: Seq<EntryView>, parts: Seq<Seq<usize>>, sep: char) -> Seq<SlideView> {
    all_slides_upto(songs_dir, lit, parts, lit.len() as int, sep)
}

/// The slide counts handed in for each verse of each entry.
pub open spec fn parts_view(parts: Seq<Vec<usize>>) -> Seq<Seq<usize>> {
    parts.map_values(|v: Vec<usize>| v@)
}

/// Index of the first slide from `i` on with the given title and verse.
pub open spec fn find_slide(slides: Seq<SlideView>, title: Seq<char>, verse: u32, i: int) -> Option<int>
    decreases slides.len() - i,
{
    if i < 0 || i >= slides.len() {
        None
    } else if slides[i].0 == title && slides[i].2 == verse {
        Some(i)
    } else {
        find_slide(slides, title, verse, i + 1)
    }
}

/// The slide to show after a rebuild: the first one of the same song and
/// verse as the slide shown before, else the first.
pub open spec fn restored_index(slides: Seq<SlideView>, prev: Option<SlideView>) -> int {
    match prev {
        Some(p) => match find_slide(slides, p.0, p.2, 0) {
            Some(i) => i,
            None => 0,
        },
        None => 0,
    }
}

proof fn lemma_find_slide_range(slides: Seq<SlideView>, title: Seq<char>, verse: u32, i: int)
    requires
        0 <= i,
    ensures
        find_slide(slides, title, verse, i) matches Some(k) ==> i <= k < slides.len() && slides[k].0 == title
            && slides[k].2 == verse,
    decreases slides.len() - i,
{
    if i < slides.len() && !(slides[i].0 == title && slides[i].2 == verse) {
        lemma_find_slide_range(slides, title, verse, i + 1);
    }
}

/// A slide found from `i` on has no earlier slide of the same title and
/// verse at or after `i`.
proof fn lemma_find_slide_first(slides: Seq<SlideView>, title: Seq<char>, verse: u32, i: int)
    requires
        0 <= i,
    ensures
        find_slide(slides, title, verse, i) matches Some(k) ==> forall|j: int|
            i <= j < k ==> !(#[trigger] slides[j].0 == title && slides[j].2 == verse),
    decreases slides.len() - i,
{
    if i < slides.len() && !(slides[i].0 == title && slides[i].2 == verse) {
        lemma_find_slide_first(slides, title, verse, i + 1);
    }
}

/// Law: after a rebuild, the slide shown is a slide of the list (or the
/// first position of an empty list). Whenever the new list has the song and
/// verse shown before, it shows the first slide of that song and verse: no
/// earlier slide has them. Otherwise it shows the first slide.
pub proof fn law_restored_position(slides: Seq<SlideView>, prev: Option<SlideView>)
    ensures
        slides.len() > 0 ==> 0 <= restored_index(slides, prev) < slides.len(),
        slides.len() == 0 ==> restored_index(slides, prev) == 0,
        prev matches Some(p) ==> (exists|k: int| 0 <= k < slides.len() && slides[k].0 == p.0 && slides[k].2 == p.2)
            ==> slides[restored_index(slides, prev)].0 == p.0 && slides[restored_index(slides, prev)].2 == p.2,
        prev matches Some(p) ==> forall|j: int|
            0 <= j < restored_index(slides, prev) ==> !(#[trigger] slides[j].0 == p.0 && slides[j].2 == p.2),
        prev is None ==> restored_index(slides, prev) == 0,
        prev matches Some(p) ==> !(exists|k: int| 0 <= k < slides.len() && slides[k].0 == p.0 && slides[k].2 == p.2)
            ==> restored_index(slides, prev) == 0,
{
    if let Some(p) = prev {
        lemma_find_slide_range(slides, p.0, p.2, 0);
        lemma_find_slide_first(slides, p.0, p.2, 0);
        if exists|k: int| 0 <= k < slides.len() && slides[k].0 == p.0 && slides[k].2 == p.2 {
            let k = choose|k: int| 0 <= k < slides.len() && slides[k].0 == p.0 && slides[k].2 == p.2;
            lemma_find_slide_found(slides, p.0, p.2, 0, k);
        }
    }
}

proof fn lemma_find_slide_found(slides: Seq<SlideView>, title: Seq<char>, verse: u32, i: int, k: int)
    requires
        0 <= i <= k < slides.len(),
        slides[k].0 == title && slides[k].2 == verse,
    ensures
        find_slide(slides, title, verse, i) is Some,
    decreases k - i,
{
    if !(slides[i].0 == title && slides[i].2 == verse) {
        lemma_find_slide_found(slides, title, verse, i + 1, k);
    }
}

/// The liturgy's probe results fit it: one slide count per verse.
pub open spec fn parts_fit(lit: Seq<EntryView>, parts: Seq<Seq<usize>>) -> bool {
    parts.len() == lit.len() && forall|i: int| 0 <= i < lit.len() ==> (#[trigger] parts[i]).len() == lit[i].2.len()
}

/// The song directory: `lilypond` in the data directory when data-directory
/// mode is on and that directory exists, else `lilypond` in the working
/// directory (`cwd`, empty when it cannot be read).
pub fn base_dir(data_dir_mode: bool, data_lilypond_exists: bool, data_dir: &str, cwd: &str, sep: char) -> (r: String)
    ensures
        r@ == if data_dir_mode && data_lilypond_exists {
            text::joined(data_dir@, "lilypond"@, sep)
        } else {
            text::joined(cwd@, "lilypond"@, sep)
        },
{
    if data_dir_mode && data_lilypond_exists {
        text::join_path(data_dir, "lilypond", sep)
    } else {
        text::join_path(cwd, "lilypond", sep)
    }
}

/// Default width, in pixels, at which slides are rendered.
pub const DEFAULT_RENDER_WIDTH: u32 = 2400;

/// The application state that the slide show works on.
pub struct AppState {
    pub songs_dir: String,
    pub library: SongLibrary,
    pub liturgy: Vec<LiturgyEntry>,
    pub slides: Vec<Slide>,
    pub current_slide: usize,
    pub render_width: u32,
}

/// The songs loaded on startup: the psalms asked for, then the hymns; Psalm
/// 1 when none is asked for.
pub open spec fn startup(cli: Cli) -> Seq<(SongType, u32)> {
    if cli.psalm@.len() == 0 && cli.hymn@.len() == 0 {
        seq![(SongType::Psalm, 1u32)]
    } else {
        cli.psalm@.map_values(|n: u32| (SongType::Psalm, n)) + cli.hymn@.map_values(|n: u32| (SongType::Hymn, n))
    }
}

/// The songs to add to the liturgy on startup, in order.
pub fn startup_songs(cli: &Cli) -> (r: Vec<(SongType, u32)>)
    ensures
        r@ == startup(*cli),
{
    let mut r: Vec<(SongType, u32)> = Vec::new();
    if cli.psalm.len() == 0 && cli.hymn.len() == 0 {
        r.push((SongType::Psalm, 1));
        assert(r@ =~= seq![(SongType::Psalm, 1u32)]);
        return r;
    }
    let ghost ps = cli.psalm@.map_values(|n: u32| (SongType::Psalm, n));
    let ghost hs = cli.hymn@.map_values(|n: u32| (SongType::Hymn, n));
    let mut i: usize = 0;
    while i < cli.psalm.len()
        invariant
            i <= cli.psalm.len(),
            ps == cli.psalm@.map_values(|n: u32| (SongType::Psalm, n)),
            r@ == ps.take(i as int),
        decreases cli.psalm.len() - i,
    {
        r.push((SongType::Psalm, cli.psalm[i]));
        i += 1;
        assert(r@ =~= ps.take(i as int));
    }
    assert(ps.take(cli.psalm.len() as int) =~= ps);
    let mut j: usize = 0;
    while j < cli.hymn.len()
        invariant
            j <= cli.hymn.len(),
            ps == cli.psalm@.map_values(|n: u32| (SongType::Psalm, n)),
            hs == cli.hymn@.map_values(|n: u32| (SongType::Hymn, n)),
            r@ == ps + hs.take(j as int),
        decreases cli.hymn.len() - j,
    {
        r.push((SongType::Hymn, cli.hymn[j]));
        j += 1;
        assert(r@ =~= ps + hs.take(j as int));
    }
    assert(hs.take(cli.hymn.len() as int) =~= hs);
    r
}

/// The liturgy after adding the songs `songs` in order to an empty one:
/// each song the library has, with all its verses.
pub open spec fn startup_liturgy(lib: SongLibrary, songs: Seq<(SongType, u32)>) -> Seq<EntryView>
    decreases songs.len(),
{
    if songs.len() == 0 {
        Seq::empty()
    } else {
        let prev = startup_liturgy(lib, songs.drop_last());
        let (t, n) = songs.last();
        if lib.songs(t).contains_key(n) {
            prev.push(entry_for(t, n, lib.songs(t)[n]))
        } else {
            prev
        }
    }
}

/// The songs of `songs` that the library has, in order.
pub open spec fn found_songs(lib: SongLibrary, songs: Seq<(SongType, u32)>) -> Seq<(SongType, u32)>
    decreases songs.len(),
{
    if songs.len() == 0 {
        Seq::empty()
    } else {
        let prev = found_songs(lib, songs.drop_last());
        let (t, n) = songs.last();
        if lib.songs(t).contains_key(n) {
            prev.push((t, n))
        } else {
            prev
        }
    }
}

/// The liturgy entry for song `num` of type `t` with the given verses.
pub open spec fn entry_for(t: SongType, num: u32, verses: Seq<u32>) -> EntryView {
    (song_label(t, num), type_prefix(t) + text::decimal(num as nat), verses)
}

fn clone_u32s(v: &Vec<u32>) -> (r: Vec<u32>)
    ensures
        r@ == v@,
{
    let mut r: Vec<u32> = Vec::new();
    let mut i: usize = 0;
    while i < v.len()
        invariant
            i <= v.len(),
            r@ == v@.take(i as int),
        decreases v.len() - i,
    {
        r.push(v[i]);
        i += 1;
        assert(r@ =~= v@.take(i as int));
    }
    assert(v@.take(v.len() as int) =~= v@);
    r
}

fn new_entry(song_type: SongType, num: u32, verses: Vec<u32>) -> (e: LiturgyEntry)
    ensures
        e@ == entry_for(song_type, num, verses@),
{
    let mut dir = text::chars_of(song_type.prefix());
    text::push_all(&mut dir, &text::decimal_chars(num as u64));
    LiturgyEntry {
        song_name: song_type.label(num),
        song_dir: outside::string_from_chars(dir.as_slice()),
        verses,
    }
}

fn part_suffix_str(n: usize, part: usize) -> (r: &'static str)
    ensures
        r@ == part_suffix(n as int, part as int),
{
    if n > 1 && part == 1 {
        "a"
    } else if n > 1 && part == 2 {
        "b"
    } else if n > 1 && part == 3 {
        "c"
    } else {
        ""
    }
}

/// The image path of part `part` of verse `v` in the song directory `dir`.
fn slide_path(dir: &str, v: u32, n: usize, part: usize, sep: char) -> (r: String)
    ensures
        r@ == text::joined(dir@, text::decimal(v as nat) + part_suffix(n as int, part as int) + ".svg"@, sep),
{
    let mut name = text::decimal_chars(v as u64);
    text::push_all(&mut name, &text::chars_of(part_suffix_str(n, part)));
    text::push_all(&mut name, &text::chars_of(".svg"));
    let name_s = outside::string_from_chars(name.as_slice());
    text::join_path(dir, name_s.as_str(), sep)
}

/// Index of the first slide with the given title and verse, if any.
fn find_slide_exec(slides: &Vec<Slide>, title: &Vec<char>, verse: u32) -> (r: Option<usize>)
    ensures
        match r {
            Some(i) => find_slide(slides_view(slides@), title@, verse, 0) == Some(i as int),
            None => find_slide(slides_view(slides@), title@, verse, 0) is None,
        },
{
    let ghost sv = slides_view(slides@);
    let mut k: usize = 0;
    while k < slides.len()
        invariant
            k <= slides.len(),
            sv == slides_view(slides@),
            find_slide(sv, title@, verse, 0) == find_slide(sv, title@, verse, k as int),
        decreases slides.len() - k,
    {
        assert(sv[k as int] == slides@[k as int]@);
        let t = text::chars_of(slides[k].title.as_str());
        if text::same(&t, title) && slides[k].current_verse == verse {
            return Some(k);
        }
        k += 1;
    }
    None
}

impl AppState {
    /// A state over the songs found in `songs_dir`, with an empty liturgy.
    pub fn new(songs_dir: String, library: SongLibrary) -> (r: Self)
        ensures
            r.songs_dir == songs_dir,
            r.library == library,
            r.liturgy@.len() == 0,
            r.slides@.len() == 0,
            r.current_slide == 0,
            r.render_width == DEFAULT_RENDER_WIDTH,
    {
        AppState {
            songs_dir,
            library,
            liturgy: Vec::new(),
            slides: Vec::new(),
            current_slide: 0,
            render_width: DEFAULT_RENDER_WIDTH,
        }
    }

    /// The state a session starts with: the songs asked for on the command
    /// line (Psalm 1 when none is) added in order, each that the library has
    /// with all its verses, and the slide list still to be built by
    /// `rebuild_slides`. Also gives the songs added, whose use is logged.
    pub fn start(songs_dir: String, library: SongLibrary, cli: &Cli) -> (r: (Self, Vec<(SongType, u32)>))
        ensures
            r.0.songs_dir == songs_dir,
            r.0.library == library,
            entries_view(r.0.liturgy@) == startup_liturgy(library, startup(*cli)),
            r.1@ == found_songs(library, startup(*cli)),
            r.0.slides@.len() == 0,
            r.0.current_slide == 0,
            r.0.render_width == DEFAULT_RENDER_WIDTH,
    {
        let ghost lib = library;
        let mut s = AppState::new(songs_dir, library);
        let songs = startup_songs(cli);
        let mut added: Vec<(SongType, u32)> = Vec::new();
        let mut i: usize = 0;
        assert(songs@.take(0) =~= Seq::<(SongType, u32)>::empty());
        assert(entries_view(s.liturgy@) =~= Seq::<EntryView>::empty());
        while i < songs.len()
            invariant
                i <= songs.len(),
                songs@ == startup(*cli),
                s.library == lib,
                s.songs_dir == songs_dir,
                s.slides@.len() == 0,
                s.current_slide == 0,
                s.render_width == DEFAULT_RENDER_WIDTH,
                entries_view(s.liturgy@) == startup_liturgy(lib, songs@.take(i as int)),
                added@ == found_songs(lib, songs@.take(i as int)),
            decreases songs.len() - i,
        {
            let (t, n) = songs[i];
            assert(songs@.take(i as int + 1).drop_last() =~= songs@.take(i as int));
            assert(songs@.take(i as int + 1).last() == (t, n));
            if s.add_song(t, n) {
                added.push((t, n));
            }
            i += 1;
        }
        assert(songs@.take(songs.len() as int) =~= songs@);
        (s, added)
    }

    /// Adds all verses of a song to the liturgy; `true` if the library has
    /// the song. (The slide list is rebuilt by `rebuild_slides`.)
    pub fn add_song(&mut self, song_type: SongType, num: u32) -> (r: bool)
        ensures
            r == old(self).library.songs(song_type).contains_key(num),
            r ==> entries_view(final(self).liturgy@) == entries_view(old(self).liturgy@).push(
                entry_for(song_type, num, old(self).library.songs(song_type)[num]),
            ),
            !r ==> final(self).liturgy@ == old(self).liturgy@,
            final(self).slides@ == old(self).slides@,
            final(self).library == old(self).library,
            final(self).songs_dir == old(self).songs_dir,
            final(self).current_slide == old(self).current_slide,
            final(self).render_width == old(self).render_width,
    {
        let verses = match self.library.get(song_type, num) {
            Some(v) => clone_u32s(v),
            None => {
                return false;
            },
        };
        let e = new_entry(song_type, num, verses);
        let ghost l0 = entries_view(self.liturgy@);
        self.liturgy.push(e);
        assert(entries_view(self.liturgy@) =~= l0.push(e@));
        true
    }

    /// Adds the given verses of a song to the liturgy, unless there are none;
    /// `true` when added. (The slide list is rebuilt by `rebuild_slides`.)
    pub fn add_song_with_verses(&mut self, song_type: SongType, num: u32, verses: Vec<u32>) -> (r: bool)
        ensures
            r == (verses@.len() > 0),
            r ==> entries_view(final(self).liturgy@) == entries_view(old(self).liturgy@).push(
                entry_for(song_type, num, verses@),
            ),
            !r ==> final(self).liturgy@ == old(self).liturgy@,
            final(self).slides@ == old(self).slides@,
            final(self).library == old(self).library,
            final(self).songs_dir == old(self).songs_dir,
            final(self).current_slide == old(self).current_slide,
            final(self).render_width == old(self).render_width,
    {
        if verses.len() == 0 {
            return false;
        }
        let e = new_entry(song_type, num, verses);
        let ghost l0 = entries_view(self.liturgy@);
        self.liturgy.push(e);
        assert(entries_view(self.liturgy@) =~= l0.push(e@));
        true
    }

    /// Rebuilds the flat slide list from the liturgy, with paths joined by
    /// the platform's separator `sep`. `parts[i][j]` is the number of slides
    /// of verse `j` of entry `i` (zero when its files are missing). The slide shown before stays shown where the new list has the
    /// same song and verse; otherwise the first slide is shown.
    pub fn rebuild_slides(&mut self, parts: &Vec<Vec<usize>>, sep: char)
        requires
            parts_fit(entries_view(old(self).liturgy@), parts_view(parts@)),
        ensures
            slides_view(final(self).slides@) == all_slides(
                old(self).songs_dir@,
                entries_view(old(self).liturgy@),
                parts_view(parts@),
                sep,
            ),
            final(self).current_slide == restored_index(
                slides_view(final(self).slides@),
                if old(self).current_slide < old(self).slides@.len() {
                    Some(old(self).slides@[old(self).current_slide as int]@)
                } else {
                    None
                },
            ),
            final(self).liturgy@ == old(self).liturgy@,
            final(self).library == old(self).library,
            final(self).songs_dir == old(self).songs_dir,
            final(self).render_width == old(self).render_width,
    {
        let prev: Option<(Vec<char>, u32)> = if self.current_slide < self.slides.len() {
            let s = &self.slides[self.current_slide];
            Some((text::chars_of(s.title.as_str()), s.current_verse))
        } else {
            None
        };
        let ghost sd = self.songs_dir@;
        let ghost lit = entries_view(self.liturgy@);
        let ghost pv = parts_view(parts@);
        let mut slides: Vec<Slide> = Vec::new();
        let mut i: usize = 0;
        while i < self.liturgy.len()
            invariant
                i <= self.liturgy.len(),
                sd == self.songs_dir@,
                lit == entries_view(self.liturgy@),
                pv == parts_view(parts@),
                parts_fit(lit, pv),
                slides_view(slides@) == all_slides_upto(sd, lit, pv, i as int, sep),
            decreases self.liturgy.len() - i,
        {
            let entry = &self.liturgy[i];
            let ep = &parts[i];
            assert(lit[i as int] == entry@);
            assert(pv[i as int] == ep@);
            let dir = text::join_path(self.songs_dir.as_str(), entry.song_dir.as_str(), sep);
            let mut j: usize = 0;
            while j < entry.verses.len()
                invariant
                    i < self.liturgy.len(),
                    j <= entry.verses.len(),
                    entry == &self.liturgy[i as int],
                    ep == &parts@[i as int],
                    lit[i as int] == entry@,
                    pv[i as int] == ep@,
                    ep@.len() == entry.verses@.len(),
                    dir@ == text::joined(sd, entry.song_dir@, sep),
                    slides_view(slides@) == all_slides_upto(sd, lit, pv, i as int, sep) + entry_slides_upto(
                        sd,
                        entry@,
                        ep@,
                        j as int,
                        sep,
                    ),
                decreases entry.verses.len() - j,
            {
                let v = entry.verses[j];
                let n = ep[j];
                let ghost before = slides_view(slides@);
                let mut p: usize = 0;
                while p < n
                    invariant
                        p <= n,
                        dir@ == text::joined(sd, entry.song_dir@, sep),
                        slides_view(slides@) == before + verse_slides(sd, entry@, v, n as int, sep).take(p as int),
                    decreases n - p,
                {
                    let s = Slide {
                        title: entry.song_name.clone(),
                        all_verses: clone_u32s(&entry.verses),
                        current_verse: v,
                        part: p as u32,
                        path: slide_path(dir.as_str(), v, n, p, sep),
                        song_dir: dir.clone(),
                    };
                    let ghost sv0 = slides_view(slides@);
                    slides.push(s);
                    assert(slides_view(slides@) =~= sv0.push(s@));
                    assert(verse_slides(sd, entry@, v, n as int, sep).take(p + 1) =~= verse_slides(
                        sd,
                        entry@,
                        v,
                        n as int,
                        sep,
                    ).take(p as int).push(s@));
                    p += 1;
                }
                assert(verse_slides(sd, entry@, v, n as int, sep).take(n as int) =~= verse_slides(sd, entry@, v, n as int, sep));
                j += 1;
                assert(entry_slides_upto(sd, entry@, ep@, j as int, sep) == entry_slides_upto(sd, entry@, ep@, j - 1, sep)
                    + verse_slides(sd, entry@, entry@.2[j - 1], ep@[j - 1] as int, sep));
                assert(slides_view(slides@) =~= all_slides_upto(sd, lit, pv, i as int, sep) + entry_slides_upto(
                    sd,
                    entry@,
                    ep@,
                    j as int,
                    sep,
                ));
            }
            i += 1;
            assert(slides_view(slides@) =~= all_slides_upto(sd, lit, pv, i as int, sep));
        }
        self.slides = slides;
        self.current_slide = 0;
        if let Some((t, v)) = prev {
            if let Some(idx) = find_slide_exec(&self.slides, &t, v) {
                self.current_slide = idx;
            }
        }
    }

    /// Moves the current slide index by `delta`, clamped to the slides.
    pub fn navigate(&mut self, delta: isize)
        requires
            old(self).current_slide <= isize::MAX,
            old(self).slides@.len() <= isize::MAX,
            isize::MIN <= old(self).current_slide + delta <= isize::MAX,
        ensures
            final(self).slides@ == old(self).slides@,
            final(self).liturgy@ == old(self).liturgy@,
            old(self).slides@.len() == 0 ==> final(self).current_slide == old(self).current_slide,
            old(self).slides@.len() > 0 ==> final(self).current_slide == ({
                let t = old(self).current_slide + delta;
                if t < 0 {
                    0
                } else if t >= old(self).slides@.len() {
                    old(self).slides@.len() - 1
                } else {
                    t
                }
            }),
    {
        if self.slides.len() == 0 {
            return;
        }
        let new = self.current_slide as isize + delta;
        let last = self.slides.len() as isize - 1;
        self.current_slide = if new < 0 {
            0
        } else if new > last {
            last as usize
        } else {
            new as usize
        };
    }
}

} // verus!
