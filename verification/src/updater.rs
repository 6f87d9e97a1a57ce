//! The decisions of the updater and of the hymn-usage report: names,
//! change detection and which archive entries to extract.
use vstd::prelude::*;
use crate::calendar;
use crate::outside;
use crate::show;
use crate::text;

verus! {

/// `format!("{:0w$}", n)`.
pub open spec fn padded(n: int, w: nat) -> Seq<char> {
    text::pad_zero(text::decimal(n as nat), w)
}

/// The branch name for edits made at `secs` seconds after the epoch:
/// `bop-edit/YYYYMMDD-HHMMSS` in UTC.
pub open spec fn branch_name(secs: int) -> Seq<char> {
    let date = calendar::civil_date(secs / 86400);
    let t = secs % 86400;
    "bop-edit/"@ + padded(date.0, 4) + padded(date.1, 2) + padded(date.2, 2) + "-"@ + padded(t / 3600, 2)
        + padded((t % 3600) / 60, 2) + padded(t % 60, 2)
}

fn padded_chars(n: u64, w: usize) -> (v: Vec<char>)
    ensures
        v@ == padded(n as int, w as nat),
{
    text::pad_zero_chars(text::decimal_chars(n), w)
}

/// Generates a timestamp-based branch name like `bop-edit/20260326-143052`
/// for the time `secs` (seconds since the Unix epoch).
pub fn generate_branch_name(secs: u64) -> (r: String)
    ensures
        r@ == branch_name(secs as int),
{
    let days = secs / 86400;
    let (year, month, day) = calendar::epoch_days_to_date(days);
    let day_secs = secs % 86400;
    let h = day_secs / 3600;
    let m = (day_secs % 3600) / 60;
    let s = day_secs % 60;
    let mut v = text::chars_of("bop-edit/");
    text::push_all(&mut v, &padded_chars(year, 4));
    text::push_all(&mut v, &padded_chars(month, 2));
    text::push_all(&mut v, &padded_chars(day, 2));
    text::push_all(&mut v, &text::chars_of("-"));
    text::push_all(&mut v, &padded_chars(h, 2));
    text::push_all(&mut v, &padded_chars(m, 2));
    text::push_all(&mut v, &padded_chars(s, 2));
    outside::string_from_chars(v.as_slice())
}

/// The year (UTC) of the time `secs` seconds after the epoch, in decimal.
pub fn current_year_str(secs: u64) -> (r: String)
    ensures
        r@ == text::decimal(calendar::civil_date(secs as int / 86400).0 as nat),
{
    let (year, _, _) = calendar::epoch_days_to_date(secs / 86400);
    outside::string_from_chars(text::decimal_chars(year).as_slice())
}

/// The usage report is due: the usage file has content, some of its lines
/// are from another year than `year`, and the report for `year` has not been
/// sent (the sent-marker, trimmed, is not `year`).
pub open spec fn report_due(contents: Option<Seq<char>>, year: Seq<char>, sent: Seq<char>) -> bool {
    match contents {
        Some(c) => {
            &&& text::trim(c).len() > 0
            &&& exists|i: int| 0 <= i < text::lines(c).len() && !text::contains(#[trigger] text::lines(c)[i], year)
            &&& text::trim(sent) != year
        },
        None => false,
    }
}

/// Whether to offer the hymn-usage report: `usage` is the usage file's
/// content (`None` when it cannot be read), `year` the current year and
/// `sent` the content of the marker of the last year reported.
pub fn should_report_hymn_usage(usage: Option<&str>, year: &str, sent: &str) -> (r: bool)
    ensures
        r == report_due(
            match usage {
                Some(u) => Some(u@),
                None => None,
            },
            year@,
            sent@,
        ),
{
    let contents = match usage {
        Some(c) => text::chars_of(c),
        None => {
            return false;
        },
    };
    if text::trimmed(&contents).len() == 0 {
        return false;
    }
    let y = text::chars_of(year);
    let ls = text::lines_of(&contents);
    let mut i: usize = 0;
    while i < ls.len()
        invariant
            i <= ls.len(),
            text::views(ls@) == text::lines(contents@),
            text::trim(contents@).len() > 0,
            y@ == year@,
            usage matches Some(u) && u@ == contents@,
            forall|j: int| 0 <= j < i ==> text::contains(#[trigger] text::lines(contents@)[j], y@),
        decreases ls.len() - i,
    {
        assert(text::views(ls@)[i as int] == ls@[i as int]@);
        if !text::has(&ls[i], &y) {
            assert(!text::contains(text::lines(contents@)[i as int], y@));
            let st = text::trimmed(&text::chars_of(sent));
            let r = !text::same(&st, &y);
            assert(i < text::lines(contents@).len());
            assert(exists|j: int| 0 <= j < text::lines(contents@).len() && !text::contains(#[trigger] text::lines(contents@)[j], year@));
            assert(r == (text::trim(sent@) != year@));
            return r;
        }
        i += 1;
    }
    false
}

/// The hymn usage file: the path in `HYMN_USAGE_TXT` when that is set
/// (`from_env`), else `HymnUsage.txt` in the data directory.
pub fn hymn_usage_path(from_env: Option<&str>, data_dir: &str, sep: char) -> (r: String)
    ensures
        r@ == match from_env {
            Some(p) => p@,
            None => text::joined(data_dir@, "HymnUsage.txt"@, sep),
        },
{
    match from_env {
        Some(p) => text::owned(p),
        None => text::join_path(data_dir, "HymnUsage.txt", sep),
    }
}

/// The marker that records the year last reported: `hymn_usage_sent` in
/// the cache directory.
pub fn usage_sent_marker(cache_dir: &str, sep: char) -> (r: String)
    ensures
        r@ == text::joined(cache_dir@, "hymn_usage_sent"@, sep),
{
    text::join_path(cache_dir, "hymn_usage_sent", sep)
}

// ---------------------------------------------------------------------------
// Update checks

/// Whether the release `tag` is to be fetched: unless the stored version
/// (`local`, the version file's content when it could be read) is, trimmed,
/// the release tag.
pub open spec fn update_due(local: Option<Seq<char>>, tag: Seq<char>) -> bool {
    !(local matches Some(l) && text::trim(l) == tag)
}

/// Law: once an update has stored the release tag as the version file's
/// content, the same release is not fetched again. It holds of every tag
/// without leading or trailing whitespace (the stored version is read
/// trimmed).
pub proof fn law_update_not_repeated(tag: Seq<char>)
    requires
        text::trim(tag) == tag,
    ensures
        !update_due(Some(tag), tag),
{
}

/// A release is to be fetched unless the stored version (`local`, the
/// version file's content when it could be read) is, trimmed, the release
/// tag.
pub fn update_available(local: Option<&str>, tag: &str) -> (r: bool)
    ensures
        r == update_due(
            match local {
                Some(l) => Some(l@),
                None => None,
            },
            tag@,
        ),
{
    match local {
        Some(l) => !text::same(&text::trimmed(&text::chars_of(l)), &text::chars_of(tag)),
        None => true,
    }
}

/// Where an entry `name` of a release archive goes, relative to the data
/// directory: the entry's first path component (the archive's top
/// directory) is dropped, and only what lies under `lilypond/` or
/// `photos/` is kept (those directories themselves are not entries to
/// write).
pub open spec fn entry_target(name: Seq<char>, sep: char) -> Option<Seq<char>> {
    match text::find(name, "/"@) {
        None => None,
        Some(pos) => {
            let after = name.skip(pos + 1);
            if text::starts_with(after, "lilypond/"@) {
                let rest = after.skip(9);
                if rest.len() == 0 {
                    None
                } else {
                    Some(text::joined("lilypond"@, rest, sep))
                }
            } else if text::starts_with(after, "photos/"@) {
                let rest = after.skip(7);
                if rest.len() == 0 {
                    None
                } else {
                    Some(text::joined("photos"@, rest, sep))
                }
            } else {
                None
            }
        },
    }
}

/// The path, relative to the data directory, that the archive entry `name`
/// is extracted to; `None` for an entry that is skipped.
pub fn zip_entry_target(name: &str, sep: char) -> (r: Option<String>)
    ensures
        match r {
            Some(t) => entry_target(name@, sep) == Some(t@),
            None => entry_target(name@, sep) is None,
        },
{
    let n = text::chars_of(name);
    let pos = match text::find_at_or_after(&n, &text::chars_of("/"), 0) {
        Some(p) => p,
        None => {
            return None;
        },
    };
    proof {
        reveal_strlit("/");
        text::lemma_find_from(n@, "/"@, 0);
        assert(pos + 1 <= n@.len());
    }
    let len = n.len();
    let after = text::slice_of(&n, pos + 1, len);
    assert(after@ =~= name@.skip(pos + 1));
    if text::begins_with(&after, &text::chars_of("lilypond/")) {
        proof {
            reveal_strlit("lilypond/");
        }
        let rest = text::slice_of(&after, 9, after.len());
        assert(rest@ =~= after@.skip(9));
        if rest.len() == 0 {
            return None;
        }
        Some(text::join_path("lilypond", outside::string_from_chars(rest.as_slice()).as_str(), sep))
    } else if text::begins_with(&after, &text::chars_of("photos/")) {
        proof {
            reveal_strlit("photos/");
        }
        let rest = text::slice_of(&after, 7, after.len());
        assert(rest@ =~= after@.skip(7));
        if rest.len() == 0 {
            return None;
        }
        Some(text::join_path("photos", outside::string_from_chars(rest.as_slice()).as_str(), sep))
    } else {
        None
    }
}

/// A write of an update: the path, relative to the data directory, and the
/// content of a file (`None` for a directory to create).
pub type Write = (Seq<char>, Option<Seq<u8>>);

/// The writes for the first `k` entries of an archive, and the error that
/// stops them: each entry that `entry_target` maps is written at its target,
/// a directory as `None`; the first file whose content could not be read
/// ends the writes with its error.
pub open spec fn planned_writes(es: Seq<outside::ZipSlot>, k: int, sep: char) -> (Seq<Write>, Option<Seq<char>>)
    decreases k,
{
    if k <= 0 {
        (Seq::empty(), None)
    } else {
        let prev = planned_writes(es, k - 1, sep);
        if prev.1 is Some {
            prev
        } else {
            match es[k - 1] {
                Err(m) => (prev.0, Some(m)),
                Ok(e) => match entry_target(e.0, sep) {
                None => prev,
                Some(t) => if e.1 {
                    (prev.0.push((t, None)), None)
                } else {
                    match e.2 {
                        Ok(b) => (prev.0.push((t, Some(b))), None),
                        Err(m) => (prev.0, Some(m)),
                    }
                },
                },
            }
        }
    }
}

/// The writes of an update from the release archive `archive`, in the
/// archive's order, and the error that stopped reading it, if any.
pub open spec fn update_plan(archive: Seq<u8>, sep: char) -> (Seq<Write>, Option<Seq<char>>) {
    match outside::zip_opened(archive) {
        Err(m) => (Seq::empty(), Some(m)),
        Ok(es) => planned_writes(es, es.len() as int, sep),
    }
}

/// The view of a list of writes.
pub open spec fn writes_view(v: Seq<(String, Option<Vec<u8>>)>) -> Seq<Write> {
    v.map_values(
        |w: (String, Option<Vec<u8>>)|
            (
                w.0@,
                match w.1 {
                    Some(b) => Some(b@),
                    None => None,
                },
            ),
    )
}

/// What to write, relative to the data directory, for a downloaded release
/// archive: the files and directories under `lilypond/` and `photos/`, in
/// the archive's order, followed (when reading the archive failed) by the
/// error, with the writes for the entries read before it.
pub fn update_writes(archive: &[u8], sep: char) -> (r: (Vec<(String, Option<Vec<u8>>)>, Option<String>))
    ensures
        (writes_view(r.0@), match r.1 {
            Some(m) => Some(m@),
            None => None,
        }) == update_plan(archive@, sep),
{
    let mut z = match outside::zip_open(archive) {
        Ok(z) => z,
        Err(m) => return (Vec::new(), Some(m)),
    };
    let ghost es = outside::zip_contents(z);
    let n = outside::zip_len(&z);
    let mut out: Vec<(String, Option<Vec<u8>>)> = Vec::new();
    let mut k: usize = 0;
    assert(writes_view(out@) =~= Seq::<Write>::empty());
    while k < n
        invariant
            k <= n,
            n == es.len(),
            es == outside::zip_contents(z),
            outside::zip_opened(archive@) == Ok::<Seq<outside::ZipSlot>, Seq<char>>(es),
            planned_writes(es, k as int, sep) == (writes_view(out@), None::<Seq<char>>),
        decreases n - k,
    {
        let ghost w0 = writes_view(out@);
        match outside::zip_entry_header(&mut z, k) {
            Err(m) => {
                proof {
                    assert(planned_writes(es, k + 1, sep) == (w0, Some(m@)));
                    lemma_plan_stops(es, k as int + 1, es.len() as int, sep);
                }
                return (out, Some(m));
            },
            Ok((name, is_dir)) => {
                match zip_entry_target(name.as_str(), sep) {
                    None => {},
                    Some(t) => {
                        if is_dir {
                            let ghost tv = t@;
                            out.push((t, None));
                            assert(writes_view(out@) =~= w0.push((tv, None)));
                        } else {
                            match outside::zip_entry_data(&mut z, k) {
                                Ok(b) => {
                                    let ghost tv = t@;
                                    let ghost bv = b@;
                                    out.push((t, Some(b)));
                                    assert(writes_view(out@) =~= w0.push((tv, Some(bv))));
                                },
                                Err(m) => {
                                    proof {
                                        assert(planned_writes(es, k + 1, sep) == (w0, Some(m@)));
                                        lemma_plan_stops(es, k as int + 1, es.len() as int, sep);
                                    }
                                    return (out, Some(m));
                                },
                            }
                        }
                    },
                }
            },
        }
        k += 1;
    }
    (out, None)
}

/// Whether some write lies inside the top-level directory `dir`.
pub open spec fn replaces(writes: Seq<Write>, dir: Seq<char>, sep: char) -> bool {
    exists|i: int| 0 <= i < writes.len() && text::starts_with(#[trigger] writes[i].0, dir.push(sep))
}

/// Whether an update replaces the local `lilypond` and `photos`
/// directories: each is cleared before extraction when the archive brings
/// something inside it.
pub fn replaced_dirs(writes: &Vec<(String, Option<Vec<u8>>)>, sep: char) -> (r: (bool, bool))
    ensures
        r.0 == replaces(writes_view(writes@), "lilypond"@, sep),
        r.1 == replaces(writes_view(writes@), "photos"@, sep),
{
    let mut lily = text::chars_of("lilypond");
    lily.push(sep);
    let mut photos = text::chars_of("photos");
    photos.push(sep);
    let ghost wv = writes_view(writes@);
    let mut a = false;
    let mut b = false;
    let mut k: usize = 0;
    while k < writes.len()
        invariant
            k <= writes.len(),
            wv == writes_view(writes@),
            lily@ == "lilypond"@.push(sep),
            photos@ == "photos"@.push(sep),
            a == exists|i: int| 0 <= i < k && text::starts_with(#[trigger] wv[i].0, lily@),
            b == exists|i: int| 0 <= i < k && text::starts_with(#[trigger] wv[i].0, photos@),
        decreases writes.len() - k,
    {
        let path = text::chars_of(writes[k].0.as_str());
        assert(wv[k as int].0 == path@);
        let in_lily = text::begins_with(&path, &lily);
        let in_photos = text::begins_with(&path, &photos);
        a = a || in_lily;
        b = b || in_photos;
        k += 1;
    }
    (a, b)
}

proof fn lemma_plan_stops(es: Seq<outside::ZipSlot>, k: int, n: int, sep: char)
    requires
        0 <= k <= n,
        planned_writes(es, k, sep).1 is Some,
    ensures
        planned_writes(es, n, sep) == planned_writes(es, k, sep),
    decreases n - k,
{
    if k < n {
        lemma_plan_stops(es, k, n - 1, sep);
    }
}

// ---------------------------------------------------------------------------
// Edited files

/// A file of a song directory that edits can change: a `.ly` source or the
/// song's `song.yaml`.
pub open spec fn patchable(name: Seq<char>) -> bool {
    text::ends_with(name, ".ly"@) || name == "song.yaml"@
}

/// Whether the file `name` belongs in a patch.
pub fn is_patchable_file(name: &str) -> (r: bool)
    ensures
        r == patchable(name@),
{
    let n = text::chars_of(name);
    text::finishes_with(&n, &text::chars_of(".ly")) || text::same(&n, &text::chars_of("song.yaml"))
}

/// Name and content of each patchable file of a directory.
pub type FileList = Seq<(Seq<char>, Seq<char>)>;

/// The views of a file list.
pub open spec fn files_view(v: Seq<(String, String)>) -> FileList {
    v.map_values(|p: (String, String)| (p.0@, p.1@))
}

/// No two files share a name (the list stands for a map from name to
/// content).
pub open spec fn names_distinct(f: FileList) -> bool {
    forall|i: int, j: int| 0 <= i < j < f.len() ==> f[i].0 != f[j].0
}

/// The content of the file `name`, if the list has it.
pub open spec fn lookup(f: FileList, name: Seq<char>) -> Option<Seq<char>> {
    if exists|i: int| 0 <= i < f.len() && f[i].0 == name {
        Some(f[choose|i: int| 0 <= i < f.len() && f[i].0 == name].1)
    } else {
        None
    }
}

/// A directory's files changed: another number of files, or a file of the
/// originals that is now missing or has other content.
pub open spec fn dir_changed(orig: FileList, cur: FileList) -> bool {
    orig.len() != cur.len() || exists|i: int| 0 <= i < orig.len() && lookup(cur, #[trigger] orig[i].0) != Some(orig[i].1)
}

/// Law: a directory whose files are as they were has no changes.
pub proof fn law_unchanged_dir(files: FileList)
    requires
        names_distinct(files),
    ensures
        !dir_changed(files, files),
{
    assert forall|i: int| 0 <= i < files.len() implies lookup(files, #[trigger] files[i].0) == Some(files[i].1) by {
        let c = choose|k: int| 0 <= k < files.len() && files[k].0 == files[i].0;
        assert(c == i);
    }
}

/// Law: an extracted archive entry lands under `lilypond` or `photos`,
/// unless what follows that directory in the entry starts from the root
/// (which `Path::join` lets replace the directory); `sep` is the platform's
/// separator.
pub proof fn law_entry_inside(name: Seq<char>, sep: char)
    requires
        sep == '/' || sep == '\\',
    ensures
        entry_target(name, sep) matches Some(t) ==> text::starts_with(t, "lilypond"@ + seq![sep]) || text::starts_with(
            t,
            "photos"@ + seq![sep],
        ) || (t.len() > 0 && text::is_sep(t[0], sep)),
{
    reveal_strlit("lilypond");
    reveal_strlit("lilypond/");
    reveal_strlit("photos");
    reveal_strlit("photos/");
    if let Some(t) = entry_target(name, sep) {
        if !(t.len() > 0 && text::is_sep(t[0], sep)) {
            let pos = text::find(name, "/"@)->0;
            let after = name.skip(pos + 1);
            if text::starts_with(after, "lilypond/"@) {
                assert(t.subrange(0, 9) =~= "lilypond"@ + seq![sep]);
            } else {
                assert(t.subrange(0, 7) =~= "photos"@ + seq![sep]);
            }
        }
    }
}

fn lookup_exec(f: &Vec<(String, String)>, name: &String) -> (r: Option<usize>)
    requires
        names_distinct(files_view(f@)),
    ensures
        match r {
            Some(i) => i < f@.len() && lookup(files_view(f@), name@) == Some(f@[i as int].1@),
            None => lookup(files_view(f@), name@) is None,
        },
{
    let ghost fv = files_view(f@);
    let nm = text::chars_of(name.as_str());
    let mut k: usize = 0;
    while k < f.len()
        invariant
            k <= f.len(),
            fv == files_view(f@),
            names_distinct(fv),
            nm@ == name@,
            forall|q: int| 0 <= q < k ==> fv[q].0 != name@,
        decreases f.len() - k,
    {
        assert(fv[k as int] == (f@[k as int].0@, f@[k as int].1@));
        if text::same(&text::chars_of(f[k].0.as_str()), &nm) {
            let ghost c = choose|i: int| 0 <= i < fv.len() && fv[i].0 == name@;
            assert(names_distinct(fv));
            assert(c == k);
            return Some(k);
        }
        k += 1;
    }
    None
}

/// Whether the files of one edited directory differ from its originals.
pub fn files_differ(orig: &Vec<(String, String)>, cur: &Vec<(String, String)>) -> (r: bool)
    requires
        names_distinct(files_view(orig@)),
        names_distinct(files_view(cur@)),
    ensures
        r == dir_changed(files_view(orig@), files_view(cur@)),
{
    let ghost ov = files_view(orig@);
    let ghost cv = files_view(cur@);
    if orig.len() != cur.len() {
        return true;
    }
    let mut k: usize = 0;
    while k < orig.len()
        invariant
            k <= orig.len(),
            ov == files_view(orig@),
            cv == files_view(cur@),
            names_distinct(cv),
            forall|q: int| 0 <= q < k ==> lookup(cv, #[trigger] ov[q].0) == Some(ov[q].1),
        decreases orig.len() - k,
    {
        assert(ov[k as int] == (orig@[k as int].0@, orig@[k as int].1@));
        match lookup_exec(cur, &orig[k].0) {
            Some(j) => {
                if !text::same(&text::chars_of(cur[j].1.as_str()), &text::chars_of(orig[k].1.as_str())) {
                    assert(lookup(cv, ov[k as int].0) != Some(ov[k as int].1));
                    return true;
                }
            },
            None => {
                assert(lookup(cv, ov[k as int].0) != Some(ov[k as int].1));
                return true;
            },
        }
        k += 1;
    }
    false
}

/// In each directory's originals and current files, no two share a name.
pub open spec fn dirs_distinct(dirs: Seq<(Vec<(String, String)>, Vec<(String, String)>)>) -> bool {
    forall|d: int|
        0 <= d < dirs.len() ==> names_distinct(files_view(#[trigger] dirs[d].0@)) && names_distinct(
            files_view(dirs[d].1@),
        )
}

/// Whether any edited directory has changes: each item holds the original
/// files of a directory (none when no originals were kept) and its current
/// files.
pub fn has_changes(dirs: &Vec<(Vec<(String, String)>, Vec<(String, String)>)>) -> (r: bool)
    requires
        dirs_distinct(dirs@),
    ensures
        r == exists|d: int| 0 <= d < dirs@.len() && dir_changed(files_view(#[trigger] dirs@[d].0@), files_view(dirs@[d].1@)),
{
    let mut k: usize = 0;
    while k < dirs.len()
        invariant
            k <= dirs.len(),
            dirs_distinct(dirs@),
            forall|d: int| 0 <= d < k ==> !dir_changed(files_view(#[trigger] dirs@[d].0@), files_view(dirs@[d].1@)),
        decreases dirs.len() - k,
    {
        assert(names_distinct(files_view(dirs@[k as int].0@)) && names_distinct(files_view(dirs@[k as int].1@)));
        if files_differ(&dirs[k].0, &dirs[k].1) {
            return true;
        }
        k += 1;
    }
    false
}

/// The repository-relative directory of an edited song directory: its name
/// under `lilypond/` when a component of its path (separated by `/` or the
/// platform's `sep`) is `lilypond`, else its name alone.
pub open spec fn repo_prefix(dir: Seq<char>, sep: char) -> Seq<char> {
    if text::split(text::replace(dir, seq![sep], "/"@), "/"@).contains("lilypond"@) {
        "lilypond/"@ + show::base_name(dir, sep)
    } else {
        show::base_name(dir, sep)
    }
}

/// The files of one directory under their repository-relative paths.
pub open spec fn dir_pr_files(dir: Seq<char>, files: FileList, sep: char) -> FileList {
    files.map_values(|f: (Seq<char>, Seq<char>)| (repo_prefix(dir, sep) + "/"@ + f.0, f.1))
}

/// The files of the first `k` directories under their repository-relative
/// paths, in order.
pub open spec fn pr_files_upto(dirs: Seq<(Seq<char>, FileList)>, k: int, sep: char) -> FileList
    decreases k,
{
    if k <= 0 {
        Seq::empty()
    } else {
        pr_files_upto(dirs, k - 1, sep) + dir_pr_files(dirs[k - 1].0, dirs[k - 1].1, sep)
    }
}

/// The views of the directories and their files.
pub open spec fn dirs_view(v: Seq<(String, Vec<(String, String)>)>) -> Seq<(Seq<char>, FileList)> {
    v.map_values(|d: (String, Vec<(String, String)>)| (d.0@, files_view(d.1@)))
}

fn repo_prefix_exec(dir: &str, sep: char) -> (r: Vec<char>)
    ensures
        r@ == repo_prefix(dir@, sep),
{
    let d = text::chars_of(dir);
    proof {
        reveal_strlit("/");
    }
    let sv: Vec<char> = vec![sep];
    assert(sv@ =~= seq![sep]);
    let u = text::replace_chars(&d, &sv, &text::chars_of("/"), None);
    let comps = text::split_chars(&u, &text::chars_of("/"));
    let lp = text::chars_of("lilypond");
    let ghost cs = text::split(text::replace(dir@, seq![sep], "/"@), "/"@);
    assert(text::views(comps@) == cs);
    let mut found = false;
    let mut k: usize = 0;
    while k < comps.len()
        invariant
            k <= comps.len(),
            text::views(comps@) == cs,
            lp@ == "lilypond"@,
            found == exists|q: int| 0 <= q < k && text::views(comps@)[q] == "lilypond"@,
        decreases comps.len() - k,
    {
        assert(text::views(comps@)[k as int] == comps@[k as int]@);
        if text::same(&comps[k], &lp) {
            found = true;
        }
        k += 1;
    }
    let name = show::base_name_of(&d, sep);
    if found {
        assert(cs[choose|q: int| 0 <= q < k && text::views(comps@)[q] == "lilypond"@] == "lilypond"@);
        let mut r = lp;
        text::push_all(&mut r, &text::chars_of("/"));
        text::push_all(&mut r, &name);
        proof {
            reveal_strlit("lilypond");
            reveal_strlit("lilypond/");
            assert("lilypond"@ + "/"@ =~= "lilypond/"@);
        }
        r
    } else {
        assert(!cs.contains("lilypond"@));
        name
    }
}

/// Index of the last file named `name`, if any.
pub open spec fn name_at(f: FileList, name: Seq<char>) -> Option<int>
    decreases f.len(),
{
    if f.len() == 0 {
        None
    } else if f.last().0 == name {
        Some(f.len() - 1)
    } else {
        name_at(f.drop_last(), name)
    }
}

/// A file list read as a map from name to content: each name once, in the
/// order of its first occurrence, with the content of its last occurrence
/// (a later file of the same name replaces an earlier one).
pub open spec fn merged(f: FileList) -> FileList
    decreases f.len(),
{
    if f.len() == 0 {
        Seq::empty()
    } else {
        let prev = merged(f.drop_last());
        let x = f.last();
        match name_at(prev, x.0) {
            Some(i) => prev.update(i, x),
            None => prev.push(x),
        }
    }
}

proof fn lemma_name_at(f: FileList, name: Seq<char>)
    ensures
        match name_at(f, name) {
            Some(i) => 0 <= i < f.len() && f[i].0 == name,
            None => forall|m: int| 0 <= m < f.len() ==> f[m].0 != name,
        },
    decreases f.len(),
{
    if f.len() > 0 && f.last().0 != name {
        lemma_name_at(f.drop_last(), name);
        if name_at(f.drop_last(), name) is None {
            assert forall|m: int| 0 <= m < f.len() implies f[m].0 != name by {
                if m < f.len() - 1 {
                    assert(f[m] == f.drop_last()[m]);
                }
            }
        }
    }
}

proof fn lemma_name_at_distinct(f: FileList, name: Seq<char>, j: int)
    requires
        names_distinct(f),
        0 <= j < f.len(),
        f[j].0 == name,
    ensures
        name_at(f, name) == Some(j),
    decreases f.len(),
{
    if j < f.len() - 1 {
        assert(f.last().0 != name);
        assert(names_distinct(f.drop_last()));
        assert(f.drop_last()[j] == f[j]);
        lemma_name_at_distinct(f.drop_last(), name, j);
    }
}

/// Whether no two files of the list share a path.
pub fn paths_distinct(files: &Vec<(String, String)>) -> (r: bool)
    ensures
        r == names_distinct(files_view(files@)),
{
    let ghost fv = files_view(files@);
    let mut a: usize = 0;
    while a < files.len()
        invariant
            a <= files.len(),
            fv == files_view(files@),
            forall|x: int, y: int| 0 <= x < a && x < y < fv.len() ==> fv[x].0 != fv[y].0,
        decreases files.len() - a,
    {
        let na = text::chars_of(files[a].0.as_str());
        assert(fv[a as int].0 == na@);
        let mut b: usize = a + 1;
        while b < files.len()
            invariant
                a < b <= files.len(),
                fv == files_view(files@),
                na@ == fv[a as int].0,
                forall|y: int| a < y < b ==> fv[a as int].0 != fv[y].0,
            decreases files.len() - b,
        {
            let nb = text::chars_of(files[b].0.as_str());
            assert(fv[b as int].0 == nb@);
            if text::same(&na, &nb) {
                return false;
            }
            b += 1;
        }
        a += 1;
    }
    true
}

/// Merges a file list so that each name occurs once (see `merged`).
fn merge_files(all: Vec<(String, String)>) -> (r: Vec<(String, String)>)
    ensures
        files_view(r@) == merged(files_view(all@)),
        names_distinct(files_view(r@)),
{
    let ghost av = files_view(all@);
    let mut out: Vec<(String, String)> = Vec::new();
    let mut k: usize = 0;
    assert(av.take(0) =~= Seq::<(Seq<char>, Seq<char>)>::empty());
    while k < all.len()
        invariant
            k <= all.len(),
            av == files_view(all@),
            files_view(out@) == merged(av.take(k as int)),
            names_distinct(files_view(out@)),
        decreases all.len() - k,
    {
        let name = text::chars_of(all[k].0.as_str());
        let ghost ov = files_view(out@);
        assert(av.take(k + 1).drop_last() =~= av.take(k as int));
        assert(av.take(k + 1).last() == av[k as int]);
        assert(av[k as int] == (all@[k as int].0@, all@[k as int].1@));
        let mut j: usize = 0;
        let mut found = false;
        while j < out.len()
            invariant_except_break
                !found,
            invariant
                j <= out.len(),
                k < all.len(),
                ov == files_view(out@),
                name@ == all@[k as int].0@,
                forall|m: int| 0 <= m < j ==> ov[m].0 != name@,
            ensures
                found ==> j < out.len() && ov[j as int].0 == name@,
                !found ==> forall|m: int| 0 <= m < out.len() ==> ov[m].0 != name@,
            decreases out.len() - j,
        {
            let other = text::chars_of(out[j].0.as_str());
            assert(ov[j as int].0 == out@[j as int].0@);
            if text::same(&other, &name) {
                found = true;
                break;
            }
            j += 1;
        }
        proof {
            lemma_name_at(ov, name@);
        }
        let item = (all[k].0.clone(), all[k].1.clone());
        let ghost x = av[k as int];
        assert(merged(av.take(k + 1)) == match name_at(ov, x.0) {
            Some(i) => ov.update(i, x),
            None => ov.push(x),
        });
        if found {
            proof {
                lemma_name_at_distinct(ov, name@, j as int);
            }
            out.set(j, item);
            assert(files_view(out@) =~= ov.update(j as int, x));
            assert(names_distinct(files_view(out@))) by {
                let nv = files_view(out@);
                assert forall|a: int, b: int| 0 <= a < b < nv.len() implies nv[a].0 != nv[b].0 by {
                    if a != j && b != j {
                        assert(nv[a] == ov[a] && nv[b] == ov[b]);
                    } else if a == j {
                        assert(nv[b] == ov[b]);
                    } else {
                        assert(nv[a] == ov[a]);
                    }
                }
            }
        } else {
            assert(name_at(ov, x.0) is None);
            out.push(item);
            assert(files_view(out@) =~= ov.push(x));
            assert(names_distinct(files_view(out@))) by {
                let nv = files_view(out@);
                assert forall|a: int, b: int| 0 <= a < b < nv.len() implies nv[a].0 != nv[b].0 by {
                    assert(nv[a] == ov[a]);
                    if b < ov.len() {
                        assert(nv[b] == ov[b]);
                    }
                }
            }
        }
        k += 1;
    }
    assert(av.take(all.len() as int) =~= av);
    out
}

/// All current files of the edited directories, each under its
/// repository-relative path (e.g. `lilypond/psalm42/notes.ly`), with its
/// content: `dirs` holds each directory's path and its patchable files. Each
/// path occurs once; where two directories give the same path, the later
/// one's file is kept.
pub fn collect_pr_files(dirs: &Vec<(String, Vec<(String, String)>)>, sep: char) -> (r: Vec<(String, String)>)
    ensures
        files_view(r@) == merged(pr_files_upto(dirs_view(dirs@), dirs@.len() as int, sep)),
        names_distinct(files_view(r@)),
{
    let ghost dv = dirs_view(dirs@);
    let mut out: Vec<(String, String)> = Vec::new();
    let mut k: usize = 0;
    while k < dirs.len()
        invariant
            k <= dirs.len(),
            dv == dirs_view(dirs@),
            files_view(out@) == pr_files_upto(dv, k as int, sep),
        decreases dirs.len() - k,
    {
        let prefix = repo_prefix_exec(dirs[k].0.as_str(), sep);
        let files = &dirs[k].1;
        assert(dv[k as int] == (dirs@[k as int].0@, files_view(files@)));
        let ghost base = files_view(out@);
        let mut j: usize = 0;
        while j < files.len()
            invariant
                j <= files.len(),
                prefix@ == repo_prefix(dirs@[k as int].0@, sep),
                files_view(out@) == base + dir_pr_files(dirs@[k as int].0@, files_view(files@), sep).take(j as int),
            decreases files.len() - j,
        {
            let mut p = prefix.clone();
            text::push_all(&mut p, &text::chars_of("/"));
            text::push_all(&mut p, &text::chars_of(files[j].0.as_str()));
            let item = (outside::string_from_chars(p.as_slice()), files[j].1.clone());
            let ghost o0 = files_view(out@);
            out.push(item);
            assert(files_view(out@) =~= o0.push((item.0@, item.1@)));
            assert(dir_pr_files(dirs@[k as int].0@, files_view(files@), sep).take(j + 1) =~= dir_pr_files(
                dirs@[k as int].0@,
                files_view(files@),
                sep,
            ).take(j as int).push((item.0@, item.1@)));
            j += 1;
        }
        assert(dir_pr_files(dirs@[k as int].0@, files_view(files@), sep).take(files.len() as int) =~= dir_pr_files(
            dirs@[k as int].0@,
            files_view(files@),
            sep,
        ));
        k += 1;
        assert(files_view(out@) =~= pr_files_upto(dv, k as int, sep));
    }
    merge_files(out)
}

/// The title of the pull request of a session's edits: `BOP edits: ` and
/// the edited directories' names, separated by `, `.
pub fn pr_title(dirs: &Vec<String>, sep: char) -> (r: String)
    ensures
        r@ == "BOP edits: "@ + text::join(dirs@.map_values(|d: String| show::base_name(d@, sep)), ", "@),
{
    let ghost want = dirs@.map_values(|d: String| show::base_name(d@, sep));
    let mut names: Vec<Vec<char>> = Vec::new();
    let mut k: usize = 0;
    while k < dirs.len()
        invariant
            k <= dirs.len(),
            want == dirs@.map_values(|d: String| show::base_name(d@, sep)),
            text::views(names@) == want.take(k as int),
        decreases dirs.len() - k,
    {
        let name = show::base_name_of(&text::chars_of(dirs[k].as_str()), sep);
        assert(name@ == want[k as int]);
        let ghost n0 = text::views(names@);
        names.push(name);
        assert(text::views(names@) =~= n0.push(want[k as int]));
        assert(want.take(k + 1) =~= want.take(k as int).push(want[k as int]));
        k += 1;
    }
    assert(want.take(dirs.len() as int) =~= want);
    let mut r = text::chars_of("BOP edits: ");
    text::push_all(&mut r, &text::join_chars(&names, &text::chars_of(", ")));
    outside::string_from_chars(r.as_slice())
}

} // verus!
