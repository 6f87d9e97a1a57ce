//! The calls into std and into outside crates that Verus cannot read, each
//! with the contract that the rest of the library relies on.
use vstd::prelude::*;
use std::hash::Hash;
use std::hash::Hasher;

verus! {

/// `String::from_iter` over chars (std): the string holds exactly the given
/// characters, in order.
#[verifier::external_body]
pub(crate) fn string_from_chars(chars: &[char]) -> (s: String)
    ensures
        s@ == chars@,
{
    chars.iter().collect()
}

// ---------------------------------------------------------------------------
// Unicode tables of std

/// What `char::is_alphanumeric` returns for `c` (the Unicode `Alphabetic`
/// property or a numeric general category).
pub uninterp spec fn alphanumeric(c: char) -> bool;

/// `char::is_alphanumeric` (std). Its result is named `alphanumeric(c)`; the
/// Unicode tables behind it are not written out.
#[verifier::external_body]
pub(crate) fn is_alphanumeric(c: char) -> (b: bool)
    ensures
        b == alphanumeric(c),
{
    c.is_alphanumeric()
}

/// What `str::to_lowercase` returns for `s` (Unicode lowercase mapping,
/// including the context-dependent final sigma).
pub uninterp spec fn lowercase(s: Seq<char>) -> Seq<char>;

/// `str::to_lowercase` (std). Its result is named `lowercase(s)`; the
/// Unicode case tables behind it are not written out.
#[verifier::external_body]
pub(crate) fn to_lowercase(s: &str) -> (r: String)
    ensures
        r@ == lowercase(s@),
{
    s.to_lowercase()
}

// ---------------------------------------------------------------------------
// Hashing

/// What `DefaultHasher::new()`, fed with `Hash::hash` of the string `s` and
/// then `finish()`, returns. `DefaultHasher::new` is documented to build the
/// same hasher every time, so the value depends on `s` alone.
pub uninterp spec fn str_hash(s: Seq<char>) -> u64;

/// Hashes `s` with a fresh `DefaultHasher` (std). The result is named
/// `str_hash(s)`; the SipHash computation is not written out.
#[verifier::external_body]
pub(crate) fn default_hash(s: &str) -> (h: u64)
    ensures
        h == str_hash(s@),
{
    let mut hasher = std::collections::hash_map::DefaultHasher::new();
    s.hash(&mut hasher);
    hasher.finish()
}

// ---------------------------------------------------------------------------
// Regular expressions (the `regex` crate)

/// Views of the capture groups of successive matches.
pub open spec fn captures_view(r: Seq<Vec<Option<String>>>) -> Seq<Seq<Option<Seq<char>>>> {
    r.map_values(
        |c: Vec<Option<String>>|
            c@.map_values(
                |o: Option<String>|
                    match o {
                        Some(s) => Some(s@),
                        None => None,
                    },
            ),
    )
}

/// What `regex::Regex::new(pattern)` followed by `captures_iter(hay)` yields:
/// for each successive non-overlapping leftmost-first match, its capture
/// groups in order (group 0 is the whole match, `None` for a group that did
/// not take part). Empty when the pattern does not compile.
pub uninterp spec fn regex_captures(pattern: Seq<char>, hay: Seq<char>) -> Seq<Seq<Option<Seq<char>>>>;

/// Compiles `pattern` with `regex::Regex::new` and collects
/// `captures_iter(hay)`. The result is named `regex_captures(pattern, hay)`;
/// the matching algorithm is not written out. A pattern that does not
/// compile yields no match.
#[verifier::external_body]
pub(crate) fn regex_captures_all(pattern: &str, hay: &str) -> (r: Vec<Vec<Option<String>>>)
    ensures
        captures_view(r@) == regex_captures(pattern@, hay@),
{
    match regex::Regex::new(pattern) {
        Ok(re) => re
            .captures_iter(hay)
            .map(|c| c.iter().map(|m| m.map(|m| m.as_str().to_string())).collect())
            .collect(),
        Err(_) => Vec::new(),
    }
}

/// What `regex::Regex::new(pattern)` followed by `replacen(hay, limit, rep)`
/// returns: the first `limit` matches (all of them when `limit` is 0)
/// replaced by `rep`, with `$n` references expanded. `hay` itself when the
/// pattern does not compile.
pub uninterp spec fn regex_replaced(pattern: Seq<char>, hay: Seq<char>, limit: nat, rep: Seq<char>) -> Seq<char>;

/// Compiles `pattern` with `regex::Regex::new` and calls
/// `replacen(hay, limit, rep)` (`replace_all` when `limit` is 0). The result
/// is named `regex_replaced(pattern, hay, limit, rep)`; the crate documents
/// that a haystack without a match is returned unchanged, and that is stated.
#[verifier::external_body]
pub(crate) fn regex_replacen(pattern: &str, hay: &str, limit: usize, rep: &str) -> (r: String)
    ensures
        r@ == regex_replaced(pattern@, hay@, limit as nat, rep@),
        regex_captures(pattern@, hay@).len() == 0 ==> r@ == hay@,
{
    match regex::Regex::new(pattern) {
        Ok(re) => re.replacen(hay, limit, rep).into_owned(),
        Err(_) => hay.to_string(),
    }
}

// ---------------------------------------------------------------------------
// base64

/// The character of the standard base64 alphabet for the 6-bit value `v`.
pub open spec fn b64_digit(v: int) -> char {
    if v < 26 {
        ('A' as int + v) as char
    } else if v < 52 {
        ('a' as int + (v - 26)) as char
    } else if v < 62 {
        ('0' as int + (v - 52)) as char
    } else if v == 62 {
        '+'
    } else {
        '/'
    }
}

/// Standard base64 (RFC 4648 alphabet, `=` padding) of `b`: each group of
/// three bytes becomes four characters of six bits each; a final group of
/// one or two bytes is padded with `=`.
pub open spec fn base64(b: Seq<u8>) -> Seq<char>
    decreases b.len(),
{
    if b.len() == 0 {
        seq![]
    } else if b.len() == 1 {
        let x = b[0] as int;
        seq![b64_digit(x / 4), b64_digit((x % 4) * 16), '=', '=']
    } else if b.len() == 2 {
        let (x, y) = (b[0] as int, b[1] as int);
        seq![b64_digit(x / 4), b64_digit((x % 4) * 16 + y / 16), b64_digit((y % 16) * 4), '=']
    } else {
        let (x, y, z) = (b[0] as int, b[1] as int, b[2] as int);
        seq![b64_digit(x / 4), b64_digit((x % 4) * 16 + y / 16), b64_digit((y % 16) * 4 + z / 64), b64_digit(z % 64)]
            + base64(b.skip(3))
    }
}

/// `base64::engine::general_purpose::STANDARD.encode` (base64 0.22): the
/// padded standard encoding of `bytes`. The engine panics only when the
/// encoded length overflows `usize`, which `requires` rules out.
#[verifier::external_body]
pub(crate) fn base64_encode(bytes: &[u8]) -> (r: String)
    requires
        bytes@.len() <= isize::MAX,
    ensures
        r@ == base64(bytes@),
{
    base64::Engine::encode(&base64::engine::general_purpose::STANDARD, bytes)
}

// ---------------------------------------------------------------------------
// ZIP archives (the `zip` crate)

/// `std::io::Cursor`, the in-memory reader an archive is read from.
#[verifier::external_type_specification]
#[verifier::external_body]
#[verifier::reject_recursive_types(T)]
pub struct ExCursor<T>(std::io::Cursor<T>);

/// `zip::ZipArchive`, an opened archive.
#[verifier::external_type_specification]
#[verifier::external_body]
#[verifier::reject_recursive_types(R)]
pub struct ExZipArchive<R>(zip::ZipArchive<R>);

/// An entry of an archive: its name, whether it is a directory, and its
/// content or the message of the error met reading it.
pub type ZipEntry = (Seq<char>, bool, Result<Seq<u8>, Seq<char>>);

/// The entry at one index of an archive, or the message of the error that
/// opening it gives.
pub type ZipSlot = Result<ZipEntry, Seq<char>>;

/// What an opened archive holds, index by index.
pub uninterp spec fn zip_contents(archive: zip::ZipArchive<std::io::Cursor<Vec<u8>>>) -> Seq<ZipSlot>;

/// What opening the bytes `archive` as a ZIP archive gives: the archive's
/// slots, or the message of the error.
pub uninterp spec fn zip_opened(archive: Seq<u8>) -> Result<Seq<ZipSlot>, Seq<char>>;

/// Opens a ZIP archive held in memory with `zip::ZipArchive::new` (zip 2.6)
/// over a copy of the bytes in a `Cursor`; an error becomes `Zip error: ` and
/// its message. Reading the central directory depends on the bytes alone: the
/// result is named `zip_opened(archive)`, and the opened archive holds what it
/// names. The format itself is not written out.
#[verifier::external_body]
pub(crate) fn zip_open(archive: &[u8]) -> (r: Result<zip::ZipArchive<std::io::Cursor<Vec<u8>>>, String>)
    ensures
        match r {
            Ok(z) => zip_opened(archive@) == Ok::<Seq<ZipSlot>, Seq<char>>(zip_contents(z)),
            Err(m) => zip_opened(archive@) == Err::<Seq<ZipSlot>, Seq<char>>(m@),
        },
{
    zip::ZipArchive::new(std::io::Cursor::new(archive.to_vec())).map_err(|e| format!("Zip error: {e}"))
}

/// `ZipArchive::len`: the number of entries of the archive.
#[verifier::external_body]
pub(crate) fn zip_len(z: &zip::ZipArchive<std::io::Cursor<Vec<u8>>>) -> (r: usize)
    ensures
        r == zip_contents(*z).len(),
{
    z.len()
}

/// Opens entry `i` with `ZipArchive::by_index` and gives its `name` and
/// `is_dir`; an error becomes `Zip entry error: ` and its message. `by_index`
/// seeks to the entry itself, so the archive holds the same after the call.
#[verifier::external_body]
pub(crate) fn zip_entry_header(z: &mut zip::ZipArchive<std::io::Cursor<Vec<u8>>>, i: usize) -> (r: Result<(String, bool), String>)
    requires
        i < zip_contents(*old(z)).len(),
    ensures
        zip_contents(*final(z)) == zip_contents(*old(z)),
        match r {
            Ok(h) => zip_contents(*old(z))[i as int] matches Ok(e) && e.0 == h.0@ && e.1 == h.1,
            Err(m) => zip_contents(*old(z))[i as int] == Err::<ZipEntry, Seq<char>>(m@),
        },
{
    match z.by_index(i) {
        Ok(f) => Ok((f.name().to_string(), f.is_dir())),
        Err(e) => Err(format!("Zip entry error: {e}")),
    }
}

/// Opens entry `i` with `ZipArchive::by_index` and reads its content with
/// `read_to_end`; a read error becomes `Extract read error: ` and its message.
/// The entry opened before (its slot is an entry), so it opens again.
#[verifier::external_body]
pub(crate) fn zip_entry_data(z: &mut zip::ZipArchive<std::io::Cursor<Vec<u8>>>, i: usize) -> (r: Result<Vec<u8>, String>)
    requires
        i < zip_contents(*old(z)).len(),
        zip_contents(*old(z))[i as int] is Ok,
    ensures
        zip_contents(*final(z)) == zip_contents(*old(z)),
        zip_contents(*old(z))[i as int] matches Ok(e) && match r {
            Ok(b) => e.2 == Ok::<Seq<u8>, Seq<char>>(b@),
            Err(m) => e.2 == Err::<Seq<u8>, Seq<char>>(m@),
        },
{
    let mut file = match z.by_index(i) {
        Ok(f) => f,
        Err(e) => return Err(format!("Zip entry error: {e}")),
    };
    let mut buf = Vec::new();
    std::io::Read::read_to_end(&mut file, &mut buf).map(|_| buf).map_err(|e| format!("Extract read error: {e}"))
}

} // verus!
