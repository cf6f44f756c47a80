//! Library-file locations: turning the location URLs of an exported
//! library file into local paths, and assembling an imported track record
//! from its parsed fields.
//!
//! URL parsing and percent-decoding are done by outside crates through the
//! trusted wrappers below; everything around them — the localhost check,
//! the prefix stripping, the volume-name heuristic, the format and rating
//! rules — is verified.

use vstd::prelude::*;
use vstd::string::StrSliceExecFns;
use vstd::string::StringExecFns;

use crate::model::Track;
use crate::strutil::find_sub;
use crate::strutil::find_sub_from;
use crate::strutil::lemma_find_sub_from;
use crate::strutil::lower;
use crate::strutil::lower_char_exec;
use crate::strutil::matches_at;
use crate::strutil::replace_all;
use crate::strutil::starts_with;
use crate::strutil::starts_with_exec;
use crate::strutil::str_eq;

verus! {

#[verifier::external_type_specification]
#[verifier::external_body]
pub struct ExUrl(url::Url);

/// Relies on url::Url::parse: parses an absolute URL, or fails.
#[verifier::external_body]
fn parse_url(s: &str) -> (r: Option<url::Url>) {
    url::Url::parse(s).ok()
}

/// Relies on url::Url::host_str: the URL's host, when it has one.
#[verifier::external_body]
fn url_host_str(u: &url::Url) -> (r: Option<String>) {
    match u.host_str() {
        Some(h) => Some(h.to_string()),
        None => None,
    }
}

/// Relies on url::Url::to_file_path: the local filesystem path of a
/// `file:` URL whose host is empty or localhost; fails otherwise, or when
/// the path is not valid text.
#[verifier::external_body]
fn url_to_file_path(u: &url::Url) -> (r: Option<String>) {
    match u.to_file_path() {
        Ok(p) => match p.to_str() {
            Some(s) => Some(s.to_string()),
            None => None,
        },
        Err(()) => None,
    }
}

/// What urlencoding::decode returns: a function of the input alone.
pub uninterp spec fn percent_decoded(s: Seq<char>) -> Seq<char>;

/// Relies on urlencoding::decode: percent-decodes assuming UTF-8, keeping
/// `+` literal; fails only when the decoded bytes are not valid UTF-8.
#[verifier::external_body]
fn percent_decode(s: &str) -> (r: Option<String>)
    ensures
        r matches Some(d) ==> d@ == percent_decoded(s@),
{
    match urlencoding::decode(s) {
        Ok(c) => Some(c.into_owned()),
        Err(_) => None,
    }
}

/// The volume-name heuristic: a path under `/Volumes/` that mentions a
/// user folder is cut down to start at the user folder (the library file
/// may name the boot volume, which the system expects rooted); so is a
/// path that mentions a user folder without starting at one.
pub open spec fn spec_finalize_path(s: Seq<char>) -> Seq<char> {
    if starts_with(s, "/Volumes/"@) {
        match find_sub_from(s, "/Users/"@, 0) {
            Some(i) => s.skip(i as int),
            None => s,
        }
    } else if !starts_with(s, "/Users/"@) {
        match find_sub_from(s, "/Users/"@, 0) {
            Some(i) => s.skip(i as int),
            None => s,
        }
    } else {
        s
    }
}

/// Applies the volume-name heuristic to a decoded path.
pub fn finalize_path(path_str: &str) -> (r: String)
    ensures
        r@ == spec_finalize_path(path_str@),
{
    let n = path_str.unicode_len();
    let cut = if starts_with_exec(path_str, "/Volumes/") {
        find_sub(path_str, "/Users/", 0)
    } else if !starts_with_exec(path_str, "/Users/") {
        find_sub(path_str, "/Users/", 0)
    } else {
        None
    };
    match cut {
        Some(i) => {
            proof {
                lemma_find_sub_from(path_str@, "/Users/"@, 0);
                assert(matches_at(path_str@, "/Users/"@, i as int));
                assert(path_str@.subrange(i as int, n as int) =~= path_str@.skip(i as int));
            }
            String::from_str(path_str.substring_char(i, n))
        },
        None => String::from_str(path_str),
    }
}

/// Turns a library-file location URL into a local path: parsed as a URL
/// when possible (accepting only an empty or localhost host), with a
/// fallback of percent-decoding and stripping the `file://` prefixes; the
/// volume-name heuristic is applied either way.
pub fn decode_location(location: &str) -> (r: String)
    ensures
        exists|m: Seq<char>| r@ == spec_finalize_path(m),
{
    match parse_url(location) {
        Some(u) => {
            let is_local = match url_host_str(&u) {
                Some(h) => str_eq(h.as_str(), "localhost") || h.as_str().is_empty(),
                None => true,
            };
            if is_local {
                match url_to_file_path(&u) {
                    Some(p) => {
                        let r = finalize_path(p.as_str());
                        proof {
                            assert(r@ == spec_finalize_path(p@));
                        }
                        return r;
                    },
                    None => {},
                }
            }
        },
        None => {},
    }
    let decoded = match percent_decode(location) {
        Some(d) => d,
        None => String::from_str(location),
    };
    let cleaned = replace_all(
        replace_all(decoded.as_str(), "file://localhost", "").as_str(),
        "file://",
        "",
    );
    let r = finalize_path(cleaned.as_str());
    proof {
        assert(r@ == spec_finalize_path(cleaned@));
    }
    r
}

/// The position of the last occurrence of `c` in `s`.
pub open spec fn find_last_char(s: Seq<char>, c: char) -> Option<int>
    decreases s.len(),
{
    if s.len() == 0 {
        None
    } else if s.last() == c {
        Some(s.len() - 1)
    } else {
        find_last_char(s.drop_last(), c)
    }
}

pub proof fn lemma_find_last_char(s: Seq<char>, c: char)
    ensures
        match find_last_char(s, c) {
            Some(i) => 0 <= i < s.len() && s[i] == c && forall|j: int|
                i < j < s.len() ==> s[j] != c,
            None => forall|j: int| 0 <= j < s.len() ==> s[j] != c,
        },
    decreases s.len(),
{
    if s.len() > 0 && s.last() != c {
        lemma_find_last_char(s.drop_last(), c);
        assert(forall|j: int| 0 <= j < s.drop_last().len() ==> s.drop_last()[j] == s[j]);
    }
}

/// The audio format read off a path: whatever follows the last dot, folded
/// to lower case, or a fixed marker when there is no dot.
pub open spec fn spec_format_of(p: Seq<char>) -> Seq<char> {
    match find_last_char(p, '.') {
        Some(i) => lower(p.skip(i + 1)),
        None => "unknown"@,
    }
}

/// Reads the format off a decoded path.
pub fn format_of_path(p: &str) -> (r: String)
    ensures
        r@ == spec_format_of(p@),
{
    let n = p.unicode_len();
    let mut i: usize = n;
    while i > 0
        invariant
            i <= n,
            n == p@.len(),
            forall|j: int| i <= j < n ==> p@[j] != '.',
        decreases i,
    {
        if p.get_char(i - 1) == '.' {
            proof {
                lemma_find_last_char(p@, '.');
                match find_last_char(p@, '.') {
                    Some(x) => {
                        if x < i - 1 {
                            assert(p@[i - 1] != '.');
                        }
                        if x > i - 1 {
                            assert(p@[x] != '.');
                        }
                    },
                    None => {
                        assert(p@[i - 1] != '.');
                    },
                }
            }
            let ext = p.substring_char(i, n);
            let m = ext.unicode_len();
            let mut out = String::new();
            let mut k: usize = 0;
            while k < m
                invariant
                    m == ext@.len(),
                    k <= m,
                    out@ == lower(ext@).subrange(0, k as int),
                decreases m - k,
            {
                let c = lower_char_exec(ext.get_char(k));
                proof {
                    assert(lower(ext@)[k as int] == crate::strutil::lower_char(ext@[k as int]));
                }
                out = push_char(out, c);
                proof {
                    assert(out@ =~= lower(ext@).subrange(0, k + 1));
                }
                k = k + 1;
            }
            proof {
                assert(lower(ext@).subrange(0, lower(ext@).len() as int) =~= lower(ext@));
                assert(ext@ =~= p@.skip(i as int));
            }
            return out;
        }
        i = i - 1;
    }
    proof {
        lemma_find_last_char(p@, '.');
        match find_last_char(p@, '.') {
            Some(x) => {
                assert(p@[x] != '.');
            },
            None => {},
        }
    }
    String::from_str("unknown")
}

/// Appends one character to a string.
#[verifier::external_body]
fn push_char(s: String, c: char) -> (r: String)
    ensures
        r@ == s@.push(c),
{
    let mut s = s;
    s.push(c);
    s
}

/// Remote and streamed entries of a library file carry no local audio and
/// are skipped on import.
pub fn should_skip_track(track_type: &Option<String>) -> (r: bool)
    ensures
        r == match crate::model::opt_view(*track_type) {
            Some(t) => t == "Remote"@ || t == "Stream"@,
            None => false,
        },
{
    match track_type {
        Some(t) => str_eq(t.as_str(), "Remote") || str_eq(t.as_str(), "Stream"),
        None => false,
    }
}

/// Assembles an imported track record from its parsed library-file fields:
/// the location decoded to a path, the format read off the path, and a
/// rating kept only when the user set it on the track itself rather than
/// inheriting it from the album.
pub fn build_imported_track(
    persistent_id: String,
    location: &str,
    title: Option<String>,
    artist: Option<String>,
    album: Option<String>,
    comments: Option<String>,
    grouping: Option<String>,
    total_time_ms: i64,
    size_bytes: i64,
    bit_rate: i64,
    modified_ts: i64,
    rating_raw: i64,
    rating_computed: bool,
    date_added_ts: i64,
    bpm: i64,
) -> (t: Track)
    ensures
        t@.id == 0,
        t@.persistent_id == persistent_id@,
        t@.format == spec_format_of(t@.file_path),
        t@.title == crate::model::opt_view(title),
        t@.artist == crate::model::opt_view(artist),
        t@.album == crate::model::opt_view(album),
        t@.comment_raw == crate::model::opt_view(comments),
        t@.grouping_raw == crate::model::opt_view(grouping),
        t@.duration_ms == total_time_ms,
        t@.size_bytes == size_bytes,
        t@.bit_rate == bit_rate,
        t@.modified_date == modified_ts,
        t@.rating == (if rating_computed {
            0
        } else {
            rating_raw as int
        }),
        t@.date_added == date_added_ts,
        t@.bpm == bpm,
        !t@.missing,
        exists|m: Seq<char>| t@.file_path == spec_finalize_path(m),
{
    let file_path = decode_location(location);
    let format = format_of_path(file_path.as_str());
    Track {
        id: 0,
        persistent_id,
        file_path,
        artist,
        title,
        album,
        comment_raw: comments,
        grouping_raw: grouping,
        duration_ms: total_time_ms,
        format,
        size_bytes,
        bit_rate,
        modified_date: modified_ts,
        rating: if rating_computed {
            0
        } else {
            rating_raw
        },
        date_added: date_added_ts,
        bpm,
        missing: false,
    }
}

} // verus!
