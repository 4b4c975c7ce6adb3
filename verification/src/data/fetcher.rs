//! The pure parts of fetching the data files from the GitHub repository
//! `preca-hoshino/shu-mcp-data`: the URLs, choosing the JSON files of the
//! directory listing, and judging the downloads.

use super::loader::{collect_departments, present};
use super::models::DepartmentData;
use crate::order::{is_sorted_greatest_first, lemma_sorted_same_items};
use vstd::prelude::*;
use vstd::string::StringSliceAdditionalSpecFns;

verus! {

/// The GitHub repository, `owner/name`.
pub const REPO: &'static str = "preca-hoshino/shu-mcp-data";

/// The directory of the data files in the repository.
pub const OUTPUT_DIR: &'static str = "output";

/// The branch read when none is configured.
pub const DEFAULT_BRANCH: &'static str = "master";

/// Why fetching the data failed, where the decision is the library's.
#[derive(Debug, PartialEq, Eq)]
pub enum FetchError {
    /// The directory listing names no `.json` file.
    EmptyListing,
    /// None of the data files could be downloaded and parsed.
    AllDownloadsFailed {
        /// How many files were tried.
        files: usize,
    },
}

/// The GitHub contents API URL of the data directory on `branch`.
pub open spec fn contents_url_text(branch: Seq<char>) -> Seq<char> {
    "https://api.github.com/repos/"@ + REPO@ + "/contents/"@ + OUTPUT_DIR@ + "?ref="@ + branch
}

/// The contents API URL that lists the data directory on `branch`.
pub fn contents_api_url(branch: &str) -> (r: String)
    ensures
        r@ == contents_url_text(branch@),
{
    let mut url = String::from_str("https://api.github.com/repos/");
    url.append(REPO);
    url.append("/contents/");
    url.append(OUTPUT_DIR);
    url.append("?ref=");
    url.append(branch);
    url
}

/// A byte that percent-encoding leaves as it is: ASCII letters and
/// digits, `-`, `.`, `_` and `~`.
pub open spec fn is_url_safe(b: u8) -> bool {
    ||| 0x30 <= b <= 0x39
    ||| 0x41 <= b <= 0x5a
    ||| 0x61 <= b <= 0x7a
    ||| b == 0x2d
    ||| b == 0x2e
    ||| b == 0x5f
    ||| b == 0x7e
}

/// The upper-case hexadecimal digit of `d` (below 16).
pub open spec fn hex_digit(d: u8) -> char {
    if d < 10 {
        (0x30 + d) as char
    } else {
        (0x41 - 10 + d) as char
    }
}

/// Percent-encoding of bytes: safe bytes stay, every other byte becomes
/// `%` and two upper-case hex digits.
pub open spec fn percent_encoded(bytes: Seq<u8>) -> Seq<char>
    decreases bytes.len(),
{
    if bytes.len() == 0 {
        seq![]
    } else {
        let b = bytes.last();
        percent_encoded(bytes.drop_last()) + if is_url_safe(b) {
            seq![b as char]
        } else {
            seq!['%', hex_digit(b / 16), hex_digit(b % 16)]
        }
    }
}

/// Calls `urlencoding::encode`, which percent-encodes the UTF-8 bytes of
/// `s` as `percent_encoded` states (its source: every byte but ASCII
/// alphanumerics and `-`, `.`, `_`, `~` becomes `%XX`, upper-case hex).
#[verifier::external_body]
fn url_encode(s: &str) -> (r: String)
    ensures
        r@ == percent_encoded(s.spec_bytes()),
{
    urlencoding::encode(s).into_owned()
}

/// The raw download URL of the data file `filename` on `branch`.
pub open spec fn raw_url_text(branch: Seq<char>, filename: Seq<u8>) -> Seq<char> {
    "https://raw.githubusercontent.com/"@ + REPO@ + "/"@ + branch + "/"@ + OUTPUT_DIR@ + "/"@
        + percent_encoded(filename)
}

/// The raw download URL of the data file `filename` on `branch`, with the
/// file name percent-encoded.
pub fn raw_url(branch: &str, filename: &str) -> (r: String)
    ensures
        r@ == raw_url_text(branch@, filename.spec_bytes()),
{
    let encoded = url_encode(filename);
    let mut url = String::from_str("https://raw.githubusercontent.com/");
    url.append(REPO);
    url.append("/");
    url.append(branch);
    url.append("/");
    url.append(OUTPUT_DIR);
    url.append("/");
    url.append(encoded.as_str());
    url
}

/// The bytes after the last `.`, or all of them when there is none: the
/// first piece that `rsplit('.')` yields.
pub open spec fn after_last_dot(b: Seq<u8>) -> Seq<u8>
    decreases b.len(),
{
    if b.len() == 0 {
        b
    } else if b.last() == 0x2e {
        seq![]
    } else {
        after_last_dot(b.drop_last()).push(b.last())
    }
}

/// ASCII lower case of a byte.
pub open spec fn ascii_lower(b: u8) -> u8 {
    if 0x41 <= b <= 0x5a {
        (b + 32) as u8
    } else {
        b
    }
}

/// `ext` is `json` in any ASCII case.
pub open spec fn is_json_extension(ext: Seq<u8>) -> bool {
    &&& ext.len() == 4
    &&& ascii_lower(ext[0]) == 0x6a
    &&& ascii_lower(ext[1]) == 0x73
    &&& ascii_lower(ext[2]) == 0x6f
    &&& ascii_lower(ext[3]) == 0x6e
}

/// A data file name: it has a `.`, and the text after the last one is
/// `json` in any ASCII case.
pub open spec fn is_json_name(name: Seq<u8>) -> bool {
    name.contains(0x2e) && is_json_extension(after_last_dot(name))
}

/// The bytes after the last `.` are the end of `b` and hold no `.`; a `.`
/// stands just before them, unless `b` has none and they are all of `b`.
proof fn lemma_after_last_dot_suffix(b: Seq<u8>)
    ensures
        after_last_dot(b).len() <= b.len(),
        after_last_dot(b) == b.subrange(b.len() - after_last_dot(b).len(), b.len() as int),
        !after_last_dot(b).contains(0x2e),
        after_last_dot(b).len() < b.len() ==> b[b.len() - after_last_dot(b).len() - 1] == 0x2e,
        after_last_dot(b).len() == b.len() ==> !b.contains(0x2e),
    decreases b.len(),
{
    let s = after_last_dot(b);
    if b.len() == 0 {
        assert(b.subrange(0, 0) =~= b);
    } else if b.last() == 0x2e {
        assert(b.subrange(b.len() as int, b.len() as int) =~= s);
    } else {
        let init = b.drop_last();
        lemma_after_last_dot_suffix(init);
        let t = after_last_dot(init);
        assert(s == t.push(b.last()));
        assert(s =~= b.subrange(b.len() - s.len(), b.len() as int)) by {
            assert forall|k: int| 0 <= k < s.len() implies s[k] == b.subrange(
                b.len() - s.len(),
                b.len() as int,
            )[k] by {
                if k < t.len() {
                    assert(t[k] == init.subrange(init.len() - t.len(), init.len() as int)[k]);
                }
            }
        }
        if s.contains(0x2e) {
            let k = choose|k: int| 0 <= k < s.len() && s[k] == 0x2e;
            if k < t.len() {
                assert(t[k] == 0x2e);
            }
        }
        if t.len() < init.len() {
            assert(b[b.len() - s.len() - 1] == init[init.len() - t.len() - 1]);
        }
        if t.len() == init.len() && b.contains(0x2e) {
            let k = choose|k: int| 0 <= k < b.len() && b[k] == 0x2e;
            if k < init.len() {
                assert(init[k] == 0x2e);
            }
        }
    }
}

/// A name is a data file name exactly when it ends in `.` and the four
/// letters `json`, each in either ASCII case.
pub proof fn lemma_json_name_exact(name: Seq<u8>)
    ensures
        is_json_name(name) <==> name.len() >= 5 && name[name.len() - 5] == 0x2e && (name[name.len() - 4]
            == 0x6a || name[name.len() - 4] == 0x4a) && (name[name.len() - 3] == 0x73 || name[name.len()
            - 3] == 0x53) && (name[name.len() - 2] == 0x6f || name[name.len() - 2] == 0x4f) && (
        name[name.len() - 1] == 0x6e || name[name.len() - 1] == 0x4e),
{
    lemma_after_last_dot_suffix(name);
    let s = after_last_dot(name);
    let n = name.len() as int;
    if is_json_name(name) {
        assert(s.len() == 4);
        if s.len() == n {
            let k = choose|k: int| 0 <= k < name.len() && name[k] == 0x2e;
        }
        assert(s[0] == name[n - 4]);
        assert(s[1] == name[n - 3]);
        assert(s[2] == name[n - 2]);
        assert(s[3] == name[n - 1]);
    }
    if name.len() >= 5 && name[n - 5] == 0x2e && (name[n - 4] == 0x6a || name[n - 4] == 0x4a) && (
    name[n - 3] == 0x73 || name[n - 3] == 0x53) && (name[n - 2] == 0x6f || name[n - 2] == 0x4f) && (
    name[n - 1] == 0x6e || name[n - 1] == 0x4e) {
        assert(name[n - 5] == 0x2e);
        assert(name.contains(0x2e));
        if s.len() > 4 {
            assert(s[s.len() - 5] == name[n - 5]);
        }
        if s.len() < 4 {
            assert(name[n - s.len() - 1] == 0x2e);
        }
        assert(s.len() == 4);
        assert(s[0] == name[n - 4]);
        assert(s[1] == name[n - 3]);
        assert(s[2] == name[n - 2]);
        assert(s[3] == name[n - 1]);
    }
}

/// Whether `name` ends in `.json`, ignoring ASCII case.
pub fn is_json_file_name(name: &str) -> (r: bool)
    ensures
        r == is_json_name(name.spec_bytes()),
{
    let b = name.as_bytes();
    let mut start: usize = 0;
    let mut i: usize = 0;
    while i < b.len()
        invariant
            start <= i <= b@.len(),
            after_last_dot(b@.take(i as int)) == b@.subrange(start as int, i as int),
            (start > 0) == b@.take(i as int).contains(0x2e),
        decreases b@.len() - i,
    {
        proof {
            assert(b@.take(i + 1).drop_last() =~= b@.take(i as int));
            assert(b@.take(i + 1) =~= b@.take(i as int).push(b@[i as int]));
            let before = b@.take(i as int);
            let after = b@.take(i + 1);
            if before.contains(0x2e) {
                let k = choose|k: int| 0 <= k < before.len() && before[k] == 0x2e;
                assert(after[k] == 0x2e);
            }
            if after.contains(0x2e) && b@[i as int] != 0x2e {
                let k = choose|k: int| 0 <= k < after.len() && after[k] == 0x2e;
                assert(before[k] == 0x2e);
            }
            if b@[i as int] == 0x2e {
                assert(b@.take(i + 1)[i as int] == 0x2e);
            }
        }
        if b[i] == 0x2e {
            start = i + 1;
            assert(b@.subrange(start as int, i + 1) =~= seq![]);
        } else {
            assert(b@.subrange(start as int, i as int).push(b@[i as int]) =~= b@.subrange(
                start as int,
                i + 1,
            ));
        }
        i = i + 1;
    }
    proof {
        assert(b@.take(i as int) =~= b@);
    }
    if start == 0 || b.len() - start != 4 {
        return false;
    }
    let r = lower_byte(b[start]) == 0x6a && lower_byte(b[start + 1]) == 0x73 && lower_byte(
        b[start + 2],
    ) == 0x6f && lower_byte(b[start + 3]) == 0x6e;
    r
}

/// ASCII lower case of a byte.
fn lower_byte(b: u8) -> (r: u8)
    ensures
        r == ascii_lower(b),
{
    if 0x41 <= b && b <= 0x5a {
        b + 32
    } else {
        b
    }
}

/// The data file names among the listed entries' names, in order.
pub open spec fn json_names(names: Seq<Option<String>>) -> Seq<Seq<char>> {
    names.filter_map(
        |o: Option<String>|
            match o {
                Some(n) => if is_json_name(vstd::utf8::encode_utf8(n@)) {
                    Some(n@)
                } else {
                    None
                },
                None => None,
            },
    )
}

/// Chooses the data files among the names of the directory entries
/// (`None` for an entry without a name): those ending in `.json`, in order;
/// an error when there is none.
pub fn json_file_names(names: &Vec<Option<String>>) -> (r: Result<Vec<String>, FetchError>)
    ensures
        match r {
            Ok(v) => v@.map_values(|s: String| s@) == json_names(names@) && v@.len() > 0,
            Err(e) => e == FetchError::EmptyListing && json_names(names@).len() == 0,
        },
{
    let mut out: Vec<String> = Vec::new();
    let mut i: usize = 0;
    while i < names.len()
        invariant
            i <= names@.len(),
            out@.map_values(|s: String| s@) == json_names(names@.take(i as int)),
        decreases names@.len() - i,
    {
        let ghost before = out@;
        match &names[i] {
            Some(n) => {
                if is_json_file_name(n.as_str()) {
                    out.push(n.clone());
                }
            },
            None => {},
        }
        proof {
            assert(names@.take(i + 1).drop_last() =~= names@.take(i as int));
            assert(names@.take(i + 1).last() == names@[i as int]);
            let b = before.map_values(|s: String| s@);
            assert(out@.map_values(|s: String| s@) =~= json_names(names@.take(i + 1))) by {
                if out@.len() > before.len() {
                    assert(out@.map_values(|s: String| s@) =~= b.push(out@.last()@));
                } else {
                    assert(out@ == before);
                }
            }
        }
        i = i + 1;
    }
    proof {
        assert(names@.take(names@.len() as int) =~= names@);
    }
    if out.len() == 0 {
        Err(FetchError::EmptyListing)
    } else {
        Ok(out)
    }
}

/// Judges the downloads of `file_count` data files (`None` for one that
/// failed): the departments that arrived, names descending, or an error
/// when none did.
pub fn finish_fetch(downloaded: Vec<Option<DepartmentData>>, file_count: usize) -> (r: Result<
    Vec<DepartmentData>,
    FetchError,
>)
    ensures
        match r {
            Ok(v) => present(downloaded@).len() > 0 && is_sorted_greatest_first(
                present(downloaded@),
                v@,
            ),
            Err(e) => present(downloaded@).len() == 0 && e == (FetchError::AllDownloadsFailed {
                files: file_count,
            }),
        },
{
    let ghost got = present(downloaded@);
    let departments = collect_departments(downloaded);
    proof {
        lemma_sorted_same_items(got, departments@);
    }
    if departments.len() == 0 {
        Err(FetchError::AllDownloadsFailed { files: file_count })
    } else {
        Ok(departments)
    }
}

} // verus!
