//! Which files of a directory tree are indexed, and the text taken from
//! each.
use crate::crawler::{chars_of, contains_text, occurs_in};
use crate::snippet::{is_space, is_space_char};
use crate::tokenizer::{lower_of, lowercase};
use vstd::prelude::*;
use vstd::string::StrSliceExecFns;
use vstd::string::StringExecFns;

verus! {

/// The extensions of the files that are indexed.
pub open spec fn supported_extensions() -> Seq<Seq<char>> {
    seq![
        "txt"@, "md"@, "rst"@, "log"@, "conf"@, "cfg"@, "ini"@, "json"@, "xml"@, "csv"@,
        "html"@, "htm"@, "js"@, "css"@, "py"@, "rs"@, "c"@, "cpp"@, "h"@, "hpp"@,
        "java"@, "go"@, "php"@, "rb"@, "sh"@, "bat"@, "sql"@, "yaml"@, "yml"@,
        "toml"@, "dockerfile"@, "makefile"@, "readme"@, "license"@, "gitignore"@,
    ]
}

/// The name fragments that make a file without extension indexed.
pub open spec fn plain_file_markers() -> Seq<Seq<char>> {
    seq!["readme"@, "license"@, "makefile"@, "dockerfile"@]
}

/// The directory names that are never entered, besides hidden ones.
pub open spec fn skipped_directories() -> Seq<Seq<char>> {
    seq!["System Volume Information"@, "$RECYCLE.BIN"@, "node_modules"@, "target"@, ".git"@]
}

fn supported_extension_list() -> (r: Vec<&'static str>)
    ensures
        r@.map_values(|s: &str| s@) == supported_extensions(),
{
    let r = vec![
        "txt", "md", "rst", "log", "conf", "cfg", "ini", "json", "xml", "csv",
        "html", "htm", "js", "css", "py", "rs", "c", "cpp", "h", "hpp",
        "java", "go", "php", "rb", "sh", "bat", "sql", "yaml", "yml",
        "toml", "dockerfile", "makefile", "readme", "license", "gitignore",
    ];
    assert(r@.map_values(|s: &str| s@) =~= supported_extensions());
    r
}

fn plain_file_marker_list() -> (r: Vec<&'static str>)
    ensures
        r@.map_values(|s: &str| s@) == plain_file_markers(),
{
    let r = vec!["readme", "license", "makefile", "dockerfile"];
    assert(r@.map_values(|s: &str| s@) =~= plain_file_markers());
    r
}

fn skipped_directory_list() -> (r: Vec<&'static str>)
    ensures
        r@.map_values(|s: &str| s@) == skipped_directories(),
{
    let r = vec!["System Volume Information", "$RECYCLE.BIN", "node_modules", "target", ".git"];
    assert(r@.map_values(|s: &str| s@) =~= skipped_directories());
    r
}

/// Whether two strings hold the same characters.
pub fn same_text(a: &str, b: &str) -> (r: bool)
    ensures
        r == (a@ == b@),
{
    let x = chars_of(a);
    let y = chars_of(b);
    if x.len() != y.len() {
        return false;
    }
    let mut i: usize = 0;
    while i < x.len()
        invariant
            x@ == a@,
            y@ == b@,
            x@.len() == y@.len(),
            i <= x@.len(),
            forall|k: int| 0 <= k < i ==> x@[k] == y@[k],
        decreases x@.len() - i,
    {
        if x[i] != y[i] {
            return false;
        }
        i = i + 1;
    }
    assert(a@ =~= b@);
    true
}

/// Whether `s` is one of the strings of `list`.
fn listed(s: &str, list: &Vec<&'static str>) -> (r: bool)
    ensures
        r == list@.map_values(|t: &str| t@).contains(s@),
{
    let ghost views = list@.map_values(|t: &str| t@);
    let mut i: usize = 0;
    while i < list.len()
        invariant
            i <= list@.len(),
            views == list@.map_values(|t: &str| t@),
            forall|k: int| 0 <= k < i ==> views[k] != s@,
        decreases list@.len() - i,
    {
        if same_text(list[i], s) {
            assert(views[i as int] == s@);
            return true;
        }
        i = i + 1;
    }
    false
}

/// Whether `s` contains one of the strings of `list`.
fn contains_listed(s: &str, list: &Vec<&'static str>) -> (r: bool)
    ensures
        r == exists|k: int| 0 <= k < list@.len() && occurs_in(s@, #[trigger] list@[k]@),
{
    let mut i: usize = 0;
    while i < list.len()
        invariant
            i <= list@.len(),
            forall|k: int| 0 <= k < i ==> !occurs_in(s@, #[trigger] list@[k]@),
        decreases list@.len() - i,
    {
        if contains_text(s, list[i]) {
            return true;
        }
        i = i + 1;
    }
    false
}

/// A file is indexed when its extension, lower-cased, is a supported one;
/// a file without extension when its lower-cased name contains readme,
/// license, makefile or dockerfile.
pub fn is_supported_file(name: &str, extension: Option<&str>) -> (r: bool)
    ensures
        r == match extension {
            Some(e) => supported_extensions().contains(lower_of(e@)),
            None => exists|k: int| 0 <= k < plain_file_markers().len() && occurs_in(
                lower_of(name@),
                #[trigger] plain_file_markers()[k],
            ),
        },
{
    match extension {
        Some(e) => {
            let lower = lowercase(e);
            listed(lower.as_str(), &supported_extension_list())
        },
        None => {
            let lower = lowercase(name);
            let markers = plain_file_marker_list();
            let r = contains_listed(lower.as_str(), &markers);
            proof {
                assert forall|k: int| 0 <= k < markers@.len() implies markers@[k]@ == plain_file_markers()[k] by {
                    assert(markers@.map_values(|s: &str| s@)[k] == markers@[k]@);
                }
            }
            r
        },
    }
}

/// A directory is not entered when it is hidden (its name starts with a
/// dot) or is one of the skipped system and build directories.
pub fn is_skipped_dir(name: &str) -> (r: bool)
    ensures
        r == ((name@.len() > 0 && name@[0] == '.') || skipped_directories().contains(name@)),
{
    let cs = chars_of(name);
    if cs.len() > 0 && cs[0] == '.' {
        return true;
    }
    listed(name, &skipped_directory_list())
}

/// `s` without leading and trailing whitespace.
pub open spec fn trimmed(s: Seq<char>, lo: int, hi: int) -> bool {
    &&& 0 <= lo <= hi <= s.len()
    &&& forall|i: int| 0 <= i < lo ==> is_space(#[trigger] s[i])
    &&& forall|i: int| hi <= i < s.len() ==> is_space(#[trigger] s[i])
    &&& lo < hi ==> !is_space(s[lo]) && !is_space(s[hi - 1])
}

/// The text indexed from a file's content: `None` when the content is
/// under 10 or over 1,000,000 bytes or only whitespace; else the content
/// trimmed of surrounding whitespace.
pub fn usable_file_text(content: &str) -> (r: Option<String>)
    ensures
        (content.len() < 10 || content.len() > 1_000_000) ==> r is None,
        match r {
            Some(t) => exists|lo: int, hi: int| trimmed(content@, lo, hi) && lo < hi && t@ == content@.subrange(lo, hi),
            None => content.len() < 10 || content.len() > 1_000_000
                || forall|i: int| 0 <= i < content@.len() ==> is_space(#[trigger] content@[i]),
        },
{
    let bytes = content.len();
    if bytes < 10 || bytes > 1_000_000 {
        return None;
    }
    let cs = chars_of(content);
    let n = cs.len();
    let mut lo: usize = 0;
    while lo < n && is_space_char(cs[lo])
        invariant
            cs@ == content@,
            n == cs@.len(),
            lo <= n,
            forall|i: int| 0 <= i < lo ==> is_space(#[trigger] cs@[i]),
        decreases n - lo,
    {
        lo = lo + 1;
    }
    if lo == n {
        return None;
    }
    let mut hi: usize = n;
    while hi > lo && is_space_char(cs[hi - 1])
        invariant
            cs@ == content@,
            n == cs@.len(),
            lo < n,
            !is_space(cs@[lo as int]),
            lo <= hi <= n,
            forall|i: int| hi <= i < n ==> is_space(#[trigger] cs@[i]),
        decreases hi,
    {
        hi = hi - 1;
    }
    let t = String::from_str(content.substring_char(lo, hi));
    assert(trimmed(content@, lo as int, hi as int));
    Some(t)
}

} // verus!
