//! Path classification: which paths name markdown documents, which name
//! image assets, and how a requested file name is routed.
//!
//! A tracked file's key is its base name, the part of the path after the
//! last separator.  Paths are taken with `/` as the separator: the
//! serving layer hands them in that form, and a backslash is an
//! ordinary name character here, as it is on POSIX filesystems.
//! Extensions are compared ignoring ASCII letter case.

use vstd::prelude::*;
use vstd::string::*;

verus! {

/// The part of `s` after the last occurrence of `c` (all of `s` when `c`
/// does not occur).
pub open spec fn after_last(s: Seq<char>, c: char) -> Seq<char>
    decreases s.len(),
{
    if s.len() == 0 {
        s
    } else if s.last() == c {
        Seq::empty()
    } else {
        after_last(s.drop_last(), c).push(s.last())
    }
}

pub proof fn lemma_after_last_absent(s: Seq<char>, c: char)
    requires
        forall|k: int| 0 <= k < s.len() ==> s[k] != c,
    ensures
        after_last(s, c) =~= s,
    decreases s.len(),
{
    if s.len() > 0 {
        lemma_after_last_absent(s.drop_last(), c);
    }
}

pub proof fn lemma_after_last_found(s: Seq<char>, c: char, i: int)
    requires
        0 <= i < s.len(),
        s[i] == c,
        forall|k: int| i < k < s.len() ==> s[k] != c,
    ensures
        after_last(s, c) =~= s.subrange(i + 1, s.len() as int),
    decreases s.len(),
{
    if i == s.len() - 1 {
    } else {
        lemma_after_last_found(s.drop_last(), c, i);
    }
}

/// The base name of a path: what follows the last `/`.
pub open spec fn base_name(p: Seq<char>) -> Seq<char> {
    after_last(p, '/')
}

/// Whether the base name has an extension: a `.` that is not its first
/// character.
pub open spec fn has_extension(p: Seq<char>) -> bool {
    exists|i: int| 1 <= i < base_name(p).len() && base_name(p)[i] == '.'
}

/// The extension of the base name: what follows its last `.`.
pub open spec fn extension_of(p: Seq<char>) -> Seq<char> {
    after_last(base_name(p), '.')
}

/// The code point of `c`, with ASCII upper-case letters lowered.
pub open spec fn lower_cp(c: char) -> int {
    if 65 <= c as u32 && c as u32 <= 90 {
        c as u32 + 32
    } else {
        c as u32 as int
    }
}

/// Equality of character sequences up to ASCII letter case.
pub open spec fn eq_ignore_case_chars(a: Seq<char>, b: Seq<char>) -> bool {
    a.len() == b.len() && (forall|i: int| 0 <= i < a.len() ==> lower_cp(a[i]) == lower_cp(b[i]))
}

/// `s` ends with `suffix`.
pub open spec fn ends_with_s(s: Seq<char>, suffix: Seq<char>) -> bool {
    s.len() >= suffix.len() && s.subrange(s.len() - suffix.len(), s.len() as int) =~= suffix
}

/// A path names a markdown document: its extension is `md` or `markdown`,
/// ignoring case.
pub open spec fn is_markdown_path(p: Seq<char>) -> bool {
    has_extension(p) && (eq_ignore_case_chars(extension_of(p), "md"@) || eq_ignore_case_chars(
        extension_of(p),
        "markdown"@,
    ))
}

/// A path names an image asset: its extension is on the allowlist of
/// image types that rendered pages may reference.
pub open spec fn is_image_path(p: Seq<char>) -> bool {
    has_extension(p) && (eq_ignore_case_chars(extension_of(p), "png"@) || eq_ignore_case_chars(
        extension_of(p),
        "jpg"@,
    ) || eq_ignore_case_chars(extension_of(p), "jpeg"@) || eq_ignore_case_chars(
        extension_of(p),
        "gif"@,
    ) || eq_ignore_case_chars(extension_of(p), "svg"@) || eq_ignore_case_chars(
        extension_of(p),
        "webp"@,
    ) || eq_ignore_case_chars(extension_of(p), "bmp"@) || eq_ignore_case_chars(
        extension_of(p),
        "ico"@,
    ))
}

/// Returns the part of `s` after the last occurrence of `c`.
pub fn after_last_str(s: &str, c: char) -> (r: String)
    ensures
        r@ == after_last(s@, c),
{
    let n = s.unicode_len();
    let mut j: usize = n;
    while j > 0 && s.get_char(j - 1) != c
        invariant
            0 <= j <= n,
            n == s@.len(),
            forall|k: int| j <= k < n ==> s@[k] != c,
        decreases j,
    {
        j = j - 1;
    }
    proof {
        if j == 0 {
            lemma_after_last_absent(s@, c);
        } else {
            lemma_after_last_found(s@, c, j - 1);
        }
    }
    let part = s.substring_char(j, n);
    part.to_owned()
}

/// Returns the base name of `path`: what follows the last `/`.
pub fn base_name_str(path: &str) -> (r: String)
    ensures
        r@ == base_name(path@),
{
    after_last_str(path, '/')
}

/// Compares two strings ignoring ASCII letter case.
pub fn str_eq_ignore_case(a: &str, b: &str) -> (r: bool)
    ensures
        r == eq_ignore_case_chars(a@, b@),
{
    let n = a.unicode_len();
    if n != b.unicode_len() {
        return false;
    }
    let mut i: usize = 0;
    while i < n
        invariant
            0 <= i <= n,
            n == a@.len(),
            n == b@.len(),
            forall|k: int| 0 <= k < i ==> lower_cp(a@[k]) == lower_cp(b@[k]),
        decreases n - i,
    {
        let x = a.get_char(i) as u32;
        let y = b.get_char(i) as u32;
        let xl: u32 = if 65 <= x && x <= 90 {
            x + 32
        } else {
            x
        };
        let yl: u32 = if 65 <= y && y <= 90 {
            y + 32
        } else {
            y
        };
        if xl != yl {
            return false;
        }
        i = i + 1;
    }
    true
}

/// `s` ends with `suffix`.
pub fn ends_with_str(s: &str, suffix: &str) -> (r: bool)
    ensures
        r == ends_with_s(s@, suffix@),
{
    let n = s.unicode_len();
    let m = suffix.unicode_len();
    if m > n {
        return false;
    }
    let mut i: usize = 0;
    while i < m
        invariant
            0 <= i <= m,
            m <= n,
            n == s@.len(),
            m == suffix@.len(),
            forall|k: int| 0 <= k < i ==> s@[n - m + k] == suffix@[k],
        decreases m - i,
    {
        if s.get_char(n - m + i) != suffix.get_char(i) {
            return false;
        }
        i = i + 1;
    }
    proof {
        assert(s@.subrange(n - m as int, n as int) =~= suffix@);
    }
    true
}

/// Splits off the extension of `path`'s base name, when it has one.
fn extension_str(path: &str) -> (r: Option<String>)
    ensures
        match r {
            Some(e) => has_extension(path@) && e@ == extension_of(path@),
            None => !has_extension(path@),
        },
{
    let name = base_name_str(path);
    let name_ref = name.as_str();
    let n = name_ref.unicode_len();
    let mut j: usize = n;
    while j > 0 && name_ref.get_char(j - 1) != '.'
        invariant
            0 <= j <= n,
            n == name_ref@.len(),
            name_ref@ == base_name(path@),
            forall|k: int| j <= k < n ==> name_ref@[k] != '.',
        decreases j,
    {
        j = j - 1;
    }
    if j <= 1 {
        proof {
            if has_extension(path@) {
                let i = choose|i: int|
                    1 <= i < base_name(path@).len() && base_name(path@)[i] == '.';
                assert(name_ref@[i] == '.');
            }
        }
        None
    } else {
        proof {
            lemma_after_last_found(name_ref@, '.', j - 1);
        }
        let ext = name_ref.substring_char(j, n);
        Some(ext.to_owned())
    }
}

/// Whether `path` names a markdown document (`md` or `markdown` extension,
/// ignoring case).
pub fn is_markdown_file(path: &str) -> (r: bool)
    ensures
        r == is_markdown_path(path@),
{
    match extension_str(path) {
        Some(ext) => {
            str_eq_ignore_case(ext.as_str(), "md") || str_eq_ignore_case(ext.as_str(), "markdown")
        },
        None => false,
    }
}

/// Whether `path` names an image asset on the allowlist.
pub fn is_image_file(path: &str) -> (r: bool)
    ensures
        r == is_image_path(path@),
{
    match extension_str(path) {
        Some(ext) => {
            let e = ext.as_str();
            str_eq_ignore_case(e, "png") || str_eq_ignore_case(e, "jpg") || str_eq_ignore_case(
                e,
                "jpeg",
            ) || str_eq_ignore_case(e, "gif") || str_eq_ignore_case(e, "svg")
                || str_eq_ignore_case(e, "webp") || str_eq_ignore_case(e, "bmp")
                || str_eq_ignore_case(e, "ico")
        },
        None => false,
    }
}

/// The MIME type served for an image path.
pub open spec fn image_content_type(p: Seq<char>) -> Seq<char> {
    if !has_extension(p) {
        "application/octet-stream"@
    } else if eq_ignore_case_chars(extension_of(p), "png"@) {
        "image/png"@
    } else if eq_ignore_case_chars(extension_of(p), "jpg"@) || eq_ignore_case_chars(
        extension_of(p),
        "jpeg"@,
    ) {
        "image/jpeg"@
    } else if eq_ignore_case_chars(extension_of(p), "gif"@) {
        "image/gif"@
    } else if eq_ignore_case_chars(extension_of(p), "svg"@) {
        "image/svg+xml"@
    } else if eq_ignore_case_chars(extension_of(p), "webp"@) {
        "image/webp"@
    } else if eq_ignore_case_chars(extension_of(p), "bmp"@) {
        "image/bmp"@
    } else if eq_ignore_case_chars(extension_of(p), "ico"@) {
        "image/x-icon"@
    } else {
        "application/octet-stream"@
    }
}

/// Guesses the MIME type to serve an image file under, from its extension.
pub fn guess_image_content_type(file_path: &str) -> (r: String)
    ensures
        r@ == image_content_type(file_path@),
{
    match extension_str(file_path) {
        Some(ext) => {
            let e = ext.as_str();
            let name: &str = if str_eq_ignore_case(e, "png") {
                "image/png"
            } else if str_eq_ignore_case(e, "jpg") || str_eq_ignore_case(e, "jpeg") {
                "image/jpeg"
            } else if str_eq_ignore_case(e, "gif") {
                "image/gif"
            } else if str_eq_ignore_case(e, "svg") {
                "image/svg+xml"
            } else if str_eq_ignore_case(e, "webp") {
                "image/webp"
            } else if str_eq_ignore_case(e, "bmp") {
                "image/bmp"
            } else if str_eq_ignore_case(e, "ico") {
                "image/x-icon"
            } else {
                "application/octet-stream"
            };
            name.to_owned()
        },
        None => "application/octet-stream".to_owned(),
    }
}

/// `p` lies at or under `base`, for canonical paths: either the same
/// path, or `base` followed by a separator and more.  This is the guard
/// that keeps static file serving inside the served directory.
pub open spec fn is_path_prefix(base: Seq<char>, p: Seq<char>) -> bool {
    base == p || (p.len() > base.len() && p.subrange(0, base.len() as int) == base && ((base.len()
        > 0 && base.last() == '/') || p[base.len() as int] == '/'))
}

/// Whether a canonical path lies at or under a canonical base
/// directory.
pub fn path_within_base(base: &str, path: &str) -> (r: bool)
    ensures
        r == is_path_prefix(base@, path@),
{
    let bn = base.unicode_len();
    let pn = path.unicode_len();
    if bn > pn {
        return false;
    }
    let mut i: usize = 0;
    while i < bn
        invariant
            0 <= i <= bn,
            bn == base@.len(),
            pn == path@.len(),
            bn <= pn,
            forall|k: int| 0 <= k < i ==> base@[k] == path@[k],
        decreases bn - i,
    {
        if base.get_char(i) != path.get_char(i) {
            proof {
                if base@ == path@ {
                    assert(base@[i as int] == path@[i as int]);
                }
                if path@.subrange(0, bn as int) == base@ {
                    assert(path@.subrange(0, bn as int)[i as int] == path@[i as int]);
                }
            }
            return false;
        }
        i = i + 1;
    }
    proof {
        if bn == pn {
            assert(base@ =~= path@);
        } else {
            assert(path@.subrange(0, bn as int) =~= base@);
        }
    }
    if bn == pn {
        true
    } else if bn > 0 && base.get_char(bn - 1) == '/' {
        true
    } else {
        path.get_char(bn) == '/'
    }
}

/// How a requested file name is routed: as a markdown document, as an
/// image asset, or not at all.
#[derive(Clone, Copy, Debug, PartialEq, Eq, Structural)]
pub enum RequestKind {
    Markdown,
    Image,
    Other,
}

/// The routing rule for a requested name: names ending in `.md` or
/// `.markdown` (exactly) are markdown requests; otherwise image-extension
/// names are asset requests; everything else is unknown.
pub open spec fn request_kind_of(name: Seq<char>) -> RequestKind {
    if ends_with_s(name, ".md"@) || ends_with_s(name, ".markdown"@) {
        RequestKind::Markdown
    } else if is_image_path(name) {
        RequestKind::Image
    } else {
        RequestKind::Other
    }
}

/// Classifies a requested file name for the serving layer.
pub fn classify_request(filename: &str) -> (r: RequestKind)
    ensures
        r == request_kind_of(filename@),
{
    if ends_with_str(filename, ".md") || ends_with_str(filename, ".markdown") {
        RequestKind::Markdown
    } else if is_image_file(filename) {
        RequestKind::Image
    } else {
        RequestKind::Other
    }
}

} // verus!
