//! The safety filter: the one predicate that says which paths the engine
//! never reads into a set, never overwrites and never removes.

use vstd::prelude::*;
use crate::text::{matches_at, occurs_at, same_chars, to_chars};

verus! {

/// What `str::to_lowercase` returns for a string with these characters.
pub uninterp spec fn lowercase_of(s: Seq<char>) -> Seq<char>;

/// Calls `str::to_lowercase`, Unicode's lowercase mapping of a whole string.
/// The result is a function of the characters alone; the contract gives it
/// its name and claims nothing else of it.
#[verifier::external_body]
pub(crate) fn lowercase(s: &str) -> (r: String)
    ensures
        r@ == lowercase_of(s@),
{
    s.to_lowercase()
}

/// A character that parts the segments of a path.
pub open spec fn is_separator(c: char) -> bool {
    c == '/' || c == '\\'
}

/// `name` stands in `path` at index `i` with a separator, or the start of the
/// path, before it.
pub open spec fn begins_segment(path: Seq<char>, name: Seq<char>, i: int) -> bool {
    &&& occurs_at(path, name, i)
    &&& (i == 0 || is_separator(path[i - 1]))
}

/// `name` is a whole segment of `path`, beginning at index `i`.
pub open spec fn segment_at(path: Seq<char>, name: Seq<char>, i: int) -> bool {
    &&& begins_segment(path, name, i)
    &&& (i + name.len() == path.len() || is_separator(path[i + name.len()]))
}

/// Some segment of `path` is `name`.
pub open spec fn has_segment(path: Seq<char>, name: Seq<char>) -> bool {
    exists|i: int| segment_at(path, name, i)
}

/// From index `from` on, `path` holds separators only.
pub open spec fn only_separators_from(path: Seq<char>, from: int) -> bool {
    forall|j: int| from <= j < path.len() ==> is_separator(#[trigger] path[j])
}

/// `name` is the last segment of `path`, beginning at index `i`: nothing but
/// separators follows it.
pub open spec fn basename_at(path: Seq<char>, name: Seq<char>, i: int) -> bool {
    &&& begins_segment(path, name, i)
    &&& only_separators_from(path, i + name.len())
}

/// The last segment of `path` is `name`.
pub open spec fn has_basename(path: Seq<char>, name: Seq<char>) -> bool {
    exists|i: int| basename_at(path, name, i)
}

/// The verdict on a path that is already in lowercase: one of its segments
/// is the engine's metadata directory, a version-control or editor
/// directory, or a source or build directory, or its last segment is the
/// build system's manifest or lock file. A longer name that only holds one
/// of these names, such as `.gitignore`, is not protected.
pub open spec fn is_protected_lowered(lowered: Seq<char>) -> bool {
    ||| has_segment(lowered, ".blk"@)
    ||| has_segment(lowered, ".git"@)
    ||| has_segment(lowered, ".vscode"@)
    ||| has_segment(lowered, "src"@)
    ||| has_segment(lowered, "target"@)
    ||| has_basename(lowered, "cargo.toml"@)
    ||| has_basename(lowered, "cargo.lock"@)
}

/// The safety filter. A path is protected when its lowercase form is, or when
/// it is the path of the running executable.
pub open spec fn is_protected(path: Seq<char>, exe: Option<Seq<char>>) -> bool {
    is_protected_lowered(lowercase_of(path)) || exe == Some(path)
}

/// The view of an optional string slice.
pub open spec fn opt_str(s: Option<&str>) -> Option<Seq<char>> {
    match s {
        Some(t) => Some(t@),
        None => None,
    }
}

fn is_sep(c: char) -> (r: bool)
    ensures
        r == is_separator(c),
{
    c == '/' || c == '\\'
}

/// Whether `name` is a whole segment of `path`, beginning at index `i`.
fn segment_here(path: &Vec<char>, name: &Vec<char>, i: usize) -> (r: bool)
    ensures
        r == segment_at(path@, name@, i as int),
{
    if !matches_at(path, name, i) {
        return false;
    }
    let total: usize = path.len();
    let end: usize = i + name.len();
    (i == 0 || is_sep(path[i - 1])) && (end == total || is_sep(path[end]))
}

/// Whether some segment of `path` is `name`.
pub fn contains_segment(path: &Vec<char>, name: &Vec<char>) -> (r: bool)
    ensures
        r == has_segment(path@, name@),
{
    if name.len() > path.len() {
        return false;
    }
    let last: usize = path.len() - name.len();
    let mut i: usize = 0;
    while i < last
        invariant
            i <= last,
            last == path.len() - name.len(),
            forall|j: int| 0 <= j < i ==> !segment_at(path@, name@, j),
        decreases last - i,
    {
        if segment_here(path, name, i) {
            return true;
        }
        i += 1;
    }
    segment_here(path, name, last)
}

/// The index from which `path` holds separators only.
fn trailing_separators_start(path: &Vec<char>) -> (t: usize)
    ensures
        t <= path.len(),
        only_separators_from(path@, t as int),
        t > 0 ==> !is_separator(path@[t - 1]),
{
    let mut t: usize = path.len();
    while t > 0 && is_sep(path[t - 1])
        invariant
            t <= path.len(),
            only_separators_from(path@, t as int),
        decreases t,
    {
        t -= 1;
    }
    t
}

/// Whether `name` is the last segment of `path`, beginning at index `i`,
/// given the index `tail` from which `path` holds separators only.
fn basename_here(path: &Vec<char>, name: &Vec<char>, i: usize, tail: usize) -> (r: bool)
    requires
        tail <= path.len(),
        only_separators_from(path@, tail as int),
        tail > 0 ==> !is_separator(path@[tail - 1]),
    ensures
        r == basename_at(path@, name@, i as int),
{
    if !matches_at(path, name, i) {
        return false;
    }
    let total: usize = path.len();
    let end: usize = i + name.len();
    proof {
        if basename_at(path@, name@, i as int) && end < tail {
            assert(is_separator(path@[tail - 1]));
        }
    }
    (i == 0 || is_sep(path[i - 1])) && end >= tail
}

/// Whether the last segment of `path` is `name`.
pub fn ends_in_segment(path: &Vec<char>, name: &Vec<char>) -> (r: bool)
    ensures
        r == has_basename(path@, name@),
{
    if name.len() > path.len() {
        return false;
    }
    let tail = trailing_separators_start(path);
    let last: usize = path.len() - name.len();
    let mut i: usize = 0;
    while i < last
        invariant
            i <= last,
            last == path.len() - name.len(),
            tail <= path.len(),
            only_separators_from(path@, tail as int),
            tail > 0 ==> !is_separator(path@[tail - 1]),
            forall|j: int| 0 <= j < i ==> !basename_at(path@, name@, j),
        decreases last - i,
    {
        if basename_here(path, name, i, tail) {
            return true;
        }
        i += 1;
    }
    basename_here(path, name, last, tail)
}

/// The verdict of the safety filter on a path that is already in lowercase.
pub fn is_protected_name(lowered: &str) -> (r: bool)
    ensures
        r == is_protected_lowered(lowered@),
{
    let p = to_chars(lowered);
    contains_segment(&p, &to_chars(".blk")) || contains_segment(&p, &to_chars(".git"))
        || contains_segment(&p, &to_chars(".vscode")) || contains_segment(&p, &to_chars("src"))
        || contains_segment(&p, &to_chars("target")) || ends_in_segment(
        &p,
        &to_chars("cargo.toml"),
    ) || ends_in_segment(&p, &to_chars("cargo.lock"))
}

/// The safety filter on `path`, with `exe` the path of the running
/// executable where it is known.
pub fn should_ignore(path: &str, exe: Option<&str>) -> (r: bool)
    ensures
        r == is_protected(path@, opt_str(exe)),
{
    let lowered = lowercase(path);
    if is_protected_name(lowered.as_str()) {
        return true;
    }
    match exe {
        Some(e) => same_chars(&to_chars(path), &to_chars(e)),
        None => false,
    }
}

} // verus!
