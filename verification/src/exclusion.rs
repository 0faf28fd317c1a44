//! Exclusions: a path is left out of a scan when one of the set's exclusion
//! strings matches it as a glob pattern or is a part of it.

use vstd::prelude::*;
use crate::models::texts;
use crate::text::{contains_sub, has_sub, replace_char, replaced, to_chars};

verus! {

/// A compiled glob pattern of the `glob` crate.
#[verifier::external_type_specification]
#[verifier::external_body]
pub struct ExPattern(glob::Pattern);

/// The text that a compiled pattern holds: the one it was compiled from,
/// which `glob::Pattern::as_str` gives back.
pub uninterp spec fn pattern_text(compiled: glob::Pattern) -> Seq<char>;

/// Whether `glob::Pattern::new` takes the text for a pattern.
pub uninterp spec fn glob_compiles(pattern: Seq<char>) -> bool;

/// Whether the compiled form of a pattern matches the whole of a text, by
/// `glob::Pattern::matches`.
pub uninterp spec fn glob_matches(pattern: Seq<char>, text: Seq<char>) -> bool;

/// No backslash occurs in `s`.
pub open spec fn has_no_backslash(s: Seq<char>) -> bool {
    forall|i: int| 0 <= i < s.len() ==> s[i] != '\\'
}

/// What the `glob` crate says of a pattern and a text: `None` where the
/// pattern does not compile, else whether it matches the whole text.
pub open spec fn glob_verdict(pattern: Seq<char>, text: Seq<char>) -> Option<bool> {
    if glob_compiles(pattern) {
        Some(glob_matches(pattern, text))
    } else {
        None
    }
}

/// Calls `glob::Pattern::new`. A pattern that compiles holds the text it was
/// compiled from.
///
/// In a pattern the crate takes a backslash for a path separator on some
/// systems only, so whether a text compiles is given its name just where
/// the text holds no backslash; of the others nothing is claimed.
#[verifier::external_body]
fn compile(pattern: &str) -> (r: Option<glob::Pattern>)
    ensures
        r matches Some(compiled) ==> pattern_text(compiled) == pattern@,
        has_no_backslash(pattern@) ==> (r is Some <==> glob_compiles(pattern@)),
{
    glob::Pattern::new(pattern).ok()
}

/// Calls `glob::Pattern::matches`: whether the pattern matches the whole
/// text, case counting, `*` and `?` matching separators too.
///
/// The crate compares separators by the rules of the system at hand, so the
/// result is given its name just where neither the pattern nor the text
/// holds a backslash; of the others nothing is claimed.
#[verifier::external_body]
fn matches(compiled: &glob::Pattern, text: &str) -> (r: bool)
    ensures
        has_no_backslash(pattern_text(*compiled)) && has_no_backslash(text@) ==> r == glob_matches(
            pattern_text(*compiled),
            text@,
        ),
{
    compiled.matches(text)
}

/// The verdict of the `glob` crate on a pattern and a text.
fn glob_match(pattern: &str, text: &str) -> (r: Option<bool>)
    ensures
        has_no_backslash(pattern@) && has_no_backslash(text@) ==> r == glob_verdict(
            pattern@,
            text@,
        ),
{
    match compile(pattern) {
        Some(compiled) => Some(matches(&compiled, text)),
        None => None,
    }
}

/// The path as exclusions see it: every backslash turned into a slash.
pub open spec fn normalized(path: Seq<char>) -> Seq<char> {
    replace_char(path, '\\', '/')
}

/// One exclusion applies to a normalized path when the glob verdict is a
/// match or the exclusion is a part of the path.
pub open spec fn exclusion_applies(glob: Option<bool>, path: Seq<char>, exclusion: Seq<char>) -> bool {
    glob == Some(true) || contains_sub(path, exclusion)
}

/// `exclusion`, free of backslashes, excludes `path`.
pub open spec fn excludes(exclusion: Seq<char>, path: Seq<char>) -> bool {
    exclusion_applies(glob_verdict(exclusion, normalized(path)), normalized(path), exclusion)
}

/// Some exclusion of the list excludes `path`.
pub open spec fn is_excluded(path: Seq<char>, exclusions: Seq<Seq<char>>) -> bool {
    exists|i: int| 0 <= i < exclusions.len() && excludes(#[trigger] exclusions[i], path)
}

/// The exclusion excludes the path on every system: it is a part of the
/// path, or it is free of backslashes and excludes the path.
pub open spec fn surely_excludes(exclusion: Seq<char>, path: Seq<char>) -> bool {
    contains_sub(normalized(path), exclusion) || (has_no_backslash(exclusion) && excludes(
        exclusion,
        path,
    ))
}

/// The exclusion may exclude the path on some system: it excludes the
/// path, or it holds a backslash, so that its match as a pattern is up to
/// the system.
pub open spec fn possibly_excludes(exclusion: Seq<char>, path: Seq<char>) -> bool {
    !has_no_backslash(exclusion) || excludes(exclusion, path)
}

/// Some exclusion of the list excludes `path` on every system.
pub open spec fn is_surely_excluded(path: Seq<char>, exclusions: Seq<Seq<char>>) -> bool {
    exists|i: int| 0 <= i < exclusions.len() && surely_excludes(#[trigger] exclusions[i], path)
}

/// Some exclusion of the list may exclude `path` on some system.
pub open spec fn is_possibly_excluded(path: Seq<char>, exclusions: Seq<Seq<char>>) -> bool {
    exists|i: int| 0 <= i < exclusions.len() && possibly_excludes(#[trigger] exclusions[i], path)
}

/// What is surely excluded is possibly excluded; and where every exclusion
/// is free of backslashes the two are one: the path is excluded or it is
/// not.
pub proof fn lemma_exclusion_bounds(path: Seq<char>, exclusions: Seq<Seq<char>>)
    ensures
        is_surely_excluded(path, exclusions) ==> is_excluded(path, exclusions),
        is_excluded(path, exclusions) ==> is_possibly_excluded(path, exclusions),
        all_portable(exclusions) ==> (is_surely_excluded(path, exclusions) <==> is_excluded(
            path,
            exclusions,
        )) && (is_possibly_excluded(path, exclusions) <==> is_excluded(path, exclusions)),
{
    if is_surely_excluded(path, exclusions) {
        let i = choose|i: int|
            0 <= i < exclusions.len() && surely_excludes(#[trigger] exclusions[i], path);
        assert(excludes(exclusions[i], path));
    }
    if is_excluded(path, exclusions) {
        let i = choose|i: int| 0 <= i < exclusions.len() && excludes(#[trigger] exclusions[i], path);
        assert(possibly_excludes(exclusions[i], path));
        if all_portable(exclusions) {
            assert(surely_excludes(exclusions[i], path));
        }
    }
    if all_portable(exclusions) && is_possibly_excluded(path, exclusions) {
        let i = choose|i: int|
            0 <= i < exclusions.len() && possibly_excludes(#[trigger] exclusions[i], path);
        assert(excludes(exclusions[i], path));
    }
}

/// More exclusions exclude more: a path that a list excludes is excluded by
/// every list that holds the exclusions of that list and others, before or
/// behind them.
pub proof fn lemma_more_exclusions_exclude_more(
    path: Seq<char>,
    exclusions: Seq<Seq<char>>,
    before: Seq<Seq<char>>,
    behind: Seq<Seq<char>>,
)
    ensures
        is_excluded(path, exclusions) ==> is_excluded(path, before + exclusions + behind),
        is_surely_excluded(path, exclusions) ==> is_surely_excluded(
            path,
            before + exclusions + behind,
        ),
{
    let all = before + exclusions + behind;
    if is_excluded(path, exclusions) {
        let i = choose|i: int| 0 <= i < exclusions.len() && excludes(#[trigger] exclusions[i], path);
        assert(all[before.len() + i] == exclusions[i]);
    }
    if is_surely_excluded(path, exclusions) {
        let i = choose|i: int|
            0 <= i < exclusions.len() && surely_excludes(#[trigger] exclusions[i], path);
        assert(all[before.len() + i] == exclusions[i]);
    }
}

/// Every exclusion of the list is free of backslashes.
pub open spec fn all_portable(exclusions: Seq<Seq<char>>) -> bool {
    forall|i: int| 0 <= i < exclusions.len() ==> has_no_backslash(#[trigger] exclusions[i])
}

/// The rule for one exclusion, given the glob verdict on it: glob first,
/// then plain containment.
pub fn exclusion_hit(glob: Option<bool>, path: &str, exclusion: &str) -> (r: bool)
    ensures
        r == exclusion_applies(glob, path@, exclusion@),
{
    match glob {
        Some(true) => true,
        _ => has_sub(&to_chars(path), &to_chars(exclusion)),
    }
}

/// Whether one of `exclusions` excludes `path`.
///
/// Where every exclusion is free of backslashes the result is exactly
/// `is_excluded`. An exclusion with a backslash in it still excludes every
/// path that it is a part of; whether it matches as a glob pattern is left
/// to the `glob` crate on the system at hand. So in every case: what is
/// surely excluded is excluded, and nothing is excluded that is not
/// possibly excluded.
pub fn matches_exclusion(path: &str, exclusions: &Vec<String>) -> (r: bool)
    ensures
        all_portable(texts(exclusions@)) ==> r == is_excluded(path@, texts(exclusions@)),
        is_surely_excluded(path@, texts(exclusions@)) ==> r,
        r ==> is_possibly_excluded(path@, texts(exclusions@)),
        exclusions@.len() == 0 ==> !r,
{
    let s = crate::text::from_chars(&replaced(&to_chars(path), '\\', '/'));
    assert(has_no_backslash(s@));
    let mut i: usize = 0;
    while i < exclusions.len()
        invariant
            i <= exclusions@.len(),
            s@ == normalized(path@),
            has_no_backslash(s@),
            forall|k: int| 0 <= k < i ==> !surely_excludes(#[trigger] texts(exclusions@)[k], path@),
        decreases exclusions@.len() - i,
    {
        let exc = exclusions[i].as_str();
        assert(texts(exclusions@)[i as int] == exc@);
        let verdict = glob_match(exc, s.as_str());
        if exclusion_hit(verdict, s.as_str(), exc) {
            proof {
                if has_no_backslash(exc@) {
                    assert(excludes(exc@, path@));
                }
                assert(possibly_excludes(texts(exclusions@)[i as int], path@));
                lemma_exclusion_bounds(path@, texts(exclusions@));
            }
            return true;
        }
        i += 1;
    }
    proof {
        lemma_exclusion_bounds(path@, texts(exclusions@));
    }
    false
}

} // verus!
