//! The rules of the console front end: how the selection moves, what counts
//! as a confirmation, how a typed scope is read.

use vstd::prelude::*;
use vstd::string::*;
use crate::models::{clone_strings, texts, BlkConfig, SetManifest, SetManifestView};
use crate::safety::is_separator;
use crate::scan::views;
use crate::sizes::{decimal, decimal_chars};
use crate::text::{
    find_sub, first_occurrence, contains_sub, from_chars, lemma_first_occurrence_is, replace_char,
    replaced, same_chars, slice_chars, to_chars,
};

verus! {

/// The selection after a step down: the next row, from the last row and
/// from no selection the first.
pub open spec fn next_of(selected: Option<usize>, len: usize) -> usize {
    match selected {
        Some(i) => if i + 1 >= len {
            0
        } else {
            (i + 1) as usize
        },
        None => 0,
    }
}

/// The selection after a step up: the row before, from the first row the
/// last, from no selection the first.
pub open spec fn previous_of(selected: Option<usize>, len: usize) -> usize {
    match selected {
        Some(i) => if i == 0 {
            if len == 0 {
                0
            } else {
                (len - 1) as usize
            }
        } else {
            (i - 1) as usize
        },
        None => 0,
    }
}

/// The selection after a step down a list of `len` rows.
pub fn next_index(selected: Option<usize>, len: usize) -> (r: usize)
    ensures
        r == next_of(selected, len),
{
    match selected {
        Some(i) => if len == 0 || i >= len - 1 {
            0
        } else {
            i + 1
        },
        None => 0,
    }
}

/// The selection after a step up a list of `len` rows.
pub fn previous_index(selected: Option<usize>, len: usize) -> (r: usize)
    ensures
        r == previous_of(selected, len),
{
    match selected {
        Some(i) => if i == 0 {
            if len == 0 {
                0
            } else {
                len - 1
            }
        } else {
            i - 1
        },
        None => 0,
    }
}

/// The selection after the row `removed` was taken out of a list that now
/// has `len` rows: the row before it, or the first; none in an empty list.
pub fn selection_after_removal(removed: usize, len: usize) -> (r: Option<usize>)
    ensures
        r == (if len == 0 {
            None
        } else if removed == 0 {
            Some(0usize)
        } else {
            Some((removed - 1) as usize)
        }),
{
    if len == 0 {
        None
    } else if removed == 0 {
        Some(0)
    } else {
        Some(removed - 1)
    }
}

/// A character that counts as white space.
pub open spec fn is_space(c: char) -> bool {
    let n = c as u32;
    ||| (0x9 <= n <= 0xd)
    ||| n == 0x20
    ||| n == 0x85
    ||| n == 0xa0
    ||| n == 0x1680
    ||| (0x2000 <= n <= 0x200a)
    ||| n == 0x2028
    ||| n == 0x2029
    ||| n == 0x202f
    ||| n == 0x205f
    ||| n == 0x3000
}

/// What is stripped from the ends of a text: double quotes, or white space.
pub open spec fn is_stripped(c: char, quotes: bool) -> bool {
    if quotes {
        c == '"'
    } else {
        is_space(c)
    }
}

/// The text without the stripped characters at its start.
pub open spec fn strip_start_of(s: Seq<char>, quotes: bool) -> Seq<char>
    decreases s.len(),
{
    if s.len() > 0 && is_stripped(s[0], quotes) {
        strip_start_of(s.drop_first(), quotes)
    } else {
        s
    }
}

/// The text without the stripped characters at its end.
pub open spec fn strip_end_of(s: Seq<char>, quotes: bool) -> Seq<char>
    decreases s.len(),
{
    if s.len() > 0 && is_stripped(s.last(), quotes) {
        strip_end_of(s.drop_last(), quotes)
    } else {
        s
    }
}

/// The text without white space at either end.
pub open spec fn trim_of(s: Seq<char>) -> Seq<char> {
    strip_end_of(strip_start_of(s, false), false)
}

/// The text without double quotes at either end.
pub open spec fn unquoted_of(s: Seq<char>) -> Seq<char> {
    strip_end_of(strip_start_of(s, true), true)
}

/// Whether the character is stripped.
pub fn strips(c: char, quotes: bool) -> (r: bool)
    ensures
        r == is_stripped(c, quotes),
{
    if quotes {
        c == '"'
    } else {
        let n: u32 = c as u32;
        (0x9 <= n && n <= 0xd) || n == 0x20 || n == 0x85 || n == 0xa0 || n == 0x1680 || (0x2000
            <= n && n <= 0x200a) || n == 0x2028 || n == 0x2029 || n == 0x202f || n == 0x205f || n
            == 0x3000
    }
}

/// The text without the stripped characters at either end.
pub fn strip(s: &Vec<char>, quotes: bool) -> (r: Vec<char>)
    ensures
        r@ == strip_end_of(strip_start_of(s@, quotes), quotes),
{
    let total: usize = s.len();
    let mut start: usize = 0;
    assert(s@.subrange(0, total as int) =~= s@);
    while start < total && strips(s[start], quotes)
        invariant
            start <= total,
            total == s@.len(),
            strip_start_of(s@, quotes) == strip_start_of(
                s@.subrange(start as int, total as int),
                quotes,
            ),
        decreases total - start,
    {
        proof {
            let rest = s@.subrange(start as int, total as int);
            assert(rest[0] == s@[start as int]);
            assert(rest.drop_first() =~= s@.subrange(start + 1, total as int));
        }
        start += 1;
    }
    proof {
        let rest = s@.subrange(start as int, total as int);
        if start < total {
            assert(rest[0] == s@[start as int]);
        }
        assert(strip_start_of(rest, quotes) == rest);
    }
    let ghost kept = s@.subrange(start as int, total as int);
    let mut end: usize = total;
    assert(s@.subrange(start as int, end as int) =~= kept);
    while end > start && strips(s[end - 1], quotes)
        invariant
            start <= end <= total,
            total == s@.len(),
            kept == s@.subrange(start as int, total as int),
            strip_end_of(kept, quotes) == strip_end_of(
                s@.subrange(start as int, end as int),
                quotes,
            ),
        decreases end,
    {
        proof {
            let rest = s@.subrange(start as int, end as int);
            assert(rest.last() == s@[end - 1]);
            assert(rest.drop_last() =~= s@.subrange(start as int, end - 1));
        }
        end -= 1;
    }
    proof {
        let rest = s@.subrange(start as int, end as int);
        if end > start {
            assert(rest.last() == s@[end - 1]);
        }
        assert(strip_end_of(rest, quotes) == rest);
    }
    slice_chars(s, start, end)
}

/// The confirmation that a delete asks for: `y` in either case for a set
/// without children, the word `DELETE` for one with children.
pub open spec fn confirms_delete(children: usize, typed: Seq<char>) -> bool {
    if children == 0 {
        trim_of(typed) == "y"@ || trim_of(typed) == "Y"@
    } else {
        trim_of(typed) == "DELETE"@
    }
}

/// Whether what was typed confirms the delete of a set with so many
/// children.
pub fn delete_confirmed(children: usize, typed: &str) -> (r: bool)
    ensures
        r == confirms_delete(children, typed@),
{
    let t = strip(&to_chars(typed), false);
    if children == 0 {
        same_chars(&t, &to_chars("y")) || same_chars(&t, &to_chars("Y"))
    } else {
        same_chars(&t, &to_chars("DELETE"))
    }
}

/// The question put before a delete.
pub open spec fn delete_warning_of(name: Seq<char>, children: usize) -> Seq<char> {
    if children == 0 {
        "Delete '"@ + name + "'? (type 'y')"@
    } else {
        "DANGER: Delete '"@ + name + "' and "@ + decimal(children as nat)
            + " children? Type 'DELETE'"@
    }
}

/// The question put before the delete of the set called `name`.
pub fn delete_warning(name: &str, children: usize) -> (r: String)
    ensures
        r@ == delete_warning_of(name@, children),
{
    if children == 0 {
        String::from_str("Delete '").concat(name).concat("'? (type 'y')")
    } else {
        let count = from_chars(&decimal_chars(children as u64));
        String::from_str("DANGER: Delete '").concat(name).concat("' and ").concat(
            count.as_str(),
        ).concat(" children? Type 'DELETE'")
    }
}

/// A scope as it was typed: its name and, where one was given, its
/// directory.
#[derive(Debug, Clone, PartialEq, Eq)]
pub struct ScopeEntry {
    pub key: String,
    /// Empty where only a name was typed.
    pub path: String,
}

/// A scope entry as a mathematical value.
pub struct ScopeEntryView {
    pub key: Seq<char>,
    pub path: Seq<char>,
}

impl View for ScopeEntry {
    type V = ScopeEntryView;

    open spec fn view(&self) -> ScopeEntryView {
        ScopeEntryView { key: self.key@, path: self.path@ }
    }
}

/// The text reads as a path: it holds a colon or a separator.
pub open spec fn looks_like_path(s: Seq<char>) -> bool {
    exists|i: int| 0 <= i < s.len() && (s[i] == ':' || is_separator(#[trigger] s[i]))
}

/// The last segment of a text that ends in no separator.
pub open spec fn tail_segment(s: Seq<char>) -> Seq<char>
    decreases s.len(),
{
    if s.len() == 0 || is_separator(s.last()) {
        Seq::empty()
    } else {
        tail_segment(s.drop_last()).push(s.last())
    }
}

/// The text without separators at its end.
pub open spec fn without_trailing_separators(s: Seq<char>) -> Seq<char>
    decreases s.len(),
{
    if s.len() > 0 && is_separator(s.last()) {
        without_trailing_separators(s.drop_last())
    } else {
        s
    }
}

/// The name that a path gives to its scope: its last segment with spaces
/// turned into underscores; `Extra` where the path has no last segment or
/// ends in `..`.
pub open spec fn folder_key_of(path: Seq<char>) -> Seq<char> {
    let name = tail_segment(without_trailing_separators(path));
    if name.len() == 0 || name == ".."@ {
        "Extra"@
    } else {
        replace_char(name, ' ', '_')
    }
}

/// How a typed scope is read. Nothing but white space is no entry. `name =
/// directory` gives both, each without white space around it. A path alone,
/// with or without double quotes around it, is the directory, and its last
/// segment names the scope. Anything else is a name alone.
pub open spec fn scope_entry_of(typed: Seq<char>) -> Option<ScopeEntryView> {
    let entry = trim_of(typed);
    if entry.len() == 0 {
        None
    } else if contains_sub(entry, "="@) {
        let i = first_occurrence(entry, "="@);
        Some(
            ScopeEntryView {
                key: trim_of(entry.subrange(0, i)),
                path: trim_of(entry.subrange(i + "="@.len(), entry.len() as int)),
            },
        )
    } else {
        let raw = unquoted_of(entry);
        if looks_like_path(raw) {
            Some(ScopeEntryView { key: folder_key_of(raw), path: raw })
        } else {
            Some(ScopeEntryView { key: raw, path: Seq::empty() })
        }
    }
}

fn reads_as_path(s: &Vec<char>) -> (r: bool)
    ensures
        r == looks_like_path(s@),
{
    let mut i: usize = 0;
    while i < s.len()
        invariant
            i <= s@.len(),
            forall|k: int| 0 <= k < i ==> !(s@[k] == ':' || is_separator(#[trigger] s@[k])),
        decreases s@.len() - i,
    {
        let c = s[i];
        if c == ':' || c == '/' || c == '\\' {
            return true;
        }
        i += 1;
    }
    false
}

fn folder_key(path: &Vec<char>) -> (r: Vec<char>)
    ensures
        r@ == folder_key_of(path@),
{
    let total: usize = path.len();
    let mut end: usize = total;
    assert(path@.subrange(0, total as int) =~= path@);
    while end > 0 && (path[end - 1] == '/' || path[end - 1] == '\\')
        invariant
            end <= total,
            total == path@.len(),
            without_trailing_separators(path@) == without_trailing_separators(
                path@.subrange(0, end as int),
            ),
        decreases end,
    {
        proof {
            let rest = path@.subrange(0, end as int);
            assert(rest.last() == path@[end - 1]);
            assert(rest.drop_last() =~= path@.subrange(0, end - 1));
        }
        end -= 1;
    }
    let ghost trimmed = path@.subrange(0, end as int);
    proof {
        if end > 0 {
            assert(trimmed.last() == path@[end - 1]);
        }
        assert(without_trailing_separators(trimmed) == trimmed);
    }
    let mut start: usize = end;
    assert(path@.subrange(end as int, end as int) =~= Seq::<char>::empty());
    while start > 0 && !(path[start - 1] == '/' || path[start - 1] == '\\')
        invariant
            start <= end <= total,
            total == path@.len(),
            trimmed == path@.subrange(0, end as int),
            tail_segment(trimmed) == tail_segment(path@.subrange(0, start as int)) + path@.subrange(
                start as int,
                end as int,
            ),
        decreases start,
    {
        proof {
            let head = path@.subrange(0, start as int);
            assert(head.last() == path@[start - 1]);
            assert(head.drop_last() =~= path@.subrange(0, start - 1));
            assert(tail_segment(head.drop_last()).push(head.last()) + path@.subrange(
                start as int,
                end as int,
            ) =~= tail_segment(head.drop_last()) + path@.subrange(start - 1, end as int));
        }
        start -= 1;
    }
    proof {
        let head = path@.subrange(0, start as int);
        if start > 0 {
            assert(head.last() == path@[start - 1]);
        }
        assert(tail_segment(head) =~= Seq::<char>::empty());
        assert(tail_segment(trimmed) =~= path@.subrange(start as int, end as int));
    }
    let name = slice_chars(path, start, end);
    if name.len() == 0 || same_chars(&name, &to_chars("..")) {
        to_chars("Extra")
    } else {
        replaced(&name, ' ', '_')
    }
}

/// Reads a typed scope.
pub fn parse_scope_entry(typed: &str) -> (r: Option<ScopeEntry>)
    ensures
        match r {
            Some(e) => scope_entry_of(typed@) == Some(e@),
            None => scope_entry_of(typed@) is None,
        },
{
    let entry = strip(&to_chars(typed), false);
    if entry.len() == 0 {
        return None;
    }
    let sep = to_chars("=");
    match find_sub(&entry, &sep) {
        Some(i) => {
            proof {
                lemma_first_occurrence_is(entry@, sep@, i as int);
            }
            let total: usize = entry.len();
            let key = strip(&slice_chars(&entry, 0, i), false);
            let path = strip(&slice_chars(&entry, i + sep.len(), total), false);
            Some(ScopeEntry { key: from_chars(&key), path: from_chars(&path) })
        },
        None => {
            let raw = strip(&entry, true);
            if reads_as_path(&raw) {
                Some(ScopeEntry { key: from_chars(&folder_key(&raw)), path: from_chars(&raw) })
            } else {
                Some(ScopeEntry { key: from_chars(&raw), path: String::new() })
            }
        },
    }
}

/// The parent of a set saved while the row of the set `current_id` is
/// selected: that set, or none where the row stands for no set.
pub fn parent_for_save(current_id: &str) -> (r: Option<String>)
    ensures
        r matches Some(p) ==> p@ == current_id@ && current_id@.len() > 0,
        r is None ==> current_id@.len() == 0,
{
    if current_id.unicode_len() == 0 {
        None
    } else {
        Some(String::from_str(current_id))
    }
}

/// The rows of the list of sets: the name and the identifier of each.
#[derive(Debug, Clone, PartialEq, Eq)]
pub struct Rows {
    pub items: Vec<String>,
    pub ids: Vec<String>,
}

/// The names of the sets, in order.
pub open spec fn names_of(sets: Seq<SetManifestView>) -> Seq<Seq<char>> {
    Seq::new(sets.len(), |i: int| sets[i].name)
}

/// The identifiers of the sets, in order.
pub open spec fn ids_of(sets: Seq<SetManifestView>) -> Seq<Seq<char>> {
    Seq::new(sets.len(), |i: int| sets[i].id)
}

/// The rows for a list of sets: one for each set, in order; where there is
/// no set, one row that stands for none, with the empty identifier.
pub fn rows_for(sets: &Vec<SetManifest>) -> (rows: Rows)
    ensures
        sets@.len() > 0 ==> texts(rows.items@) == names_of(views(sets@)) && texts(rows.ids@)
            == ids_of(views(sets@)),
        sets@.len() == 0 ==> texts(rows.items@) == seq!["BLK Zero Set"@] && texts(rows.ids@)
            == seq![Seq::<char>::empty()],
{
    let mut items: Vec<String> = Vec::new();
    let mut ids: Vec<String> = Vec::new();
    let mut i: usize = 0;
    while i < sets.len()
        invariant
            i <= sets@.len(),
            items@.len() == i,
            ids@.len() == i,
            forall|k: int| 0 <= k < i ==> (#[trigger] items@[k])@ == sets@[k].name@,
            forall|k: int| 0 <= k < i ==> (#[trigger] ids@[k])@ == sets@[k].id@,
        decreases sets@.len() - i,
    {
        items.push(sets[i].name.clone());
        ids.push(sets[i].id.clone());
        i += 1;
    }
    if items.len() == 0 {
        items.push(String::from_str("BLK Zero Set"));
        ids.push(String::new());
        assert(texts(items@) =~= seq!["BLK Zero Set"@]);
        assert(texts(ids@) =~= seq![Seq::<char>::empty()]);
    } else {
        assert(texts(items@) =~= names_of(views(sets@)));
        assert(texts(ids@) =~= ids_of(views(sets@)));
    }
    Rows { items: items, ids: ids }
}

/// The scopes and exclusions to compare the files under.
#[derive(Debug, Clone, PartialEq, Eq)]
pub struct Coverage {
    pub scopes: Vec<String>,
    pub exclusions: Vec<String>,
}

/// What to compare the files under: the scopes and exclusions of the
/// active set, or, where no set is active, every configured scope without
/// exclusions.
pub fn coverage_for(active: Option<&SetManifest>, config: &BlkConfig) -> (c: Coverage)
    ensures
        match active {
            Some(set) => texts(c.scopes@) == set@.scopes && texts(c.exclusions@) == set@.exclusions,
            None => texts(c.scopes@) == config.names() && c.exclusions@.len() == 0,
        },
{
    match active {
        Some(set) => Coverage {
            scopes: clone_strings(&set.scopes),
            exclusions: clone_strings(&set.exclusions),
        },
        None => {
            let mut scopes: Vec<String> = Vec::new();
            let mut i: usize = 0;
            while i < config.path_map.len()
                invariant
                    i <= config.path_map@.len(),
                    scopes@.len() == i,
                    forall|k: int| 0 <= k < i ==> (#[trigger] scopes@[k])@ == config.path_map@[k].0@,
                decreases config.path_map@.len() - i,
            {
                scopes.push(config.path_map[i].0.clone());
                i += 1;
            }
            assert(texts(scopes@) =~= config.names());
            Coverage { scopes: scopes, exclusions: Vec::new() }
        },
    }
}

} // verus!
