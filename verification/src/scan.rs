//! The scanner: from what a walk of the scope directories found to the map
//! of path keys and file entries, with the reuse of hashes that are still
//! good.

use vstd::prelude::*;
use vstd::string::*;
use crate::exclusion::{
    all_portable, is_excluded, is_possibly_excluded, is_surely_excluded, lemma_exclusion_bounds,
    matches_exclusion, normalized,
};
use crate::hashing::{hash_file, opt_bytes, recorded_hash};
use crate::models::{opt_text, texts, Baseline, BlkConfig, FileEntry, FileEntryView};
use crate::safety::{is_protected, opt_str, should_ignore};
use crate::text::{from_chars, replaced, to_chars};

verus! {

/// The views of a sequence of records, in order.
pub open spec fn views<T: View>(s: Seq<T>) -> Seq<T::V> {
    Seq::new(s.len(), |i: int| s[i]@)
}

/// One entry that a walk of a scope directory came upon.
#[derive(Debug, Clone, PartialEq, Eq)]
pub struct WalkedEntry {
    /// The scope whose directory was walked.
    pub scope: String,
    /// The path of the entry as the walk gave it.
    pub path: String,
    /// The same path relative to the scope directory, where it lies under it.
    pub rel: Option<String>,
    pub is_file: bool,
    pub is_dir: bool,
    /// Length in bytes; 0 where the entry could not be examined.
    pub size: u64,
    /// Last modification in seconds since the epoch; 0 where unknown.
    pub modified: u64,
}

/// A walked entry as a mathematical value.
pub struct WalkedEntryView {
    pub scope: Seq<char>,
    pub path: Seq<char>,
    pub rel: Option<Seq<char>>,
    pub is_file: bool,
    pub is_dir: bool,
    pub size: u64,
    pub modified: u64,
}

impl View for WalkedEntry {
    type V = WalkedEntryView;

    open spec fn view(&self) -> WalkedEntryView {
        WalkedEntryView {
            scope: self.scope@,
            path: self.path@,
            rel: opt_text(self.rel),
            is_file: self.is_file,
            is_dir: self.is_dir,
            size: self.size,
            modified: self.modified,
        }
    }
}

/// A file that the scanner takes into account, with its key.
#[derive(Debug, Clone, PartialEq, Eq)]
pub struct ScanItem {
    pub scope: String,
    pub path: String,
    pub rel: Option<String>,
    /// The path key: scope, `::`, and the relative path with `/` separators.
    pub key: String,
    pub size: u64,
    pub modified: u64,
    /// The content hash where it is known: taken over from an earlier
    /// baseline by the scanner, or filled in by whoever read the file.
    pub hash: Option<String>,
}

/// A scan item as a mathematical value.
pub struct ScanItemView {
    pub scope: Seq<char>,
    pub path: Seq<char>,
    pub rel: Option<Seq<char>>,
    pub key: Seq<char>,
    pub size: u64,
    pub modified: u64,
    pub hash: Option<Seq<char>>,
}

impl View for ScanItem {
    type V = ScanItemView;

    open spec fn view(&self) -> ScanItemView {
        ScanItemView {
            scope: self.scope@,
            path: self.path@,
            rel: opt_text(self.rel),
            key: self.key@,
            size: self.size,
            modified: self.modified,
            hash: opt_text(self.hash),
        }
    }
}

/// The key of a file: its scope, `::`, and its relative path with every
/// backslash turned into a slash.
pub open spec fn path_key(scope: Seq<char>, rel: Seq<char>) -> Seq<char> {
    scope + "::"@ + normalized(rel)
}

/// The path that a walked entry is keyed by: the relative one, or the whole
/// path where the entry does not lie under its scope directory.
pub open spec fn keyed_path(e: WalkedEntryView) -> Seq<char> {
    match e.rel {
        Some(r) => r,
        None => e.path,
    }
}

/// The walked entry is taken into the scan: it is a file that neither the
/// safety filter nor an exclusion holds back.
pub open spec fn is_scanned(
    e: WalkedEntryView,
    exclusions: Seq<Seq<char>>,
    exe: Option<Seq<char>>,
) -> bool {
    &&& !is_protected(e.path, exe)
    &&& !is_excluded(e.path, exclusions)
    &&& e.is_file
}

/// The reuse rule: the hash of the earlier entry under the same key is taken
/// over when size and modification time are both unchanged.
pub open spec fn reused_hash(
    key: Seq<char>,
    size: u64,
    modified: u64,
    prior: Option<Map<Seq<char>, FileEntryView>>,
) -> Option<Seq<char>> {
    match prior {
        Some(m) => if m.contains_key(key) && m[key].size == size && m[key].modified == modified {
            Some(m[key].hash)
        } else {
            None
        },
        None => None,
    }
}

/// The scan item made of a walked entry.
pub open spec fn scan_item_of(
    e: WalkedEntryView,
    prior: Option<Map<Seq<char>, FileEntryView>>,
) -> ScanItemView {
    let key = path_key(e.scope, keyed_path(e));
    ScanItemView {
        scope: e.scope,
        path: e.path,
        rel: e.rel,
        key: key,
        size: e.size,
        modified: e.modified,
        hash: reused_hash(key, e.size, e.modified, prior),
    }
}

/// The scan items of a walk: one for each scanned entry, in walk order.
pub open spec fn scan_plan_of(
    walked: Seq<WalkedEntryView>,
    exclusions: Seq<Seq<char>>,
    prior: Option<Map<Seq<char>, FileEntryView>>,
    exe: Option<Seq<char>>,
) -> Seq<ScanItemView>
    decreases walked.len(),
{
    if walked.len() == 0 {
        Seq::empty()
    } else {
        let before = scan_plan_of(walked.drop_last(), exclusions, prior, exe);
        if is_scanned(walked.last(), exclusions, exe) {
            before.push(scan_item_of(walked.last(), prior))
        } else {
            before
        }
    }
}

/// The entry recorded for a scan item: a hash that is not known is recorded
/// as the empty string.
pub open spec fn entry_of(item: ScanItemView) -> FileEntryView {
    FileEntryView {
        hash: match item.hash {
            Some(h) => h,
            None => Seq::empty(),
        },
        size: item.size,
        modified: item.modified,
    }
}

/// The map that a list of scan items amounts to. Where a key occurs twice,
/// the later item stands.
pub open spec fn scan_result(items: Seq<ScanItemView>) -> Map<Seq<char>, FileEntryView>
    decreases items.len(),
{
    if items.len() == 0 {
        Map::empty()
    } else {
        scan_result(items.drop_last()).insert(items.last().key, entry_of(items.last()))
    }
}

/// The view of an optional baseline.
pub open spec fn opt_baseline(b: Option<&Baseline>) -> Option<Map<Seq<char>, FileEntryView>> {
    match b {
        Some(m) => Some(m@),
        None => None,
    }
}

/// The scope directories to walk: for each name of `scopes` that is
/// configured, in order, the name with its directory.
pub open spec fn scope_roots_of(config: BlkConfig, scopes: Seq<Seq<char>>) -> Seq<
    (Seq<char>, Seq<char>),
>
    decreases scopes.len(),
{
    if scopes.len() == 0 {
        Seq::empty()
    } else {
        let before = scope_roots_of(config, scopes.drop_last());
        match config.root_of(scopes.last()) {
            Some(root) => before.push((scopes.last(), root)),
            None => before,
        }
    }
}

/// The views of a list of pairs of strings.
pub open spec fn pair_texts(v: Seq<(String, String)>) -> Seq<(Seq<char>, Seq<char>)> {
    Seq::new(v.len(), |i: int| (v[i].0@, v[i].1@))
}

/// The scope directories to walk for `scopes`.
pub fn scope_roots(config: &BlkConfig, scopes: &Vec<String>) -> (r: Vec<(String, String)>)
    ensures
        pair_texts(r@) == scope_roots_of(*config, texts(scopes@)),
{
    let mut r: Vec<(String, String)> = Vec::new();
    let mut i: usize = 0;
    while i < scopes.len()
        invariant
            i <= scopes@.len(),
            pair_texts(r@) == scope_roots_of(*config, texts(scopes@).take(i as int)),
        decreases scopes@.len() - i,
    {
        proof {
            let t = texts(scopes@).take(i + 1);
            assert(t.drop_last() =~= texts(scopes@).take(i as int));
            assert(t.last() == scopes@[i as int]@);
        }
        let ghost before = r@;
        match config.get(scopes[i].as_str()) {
            Some(root) => {
                r.push((scopes[i].clone(), root.clone()));
                assert(pair_texts(r@) =~= pair_texts(before).push((scopes@[i as int]@, root@)));
            },
            None => {},
        }
        i += 1;
    }
    assert(texts(scopes@).take(scopes@.len() as int) =~= texts(scopes@));
    r
}

/// The key of a file of `scope` with the relative path `rel`.
pub fn make_key(scope: &str, rel: &str) -> (key: String)
    ensures
        key@ == path_key(scope@, rel@),
{
    let key = String::from_str(scope).concat("::");
    let tail = from_chars(&replaced(&to_chars(rel), '\\', '/'));
    key.concat(tail.as_str())
}

/// The scan items of a walk, given for each entry whether the exclusions
/// hold it back: one item for each file that is neither protected nor held
/// back, in walk order.
pub open spec fn scan_plan_with(
    walked: Seq<WalkedEntryView>,
    held_back: Seq<bool>,
    prior: Option<Map<Seq<char>, FileEntryView>>,
    exe: Option<Seq<char>>,
) -> Seq<ScanItemView>
    decreases walked.len(),
{
    if walked.len() == 0 {
        Seq::empty()
    } else {
        let before = scan_plan_with(walked.drop_last(), held_back.drop_last(), prior, exe);
        let e = walked.last();
        if !is_protected(e.path, exe) && !held_back.last() && e.is_file {
            before.push(scan_item_of(e, prior))
        } else {
            before
        }
    }
}

/// The verdicts fit the exclusions: there is one for each entry of the
/// walk; an entry that the exclusions surely exclude is held back, and none
/// is held back that they do not possibly exclude.
pub open spec fn verdicts_fit(
    walked: Seq<WalkedEntryView>,
    exclusions: Seq<Seq<char>>,
    held_back: Seq<bool>,
) -> bool {
    &&& held_back.len() == walked.len()
    &&& forall|i: int|
        0 <= i < walked.len() ==> (is_surely_excluded((#[trigger] walked[i]).path, exclusions)
            ==> held_back[i])
    &&& forall|i: int|
        0 <= i < walked.len() ==> (held_back[i] ==> is_possibly_excluded(
            (#[trigger] walked[i]).path,
            exclusions,
        ))
}

/// The item is that of some file of the walk.
pub open spec fn comes_from(
    walked: Seq<WalkedEntryView>,
    prior: Option<Map<Seq<char>, FileEntryView>>,
    item: ScanItemView,
) -> bool {
    exists|i: int|
        0 <= i < walked.len() && (#[trigger] walked[i]).is_file && item == scan_item_of(
            walked[i],
            prior,
        )
}

/// The hash to take over for a file, by the reuse rule.
fn reuse(key: &str, size: u64, modified: u64, prior: Option<&Baseline>) -> (r: Option<String>)
    requires
        prior matches Some(b) ==> b.wf(),
    ensures
        opt_text(r) == reused_hash(key@, size, modified, opt_baseline(prior)),
{
    match prior {
        Some(b) => match b.get(key) {
            Some(old) => if old.size == size && old.modified == modified {
                Some(old.hash.clone())
            } else {
                None
            },
            None => None,
        },
        None => None,
    }
}

/// Picks the files of a walk that the scan takes into account, and gives each
/// its key and, by the reuse rule, the hash that `prior` still vouches for.
///
/// The files whose `hash` comes back as `None` are the ones to read and hash.
/// With exclusions free of backslashes the result is exactly `scan_plan_of`.
/// With others, whether a pattern with a backslash matches is left to the
/// `glob` crate on the system at hand, and the result is `scan_plan_with`
/// for verdicts that fit the exclusions: every unprotected file is in,
/// in walk order, but those that the exclusions hold back; what is surely
/// excluded is held back, and nothing is that is not possibly excluded. No
/// item ever stands for a protected path.
pub fn scan_plan(
    walked: &Vec<WalkedEntry>,
    exclusions: &Vec<String>,
    prior: Option<&Baseline>,
    exe: Option<&str>,
) -> (plan: Vec<ScanItem>)
    requires
        prior matches Some(b) ==> b.wf(),
    ensures
        all_portable(texts(exclusions@)) ==> views(plan@) == scan_plan_of(
            views(walked@),
            texts(exclusions@),
            opt_baseline(prior),
            opt_str(exe),
        ),
        exists|held_back: Seq<bool>|
            verdicts_fit(views(walked@), texts(exclusions@), held_back) && views(plan@)
                == #[trigger] scan_plan_with(
                views(walked@),
                held_back,
                opt_baseline(prior),
                opt_str(exe),
            ),
        forall|i: int| 0 <= i < plan@.len() ==> !is_protected(#[trigger] plan@[i].path@, opt_str(exe)),
        forall|i: int|
            0 <= i < plan@.len() ==> !is_surely_excluded(
                #[trigger] plan@[i].path@,
                texts(exclusions@),
            ),
        forall|i: int|
            0 <= i < plan@.len() ==> comes_from(
                views(walked@),
                opt_baseline(prior),
                #[trigger] plan@[i]@,
            ),
{
    let mut plan: Vec<ScanItem> = Vec::new();
    let ghost mut held_back: Seq<bool> = Seq::empty();
    let mut i: usize = 0;
    while i < walked.len()
        invariant
            i <= walked@.len(),
            prior matches Some(b) ==> b.wf(),
            verdicts_fit(views(walked@).take(i as int), texts(exclusions@), held_back),
            views(plan@) == scan_plan_with(
                views(walked@).take(i as int),
                held_back,
                opt_baseline(prior),
                opt_str(exe),
            ),
            forall|k: int|
                0 <= k < plan@.len() ==> !is_surely_excluded(
                    #[trigger] plan@[k].path@,
                    texts(exclusions@),
                ),
            all_portable(texts(exclusions@)) ==> views(plan@) == scan_plan_of(
                views(walked@).take(i as int),
                texts(exclusions@),
                opt_baseline(prior),
                opt_str(exe),
            ),
            forall|k: int|
                0 <= k < plan@.len() ==> !is_protected(#[trigger] plan@[k].path@, opt_str(exe)),
            forall|k: int|
                0 <= k < plan@.len() ==> comes_from(
                    views(walked@),
                    opt_baseline(prior),
                    #[trigger] plan@[k]@,
                ),
        decreases walked@.len() - i,
    {
        let e = &walked[i];
        proof {
            let t = views(walked@).take(i + 1);
            assert(t.drop_last() =~= views(walked@).take(i as int));
            assert(t.last() == e@);
        }
        let ghost earlier = held_back;
        let ghost mut verdict: bool = is_surely_excluded(e@.path, texts(exclusions@));
        let mut excluded = true;
        if !should_ignore(e.path.as_str(), exe) {
            excluded = matches_exclusion(e.path.as_str(), exclusions);
            proof {
                verdict = excluded;
            }
        }
        proof {
            lemma_exclusion_bounds(e@.path, texts(exclusions@));
            held_back = earlier.push(verdict);
            assert(held_back.drop_last() =~= earlier);
            let t = views(walked@).take(i + 1);
            assert forall|k: int| 0 <= k < t.len() implies (is_surely_excluded(
                (#[trigger] t[k]).path,
                texts(exclusions@),
            ) ==> held_back[k]) && (held_back[k] ==> is_possibly_excluded(
                t[k].path,
                texts(exclusions@),
            )) by {
                if k < i {
                    assert(views(walked@).take(i as int)[k] == t[k]);
                    assert(held_back[k] == earlier[k]);
                }
            }
        }
        if !excluded && e.is_file {
            let rel = match &e.rel {
                Some(r) => Some(r.clone()),
                None => None,
            };
            let key = match &e.rel {
                Some(r) => make_key(e.scope.as_str(), r.as_str()),
                None => make_key(e.scope.as_str(), e.path.as_str()),
            };
            let hash = reuse(key.as_str(), e.size, e.modified, prior);
            let item = ScanItem {
                scope: e.scope.clone(),
                path: e.path.clone(),
                rel: rel,
                key: key,
                size: e.size,
                modified: e.modified,
                hash: hash,
            };
            let ghost before = plan@;
            assert(item@ == scan_item_of(e@, opt_baseline(prior)));
            assert(views(walked@)[i as int] == e@);
            assert(comes_from(views(walked@), opt_baseline(prior), item@));
            plan.push(item);
            assert(views(plan@) =~= views(before).push(item@));
            assert forall|k: int| 0 <= k < plan@.len() implies comes_from(
                views(walked@),
                opt_baseline(prior),
                #[trigger] plan@[k]@,
            ) by {
                if k < before.len() {
                    assert(plan@[k] == before[k]);
                }
            }
        }
        i += 1;
    }
    assert(views(walked@).take(walked@.len() as int) =~= views(walked@));
    plan
}

/// The item with its hash settled: the hash it has, else `hash`.
pub open spec fn settled(item: ScanItemView, hash: Seq<char>) -> ScanItemView {
    ScanItemView {
        hash: Some(
            match item.hash {
                Some(h) => h,
                None => hash,
            },
        ),
        ..item
    }
}

/// Settles the hash of a scan item. An item that took its hash over keeps
/// it; any other gets the hash of `content`, the content of its file, or the
/// empty hash where the file could not be read.
pub fn settle_hash(item: ScanItem, content: Option<&[u8]>) -> (r: ScanItem)
    ensures
        r@ == settled(item@, recorded_hash(opt_bytes(content))),
{
    let mut r = item;
    if r.hash.is_none() {
        r.hash = Some(hash_file(content));
    }
    r
}

/// The state that a list of scan items, their hashes filled in, amounts to.
pub fn scan_state(items: &Vec<ScanItem>) -> (state: Baseline)
    ensures
        state.wf(),
        state@ == scan_result(views(items@)),
{
    let mut state = Baseline::new();
    let mut i: usize = 0;
    while i < items.len()
        invariant
            i <= items@.len(),
            state.wf(),
            state@ == scan_result(views(items@).take(i as int)),
        decreases items@.len() - i,
    {
        let item = &items[i];
        proof {
            let t = views(items@).take(i + 1);
            assert(t.drop_last() =~= views(items@).take(i as int));
            assert(t.last() == item@);
        }
        let hash = match &item.hash {
            Some(h) => h.clone(),
            None => String::new(),
        };
        state.insert(
            item.key.clone(),
            FileEntry { hash: hash, size: item.size, modified: item.modified },
        );
        i += 1;
    }
    assert(views(items@).take(items@.len() as int) =~= views(items@));
    state
}

} // verus!
