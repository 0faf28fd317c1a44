//! The delta builder: what a new set records of the difference between the
//! baseline and the files as they are now.

use vstd::prelude::*;
use vstd::string::*;
use crate::models::{
    list_has, opt_text, texts, Baseline, BlkConfig, FileEntryView, SetManifest, SetManifestView,
};
use crate::safety::{lowercase, lowercase_of};
use crate::scan::{entry_of, views, ScanItem, ScanItemView};
use crate::text::{
    contains_sub, find_sub, first_occurrence, from_chars, lemma_first_occurrence_is, replace_char,
    replaced, slice_chars, stripped_of, to_chars, without_char,
};

verus! {

/// The identifier made of a name that is already in lowercase: spaces become
/// underscores, slashes and backslashes are dropped.
pub open spec fn sanitized_id(lowered: Seq<char>) -> Seq<char> {
    without_char(without_char(replace_char(lowered, ' ', '_'), '/'), '\\')
}

/// The identifier of the set called `name`.
pub open spec fn set_id_of(name: Seq<char>) -> Seq<char> {
    sanitized_id(lowercase_of(name))
}

/// The identifier made of a name that is already in lowercase.
pub fn sanitize_id(lowered: &str) -> (id: String)
    ensures
        id@ == sanitized_id(lowered@),
{
    let underscored = replaced(&to_chars(lowered), ' ', '_');
    let no_slash = stripped_of(&underscored, '/');
    from_chars(&stripped_of(&no_slash, '\\'))
}

/// The identifier of the set called `name`. Two names can give the same
/// identifier; keeping identifiers apart is the caller's business.
pub fn derive_set_id(name: &str) -> (id: String)
    ensures
        id@ == set_id_of(name@),
{
    let lowered = lowercase(name);
    sanitize_id(lowered.as_str())
}

/// The two parts of a path key: what stands before the first `::` and what
/// stands after it.
pub open spec fn key_parts(key: Seq<char>) -> Option<(Seq<char>, Seq<char>)> {
    if contains_sub(key, "::"@) {
        let i = first_occurrence(key, "::"@);
        Some((key.subrange(0, i), key.subrange(i + "::"@.len(), key.len() as int)))
    } else {
        None
    }
}

/// The path of `rel` under the directory `root`.
pub open spec fn join_path(root: Seq<char>, rel: Seq<char>) -> Seq<char> {
    root + "/"@ + rel
}

/// Where the file of a path key lies: under the directory of its scope, if
/// the key has a scope and the scope is configured.
pub open spec fn key_location(config: BlkConfig, key: Seq<char>) -> Option<Seq<char>> {
    match key_parts(key) {
        Some((scope, rel)) => match config.root_of(scope) {
            Some(root) => Some(join_path(root, rel)),
            None => None,
        },
        None => None,
    }
}

/// The scope of a path key, if it has one.
pub open spec fn key_scope(key: Seq<char>) -> Option<Seq<char>> {
    match key_parts(key) {
        Some((scope, rel)) => Some(scope),
        None => None,
    }
}

/// The two parts of a path key.
pub fn split_key(key: &str) -> (r: Option<(String, String)>)
    ensures
        match r {
            Some((scope, rel)) => key_parts(key@) == Some((scope@, rel@)),
            None => key_parts(key@) is None,
        },
{
    let k = to_chars(key);
    let sep = to_chars("::");
    match find_sub(&k, &sep) {
        Some(i) => {
            proof {
                lemma_first_occurrence_is(k@, sep@, i as int);
            }
            let total: usize = k.len();
            let scope = slice_chars(&k, 0, i);
            let rel = slice_chars(&k, i + sep.len(), total);
            Some((from_chars(&scope), from_chars(&rel)))
        },
        None => None,
    }
}

/// The path of `rel` under the directory `root`.
pub fn joined(root: &str, rel: &str) -> (path: String)
    ensures
        path@ == join_path(root@, rel@),
{
    String::from_str(root).concat("/").concat(rel)
}

/// A baseline key with the path at which its file should lie.
#[derive(Debug, Clone, PartialEq, Eq)]
pub struct Probe {
    pub key: String,
    pub path: String,
}

/// A probe as a mathematical value.
pub struct ProbeView {
    pub key: Seq<char>,
    pub path: Seq<char>,
}

impl View for Probe {
    type V = ProbeView;

    open spec fn view(&self) -> ProbeView {
        ProbeView { key: self.key@, path: self.path@ }
    }
}

/// The key is one whose file a set over `scopes` answers for: its scope is
/// among them and is configured.
pub open spec fn probe_of(config: BlkConfig, scopes: Seq<Seq<char>>, key: Seq<char>) -> Option<
    ProbeView,
> {
    match key_scope(key) {
        Some(scope) => if scopes.contains(scope) {
            match key_location(config, key) {
                Some(path) => Some(ProbeView { key: key, path: path }),
                None => None,
            }
        } else {
            None
        },
        None => None,
    }
}

/// The probes for a list of keys, in order.
pub open spec fn probes_of(keys: Seq<Seq<char>>, config: BlkConfig, scopes: Seq<Seq<char>>) -> Seq<
    ProbeView,
>
    decreases keys.len(),
{
    if keys.len() == 0 {
        Seq::empty()
    } else {
        let before = probes_of(keys.drop_last(), config, scopes);
        match probe_of(config, scopes, keys.last()) {
            Some(p) => before.push(p),
            None => before,
        }
    }
}

/// The tombstones of a new set: the keys, in order, of the probes whose
/// path is among `missing`.
pub open spec fn deleted_among(probes: Seq<ProbeView>, missing: Seq<Seq<char>>) -> Seq<Seq<char>>
    decreases probes.len(),
{
    if probes.len() == 0 {
        Seq::empty()
    } else {
        let before = deleted_among(probes.drop_last(), missing);
        if missing.contains(probes.last().path) {
            before.push(probes.last().key)
        } else {
            before
        }
    }
}

/// The tombstones of a new set over `scopes`: every baseline key that the
/// set answers for and whose file is gone.
pub open spec fn deleted_paths_of(
    keys: Seq<Seq<char>>,
    config: BlkConfig,
    scopes: Seq<Seq<char>>,
    missing: Seq<Seq<char>>,
) -> Seq<Seq<char>> {
    deleted_among(probes_of(keys, config, scopes), missing)
}

/// The probe for one key, if a set over `scopes` answers for it.
fn probe_for(config: &BlkConfig, scopes: &Vec<String>, key: &String) -> (r: Option<Probe>)
    ensures
        match r {
            Some(p) => probe_of(*config, texts(scopes@), key@) == Some(p@),
            None => probe_of(*config, texts(scopes@), key@) is None,
        },
{
    match split_key(key.as_str()) {
        Some((scope, rel)) => {
            if list_has(scopes, &scope) {
                match config.get(scope.as_str()) {
                    Some(root) => Some(
                        Probe { key: key.clone(), path: joined(root.as_str(), rel.as_str()) },
                    ),
                    None => None,
                }
            } else {
                None
            }
        },
        None => None,
    }
}

/// The files whose presence decides the tombstones of a new set over
/// `scopes`: for every baseline key that the set answers for, the path to
/// look at.
pub fn tombstone_candidates(baseline: &Baseline, scopes: &Vec<String>, config: &BlkConfig) -> (r:
    Vec<Probe>)
    ensures
        views(r@) == probes_of(baseline.keys(), *config, texts(scopes@)),
{
    let mut r: Vec<Probe> = Vec::new();
    let mut i: usize = 0;
    while i < baseline.items.len()
        invariant
            i <= baseline.items@.len(),
            views(r@) == probes_of(baseline.keys().take(i as int), *config, texts(scopes@)),
        decreases baseline.items@.len() - i,
    {
        proof {
            let t = baseline.keys().take(i + 1);
            assert(t.drop_last() =~= baseline.keys().take(i as int));
            assert(t.last() == baseline.items@[i as int].0@);
        }
        let ghost before = r@;
        match probe_for(config, scopes, &baseline.items[i].0) {
            Some(p) => {
                r.push(p);
                assert(views(r@) =~= views(before).push(p@));
            },
            None => {},
        }
        i += 1;
    }
    assert(baseline.keys().take(baseline.items@.len() as int) =~= baseline.keys());
    r
}

/// A file to put into the archive of a new set.
#[derive(Debug, Clone, PartialEq, Eq)]
pub struct StagedFile {
    /// The file to copy.
    pub source: String,
    /// The scope directory of the archive that receives it.
    pub scope: String,
    /// Its path below that directory.
    pub rel: String,
    pub key: String,
    /// The hash of its content.
    pub hash: String,
}

/// A staged file as a mathematical value.
pub struct StagedFileView {
    pub source: Seq<char>,
    pub scope: Seq<char>,
    pub rel: Seq<char>,
    pub key: Seq<char>,
    pub hash: Seq<char>,
}

impl View for StagedFile {
    type V = StagedFileView;

    open spec fn view(&self) -> StagedFileView {
        StagedFileView {
            source: self.source@,
            scope: self.scope@,
            rel: self.rel@,
            key: self.key@,
            hash: self.hash@,
        }
    }
}

/// The file differs from what the baseline holds under `key`: it is new
/// there, or its hash is another. Nothing but the hash counts.
pub open spec fn is_changed(
    baseline: Map<Seq<char>, FileEntryView>,
    key: Seq<char>,
    hash: Seq<char>,
) -> bool {
    !baseline.contains_key(key) || baseline[key].hash != hash
}

/// The item goes into the archive: it differs from the baseline and lies
/// under its scope directory.
pub open spec fn is_staged(baseline: Map<Seq<char>, FileEntryView>, item: ScanItemView) -> bool {
    item.rel is Some && is_changed(baseline, item.key, entry_of(item).hash)
}

/// The staged file made of a scan item.
pub open spec fn staged_of(item: ScanItemView) -> StagedFileView {
    StagedFileView {
        source: item.path,
        scope: item.scope,
        rel: item.rel->0,
        key: item.key,
        hash: entry_of(item).hash,
    }
}

/// The files of a new archive: the staged ones among the items, in order.
pub open spec fn staging_of(items: Seq<ScanItemView>, baseline: Map<Seq<char>, FileEntryView>) -> Seq<
    StagedFileView,
>
    decreases items.len(),
{
    if items.len() == 0 {
        Seq::empty()
    } else {
        let before = staging_of(items.drop_last(), baseline);
        if is_staged(baseline, items.last()) {
            before.push(staged_of(items.last()))
        } else {
            before
        }
    }
}

/// What saving a new set comes to: its manifest and the files of its
/// archive.
#[derive(Debug, Clone, PartialEq, Eq)]
pub struct DeltaPlan {
    pub manifest: SetManifest,
    pub staged: Vec<StagedFile>,
}

/// The tombstones among `probes`, given the paths found missing.
fn deleted_paths(probes: &Vec<Probe>, missing: &Vec<String>) -> (r: Vec<String>)
    ensures
        texts(r@) == deleted_among(views(probes@), texts(missing@)),
{
    let mut r: Vec<String> = Vec::new();
    let mut i: usize = 0;
    while i < probes.len()
        invariant
            i <= probes@.len(),
            texts(r@) == deleted_among(views(probes@).take(i as int), texts(missing@)),
        decreases probes@.len() - i,
    {
        proof {
            let t = views(probes@).take(i + 1);
            assert(t.drop_last() =~= views(probes@).take(i as int));
            assert(t.last() == probes@[i as int]@);
        }
        let ghost before = r@;
        if list_has(missing, &probes[i].path) {
            r.push(probes[i].key.clone());
            assert(texts(r@) =~= texts(before).push(probes@[i as int].key@));
        }
        i += 1;
    }
    assert(views(probes@).take(probes@.len() as int) =~= views(probes@));
    r
}

/// No staged file has the hash that the baseline holds under its key.
pub open spec fn all_differ(staged: Seq<StagedFileView>, baseline: Map<Seq<char>, FileEntryView>) -> bool {
    forall|i: int|
        0 <= i < staged.len() ==> is_changed(baseline, (#[trigger] staged[i]).key, staged[i].hash)
}

/// The files of the new archive among `items`.
pub(crate) fn staging(items: &Vec<ScanItem>, baseline: &Baseline) -> (r: Vec<StagedFile>)
    requires
        baseline.wf(),
    ensures
        views(r@) == staging_of(views(items@), baseline@),
        all_differ(views(r@), baseline@),
{
    let mut r: Vec<StagedFile> = Vec::new();
    let mut i: usize = 0;
    while i < items.len()
        invariant
            i <= items@.len(),
            baseline.wf(),
            views(r@) == staging_of(views(items@).take(i as int), baseline@),
            all_differ(views(r@), baseline@),
        decreases items@.len() - i,
    {
        let item = &items[i];
        proof {
            let t = views(items@).take(i + 1);
            assert(t.drop_last() =~= views(items@).take(i as int));
            assert(t.last() == item@);
        }
        let current = match &item.hash {
            Some(h) => h.clone(),
            None => String::new(),
        };
        let changed = match baseline.get(item.key.as_str()) {
            Some(old) => old.hash != current,
            None => true,
        };
        assert(changed == is_changed(baseline@, item@.key, entry_of(item@).hash));
        let ghost before = r@;
        if changed {
            match &item.rel {
                Some(rel) => {
                    let staged = StagedFile {
                        source: item.path.clone(),
                        scope: item.scope.clone(),
                        rel: rel.clone(),
                        key: item.key.clone(),
                        hash: current,
                    };
                    r.push(staged);
                    assert(views(r@) =~= views(before).push(staged_of(item@)));
                },
                None => {},
            }
        }
        i += 1;
    }
    assert(views(items@).take(items@.len() as int) =~= views(items@));
    r
}

/// Builds a new set called `name` under the parent `parent_id`.
///
/// `baseline` is the state that the parent left; `items` are the files of
/// the scopes as they are now, each with the hash of its present content
/// (see `scan_plan`); `missing` lists, of the paths that
/// `tombstone_candidates` gave, those at which no file is found.
///
/// The manifest records the set with `created_at` as its time of creation
/// and, as its tombstones, every baseline key that the set answers for and
/// whose file is gone. The archive receives exactly the items that are new
/// or whose hash differs from the baseline's: no file of it has the hash
/// that the baseline holds for its key.
pub fn engine_save_new_delta(
    config: &BlkConfig,
    name: String,
    parent_id: Option<String>,
    scopes: Vec<String>,
    exclusions: Vec<String>,
    created_at: u64,
    baseline: &Baseline,
    missing: &Vec<String>,
    items: &Vec<ScanItem>,
) -> (plan: DeltaPlan)
    requires
        baseline.wf(),
    ensures
        plan.manifest@ == (SetManifestView {
            id: set_id_of(name@),
            name: name@,
            parent_id: opt_text(parent_id),
            created_at: created_at,
            scopes: texts(scopes@),
            exclusions: texts(exclusions@),
            deleted_paths: deleted_paths_of(baseline.keys(), *config, texts(scopes@), texts(missing@)),
        }),
        views(plan.staged@) == staging_of(views(items@), baseline@),
        all_differ(views(plan.staged@), baseline@),
{
    let id = derive_set_id(name.as_str());
    let probes = tombstone_candidates(baseline, &scopes, config);
    let deleted = deleted_paths(&probes, missing);
    let staged = staging(items, baseline);
    let manifest = SetManifest {
        id: id,
        name: name,
        parent_id: parent_id,
        created_at: created_at,
        scopes: scopes,
        exclusions: exclusions,
        deleted_paths: deleted,
    };
    DeltaPlan { manifest: manifest, staged: staged }
}

} // verus!
