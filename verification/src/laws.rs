//! Laws that tie the scanner, the delta builder and the restore together.
//!
//! A state of the tracked files is taken here for what a scan sees of it:
//! the map from path keys to content hashes.

use vstd::prelude::*;
use crate::delta::{
    deleted_among, deleted_paths_of, is_changed, is_staged, join_path, key_location, key_parts,
    key_scope, probe_of, probes_of, staged_of, staging_of, ProbeView, StagedFileView,
};
use crate::exclusion::normalized;
use crate::models::{BlkConfig, FileEntryView};
use crate::restore::{name_parts, placement};
use crate::scan::{
    entry_of, is_scanned, keyed_path, path_key, scan_item_of, scan_plan_of, scan_result, settled,
    ScanItemView, WalkedEntryView,
};
use crate::text::{is_first_occurrence, lemma_first_occurrence_is, occurs_at};

verus! {

/// The content hashes of a state, key by key.
pub open spec fn hashes_of(state: Map<Seq<char>, FileEntryView>) -> Map<Seq<char>, Seq<char>> {
    Map::new(|k: Seq<char>| state.contains_key(k), |k: Seq<char>| state[k].hash)
}

/// What an archive holds, as hashes by key. Of two files with one key the
/// later stands.
pub open spec fn staged_hashes(staged: Seq<StagedFileView>) -> Map<Seq<char>, Seq<char>>
    decreases staged.len(),
{
    if staged.len() == 0 {
        Map::empty()
    } else {
        staged_hashes(staged.drop_last()).insert(staged.last().key, staged.last().hash)
    }
}

/// One layer on top of a state: the files of the archive overwrite, then
/// the tombstones remove.
pub open spec fn layered(
    below: Map<Seq<char>, Seq<char>>,
    archive: Map<Seq<char>, Seq<char>>,
    tombstones: Set<Seq<char>>,
) -> Map<Seq<char>, Seq<char>> {
    below.union_prefer_right(archive).remove_keys(tombstones)
}

/// The keys of the items are all different.
pub open spec fn distinct_keys(items: Seq<ScanItemView>) -> bool {
    forall|i: int, j: int|
        0 <= i < j < items.len() ==> (#[trigger] items[i]).key != (#[trigger] items[j]).key
}

/// Some item has the key.
pub open spec fn has_key(items: Seq<ScanItemView>, key: Seq<char>) -> bool {
    exists|i: int| 0 <= i < items.len() && (#[trigger] items[i]).key == key
}

/// What a scan result holds: an entry for each key of an item, and for
/// items with different keys the entry of each.
pub proof fn lemma_scan_result(items: Seq<ScanItemView>, key: Seq<char>)
    requires
        distinct_keys(items),
    ensures
        scan_result(items).contains_key(key) <==> has_key(items, key),
        forall|i: int|
            0 <= i < items.len() && (#[trigger] items[i]).key == key ==> scan_result(items)[key]
                == entry_of(items[i]),
    decreases items.len(),
{
    if items.len() > 0 {
        let rest = items.drop_last();
        assert(distinct_keys(rest)) by {
            assert forall|i: int, j: int| 0 <= i < j < rest.len() implies (#[trigger] rest[i]).key
                != (#[trigger] rest[j]).key by {
                assert(items[i].key != items[j].key);
            }
        }
        lemma_scan_result(rest, key);
        if has_key(rest, key) {
            let i = choose|i: int| 0 <= i < rest.len() && (#[trigger] rest[i]).key == key;
            assert(items[i].key == key);
        }
        if has_key(items, key) && items.last().key != key {
            let i = choose|i: int| 0 <= i < items.len() && (#[trigger] items[i]).key == key;
            assert(rest[i].key == key);
        }
        if items.last().key == key {
            assert(items[items.len() - 1].key == key);
        }
        assert forall|i: int|
            0 <= i < items.len() && (#[trigger] items[i]).key == key implies scan_result(
            items,
        )[key] == entry_of(items[i]) by {
            if i < items.len() - 1 {
                assert(rest[i].key == key);
                assert(items[i].key != items[items.len() - 1].key);
            }
        }
    }
}

/// What the archive of a new set holds: a hash for each key of a staged
/// item, and for items with different keys the hash of each.
pub proof fn lemma_staged_hashes(
    items: Seq<ScanItemView>,
    baseline: Map<Seq<char>, FileEntryView>,
    key: Seq<char>,
)
    requires
        distinct_keys(items),
    ensures
        staged_hashes(staging_of(items, baseline)).contains_key(key) <==> exists|i: int|
            0 <= i < items.len() && (#[trigger] items[i]).key == key && is_staged(baseline, items[i]),
        forall|i: int|
            0 <= i < items.len() && (#[trigger] items[i]).key == key && is_staged(
                baseline,
                items[i],
            ) ==> staged_hashes(staging_of(items, baseline))[key] == entry_of(items[i]).hash,
    decreases items.len(),
{
    if items.len() > 0 {
        let rest = items.drop_last();
        let last = items.last();
        assert(distinct_keys(rest)) by {
            assert forall|i: int, j: int| 0 <= i < j < rest.len() implies (#[trigger] rest[i]).key
                != (#[trigger] rest[j]).key by {
                assert(items[i].key != items[j].key);
            }
        }
        lemma_staged_hashes(rest, baseline, key);
        let before = staging_of(rest, baseline);
        let all = staging_of(items, baseline);
        if is_staged(baseline, last) {
            assert(all.drop_last() =~= before);
            assert(all.last() == staged_of(last));
        }
        let found_rest = exists|i: int|
            0 <= i < rest.len() && (#[trigger] rest[i]).key == key && is_staged(baseline, rest[i]);
        let found = exists|i: int|
            0 <= i < items.len() && (#[trigger] items[i]).key == key && is_staged(baseline, items[i]);
        if found_rest {
            let i = choose|i: int|
                0 <= i < rest.len() && (#[trigger] rest[i]).key == key && is_staged(baseline, rest[i]);
            assert(items[i].key == key && is_staged(baseline, items[i]));
        }
        if found {
            let i = choose|i: int|
                0 <= i < items.len() && (#[trigger] items[i]).key == key && is_staged(
                    baseline,
                    items[i],
                );
            if i < items.len() - 1 {
                assert(rest[i].key == key && is_staged(baseline, rest[i]));
            }
        }
        if last.key == key && is_staged(baseline, last) {
            assert(items[items.len() - 1].key == key);
        }
        assert forall|i: int|
            0 <= i < items.len() && (#[trigger] items[i]).key == key && is_staged(
                baseline,
                items[i],
            ) implies staged_hashes(all)[key] == entry_of(items[i]).hash by {
            if i < items.len() - 1 {
                assert(rest[i].key == key);
                assert(items[i].key != items[items.len() - 1].key);
            }
        }
    }
}

/// Save, then restore, gives back what was saved.
///
/// `baseline` is the state that the chain of the parent restores, `items`
/// the files as they stand, each with the hash of its content. The new set
/// stages what `staging_of` says and has the tombstones `deleted`. Its
/// layer, put on top of the parent's state, is then exactly the state that
/// the scan saw: the files that the exclusions or the safety filter hold
/// back are in neither.
///
/// The law asks that the items have different keys and lie under their
/// scope directories, and that the tombstones are the baseline keys that the
/// scan no longer finds. A baseline key that is no longer scanned while its
/// file is still there, as after a new exclusion, has no tombstone: its file
/// comes back as the parent has it.
pub proof fn lemma_save_then_restore(
    items: Seq<ScanItemView>,
    baseline: Map<Seq<char>, FileEntryView>,
    deleted: Seq<Seq<char>>,
)
    requires
        distinct_keys(items),
        forall|i: int| 0 <= i < items.len() ==> (#[trigger] items[i]).rel is Some,
        forall|k: Seq<char>|
            baseline.contains_key(k) && !has_key(items, k) ==> #[trigger] deleted.contains(k),
        forall|k: Seq<char>| #[trigger] deleted.contains(k) ==> !has_key(items, k),
    ensures
        layered(
            hashes_of(baseline),
            staged_hashes(staging_of(items, baseline)),
            deleted.to_set(),
        ) == hashes_of(scan_result(items)),
{
    let below = hashes_of(baseline);
    let archive = staged_hashes(staging_of(items, baseline));
    let result = layered(below, archive, deleted.to_set());
    let seen = hashes_of(scan_result(items));
    assert forall|k: Seq<char>| #[trigger]
        result.contains_key(k) == seen.contains_key(k) && (result.contains_key(k) ==> result[k]
            == seen[k]) by {
        lemma_scan_result(items, k);
        lemma_staged_hashes(items, baseline, k);
        if has_key(items, k) {
            let i = choose|i: int| 0 <= i < items.len() && (#[trigger] items[i]).key == k;
            assert(!deleted.contains(k));
            assert(scan_result(items)[k] == entry_of(items[i]));
            if is_staged(baseline, items[i]) {
                assert(archive[k] == entry_of(items[i]).hash);
            } else {
                assert(!is_changed(baseline, k, entry_of(items[i]).hash));
                assert(!archive.contains_key(k)) by {
                    if archive.contains_key(k) {
                        let j = choose|j: int|
                            0 <= j < items.len() && (#[trigger] items[j]).key == k && is_staged(
                                baseline,
                                items[j],
                            );
                        if j < i {
                            assert(items[j].key != items[i].key);
                        } else if i < j {
                            assert(items[i].key != items[j].key);
                        }
                    }
                }
            }
        } else {
            assert(!archive.contains_key(k));
            if baseline.contains_key(k) {
                assert(deleted.contains(k));
            }
        }
    }
    assert(result =~= seen);
}

/// Which keys the probes cover: the probes of a list of keys are the
/// probes of the keys that have one.
pub proof fn lemma_probes(
    keys: Seq<Seq<char>>,
    config: BlkConfig,
    scopes: Seq<Seq<char>>,
    probe: ProbeView,
)
    ensures
        probes_of(keys, config, scopes).contains(probe) <==> exists|i: int|
            0 <= i < keys.len() && probe_of(config, scopes, #[trigger] keys[i]) == Some(probe),
    decreases keys.len(),
{
    if keys.len() > 0 {
        let rest = keys.drop_last();
        let before = probes_of(rest, config, scopes);
        let all = probes_of(keys, config, scopes);
        lemma_probes(rest, config, scopes, probe);
        if before.contains(probe) {
            let j = before.index_of(probe);
            assert(all[j] == probe);
            let i = choose|i: int|
                0 <= i < rest.len() && probe_of(config, scopes, #[trigger] rest[i]) == Some(probe);
            assert(keys[i] == rest[i]);
        }
        if probe_of(config, scopes, keys.last()) == Some(probe) {
            assert(all[before.len() as int] == probe);
            assert(keys[keys.len() - 1] == keys.last());
        }
        if all.contains(probe) && !before.contains(probe) {
            let j = all.index_of(probe);
            if j < before.len() {
                assert(before[j] == probe);
            }
        }
        if exists|i: int|
            0 <= i < keys.len() && probe_of(config, scopes, #[trigger] keys[i]) == Some(probe) {
            let i = choose|i: int|
                0 <= i < keys.len() && probe_of(config, scopes, #[trigger] keys[i]) == Some(probe);
            if i < keys.len() - 1 {
                assert(rest[i] == keys[i]);
            }
        }
    }
}

/// Which probes become tombstones: those whose path is missing.
pub proof fn lemma_deleted_among(probes: Seq<ProbeView>, missing: Seq<Seq<char>>, key: Seq<char>)
    ensures
        deleted_among(probes, missing).contains(key) <==> exists|i: int|
            0 <= i < probes.len() && (#[trigger] probes[i]).key == key && missing.contains(
                probes[i].path,
            ),
    decreases probes.len(),
{
    if probes.len() > 0 {
        let rest = probes.drop_last();
        let before = deleted_among(rest, missing);
        let all = deleted_among(probes, missing);
        lemma_deleted_among(rest, missing, key);
        if before.contains(key) {
            let j = before.index_of(key);
            assert(all[j] == key);
            let i = choose|i: int|
                0 <= i < rest.len() && (#[trigger] rest[i]).key == key && missing.contains(
                    rest[i].path,
                );
            assert(probes[i] == rest[i]);
        }
        if probes.last().key == key && missing.contains(probes.last().path) {
            assert(all[before.len() as int] == key);
            assert(probes[probes.len() - 1] == probes.last());
        }
        if all.contains(key) && !before.contains(key) {
            let j = all.index_of(key);
            if j < before.len() {
                assert(before[j] == key);
            }
        }
        if exists|i: int|
            0 <= i < probes.len() && (#[trigger] probes[i]).key == key && missing.contains(
                probes[i].path,
            ) {
            let i = choose|i: int|
                0 <= i < probes.len() && (#[trigger] probes[i]).key == key && missing.contains(
                    probes[i].path,
                );
            if i < probes.len() - 1 {
                assert(rest[i] == probes[i]);
            }
        }
    }
}

/// What the tombstones of a new set are: exactly the keys of the baseline
/// that the set answers for (their scope is one of the set's scopes and is
/// configured) and whose file is missing from its place.
pub proof fn lemma_tombstones_are_the_lost_keys(
    keys: Seq<Seq<char>>,
    config: BlkConfig,
    scopes: Seq<Seq<char>>,
    missing: Seq<Seq<char>>,
    key: Seq<char>,
)
    ensures
        deleted_paths_of(keys, config, scopes, missing).contains(key) <==> (keys.contains(key)
            && probe_of(config, scopes, key) is Some && missing.contains(
            probe_of(config, scopes, key)->0.path,
        )),
{
    let probes = probes_of(keys, config, scopes);
    lemma_deleted_among(probes, missing, key);
    if deleted_paths_of(keys, config, scopes, missing).contains(key) {
        let i = choose|i: int|
            0 <= i < probes.len() && (#[trigger] probes[i]).key == key && missing.contains(
                probes[i].path,
            );
        let probe = probes[i];
        lemma_probes(keys, config, scopes, probe);
        assert(probes.contains(probe));
        let j = choose|j: int|
            0 <= j < keys.len() && probe_of(config, scopes, #[trigger] keys[j]) == Some(probe);
        assert(keys[j] == key);
    }
    if keys.contains(key) && probe_of(config, scopes, key) is Some && missing.contains(
        probe_of(config, scopes, key)->0.path,
    ) {
        let probe = probe_of(config, scopes, key)->0;
        let j = keys.index_of(key);
        assert(probe_of(config, scopes, keys[j]) == Some(probe));
        lemma_probes(keys, config, scopes, probe);
        let i = probes.index_of(probe);
        assert(probes[i].key == key && missing.contains(probes[i].path));
    }
}

/// The file of the key counts as lost to a set over `scopes`: the set
/// answers for the key, and the path of its file is among `missing`.
pub open spec fn is_lost(
    config: BlkConfig,
    scopes: Seq<Seq<char>>,
    missing: Seq<Seq<char>>,
    key: Seq<char>,
) -> bool {
    probe_of(config, scopes, key) is Some && missing.contains(probe_of(config, scopes, key)->0.path)
}

/// Save, then restore, for the set that `engine_save_new_delta` builds:
/// its archive and its tombstones, put on top of the state of its parent,
/// give the state that the scan saw.
///
/// The law asks that the observations fit together: the items have
/// different keys and lie under their scope directories; a file that was
/// scanned is not missing; and a key of the baseline that was not scanned is
/// lost, which takes that the set covers the scope of every key of the
/// baseline.
pub proof fn lemma_saved_set_restores_the_tree(
    items: Seq<ScanItemView>,
    baseline: Map<Seq<char>, FileEntryView>,
    keys: Seq<Seq<char>>,
    config: BlkConfig,
    scopes: Seq<Seq<char>>,
    missing: Seq<Seq<char>>,
)
    requires
        forall|k: Seq<char>| baseline.contains_key(k) <==> #[trigger] keys.contains(k),
        distinct_keys(items),
        forall|i: int| 0 <= i < items.len() ==> (#[trigger] items[i]).rel is Some,
        forall|i: int|
            0 <= i < items.len() ==> !is_lost(config, scopes, missing, (#[trigger] items[i]).key),
        forall|k: Seq<char>|
            #[trigger] keys.contains(k) && !has_key(items, k) ==> is_lost(
                config,
                scopes,
                missing,
                k,
            ),
    ensures
        layered(
            hashes_of(baseline),
            staged_hashes(staging_of(items, baseline)),
            deleted_paths_of(keys, config, scopes, missing).to_set(),
        ) == hashes_of(scan_result(items)),
{
    let deleted = deleted_paths_of(keys, config, scopes, missing);
    assert forall|k: Seq<char>|
        baseline.contains_key(k) && !has_key(items, k) implies #[trigger] deleted.contains(k) by {
        lemma_tombstones_are_the_lost_keys(keys, config, scopes, missing, k);
        assert(keys.contains(k));
    }
    assert forall|k: Seq<char>| #[trigger] deleted.contains(k) implies !has_key(items, k) by {
        lemma_tombstones_are_the_lost_keys(keys, config, scopes, missing, k);
        if has_key(items, k) {
            let i = choose|i: int| 0 <= i < items.len() && (#[trigger] items[i]).key == k;
            assert(!is_lost(config, scopes, missing, items[i].key));
        }
    }
    lemma_save_then_restore(items, baseline, deleted);
}

/// The items with every missing hash filled in by `hash_of`, the hash of
/// the content of the file at a path.
pub open spec fn with_hashes(items: Seq<ScanItemView>, hash_of: spec_fn(Seq<char>) -> Seq<char>) -> Seq<
    ScanItemView,
> {
    Seq::new(items.len(), |i: int| settled(items[i], hash_of(items[i].path)))
}

/// Reusing hashes changes nothing as long as the reused hashes are right.
///
/// A scan that takes hashes over from `prior` records the same state as a
/// scan that hashes every file, where every hash taken over is the hash of
/// the file's present content. The state that a save or a restore records
/// is this one; it is therefore the state that a later scan of the unchanged
/// files finds.
pub proof fn lemma_reuse_changes_nothing(
    walked: Seq<WalkedEntryView>,
    exclusions: Seq<Seq<char>>,
    prior: Map<Seq<char>, FileEntryView>,
    exe: Option<Seq<char>>,
    hash_of: spec_fn(Seq<char>) -> Seq<char>,
)
    requires
        forall|i: int|
            0 <= i < walked.len() && is_scanned(#[trigger] walked[i], exclusions, exe) ==> match scan_item_of(
                walked[i],
                Some(prior),
            ).hash {
                Some(h) => h == hash_of(walked[i].path),
                None => true,
            },
    ensures
        with_hashes(scan_plan_of(walked, exclusions, Some(prior), exe), hash_of) == with_hashes(
            scan_plan_of(walked, exclusions, None, exe),
            hash_of,
        ),
    decreases walked.len(),
{
    let reusing = scan_plan_of(walked, exclusions, Some(prior), exe);
    let afresh = scan_plan_of(walked, exclusions, None, exe);
    if walked.len() > 0 {
        let rest = walked.drop_last();
        assert forall|i: int|
            0 <= i < rest.len() && is_scanned(#[trigger] rest[i], exclusions, exe) implies match scan_item_of(
            rest[i],
            Some(prior),
        ).hash {
            Some(h) => h == hash_of(rest[i].path),
            None => true,
        } by {
            assert(rest[i] == walked[i]);
        }
        lemma_reuse_changes_nothing(rest, exclusions, prior, exe, hash_of);
        let reusing_rest = scan_plan_of(rest, exclusions, Some(prior), exe);
        let afresh_rest = scan_plan_of(rest, exclusions, None, exe);
        assert(with_hashes(reusing_rest, hash_of).len() == with_hashes(afresh_rest, hash_of).len());
        if is_scanned(walked.last(), exclusions, exe) {
            let a = scan_item_of(walked.last(), Some(prior));
            let b = scan_item_of(walked.last(), None);
            assert(walked[walked.len() - 1] == walked.last());
            assert(with_hashes(reusing, hash_of) =~= with_hashes(reusing_rest, hash_of).push(
                with_hashes(seq![a], hash_of)[0],
            ));
            assert(with_hashes(afresh, hash_of) =~= with_hashes(afresh_rest, hash_of).push(
                with_hashes(seq![b], hash_of)[0],
            ));
        }
    } else {
        assert(with_hashes(reusing, hash_of) =~= with_hashes(afresh, hash_of));
    }
}

/// Every hash that a scan would take over from `prior` is right: no scanned
/// file has the size and the modification time of its entry in `prior`
/// while the hash of its content is another.
pub open spec fn reuse_is_sound(
    walked: Seq<WalkedEntryView>,
    exclusions: Seq<Seq<char>>,
    prior: Map<Seq<char>, FileEntryView>,
    exe: Option<Seq<char>>,
    hash_of: spec_fn(Seq<char>) -> Seq<char>,
) -> bool {
    forall|i: int|
        0 <= i < walked.len() && is_scanned(#[trigger] walked[i], exclusions, exe) ==> {
            let key = path_key(walked[i].scope, keyed_path(walked[i]));
            prior.contains_key(key) && prior[key].size == walked[i].size && prior[key].modified
                == walked[i].modified ==> prior[key].hash == hash_of(walked[i].path)
        }
}

/// The baseline after a save is a fresh scan.
///
/// A save ends by scanning the scopes anew, with the old baseline `prior`
/// to take hashes over from, and records what `scan_state` makes of the
/// items once `settle_hash` has given each of the others the hash of its
/// content. Where no scanned file has the size and time of its old entry
/// and another content, that state is the very state that a scan of the same
/// files without any reuse records: same keys, same hashes, sizes and times.
pub proof fn lemma_baseline_after_save_is_a_fresh_scan(
    walked: Seq<WalkedEntryView>,
    exclusions: Seq<Seq<char>>,
    prior: Map<Seq<char>, FileEntryView>,
    exe: Option<Seq<char>>,
    hash_of: spec_fn(Seq<char>) -> Seq<char>,
)
    requires
        reuse_is_sound(walked, exclusions, prior, exe, hash_of),
    ensures
        scan_result(with_hashes(scan_plan_of(walked, exclusions, Some(prior), exe), hash_of))
            == scan_result(with_hashes(scan_plan_of(walked, exclusions, None, exe), hash_of)),
{
    lemma_reuse_changes_nothing(walked, exclusions, prior, exe, hash_of);
}

/// Two walked entries are the same file seen at different times: all but
/// the modification time is equal.
pub open spec fn same_but_for_time(a: WalkedEntryView, b: WalkedEntryView) -> bool {
    &&& a.scope == b.scope
    &&& a.path == b.path
    &&& a.rel == b.rel
    &&& a.is_file == b.is_file
    &&& a.is_dir == b.is_dir
    &&& a.size == b.size
}

/// The hashes of a state with one more entry.
proof fn lemma_hashes_of_insert(
    state: Map<Seq<char>, FileEntryView>,
    key: Seq<char>,
    entry: FileEntryView,
)
    ensures
        hashes_of(state.insert(key, entry)) == hashes_of(state).insert(key, entry.hash),
{
    assert(hashes_of(state.insert(key, entry)) =~= hashes_of(state).insert(key, entry.hash));
}

/// The baseline after a restore is the same whenever the files are. Two
/// scans without reuse of the same files with the same contents, made at
/// different times, record the same keys with the same hashes. (The times
/// of modification that they record are those of the walks, and a restore
/// writes its files anew.)
pub proof fn lemma_rescan_of_the_same_files(
    first: Seq<WalkedEntryView>,
    second: Seq<WalkedEntryView>,
    exclusions: Seq<Seq<char>>,
    exe: Option<Seq<char>>,
    hash_of: spec_fn(Seq<char>) -> Seq<char>,
)
    requires
        first.len() == second.len(),
        forall|i: int| 0 <= i < first.len() ==> same_but_for_time(#[trigger] first[i], second[i]),
    ensures
        hashes_of(scan_result(with_hashes(scan_plan_of(first, exclusions, None, exe), hash_of)))
            == hashes_of(
            scan_result(with_hashes(scan_plan_of(second, exclusions, None, exe), hash_of)),
        ),
        scan_plan_of(first, exclusions, None, exe).len() == scan_plan_of(
            second,
            exclusions,
            None,
            exe,
        ).len(),
    decreases first.len(),
{
    if first.len() > 0 {
        let a = first.last();
        let b = second.last();
        assert(same_but_for_time(first[first.len() - 1], second[first.len() - 1]));
        assert forall|i: int| 0 <= i < first.drop_last().len() implies same_but_for_time(
            #[trigger] first.drop_last()[i],
            second.drop_last()[i],
        ) by {
            assert(same_but_for_time(first[i], second[i]));
        }
        lemma_rescan_of_the_same_files(
            first.drop_last(),
            second.drop_last(),
            exclusions,
            exe,
            hash_of,
        );
        let head_a = scan_plan_of(first.drop_last(), exclusions, None, exe);
        let head_b = scan_plan_of(second.drop_last(), exclusions, None, exe);
        if is_scanned(a, exclusions, exe) {
            let x = scan_item_of(a, None);
            let y = scan_item_of(b, None);
            let filled_a = with_hashes(head_a.push(x), hash_of);
            let filled_b = with_hashes(head_b.push(y), hash_of);
            assert(filled_a.drop_last() =~= with_hashes(head_a, hash_of));
            assert(filled_b.drop_last() =~= with_hashes(head_b, hash_of));
            assert(filled_a.last() == settled(x, hash_of(x.path)));
            assert(filled_b.last() == settled(y, hash_of(y.path)));
            lemma_hashes_of_insert(
                scan_result(filled_a.drop_last()),
                filled_a.last().key,
                entry_of(filled_a.last()),
            );
            lemma_hashes_of_insert(
                scan_result(filled_b.drop_last()),
                filled_b.last().key,
                entry_of(filled_b.last()),
            );
        }
    }
}

/// Nothing in, nothing out: where the walk of the scopes finds no file and
/// the baseline holds no key of the scopes, the new set stages nothing and
/// has no tombstones.
pub proof fn lemma_empty_scopes_make_empty_sets(
    walked: Seq<WalkedEntryView>,
    exclusions: Seq<Seq<char>>,
    prior: Option<Map<Seq<char>, FileEntryView>>,
    exe: Option<Seq<char>>,
    baseline: Map<Seq<char>, FileEntryView>,
    keys: Seq<Seq<char>>,
    config: BlkConfig,
    scopes: Seq<Seq<char>>,
    missing: Seq<Seq<char>>,
)
    requires
        forall|i: int| 0 <= i < walked.len() ==> !(#[trigger] walked[i]).is_file,
        forall|i: int|
            0 <= i < keys.len() ==> match key_scope(#[trigger] keys[i]) {
                Some(scope) => !scopes.contains(scope),
                None => true,
            },
    ensures
        scan_plan_of(walked, exclusions, prior, exe).len() == 0,
        staging_of(scan_plan_of(walked, exclusions, prior, exe), baseline).len() == 0,
        deleted_paths_of(keys, config, scopes, missing).len() == 0,
    decreases walked.len() + keys.len(),
{
    if walked.len() > 0 {
        let rest = walked.drop_last();
        assert forall|i: int| 0 <= i < rest.len() implies !(#[trigger] rest[i]).is_file by {
            assert(rest[i] == walked[i]);
        }
        assert(!walked[walked.len() - 1].is_file);
        lemma_empty_scopes_make_empty_sets(
            rest,
            exclusions,
            prior,
            exe,
            baseline,
            keys,
            config,
            scopes,
            missing,
        );
    } else if keys.len() > 0 {
        let rest = keys.drop_last();
        assert forall|i: int| 0 <= i < rest.len() implies match key_scope(#[trigger] rest[i]) {
            Some(scope) => !scopes.contains(scope),
            None => true,
        } by {
            assert(rest[i] == keys[i]);
        }
        lemma_empty_scopes_make_empty_sets(
            walked,
            exclusions,
            prior,
            exe,
            baseline,
            rest,
            config,
            scopes,
            missing,
        );
        assert(keys[keys.len() - 1] == keys.last());
        assert(probe_of(config, scopes, keys.last()) is None);
    }
}

/// The character `c` does not occur in `s`.
pub open spec fn has_none_of(s: Seq<char>, c: char) -> bool {
    forall|i: int| 0 <= i < s.len() ==> s[i] != c
}

/// An archived file returns to the place of its key.
///
/// A file of the scope `scope` with the relative path `rel` is archived
/// under the name made of the scope, a slash and the path, and is known
/// by the key made of the scope, `::` and the path. Where the scope is
/// configured, the restore puts the archived file at the very path at which
/// a tombstone for the key would remove it: under the scope directory, at
/// the relative path with `/` separators.
///
/// The name of the scope must hold neither a separator nor a colon: a name
/// such as `a/b` is parted elsewhere when the archive is read back.
pub proof fn lemma_archived_file_returns_to_its_place(
    config: BlkConfig,
    scope: Seq<char>,
    rel: Seq<char>,
)
    requires
        has_none_of(scope, '/'),
        has_none_of(scope, '\\'),
        has_none_of(scope, ':'),
        rel.len() > 0,
        config.root_of(scope) is Some,
    ensures
        placement(config, normalized(join_path(scope, rel))) == Some(
            join_path(config.root_of(scope)->0, normalized(rel)),
        ),
        key_location(config, path_key(scope, rel)) == Some(
            join_path(config.root_of(scope)->0, normalized(rel)),
        ),
{
    reveal_strlit("/");
    reveal_strlit("::");
    let n = scope.len() as int;
    let tail = normalized(rel);
    let name = normalized(join_path(scope, rel));
    assert(name =~= scope + "/"@ + tail);
    assert(is_first_occurrence(name, "/"@, n)) by {
        assert(name.subrange(n, n + 1) =~= "/"@);
        assert forall|j: int| 0 <= j < n implies !occurs_at(name, "/"@, j) by {
            if occurs_at(name, "/"@, j) {
                assert(name.subrange(j, j + 1)[0] == '/');
                assert(name[j] == scope[j]);
            }
        }
    }
    lemma_first_occurrence_is(name, "/"@, n);
    assert(name.subrange(0, n) =~= scope);
    assert(name.subrange(n + 1, name.len() as int) =~= tail);
    assert(name_parts(name) == (scope, tail));
    let key = path_key(scope, rel);
    assert(key =~= scope + "::"@ + tail);
    assert(is_first_occurrence(key, "::"@, n)) by {
        assert(key.subrange(n, n + 2) =~= "::"@);
        assert forall|j: int| 0 <= j < n implies !occurs_at(key, "::"@, j) by {
            if occurs_at(key, "::"@, j) {
                assert(key.subrange(j, j + 2)[0] == ':');
                assert(key[j] == scope[j]);
            }
        }
    }
    lemma_first_occurrence_is(key, "::"@, n);
    assert(key.subrange(0, n) =~= scope);
    assert(key.subrange(n + 2, key.len() as int) =~= tail);
    assert(key_parts(key) == Some((scope, tail)));
}

/// Names keep their characters. On the way into an archive and back a path
/// changes in one respect only: each backslash becomes a slash. Every other
/// character, within ASCII or not, stays what and where it was; a path
/// without backslashes stays as it is.
pub proof fn lemma_names_keep_their_characters(path: Seq<char>)
    ensures
        normalized(path).len() == path.len(),
        forall|i: int|
            0 <= i < path.len() ==> #[trigger] normalized(path)[i] == (if path[i] == '\\' {
                '/'
            } else {
                path[i]
            }),
        has_none_of(path, '\\') ==> normalized(path) == path,
{
    if has_none_of(path, '\\') {
        assert(normalized(path) =~= path);
    }
}

} // verus!
