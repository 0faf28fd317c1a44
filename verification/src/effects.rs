//! What carrying out a restore does to the files, as a mathematical model,
//! and the laws of a restore that follow from the plans.
//!
//! The files are a map from paths to contents. A wipe action removes its
//! path, a recursive one also all that lies under it; a copy puts the
//! content of an archived file at its destination, overwriting; a removal
//! takes the file at its path away.

use vstd::prelude::*;
use crate::models::BlkConfig;
use crate::restore::{
    layer_plan_of, layer_plans_of, layer_spares_protected, plan_spares_protected, removal_of,
    removals_of, wipe_plan_of, CopyActionView, LayerInputView, LayerPlanView, RestorePlanView,
    WipeActionView,
};
use crate::safety::{is_protected, is_separator};
use crate::scan::WalkedEntryView;

verus! {

/// The files: each path with its content.
pub type Files = Map<Seq<char>, Seq<u8>>;

/// What an archive holds: each name with its content.
pub type Archive = Map<Seq<char>, Seq<u8>>;

/// `path` lies under the directory `dir`.
pub open spec fn lies_under(path: Seq<char>, dir: Seq<char>) -> bool {
    &&& path.len() > dir.len()
    &&& path.subrange(0, dir.len() as int) == dir
    &&& is_separator(path[dir.len() as int])
}

/// The wipe action takes `path` away.
pub open spec fn wipes(action: WipeActionView, path: Seq<char>) -> bool {
    path == action.path || (action.recursive && lies_under(path, action.path))
}

/// Some action of the wipe takes `path` away.
pub open spec fn is_wiped(plan: Seq<WipeActionView>, path: Seq<char>) -> bool {
    exists|i: int| 0 <= i < plan.len() && wipes(#[trigger] plan[i], path)
}

/// The files after a wipe.
pub open spec fn after_wipe(files: Files, plan: Seq<WipeActionView>) -> Files {
    files.remove_keys(Set::new(|p: Seq<char>| is_wiped(plan, p)))
}

/// The files after the copies of a layer, made in order.
pub open spec fn after_copies(files: Files, copies: Seq<CopyActionView>, archive: Archive) -> Files
    decreases copies.len(),
{
    if copies.len() == 0 {
        files
    } else {
        after_copies(files, copies.drop_last(), archive).insert(
            copies.last().dest,
            archive[copies.last().source],
        )
    }
}

/// The files after the removals of a layer.
pub open spec fn after_removals(files: Files, removals: Seq<Seq<char>>) -> Files {
    files.remove_keys(removals.to_set())
}

/// The files after one layer: its copies, then its removals.
pub open spec fn after_layer(files: Files, plan: LayerPlanView, archive: Archive) -> Files {
    after_removals(after_copies(files, plan.copies, archive), plan.removals)
}

/// The files after the layers of a chain, applied from the first to the
/// last, `archives[i]` being what the archive of layer `i` holds.
pub open spec fn after_layers(files: Files, plans: Seq<LayerPlanView>, archives: Seq<Archive>) -> Files
    decreases plans.len(),
{
    if plans.len() == 0 {
        files
    } else {
        after_layer(
            after_layers(files, plans.drop_last(), archives),
            plans.last(),
            archives[plans.len() - 1],
        )
    }
}

/// The files after a restore: the wipe, then the layers.
pub open spec fn after_restore(files: Files, plan: RestorePlanView, archives: Seq<Archive>) -> Files {
    after_layers(after_wipe(files, plan.wipe), plan.layers, archives)
}

/// Some directory of the list has `path` under it.
pub open spec fn is_under_one_of(dirs: Seq<Seq<char>>, path: Seq<char>) -> bool {
    exists|i: int| 0 <= i < dirs.len() && lies_under(path, #[trigger] dirs[i])
}

/// The files after pruning has removed the directories `pruned`, each with
/// what it held.
pub open spec fn after_prune(files: Files, pruned: Seq<Seq<char>>) -> Files {
    files.remove_keys(Set::new(|p: Seq<char>| is_under_one_of(pruned, p)))
}

/// The files after a restore and the pruning that follows it.
pub open spec fn after_pruned_restore(
    files: Files,
    plan: RestorePlanView,
    archives: Seq<Archive>,
    pruned: Seq<Seq<char>>,
) -> Files {
    after_prune(after_restore(files, plan, archives), pruned)
}

/// Two states of the files hold the same at `path`: both nothing, or both
/// the same content.
pub open spec fn same_at(a: Files, b: Files, path: Seq<char>) -> bool {
    &&& a.contains_key(path) == b.contains_key(path)
    &&& a.contains_key(path) ==> a[path] == b[path]
}

/// Some copy of the list writes to `path`.
pub open spec fn is_copied_to(copies: Seq<CopyActionView>, path: Seq<char>) -> bool {
    exists|i: int| 0 <= i < copies.len() && (#[trigger] copies[i]).dest == path
}

/// The layer writes to `path` or removes it.
pub open spec fn layer_touches(plan: LayerPlanView, path: Seq<char>) -> bool {
    is_copied_to(plan.copies, path) || plan.removals.contains(path)
}

/// Some layer of the chain writes to `path` or removes it.
pub open spec fn layers_touch(plans: Seq<LayerPlanView>, path: Seq<char>) -> bool {
    exists|i: int| 0 <= i < plans.len() && layer_touches(#[trigger] plans[i], path)
}

/// Copies leave alone what they do not write to, and what they write to
/// does not depend on what was there.
proof fn lemma_copies_at(
    a: Files,
    b: Files,
    copies: Seq<CopyActionView>,
    archive: Archive,
    path: Seq<char>,
)
    ensures
        !is_copied_to(copies, path) ==> same_at(after_copies(a, copies, archive), a, path),
        is_copied_to(copies, path) || same_at(a, b, path) ==> same_at(
            after_copies(a, copies, archive),
            after_copies(b, copies, archive),
            path,
        ),
    decreases copies.len(),
{
    if copies.len() > 0 {
        let rest = copies.drop_last();
        lemma_copies_at(a, b, rest, archive, path);
        if copies.last().dest != path {
            if is_copied_to(copies, path) {
                let i = choose|i: int| 0 <= i < copies.len() && (#[trigger] copies[i]).dest == path;
                assert(rest[i].dest == path);
            }
            if is_copied_to(rest, path) {
                let i = choose|i: int| 0 <= i < rest.len() && (#[trigger] rest[i]).dest == path;
                assert(copies[i].dest == path);
            }
        } else {
            assert(copies[copies.len() - 1].dest == path);
        }
    }
}

/// A layer leaves alone what it does not touch, and what it touches does not
/// depend on what was there.
proof fn lemma_layer_at(a: Files, b: Files, plan: LayerPlanView, archive: Archive, path: Seq<char>)
    ensures
        !layer_touches(plan, path) ==> same_at(after_layer(a, plan, archive), a, path),
        layer_touches(plan, path) || same_at(a, b, path) ==> same_at(
            after_layer(a, plan, archive),
            after_layer(b, plan, archive),
            path,
        ),
{
    lemma_copies_at(a, b, plan.copies, archive, path);
}

/// The layers of a chain leave alone what none of them touches, and what
/// one of them touches does not depend on what was there before.
pub proof fn lemma_layers_at(
    a: Files,
    b: Files,
    plans: Seq<LayerPlanView>,
    archives: Seq<Archive>,
    path: Seq<char>,
)
    ensures
        !layers_touch(plans, path) ==> same_at(after_layers(a, plans, archives), a, path),
        layers_touch(plans, path) || same_at(a, b, path) ==> same_at(
            after_layers(a, plans, archives),
            after_layers(b, plans, archives),
            path,
        ),
    decreases plans.len(),
{
    if plans.len() > 0 {
        let rest = plans.drop_last();
        let last = plans.last();
        let archive = archives[plans.len() - 1];
        lemma_layers_at(a, b, rest, archives, path);
        lemma_layer_at(
            after_layers(a, rest, archives),
            after_layers(b, rest, archives),
            last,
            archive,
            path,
        );
        if layers_touch(plans, path) {
            let i = choose|i: int| 0 <= i < plans.len() && layer_touches(#[trigger] plans[i], path);
            if i < plans.len() - 1 {
                assert(layer_touches(rest[i], path));
            }
        }
        if layers_touch(rest, path) {
            let i = choose|i: int| 0 <= i < rest.len() && layer_touches(#[trigger] rest[i], path);
            assert(layer_touches(plans[i], path));
        }
        if layer_touches(last, path) {
            assert(layer_touches(plans[plans.len() - 1], path));
        }
    }
}

/// `j` is the last layer of the chain that writes to `path` or removes it.
pub open spec fn is_last_to_touch(plans: Seq<LayerPlanView>, path: Seq<char>, j: int) -> bool {
    &&& 0 <= j < plans.len()
    &&& layer_touches(plans[j], path)
    &&& forall|k: int| j < k < plans.len() ==> !layer_touches(#[trigger] plans[k], path)
}

/// The layering rule: the last layer decides. What a chain of layers leaves
/// at a path is what its last layer to touch the path leaves there, its
/// copies overwriting and its tombstones removing after them, whatever the
/// layers before it did; and a path that no layer touches holds what it
/// held.
pub proof fn lemma_last_layer_decides(
    files: Files,
    plans: Seq<LayerPlanView>,
    archives: Seq<Archive>,
    path: Seq<char>,
)
    ensures
        layers_touch(plans, path) ==> exists|j: int|
            #[trigger] is_last_to_touch(plans, path, j) && same_at(
                after_layers(files, plans, archives),
                after_layer(files, plans[j], archives[j]),
                path,
            ),
        !layers_touch(plans, path) ==> same_at(after_layers(files, plans, archives), files, path),
    decreases plans.len(),
{
    lemma_layers_at(files, files, plans, archives, path);
    if plans.len() > 0 {
        let rest = plans.drop_last();
        let last = plans.last();
        let n = plans.len() - 1;
        let before = after_layers(files, rest, archives);
        lemma_last_layer_decides(files, rest, archives, path);
        lemma_layer_at(before, files, last, archives[n], path);
        if layer_touches(last, path) {
            assert(is_last_to_touch(plans, path, n));
        } else if layers_touch(plans, path) {
            let i = choose|i: int| 0 <= i < plans.len() && layer_touches(#[trigger] plans[i], path);
            assert(layer_touches(rest[i], path));
            let j = choose|j: int|
                #[trigger] is_last_to_touch(rest, path, j) && same_at(
                    after_layers(files, rest, archives),
                    after_layer(files, rest[j], archives[j]),
                    path,
                );
            assert(is_last_to_touch(plans, path, j)) by {
                assert forall|k: int| j < k < plans.len() implies !layer_touches(
                    #[trigger] plans[k],
                    path,
                ) by {
                    if k < n {
                        assert(rest[k] == plans[k]);
                    }
                }
            }
            assert(rest[j] == plans[j]);
        }
    }
}

/// A restore spares what is protected: a protected path that does not lie
/// inside a directory that is removed as a whole holds after the restore,
/// pruning included, what it held before.
///
/// The wipe looks at the direct entries of the scope directories only, and
/// removes an unprotected directory with all that it holds; pruning removes
/// a directory that holds nothing but junk with that junk. A protected path
/// deeper inside such a directory goes with it: that is the case which the
/// last two conditions leave out.
pub proof fn lemma_restore_spares_protected(
    files: Files,
    plan: RestorePlanView,
    archives: Seq<Archive>,
    pruned: Seq<Seq<char>>,
    exe: Option<Seq<char>>,
    path: Seq<char>,
)
    requires
        plan_spares_protected(plan, exe),
        is_protected(path, exe),
        forall|i: int|
            0 <= i < plan.wipe.len() && (#[trigger] plan.wipe[i]).recursive ==> !lies_under(
                path,
                plan.wipe[i].path,
            ),
        !is_under_one_of(pruned, path),
    ensures
        same_at(after_pruned_restore(files, plan, archives, pruned), files, path),
{
    let wiped = after_wipe(files, plan.wipe);
    assert(!is_wiped(plan.wipe, path)) by {
        if is_wiped(plan.wipe, path) {
            let i = choose|i: int| 0 <= i < plan.wipe.len() && wipes(#[trigger] plan.wipe[i], path);
            assert(!is_protected(plan.wipe[i].path, exe));
        }
    }
    assert(same_at(wiped, files, path));
    assert(!layers_touch(plan.layers, path)) by {
        if layers_touch(plan.layers, path) {
            let i = choose|i: int|
                0 <= i < plan.layers.len() && layer_touches(#[trigger] plan.layers[i], path);
            let layer = plan.layers[i];
            assert(layer_spares_protected(layer, exe));
            if is_copied_to(layer.copies, path) {
                let j = choose|j: int|
                    0 <= j < layer.copies.len() && (#[trigger] layer.copies[j]).dest == path;
                assert(!is_protected(layer.copies[j].dest, exe));
            } else {
                let j = layer.removals.index_of(path);
                assert(!is_protected(layer.removals[j], exe));
            }
        }
    }
    lemma_layers_at(wiped, wiped, plan.layers, archives, path);
}

/// A restore forgets the mess it started from. Two restores of the same
/// layers, started from different files, end with the same files, provided
/// their wipes leave the same behind wherever the layers do not write.
pub proof fn lemma_restore_forgets_what_was_there(
    one: Files,
    other: Files,
    one_wipe: Seq<WipeActionView>,
    other_wipe: Seq<WipeActionView>,
    layers: Seq<LayerPlanView>,
    archives: Seq<Archive>,
)
    requires
        forall|p: Seq<char>|
            !layers_touch(layers, p) ==> #[trigger] same_at(
                after_wipe(one, one_wipe),
                after_wipe(other, other_wipe),
                p,
            ),
    ensures
        after_restore(one, RestorePlanView { wipe: one_wipe, layers: layers }, archives)
            == after_restore(other, RestorePlanView { wipe: other_wipe, layers: layers }, archives),
{
    let a = after_wipe(one, one_wipe);
    let b = after_wipe(other, other_wipe);
    let ra = after_layers(a, layers, archives);
    let rb = after_layers(b, layers, archives);
    assert forall|p: Seq<char>| same_at(ra, rb, p) by {
        lemma_layers_at(a, b, layers, archives, p);
        if !layers_touch(layers, p) {
            assert(same_at(a, b, p));
        }
    }
    assert forall|p: Seq<char>| #[trigger] ra.contains_key(p) == rb.contains_key(p) by {
        assert(same_at(ra, rb, p));
    }
    assert forall|p: Seq<char>| #[trigger] ra.contains_key(p) implies ra[p] == rb[p] by {
        assert(same_at(ra, rb, p));
    }
    assert(ra =~= rb);
}

/// A restore can be repeated: run again on what it left, with the same
/// layers and the same pruning, it leaves the same files.
///
/// The second run wipes anew, from a listing of its own. The law holds
/// when that wipe takes nothing that the first wipe left in place, as it
/// does while the verdicts of the safety filter stay what they were: what
/// the first wipe left is protected or lies outside the scope directories.
pub proof fn lemma_restore_is_idempotent(
    files: Files,
    first_wipe: Seq<WipeActionView>,
    second_wipe: Seq<WipeActionView>,
    layers: Seq<LayerPlanView>,
    archives: Seq<Archive>,
    pruned: Seq<Seq<char>>,
)
    requires
        forall|p: Seq<char>| #[trigger]
            after_wipe(files, first_wipe).contains_key(p) ==> !is_wiped(second_wipe, p),
    ensures
        after_pruned_restore(
            after_pruned_restore(
                files,
                RestorePlanView { wipe: first_wipe, layers: layers },
                archives,
                pruned,
            ),
            RestorePlanView { wipe: second_wipe, layers: layers },
            archives,
            pruned,
        ) == after_pruned_restore(
            files,
            RestorePlanView { wipe: first_wipe, layers: layers },
            archives,
            pruned,
        ),
{
    let left = after_wipe(files, first_wipe);
    let built = after_layers(left, layers, archives);
    let once = after_prune(built, pruned);
    let left_again = after_wipe(once, second_wipe);
    let built_again = after_layers(left_again, layers, archives);
    let twice = after_prune(built_again, pruned);
    assert forall|p: Seq<char>| same_at(twice, once, p) by {
        if !is_under_one_of(pruned, p) {
            lemma_layers_at(left_again, left, layers, archives, p);
            lemma_layers_at(left, left, layers, archives, p);
            if !layers_touch(layers, p) {
                assert(same_at(built, left, p));
                if left.contains_key(p) {
                    assert(!is_wiped(second_wipe, p));
                }
                assert(same_at(left_again, left, p));
            }
            assert(same_at(built_again, built, p));
        }
    }
    assert forall|p: Seq<char>| #[trigger] twice.contains_key(p) == once.contains_key(p) by {
        assert(same_at(twice, once, p));
    }
    assert forall|p: Seq<char>| #[trigger] twice.contains_key(p) implies twice[p] == once[p] by {
        assert(same_at(twice, once, p));
    }
    assert(twice =~= once);
}

/// What a wipe holds: one action for each listed entry that is not
/// protected, recursive for a directory.
pub proof fn lemma_wipe_plan(
    entries: Seq<WalkedEntryView>,
    exe: Option<Seq<char>>,
    action: WipeActionView,
)
    ensures
        wipe_plan_of(entries, exe).contains(action) <==> exists|i: int|
            0 <= i < entries.len() && !is_protected((#[trigger] entries[i]).path, exe) && action == (
            WipeActionView { path: entries[i].path, recursive: entries[i].is_dir }),
    decreases entries.len(),
{
    if entries.len() > 0 {
        let rest = entries.drop_last();
        let before = wipe_plan_of(rest, exe);
        let all = wipe_plan_of(entries, exe);
        let e = entries.last();
        lemma_wipe_plan(rest, exe, action);
        if before.contains(action) {
            let j = before.index_of(action);
            assert(all[j] == action);
            let i = choose|i: int|
                0 <= i < rest.len() && !is_protected((#[trigger] rest[i]).path, exe) && action == (
                WipeActionView { path: rest[i].path, recursive: rest[i].is_dir });
            assert(entries[i] == rest[i]);
        }
        if !is_protected(e.path, exe) && action == (WipeActionView {
            path: e.path,
            recursive: e.is_dir,
        }) {
            assert(all[before.len() as int] == action);
            assert(entries[entries.len() - 1] == e);
        }
        if all.contains(action) && !before.contains(action) {
            let j = all.index_of(action);
            if j < before.len() {
                assert(before[j] == action);
            }
        }
        if exists|i: int|
            0 <= i < entries.len() && !is_protected((#[trigger] entries[i]).path, exe) && action == (
            WipeActionView { path: entries[i].path, recursive: entries[i].is_dir }) {
            let i = choose|i: int|
                0 <= i < entries.len() && !is_protected((#[trigger] entries[i]).path, exe)
                    && action == (WipeActionView {
                    path: entries[i].path,
                    recursive: entries[i].is_dir,
                });
            if i < entries.len() - 1 {
                assert(rest[i] == entries[i]);
            }
        }
    }
}

/// The entry of a listing reaches the path: it is the path, or it is a
/// directory and the path lies under it.
pub open spec fn reaches(entry: WalkedEntryView, path: Seq<char>) -> bool {
    path == entry.path || (entry.is_dir && lies_under(path, entry.path))
}

/// The later listing finds nothing new over the old files: each of its
/// entries that reaches a file of `files` was an entry of the same kind in
/// the earlier listing.
pub open spec fn nothing_new_over(
    files: Files,
    earlier: Seq<WalkedEntryView>,
    later: Seq<WalkedEntryView>,
) -> bool {
    forall|j: int, p: Seq<char>|
        0 <= j < later.len() && #[trigger] files.contains_key(p) && reaches(
            #[trigger] later[j],
            p,
        ) ==> exists|t: int|
            0 <= t < earlier.len() && (#[trigger] earlier[t]).path == later[j].path && earlier[t].is_dir
                == later[j].is_dir
}

/// Restoring twice is restoring once.
///
/// Both runs wipe what `nuke_scopes` plans from a listing of the direct
/// entries of the scope directories, put the same layers in place and prune
/// the same directories. The second listing is taken of what the first run
/// left. It finds entries that the layers brought; of the files that were
/// there before the first run it finds nothing that the first listing did
/// not show. Then the second run leaves the files exactly as the first
/// left them.
pub proof fn lemma_restore_twice_is_restore_once(
    files: Files,
    first_listing: Seq<WalkedEntryView>,
    second_listing: Seq<WalkedEntryView>,
    layers: Seq<LayerPlanView>,
    archives: Seq<Archive>,
    pruned: Seq<Seq<char>>,
    exe: Option<Seq<char>>,
)
    requires
        nothing_new_over(files, first_listing, second_listing),
    ensures
        after_pruned_restore(
            after_pruned_restore(
                files,
                RestorePlanView { wipe: wipe_plan_of(first_listing, exe), layers: layers },
                archives,
                pruned,
            ),
            RestorePlanView { wipe: wipe_plan_of(second_listing, exe), layers: layers },
            archives,
            pruned,
        ) == after_pruned_restore(
            files,
            RestorePlanView { wipe: wipe_plan_of(first_listing, exe), layers: layers },
            archives,
            pruned,
        ),
{
    let first_wipe = wipe_plan_of(first_listing, exe);
    let second_wipe = wipe_plan_of(second_listing, exe);
    assert forall|p: Seq<char>| #[trigger]
        after_wipe(files, first_wipe).contains_key(p) implies !is_wiped(second_wipe, p) by {
        if is_wiped(second_wipe, p) {
            let a = choose|a: int| 0 <= a < second_wipe.len() && wipes(#[trigger] second_wipe[a], p);
            let action = second_wipe[a];
            assert(second_wipe.contains(action));
            lemma_wipe_plan(second_listing, exe, action);
            let j = choose|j: int|
                0 <= j < second_listing.len() && !is_protected(
                    (#[trigger] second_listing[j]).path,
                    exe,
                ) && action == (WipeActionView {
                    path: second_listing[j].path,
                    recursive: second_listing[j].is_dir,
                });
            assert(files.contains_key(p));
            assert(reaches(second_listing[j], p));
            let t = choose|t: int|
                0 <= t < first_listing.len() && (#[trigger] first_listing[t]).path
                    == second_listing[j].path && first_listing[t].is_dir
                    == second_listing[j].is_dir;
            let old_action = WipeActionView {
                path: first_listing[t].path,
                recursive: first_listing[t].is_dir,
            };
            lemma_wipe_plan(first_listing, exe, old_action);
            assert(first_wipe.contains(old_action));
            let b = first_wipe.index_of(old_action);
            assert(wipes(first_wipe[b], p));
            assert(is_wiped(first_wipe, p));
        }
    }
    lemma_restore_is_idempotent(files, first_wipe, second_wipe, layers, archives, pruned);
}

/// A tombstone wins: a path that the last layer of a chain removes is not
/// there after the restore, whatever the layers before it put there and
/// whatever the last layer itself copied to it.
pub proof fn lemma_tombstone_wins(
    files: Files,
    plan: RestorePlanView,
    archives: Seq<Archive>,
    path: Seq<char>,
)
    requires
        plan.layers.len() > 0,
        plan.layers.last().removals.contains(path),
    ensures
        !after_restore(files, plan, archives).contains_key(path),
        forall|pruned: Seq<Seq<char>>|
            !(#[trigger] after_pruned_restore(files, plan, archives, pruned)).contains_key(path),
{
}

/// The removals of a layer hold the place of each of its tombstones that
/// has a place and is not protected.
pub proof fn lemma_removal_planned(
    config: BlkConfig,
    keys: Seq<Seq<char>>,
    exe: Option<Seq<char>>,
    key: Seq<char>,
)
    requires
        keys.contains(key),
        removal_of(config, key, exe) is Some,
    ensures
        removals_of(config, keys, exe).contains(removal_of(config, key, exe)->0),
    decreases keys.len(),
{
    let rest = keys.drop_last();
    let before = removals_of(config, rest, exe);
    let all = removals_of(config, keys, exe);
    let i = keys.index_of(key);
    if keys.last() == key {
        assert(all == before.push(removal_of(config, key, exe)->0));
        assert(all[before.len() as int] == removal_of(config, key, exe)->0);
    } else {
        assert(rest[i] == key);
        lemma_removal_planned(config, rest, exe, key);
        let j = before.index_of(removal_of(config, key, exe)->0);
        assert(all[j] == before[j]);
    }
}

/// The tombstone law. Where the manifest of the target set lists the key of
/// a file among its tombstones, and the target's archive, if it has one, can
/// be read, the file is not there after the restore of the target, whether
/// or not a set before it held the file.
///
/// Left out are the keys without a place (no scope, or one that is not
/// configured) and those whose place is protected: the engine removes
/// nothing there.
pub proof fn lemma_tombstone_law(
    config: BlkConfig,
    entries: Seq<WalkedEntryView>,
    layers: Seq<LayerInputView>,
    exe: Option<Seq<char>>,
    files: Files,
    archives: Seq<Archive>,
    key: Seq<char>,
)
    requires
        layers.len() > 0,
        !(layers.last().archive is Unreadable),
        layers.last().deleted_paths.contains(key),
        removal_of(config, key, exe) is Some,
    ensures
        forall|pruned: Seq<Seq<char>>|
            !(#[trigger] after_pruned_restore(
                files,
                RestorePlanView {
                    wipe: wipe_plan_of(entries, exe),
                    layers: layer_plans_of(config, layers, exe),
                },
                archives,
                pruned,
            )).contains_key(removal_of(config, key, exe)->0),
{
    let plans = layer_plans_of(config, layers, exe);
    lemma_removal_planned(config, layers.last().deleted_paths, exe, key);
    assert(plans.last() == layer_plan_of(config, layers.last(), exe));
    lemma_tombstone_wins(
        files,
        RestorePlanView { wipe: wipe_plan_of(entries, exe), layers: plans },
        archives,
        removal_of(config, key, exe)->0,
    );
}

} // verus!
