//! Save and restore over the files themselves: what the layer of a saved
//! set leaves at each path.

use vstd::prelude::*;
use crate::delta::{is_staged, join_path, staged_of, staging_of, StagedFileView};
use crate::effects::{after_copies, after_layer, is_copied_to, same_at, Archive, Files};
use crate::exclusion::normalized;
use crate::laws::{has_none_of, lemma_archived_file_returns_to_its_place};
use crate::models::{BlkConfig, FileEntryView};
use crate::restore::{
    copies_of, copy_of, layer_plan_of, placement, removal_of, removals_of, ArchiveStateView,
    CopyActionView, LayerInputView, LayerPlanView,
};
use crate::safety::is_protected;
use crate::scan::ScanItemView;

verus! {

/// What the copies leave at a path: at a path that they write to, what the
/// archive holds for the source of one of the copies to it; at any other
/// path, what was there.
pub proof fn lemma_copies_effect(
    files: Files,
    copies: Seq<CopyActionView>,
    archive: Archive,
    path: Seq<char>,
)
    ensures
        is_copied_to(copies, path) ==> after_copies(files, copies, archive).contains_key(path)
            && exists|j: int|
            0 <= j < copies.len() && (#[trigger] copies[j]).dest == path && after_copies(
                files,
                copies,
                archive,
            )[path] == archive[copies[j].source],
        !is_copied_to(copies, path) ==> same_at(after_copies(files, copies, archive), files, path),
    decreases copies.len(),
{
    if copies.len() > 0 {
        let rest = copies.drop_last();
        lemma_copies_effect(files, rest, archive, path);
        if copies.last().dest == path {
            assert(copies[copies.len() - 1].dest == path);
        } else {
            if is_copied_to(copies, path) {
                let i = choose|i: int| 0 <= i < copies.len() && (#[trigger] copies[i]).dest == path;
                assert(rest[i].dest == path);
                let j = choose|j: int|
                    0 <= j < rest.len() && (#[trigger] rest[j]).dest == path && after_copies(
                        files,
                        rest,
                        archive,
                    )[path] == archive[rest[j].source];
                assert(copies[j].dest == path);
            }
            if is_copied_to(rest, path) {
                let i = choose|i: int| 0 <= i < rest.len() && (#[trigger] rest[i]).dest == path;
                assert(copies[i].dest == path);
            }
        }
    }
}

/// Every copy puts at its destination what `tree` holds there.
pub open spec fn copies_are_faithful(
    copies: Seq<CopyActionView>,
    archive: Archive,
    tree: Files,
) -> bool {
    forall|j: int|
        0 <= j < copies.len() ==> tree.contains_key((#[trigger] copies[j]).dest)
            && archive[copies[j].source] == tree[copies[j].dest]
}

/// A layer whose copies are faithful to `tree` leaves at a path what `tree`
/// holds there, where it does not remove the path and either writes to it or
/// finds there already what `tree` holds.
pub proof fn lemma_layer_gives_back(
    below: Files,
    tree: Files,
    plan: LayerPlanView,
    archive: Archive,
    path: Seq<char>,
)
    requires
        copies_are_faithful(plan.copies, archive, tree),
        tree.contains_key(path),
        !plan.removals.contains(path),
        is_copied_to(plan.copies, path) || same_at(below, tree, path),
    ensures
        same_at(after_layer(below, plan, archive), tree, path),
{
    lemma_copies_effect(below, plan.copies, archive, path);
    if is_copied_to(plan.copies, path) {
        let j = choose|j: int|
            0 <= j < plan.copies.len() && (#[trigger] plan.copies[j]).dest == path && after_copies(
                below,
                plan.copies,
                archive,
            )[path] == archive[plan.copies[j].source];
        assert(archive[plan.copies[j].source] == tree[plan.copies[j].dest]);
    }
}

/// What the copies of a layer are: one for each name that has a place which
/// is not protected, from the name to that place.
pub proof fn lemma_copies(
    config: BlkConfig,
    names: Seq<Seq<char>>,
    exe: Option<Seq<char>>,
    copy: CopyActionView,
)
    ensures
        copies_of(config, names, exe).contains(copy) <==> exists|i: int|
            0 <= i < names.len() && copy_of(config, #[trigger] names[i], exe) == Some(copy),
    decreases names.len(),
{
    if names.len() > 0 {
        let rest = names.drop_last();
        let before = copies_of(config, rest, exe);
        let all = copies_of(config, names, exe);
        lemma_copies(config, rest, exe, copy);
        if before.contains(copy) {
            let j = before.index_of(copy);
            assert(all[j] == copy);
            let i = choose|i: int|
                0 <= i < rest.len() && copy_of(config, #[trigger] rest[i], exe) == Some(copy);
            assert(names[i] == rest[i]);
        }
        if copy_of(config, names.last(), exe) == Some(copy) {
            assert(all[before.len() as int] == copy);
            assert(names[names.len() - 1] == names.last());
        }
        if all.contains(copy) && !before.contains(copy) {
            let j = all.index_of(copy);
            if j < before.len() {
                assert(before[j] == copy);
            }
        }
        if exists|i: int|
            0 <= i < names.len() && copy_of(config, #[trigger] names[i], exe) == Some(copy) {
            let i = choose|i: int|
                0 <= i < names.len() && copy_of(config, #[trigger] names[i], exe) == Some(copy);
            if i < names.len() - 1 {
                assert(rest[i] == names[i]);
            }
        }
    }
}

/// What the removals of a layer are: the places of its tombstones, as far
/// as they have one that is not protected.
pub proof fn lemma_removals(
    config: BlkConfig,
    keys: Seq<Seq<char>>,
    exe: Option<Seq<char>>,
    path: Seq<char>,
)
    ensures
        removals_of(config, keys, exe).contains(path) <==> exists|i: int|
            0 <= i < keys.len() && removal_of(config, #[trigger] keys[i], exe) == Some(path),
    decreases keys.len(),
{
    if keys.len() > 0 {
        let rest = keys.drop_last();
        let before = removals_of(config, rest, exe);
        let all = removals_of(config, keys, exe);
        lemma_removals(config, rest, exe, path);
        if before.contains(path) {
            let j = before.index_of(path);
            assert(all[j] == path);
            let i = choose|i: int|
                0 <= i < rest.len() && removal_of(config, #[trigger] rest[i], exe) == Some(path);
            assert(keys[i] == rest[i]);
        }
        if removal_of(config, keys.last(), exe) == Some(path) {
            assert(all[before.len() as int] == path);
            assert(keys[keys.len() - 1] == keys.last());
        }
        if all.contains(path) && !before.contains(path) {
            let j = all.index_of(path);
            if j < before.len() {
                assert(before[j] == path);
            }
        }
        if exists|i: int|
            0 <= i < keys.len() && removal_of(config, #[trigger] keys[i], exe) == Some(path) {
            let i = choose|i: int|
                0 <= i < keys.len() && removal_of(config, #[trigger] keys[i], exe) == Some(path);
            if i < keys.len() - 1 {
                assert(rest[i] == keys[i]);
            }
        }
    }
}

/// What is staged: the staged files of the items that are staged.
pub proof fn lemma_staging(
    items: Seq<ScanItemView>,
    baseline: Map<Seq<char>, FileEntryView>,
    staged: StagedFileView,
)
    ensures
        staging_of(items, baseline).contains(staged) <==> exists|i: int|
            0 <= i < items.len() && is_staged(baseline, #[trigger] items[i]) && staged_of(items[i])
                == staged,
    decreases items.len(),
{
    if items.len() > 0 {
        let rest = items.drop_last();
        let before = staging_of(rest, baseline);
        let all = staging_of(items, baseline);
        lemma_staging(rest, baseline, staged);
        if before.contains(staged) {
            let j = before.index_of(staged);
            assert(all[j] == staged);
            let i = choose|i: int|
                0 <= i < rest.len() && is_staged(baseline, #[trigger] rest[i]) && staged_of(rest[i])
                    == staged;
            assert(items[i] == rest[i]);
        }
        if is_staged(baseline, items.last()) && staged_of(items.last()) == staged {
            assert(all[before.len() as int] == staged);
            assert(items[items.len() - 1] == items.last());
        }
        if all.contains(staged) && !before.contains(staged) {
            let j = all.index_of(staged);
            if j < before.len() {
                assert(before[j] == staged);
            }
        }
        if exists|i: int|
            0 <= i < items.len() && is_staged(baseline, #[trigger] items[i]) && staged_of(items[i])
                == staged {
            let i = choose|i: int|
                0 <= i < items.len() && is_staged(baseline, #[trigger] items[i]) && staged_of(
                    items[i],
                ) == staged;
            if i < items.len() - 1 {
                assert(rest[i] == items[i]);
            }
        }
    }
}

/// The name under which the archive of a set holds a file of `scope` with
/// the relative path `rel`.
pub open spec fn archive_name(scope: Seq<char>, rel: Seq<char>) -> Seq<char> {
    normalized(join_path(scope, rel))
}

/// The names of the staged files, in order.
pub open spec fn archive_names(staged: Seq<StagedFileView>) -> Seq<Seq<char>> {
    Seq::new(staged.len(), |i: int| archive_name(staged[i].scope, staged[i].rel))
}

/// The item stands for a file of `tree` that lies in its place: under the
/// directory of its scope, at its relative path with `/` separators, and
/// the place is not protected. The name of the scope holds neither a
/// separator nor a colon.
pub open spec fn is_in_place(
    config: BlkConfig,
    exe: Option<Seq<char>>,
    tree: Files,
    item: ScanItemView,
) -> bool {
    &&& item.rel is Some
    &&& item.rel->0.len() > 0
    &&& has_none_of(item.scope, '/')
    &&& has_none_of(item.scope, '\\')
    &&& has_none_of(item.scope, ':')
    &&& config.root_of(item.scope) is Some
    &&& item.path == join_path(config.root_of(item.scope)->0, normalized(item.rel->0))
    &&& !is_protected(item.path, exe)
    &&& tree.contains_key(item.path)
}

/// The layer that restores a saved set: its archive lists the staged files
/// under their names, its manifest the tombstones.
pub open spec fn saved_layer(
    id: Seq<char>,
    items: Seq<ScanItemView>,
    baseline: Map<Seq<char>, FileEntryView>,
    deleted: Seq<Seq<char>>,
) -> LayerInputView {
    LayerInputView {
        id: id,
        archive: ArchiveStateView::Listed(archive_names(staging_of(items, baseline))),
        deleted_paths: deleted,
    }
}

/// Save, then restore, over the files: the layer of a saved set, put on top
/// of the files that the chain of its parent restores, gives back the tree
/// that was saved.
///
/// `tree` holds the files as they stood at the save, `items` what the scan
/// took of them, `baseline` the recorded state of the parent, `below` the
/// files that the restore of the parent's chain leaves, `archive` the
/// contents of the new set's archive and `deleted` its tombstones. After the
/// layer every scanned file is there with the content it had in `tree`, and
/// no file is left at the place of a tombstone.
///
/// The law asks that each scanned file lies in its place; that the archive
/// holds for each staged file the content it had; that a file which is not
/// staged, its hash being that of the baseline, is in `below` what it is in
/// `tree`; and that no tombstone has the place of a scanned file.
pub proof fn lemma_saved_set_restores_the_files(
    config: BlkConfig,
    exe: Option<Seq<char>>,
    below: Files,
    tree: Files,
    baseline: Map<Seq<char>, FileEntryView>,
    items: Seq<ScanItemView>,
    deleted: Seq<Seq<char>>,
    archive: Archive,
    id: Seq<char>,
)
    requires
        forall|i: int| 0 <= i < items.len() ==> is_in_place(config, exe, tree, #[trigger] items[i]),
        forall|i: int|
            0 <= i < items.len() && is_staged(baseline, #[trigger] items[i]) ==> archive[archive_name(
                items[i].scope,
                items[i].rel->0,
            )] == tree[items[i].path],
        forall|i: int|
            0 <= i < items.len() && !is_staged(baseline, #[trigger] items[i]) ==> same_at(
                below,
                tree,
                items[i].path,
            ),
        forall|k: int, i: int|
            0 <= k < deleted.len() && 0 <= i < items.len() ==> removal_of(
                config,
                #[trigger] deleted[k],
                exe,
            ) != Some((#[trigger] items[i]).path),
    ensures
        forall|i: int|
            0 <= i < items.len() ==> same_at(
                after_layer(
                    below,
                    layer_plan_of(config, saved_layer(id, items, baseline, deleted), exe),
                    archive,
                ),
                tree,
                (#[trigger] items[i]).path,
            ),
        forall|k: int|
            0 <= k < deleted.len() && removal_of(config, #[trigger] deleted[k], exe) is Some
                ==> !after_layer(
                below,
                layer_plan_of(config, saved_layer(id, items, baseline, deleted), exe),
                archive,
            ).contains_key(removal_of(config, deleted[k], exe)->0),
{
    let staged = staging_of(items, baseline);
    let names = archive_names(staged);
    let plan = layer_plan_of(config, saved_layer(id, items, baseline, deleted), exe);
    let after = after_layer(below, plan, archive);
    assert(plan.copies == copies_of(config, names, exe));
    assert(plan.removals == removals_of(config, deleted, exe));
    assert(copies_are_faithful(plan.copies, archive, tree)) by {
        assert forall|j: int| 0 <= j < plan.copies.len() implies tree.contains_key(
            (#[trigger] plan.copies[j]).dest,
        ) && archive[plan.copies[j].source] == tree[plan.copies[j].dest] by {
            let c = plan.copies[j];
            assert(plan.copies.contains(c));
            lemma_copies(config, names, exe, c);
            let t = choose|t: int|
                0 <= t < names.len() && copy_of(config, #[trigger] names[t], exe) == Some(c);
            assert(staged.contains(staged[t]));
            lemma_staging(items, baseline, staged[t]);
            let i = choose|i: int|
                0 <= i < items.len() && is_staged(baseline, #[trigger] items[i]) && staged_of(
                    items[i],
                ) == staged[t];
            assert(is_in_place(config, exe, tree, items[i]));
            lemma_archived_file_returns_to_its_place(config, items[i].scope, items[i].rel->0);
            assert(names[t] == archive_name(items[i].scope, items[i].rel->0));
        }
    }
    assert forall|i: int| 0 <= i < items.len() implies same_at(
        after,
        tree,
        (#[trigger] items[i]).path,
    ) by {
        let item = items[i];
        let path = item.path;
        assert(is_in_place(config, exe, tree, item));
        assert(!plan.removals.contains(path)) by {
            lemma_removals(config, deleted, exe, path);
            if plan.removals.contains(path) {
                let k = choose|k: int|
                    0 <= k < deleted.len() && removal_of(config, #[trigger] deleted[k], exe)
                        == Some(path);
                assert(removal_of(config, deleted[k], exe) != Some(items[i].path));
            }
        }
        if is_staged(baseline, item) {
            lemma_staging(items, baseline, staged_of(item));
            assert(staged.contains(staged_of(item)));
            let t = staged.index_of(staged_of(item));
            assert(names[t] == archive_name(item.scope, item.rel->0));
            lemma_archived_file_returns_to_its_place(config, item.scope, item.rel->0);
            let c = CopyActionView { source: names[t], dest: path };
            assert(copy_of(config, names[t], exe) == Some(c));
            lemma_copies(config, names, exe, c);
            let j = plan.copies.index_of(c);
            assert(plan.copies[j].dest == path);
        }
        lemma_layer_gives_back(below, tree, plan, archive, path);
    }
    assert forall|k: int|
        0 <= k < deleted.len() && removal_of(
            config,
            #[trigger] deleted[k],
            exe,
        ) is Some implies !after.contains_key(removal_of(config, deleted[k], exe)->0) by {
        let p = removal_of(config, deleted[k], exe)->0;
        lemma_removals(config, deleted, exe, p);
    }
}

} // verus!
