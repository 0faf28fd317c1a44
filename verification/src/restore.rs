//! The restore orchestrator: what to wipe, where the files of each layer go,
//! which tombstones to apply, and which directories to prune afterwards.

use vstd::prelude::*;
use crate::delta::{join_path, joined, key_location, split_key};
use crate::models::{texts, BlkConfig};
use crate::safety::{is_protected, lowercase, lowercase_of, opt_str, should_ignore};
use crate::scan::{views, WalkedEntry, WalkedEntryView};
use crate::text::{
    contains_sub, find_sub, first_occurrence, from_chars, lemma_first_occurrence_is, same_chars,
    slice_chars, to_chars,
};

verus! {

/// The removal of one entry of a scope directory.
#[derive(Debug, Clone, PartialEq, Eq)]
pub struct WipeAction {
    pub path: String,
    /// The entry is a directory, to be removed with all that it holds.
    pub recursive: bool,
}

/// A wipe action as a mathematical value.
pub struct WipeActionView {
    pub path: Seq<char>,
    pub recursive: bool,
}

impl View for WipeAction {
    type V = WipeActionView;

    open spec fn view(&self) -> WipeActionView {
        WipeActionView { path: self.path@, recursive: self.recursive }
    }
}

/// The wipe of a listing: one removal for each entry that is not protected,
/// in listing order.
pub open spec fn wipe_plan_of(entries: Seq<WalkedEntryView>, exe: Option<Seq<char>>) -> Seq<
    WipeActionView,
>
    decreases entries.len(),
{
    if entries.len() == 0 {
        Seq::empty()
    } else {
        let before = wipe_plan_of(entries.drop_last(), exe);
        let e = entries.last();
        if is_protected(e.path, exe) {
            before
        } else {
            before.push(WipeActionView { path: e.path, recursive: e.is_dir })
        }
    }
}

/// No action of the wipe names a protected path.
pub open spec fn wipe_spares_protected(plan: Seq<WipeActionView>, exe: Option<Seq<char>>) -> bool {
    forall|i: int| 0 <= i < plan.len() ==> !is_protected(#[trigger] plan[i].path, exe)
}

/// The first phase of a restore. `entries` are the direct entries of the
/// scope directories; each one that the safety filter does not protect is
/// to be removed, a directory with all that it holds.
pub fn nuke_scopes(entries: &Vec<WalkedEntry>, exe: Option<&str>) -> (plan: Vec<WipeAction>)
    ensures
        views(plan@) == wipe_plan_of(views(entries@), opt_str(exe)),
        wipe_spares_protected(views(plan@), opt_str(exe)),
{
    let mut plan: Vec<WipeAction> = Vec::new();
    let mut i: usize = 0;
    while i < entries.len()
        invariant
            i <= entries@.len(),
            views(plan@) == wipe_plan_of(views(entries@).take(i as int), opt_str(exe)),
            wipe_spares_protected(views(plan@), opt_str(exe)),
        decreases entries@.len() - i,
    {
        let e = &entries[i];
        proof {
            let t = views(entries@).take(i + 1);
            assert(t.drop_last() =~= views(entries@).take(i as int));
            assert(t.last() == e@);
        }
        let ghost before = plan@;
        if !should_ignore(e.path.as_str(), exe) {
            let action = WipeAction { path: e.path.clone(), recursive: e.is_dir };
            plan.push(action);
            assert(views(plan@) =~= views(before).push(action@));
        }
        i += 1;
    }
    assert(views(entries@).take(entries@.len() as int) =~= views(entries@));
    plan
}

/// The two parts of the name of an archived file: the first segment, which
/// names the scope, and what follows the first slash. A name without a slash
/// is all scope.
pub open spec fn name_parts(name: Seq<char>) -> (Seq<char>, Seq<char>) {
    if contains_sub(name, "/"@) {
        let i = first_occurrence(name, "/"@);
        (name.subrange(0, i), name.subrange(i + "/"@.len(), name.len() as int))
    } else {
        (name, Seq::empty())
    }
}

/// Where an archived file goes. Under the directory of its scope, if the
/// scope is configured and a path follows it; else, for an unknown scope,
/// under the directory of the scope `Root` with its whole name.
pub open spec fn placement(config: BlkConfig, name: Seq<char>) -> Option<Seq<char>> {
    let (scope, rest) = name_parts(name);
    match config.root_of(scope) {
        Some(base) => if rest.len() > 0 {
            Some(join_path(base, rest))
        } else {
            None
        },
        None => match config.root_of("Root"@) {
            Some(root) => Some(join_path(root, name)),
            None => None,
        },
    }
}

/// The copy of one archived file to its place.
#[derive(Debug, Clone, PartialEq, Eq)]
pub struct CopyAction {
    /// The name of the file in the archive.
    pub source: String,
    /// The path that receives it.
    pub dest: String,
}

/// A copy action as a mathematical value.
pub struct CopyActionView {
    pub source: Seq<char>,
    pub dest: Seq<char>,
}

impl View for CopyAction {
    type V = CopyActionView;

    open spec fn view(&self) -> CopyActionView {
        CopyActionView { source: self.source@, dest: self.dest@ }
    }
}

/// The copy that an archived file calls for: to its place, unless it has
/// none or the place is protected.
pub open spec fn copy_of(config: BlkConfig, name: Seq<char>, exe: Option<Seq<char>>) -> Option<
    CopyActionView,
> {
    match placement(config, name) {
        Some(dest) => if is_protected(dest, exe) {
            None
        } else {
            Some(CopyActionView { source: name, dest: dest })
        },
        None => None,
    }
}

/// The copies of a layer, in the order of its names.
pub open spec fn copies_of(config: BlkConfig, names: Seq<Seq<char>>, exe: Option<Seq<char>>) -> Seq<
    CopyActionView,
>
    decreases names.len(),
{
    if names.len() == 0 {
        Seq::empty()
    } else {
        let before = copies_of(config, names.drop_last(), exe);
        match copy_of(config, names.last(), exe) {
            Some(c) => before.push(c),
            None => before,
        }
    }
}

/// The removal that a tombstone calls for: of the file of its key, unless
/// the key has no place or the place is protected.
pub open spec fn removal_of(config: BlkConfig, key: Seq<char>, exe: Option<Seq<char>>) -> Option<
    Seq<char>,
> {
    match key_location(config, key) {
        Some(path) => if is_protected(path, exe) {
            None
        } else {
            Some(path)
        },
        None => None,
    }
}

/// The removals of a layer, in the order of its tombstones.
pub open spec fn removals_of(config: BlkConfig, keys: Seq<Seq<char>>, exe: Option<Seq<char>>) -> Seq<
    Seq<char>,
>
    decreases keys.len(),
{
    if keys.len() == 0 {
        Seq::empty()
    } else {
        let before = removals_of(config, keys.drop_last(), exe);
        match removal_of(config, keys.last(), exe) {
            Some(p) => before.push(p),
            None => before,
        }
    }
}

/// Where an archived file goes.
pub fn place(config: &BlkConfig, name: &str) -> (r: Option<String>)
    ensures
        crate::models::opt_text(r) == placement(*config, name@),
{
    let n = to_chars(name);
    let sep = to_chars("/");
    let total: usize = n.len();
    let (scope, rest) = match find_sub(&n, &sep) {
        Some(i) => {
            proof {
                lemma_first_occurrence_is(n@, sep@, i as int);
            }
            (slice_chars(&n, 0, i), slice_chars(&n, i + sep.len(), total))
        },
        None => (slice_chars(&n, 0, total), Vec::new()),
    };
    assert(n@.subrange(0, total as int) =~= n@);
    assert((scope@, rest@) == name_parts(name@));
    match config.get(from_chars(&scope).as_str()) {
        Some(base) => if rest.len() > 0 {
            Some(joined(base.as_str(), from_chars(&rest).as_str()))
        } else {
            None
        },
        None => match config.get("Root") {
            Some(root) => Some(joined(root.as_str(), name)),
            None => None,
        },
    }
}

/// What is known of the archive of a layer when its turn comes.
#[derive(Debug, Clone, PartialEq, Eq)]
pub enum ArchiveState {
    /// There is no archive for the set.
    Missing,
    /// The archive is there and could not be read.
    Unreadable,
    /// The names of the files that the archive holds, `/` between segments.
    Listed(Vec<String>),
}

/// The state of an archive as a mathematical value.
pub enum ArchiveStateView {
    Missing,
    Unreadable,
    Listed(Seq<Seq<char>>),
}

impl View for ArchiveState {
    type V = ArchiveStateView;

    open spec fn view(&self) -> ArchiveStateView {
        match self {
            ArchiveState::Missing => ArchiveStateView::Missing,
            ArchiveState::Unreadable => ArchiveStateView::Unreadable,
            ArchiveState::Listed(names) => ArchiveStateView::Listed(texts(names@)),
        }
    }
}

/// One set of the chain, as the restore finds it.
#[derive(Debug, Clone, PartialEq, Eq)]
pub struct LayerInput {
    pub id: String,
    pub archive: ArchiveState,
    /// The tombstones of the set's manifest; none where the manifest is
    /// missing or cannot be read.
    pub deleted_paths: Vec<String>,
}

/// A layer input as a mathematical value.
pub struct LayerInputView {
    pub id: Seq<char>,
    pub archive: ArchiveStateView,
    pub deleted_paths: Seq<Seq<char>>,
}

impl View for LayerInput {
    type V = LayerInputView;

    open spec fn view(&self) -> LayerInputView {
        LayerInputView {
            id: self.id@,
            archive: self.archive@,
            deleted_paths: texts(self.deleted_paths@),
        }
    }
}

/// What to do for one set of the chain: first the copies, then the removals.
#[derive(Debug, Clone, PartialEq, Eq)]
pub struct LayerPlan {
    pub id: String,
    pub copies: Vec<CopyAction>,
    pub removals: Vec<String>,
}

/// A layer plan as a mathematical value.
pub struct LayerPlanView {
    pub id: Seq<char>,
    pub copies: Seq<CopyActionView>,
    pub removals: Seq<Seq<char>>,
}

impl View for LayerPlan {
    type V = LayerPlanView;

    open spec fn view(&self) -> LayerPlanView {
        LayerPlanView { id: self.id@, copies: views(self.copies@), removals: texts(self.removals@) }
    }
}

/// The plan of one layer. A layer whose archive cannot be read is passed
/// over altogether; one without an archive still applies its tombstones.
pub open spec fn layer_plan_of(
    config: BlkConfig,
    layer: LayerInputView,
    exe: Option<Seq<char>>,
) -> LayerPlanView {
    match layer.archive {
        ArchiveStateView::Unreadable => LayerPlanView {
            id: layer.id,
            copies: Seq::empty(),
            removals: Seq::empty(),
        },
        ArchiveStateView::Missing => LayerPlanView {
            id: layer.id,
            copies: Seq::empty(),
            removals: removals_of(config, layer.deleted_paths, exe),
        },
        ArchiveStateView::Listed(names) => LayerPlanView {
            id: layer.id,
            copies: copies_of(config, names, exe),
            removals: removals_of(config, layer.deleted_paths, exe),
        },
    }
}

/// No copy and no removal of the layer names a protected path.
pub open spec fn layer_spares_protected(plan: LayerPlanView, exe: Option<Seq<char>>) -> bool {
    &&& forall|i: int| 0 <= i < plan.copies.len() ==> !is_protected(#[trigger] plan.copies[i].dest, exe)
    &&& forall|i: int| 0 <= i < plan.removals.len() ==> !is_protected(#[trigger] plan.removals[i], exe)
}

/// The copies that the files of an archive call for.
fn plan_copies(config: &BlkConfig, names: &Vec<String>, exe: Option<&str>) -> (r: Vec<CopyAction>)
    ensures
        views(r@) == copies_of(*config, texts(names@), opt_str(exe)),
        forall|i: int| 0 <= i < r@.len() ==> !is_protected(#[trigger] views(r@)[i].dest, opt_str(exe)),
{
    let mut r: Vec<CopyAction> = Vec::new();
    let mut i: usize = 0;
    while i < names.len()
        invariant
            i <= names@.len(),
            views(r@) == copies_of(*config, texts(names@).take(i as int), opt_str(exe)),
            forall|k: int|
                0 <= k < r@.len() ==> !is_protected(#[trigger] views(r@)[k].dest, opt_str(exe)),
        decreases names@.len() - i,
    {
        proof {
            let t = texts(names@).take(i + 1);
            assert(t.drop_last() =~= texts(names@).take(i as int));
            assert(t.last() == names@[i as int]@);
        }
        let ghost before = r@;
        match place(config, names[i].as_str()) {
            Some(dest) => {
                if !should_ignore(dest.as_str(), exe) {
                    let action = CopyAction { source: names[i].clone(), dest: dest };
                    r.push(action);
                    assert(views(r@) =~= views(before).push(action@));
                }
            },
            None => {},
        }
        i += 1;
    }
    assert(texts(names@).take(names@.len() as int) =~= texts(names@));
    r
}

/// Where the file of a path key lies, if its scope is configured.
pub fn locate_key(config: &BlkConfig, key: &str) -> (r: Option<String>)
    ensures
        crate::models::opt_text(r) == key_location(*config, key@),
{
    match split_key(key) {
        Some((scope, rel)) => match config.get(scope.as_str()) {
            Some(root) => Some(joined(root.as_str(), rel.as_str())),
            None => None,
        },
        None => None,
    }
}

/// The removals that the tombstones of a set call for.
fn plan_removals(config: &BlkConfig, keys: &Vec<String>, exe: Option<&str>) -> (r: Vec<String>)
    ensures
        texts(r@) == removals_of(*config, texts(keys@), opt_str(exe)),
        forall|i: int| 0 <= i < r@.len() ==> !is_protected(#[trigger] texts(r@)[i], opt_str(exe)),
{
    let mut r: Vec<String> = Vec::new();
    let mut i: usize = 0;
    while i < keys.len()
        invariant
            i <= keys@.len(),
            texts(r@) == removals_of(*config, texts(keys@).take(i as int), opt_str(exe)),
            forall|k: int| 0 <= k < r@.len() ==> !is_protected(#[trigger] texts(r@)[k], opt_str(exe)),
        decreases keys@.len() - i,
    {
        proof {
            let t = texts(keys@).take(i + 1);
            assert(t.drop_last() =~= texts(keys@).take(i as int));
            assert(t.last() == keys@[i as int]@);
        }
        let ghost before = r@;
        match locate_key(config, keys[i].as_str()) {
            Some(path) => {
                if !should_ignore(path.as_str(), exe) {
                    let ghost p = path@;
                    r.push(path);
                    assert(texts(r@) =~= texts(before).push(p));
                }
            },
            None => {},
        }
        i += 1;
    }
    assert(texts(keys@).take(keys@.len() as int) =~= texts(keys@));
    r
}

/// What to do for one set of the chain: where each file of its archive
/// goes, and which files its tombstones remove afterwards. No action names
/// a protected path.
pub fn restore_layer(config: &BlkConfig, layer: &LayerInput, exe: Option<&str>) -> (plan: LayerPlan)
    ensures
        plan@ == layer_plan_of(*config, layer@, opt_str(exe)),
        layer_spares_protected(plan@, opt_str(exe)),
{
    let copies = match &layer.archive {
        ArchiveState::Listed(names) => plan_copies(config, names, exe),
        _ => Vec::new(),
    };
    let removals = match &layer.archive {
        ArchiveState::Unreadable => Vec::new(),
        _ => plan_removals(config, &layer.deleted_paths, exe),
    };
    let plan = LayerPlan { id: layer.id.clone(), copies: copies, removals: removals };
    proof {
        let want = layer_plan_of(*config, layer@, opt_str(exe));
        assert(plan@.copies =~= want.copies);
        assert(plan@.removals =~= want.removals);
    }
    plan
}

/// The whole of a restore: the wipe, then the layers from the root set to
/// the target.
#[derive(Debug, Clone, PartialEq, Eq)]
pub struct RestorePlan {
    pub wipe: Vec<WipeAction>,
    pub layers: Vec<LayerPlan>,
}

/// A restore plan as a mathematical value.
pub struct RestorePlanView {
    pub wipe: Seq<WipeActionView>,
    pub layers: Seq<LayerPlanView>,
}

impl View for RestorePlan {
    type V = RestorePlanView;

    open spec fn view(&self) -> RestorePlanView {
        RestorePlanView { wipe: views(self.wipe@), layers: views(self.layers@) }
    }
}

/// The plans of the layers of a chain, in chain order.
pub open spec fn layer_plans_of(
    config: BlkConfig,
    layers: Seq<LayerInputView>,
    exe: Option<Seq<char>>,
) -> Seq<LayerPlanView> {
    Seq::new(layers.len(), |i: int| layer_plan_of(config, layers[i], exe))
}

/// No action of the plan names a protected path.
pub open spec fn plan_spares_protected(plan: RestorePlanView, exe: Option<Seq<char>>) -> bool {
    &&& wipe_spares_protected(plan.wipe, exe)
    &&& forall|i: int| 0 <= i < plan.layers.len() ==> layer_spares_protected(#[trigger] plan.layers[i], exe)
}

/// Plans the restore of a chain of sets. `entries` are the direct entries
/// of the scope directories, `layers` the sets of the chain from the root
/// set to the target.
///
/// Everything in the scopes that is not protected is wiped; then each layer
/// in turn puts its files in place, overwriting, and applies its tombstones.
/// No action of the plan names a protected path.
pub fn engine_restore_chain(
    config: &BlkConfig,
    entries: &Vec<WalkedEntry>,
    layers: &Vec<LayerInput>,
    exe: Option<&str>,
) -> (plan: RestorePlan)
    ensures
        plan@.wipe == wipe_plan_of(views(entries@), opt_str(exe)),
        plan@.layers == layer_plans_of(*config, views(layers@), opt_str(exe)),
        plan_spares_protected(plan@, opt_str(exe)),
{
    let wipe = nuke_scopes(entries, exe);
    let mut plans: Vec<LayerPlan> = Vec::new();
    let mut i: usize = 0;
    while i < layers.len()
        invariant
            i <= layers@.len(),
            plans@.len() == i,
            forall|k: int|
                0 <= k < i ==> (#[trigger] plans@[k])@ == layer_plan_of(
                    *config,
                    layers@[k]@,
                    opt_str(exe),
                ),
            forall|k: int| 0 <= k < i ==> layer_spares_protected((#[trigger] plans@[k])@, opt_str(exe)),
        decreases layers@.len() - i,
    {
        let p = restore_layer(config, &layers[i], exe);
        plans.push(p);
        i += 1;
    }
    let plan = RestorePlan { wipe: wipe, layers: plans };
    assert(plan@.layers =~= layer_plans_of(*config, views(layers@), opt_str(exe)));
    plan
}

/// What to do with a directory when empty directories are pruned.
#[derive(Debug, Clone, Copy, PartialEq, Eq)]
pub enum PruneAction {
    /// Leave it.
    Keep,
    /// It is empty: remove it.
    RemoveEmpty,
    /// It holds nothing but junk: remove it with what it holds.
    RemoveJunk,
}

/// A name, already in lowercase, that counts as junk.
pub open spec fn is_junk_lowered(lowered: Seq<char>) -> bool {
    lowered == "thumbs.db"@ || lowered == ".ds_store"@ || lowered == "desktop.ini"@
}

/// A file name that counts as junk, whatever its case.
pub open spec fn is_junk(name: Seq<char>) -> bool {
    is_junk_lowered(lowercase_of(name))
}

/// Every child is junk and none of them is protected.
pub open spec fn only_junk(dir: Seq<char>, children: Seq<Seq<char>>, exe: Option<Seq<char>>) -> bool {
    forall|i: int|
        0 <= i < children.len() ==> is_junk(#[trigger] children[i]) && !is_protected(
            join_path(dir, children[i]),
            exe,
        )
}

/// What pruning does with the directory `dir` of the scope directory `root`
/// whose entries are named `children`. The scope directory itself and
/// protected directories are kept. An empty directory is removed. One that
/// holds one or two entries, all of them junk, is removed with them.
pub open spec fn prune_action_of(
    dir: Seq<char>,
    root: Seq<char>,
    children: Seq<Seq<char>>,
    exe: Option<Seq<char>>,
) -> PruneAction {
    if dir == root || is_protected(dir, exe) {
        PruneAction::Keep
    } else if children.len() == 0 {
        PruneAction::RemoveEmpty
    } else if children.len() <= 2 && only_junk(dir, children, exe) {
        PruneAction::RemoveJunk
    } else {
        PruneAction::Keep
    }
}

/// Whether a name, already in lowercase, counts as junk.
pub fn is_junk_name(lowered: &str) -> (r: bool)
    ensures
        r == is_junk_lowered(lowered@),
{
    let n = to_chars(lowered);
    same_chars(&n, &to_chars("thumbs.db")) || same_chars(&n, &to_chars(".ds_store"))
        || same_chars(&n, &to_chars("desktop.ini"))
}

/// What pruning does with a directory. A directory that is protected, or
/// that holds a protected entry, is never removed.
pub fn prune_action(dir: &str, root: &str, children: &Vec<String>, exe: Option<&str>) -> (r:
    PruneAction)
    ensures
        r == prune_action_of(dir@, root@, texts(children@), opt_str(exe)),
        r != PruneAction::Keep ==> !is_protected(dir@, opt_str(exe)) && forall|i: int|
            0 <= i < children@.len() ==> !is_protected(
                join_path(dir@, #[trigger] texts(children@)[i]),
                opt_str(exe),
            ),
{
    if same_chars(&to_chars(dir), &to_chars(root)) || should_ignore(dir, exe) {
        return PruneAction::Keep;
    }
    if children.len() == 0 {
        return PruneAction::RemoveEmpty;
    }
    if children.len() > 2 {
        return PruneAction::Keep;
    }
    let mut i: usize = 0;
    while i < children.len()
        invariant
            i <= children@.len(),
            forall|k: int|
                0 <= k < i ==> is_junk(#[trigger] texts(children@)[k]) && !is_protected(
                    join_path(dir@, texts(children@)[k]),
                    opt_str(exe),
                ),
        decreases children@.len() - i,
    {
        let name = children[i].as_str();
        let lowered = lowercase(name);
        let child = joined(dir, name);
        if !is_junk_name(lowered.as_str()) || should_ignore(child.as_str(), exe) {
            assert(texts(children@)[i as int] == name@);
            return PruneAction::Keep;
        }
        assert(texts(children@)[i as int] == name@);
        i += 1;
    }
    PruneAction::RemoveJunk
}

/// Whether pruning goes round again: it does while the last round removed
/// something, for three rounds at most.
pub fn prune_continues(rounds_done: usize, removed_any: bool) -> (r: bool)
    ensures
        r == (removed_any && rounds_done < 3),
{
    removed_any && rounds_done < 3
}

} // verus!
