//! Setting up and reconfiguring: the first set of a fresh directory, a new
//! scope directory, new scopes and exclusions for a set.

use vstd::prelude::*;
use vstd::string::*;
use crate::delta::{staging, staging_of, DeltaPlan};
use crate::models::{
    texts, Baseline, BlkConfig, FileEntryView, SetManifest, SetManifestView,
};
use crate::scan::{views, ScanItem};

verus! {

/// What initializing a directory comes to: the configuration to write and
/// the first set.
#[derive(Debug, Clone, PartialEq, Eq)]
pub struct InitPlan {
    pub config: BlkConfig,
    pub delta: DeltaPlan,
}

/// The manifest of the first set of a directory.
pub open spec fn vanilla_manifest(created_at: u64) -> SetManifestView {
    SetManifestView {
        id: "vanilla"@,
        name: "Vanilla"@,
        parent_id: None,
        created_at: created_at,
        scopes: seq!["Root"@],
        exclusions: Seq::empty(),
        deleted_paths: Seq::empty(),
    }
}

/// Plans the initialization of the directory `app_root`.
///
/// The configuration makes the scope `Root` stand for the directory. The
/// first set is called `Vanilla`, has no parent and no tombstones, covers
/// the scope `Root` without exclusions, and its archive receives every one
/// of `items`, the files that a scan of the directory takes into account.
pub fn engine_auto_init(app_root: &str, items: &Vec<ScanItem>, created_at: u64) -> (plan: InitPlan)
    ensures
        plan.config@ == Map::<Seq<char>, Seq<char>>::empty().insert("Root"@, app_root@),
        plan.delta.manifest@ == vanilla_manifest(created_at),
        views(plan.delta.staged@) == staging_of(
            views(items@),
            Map::<Seq<char>, FileEntryView>::empty(),
        ),
{
    let mut config = BlkConfig::new();
    config.insert(String::from_str("Root"), String::from_str(app_root));
    let mut scopes: Vec<String> = Vec::new();
    scopes.push(String::from_str("Root"));
    let manifest = SetManifest {
        id: String::from_str("vanilla"),
        name: String::from_str("Vanilla"),
        parent_id: None,
        created_at: created_at,
        scopes: scopes,
        exclusions: Vec::new(),
        deleted_paths: Vec::new(),
    };
    proof {
        assert(manifest@.scopes =~= seq!["Root"@]);
        assert(manifest@.exclusions =~= Seq::<Seq<char>>::empty());
        assert(manifest@.deleted_paths =~= Seq::<Seq<char>>::empty());
    }
    let staged = staging(items, &Baseline::new());
    InitPlan { config: config, delta: DeltaPlan { manifest: manifest, staged: staged } }
}

/// The configuration with the scope `key` standing for the directory
/// `path`, in place of what it stood for.
pub fn engine_update_global_path(config: BlkConfig, key: String, path: String) -> (updated: BlkConfig)
    ensures
        updated@ == config@.insert(key@, path@),
{
    let mut updated = config;
    updated.insert(key, path);
    updated
}

/// The manifest with new scopes and exclusions, all else as it was.
pub fn engine_update_manifest(
    manifest: SetManifest,
    scopes: Vec<String>,
    exclusions: Vec<String>,
) -> (updated: SetManifest)
    ensures
        updated@ == (SetManifestView {
            scopes: texts(scopes@),
            exclusions: texts(exclusions@),
            ..manifest@
        }),
{
    let mut updated = manifest;
    updated.scopes = scopes;
    updated.exclusions = exclusions;
    updated
}

} // verus!
