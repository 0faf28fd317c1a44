//! Where the engine keeps its records under a managed directory.

use vstd::prelude::*;
use vstd::string::*;
use crate::delta::{join_path, joined};

verus! {

/// The directory of the engine's records under `root`.
pub open spec fn meta_dir_of(root: Seq<char>) -> Seq<char> {
    join_path(root, ".blk"@)
}

/// The file that holds the scope configuration.
pub open spec fn config_path_of(root: Seq<char>) -> Seq<char> {
    join_path(meta_dir_of(root), "config.json"@)
}

/// The file that holds the baseline.
pub open spec fn baseline_path_of(root: Seq<char>) -> Seq<char> {
    join_path(meta_dir_of(root), "baseline.json"@)
}

/// The directory of the set manifests.
pub open spec fn sets_dir_of(root: Seq<char>) -> Seq<char> {
    join_path(meta_dir_of(root), "sets"@)
}

/// The directory of the archives.
pub open spec fn snapshots_dir_of(root: Seq<char>) -> Seq<char> {
    join_path(meta_dir_of(root), "snapshots"@)
}

/// The manifest of the set `id`.
pub open spec fn manifest_path_of(root: Seq<char>, id: Seq<char>) -> Seq<char> {
    join_path(sets_dir_of(root), id + ".json"@)
}

/// The archive of the set `id`.
pub open spec fn snapshot_path_of(root: Seq<char>, id: Seq<char>) -> Seq<char> {
    join_path(snapshots_dir_of(root), id + ".zip"@)
}

/// The directory in which the archive of the set `id` is put together.
pub open spec fn staging_dir_of(root: Seq<char>, id: Seq<char>) -> Seq<char> {
    join_path(join_path(meta_dir_of(root), "staging"@), id)
}

/// The directory into which the archive of the set `id` is unpacked.
pub open spec fn extract_dir_of(root: Seq<char>, id: Seq<char>) -> Seq<char> {
    join_path(join_path(meta_dir_of(root), "tmp_extract"@), id)
}

/// The directory of the engine's records under `root`.
pub fn meta_dir(root: &str) -> (p: String)
    ensures
        p@ == meta_dir_of(root@),
{
    joined(root, ".blk")
}

/// The file that holds the scope configuration.
pub fn config_path(root: &str) -> (p: String)
    ensures
        p@ == config_path_of(root@),
{
    joined(meta_dir(root).as_str(), "config.json")
}

/// The file that holds the baseline.
pub fn baseline_path(root: &str) -> (p: String)
    ensures
        p@ == baseline_path_of(root@),
{
    joined(meta_dir(root).as_str(), "baseline.json")
}

/// The directory of the set manifests.
pub fn sets_dir(root: &str) -> (p: String)
    ensures
        p@ == sets_dir_of(root@),
{
    joined(meta_dir(root).as_str(), "sets")
}

/// The directory of the archives.
pub fn snapshots_dir(root: &str) -> (p: String)
    ensures
        p@ == snapshots_dir_of(root@),
{
    joined(meta_dir(root).as_str(), "snapshots")
}

/// The manifest of the set `id`.
pub fn manifest_path(root: &str, id: &str) -> (p: String)
    ensures
        p@ == manifest_path_of(root@, id@),
{
    let file = String::from_str(id).concat(".json");
    joined(sets_dir(root).as_str(), file.as_str())
}

/// The archive of the set `id`.
pub fn snapshot_path(root: &str, id: &str) -> (p: String)
    ensures
        p@ == snapshot_path_of(root@, id@),
{
    let file = String::from_str(id).concat(".zip");
    joined(snapshots_dir(root).as_str(), file.as_str())
}

/// The directory in which the archive of the set `id` is put together.
pub fn staging_dir(root: &str, id: &str) -> (p: String)
    ensures
        p@ == staging_dir_of(root@, id@),
{
    joined(joined(meta_dir(root).as_str(), "staging").as_str(), id)
}

/// The directory into which the archive of the set `id` is unpacked.
pub fn extract_dir(root: &str, id: &str) -> (p: String)
    ensures
        p@ == extract_dir_of(root@, id@),
{
    joined(joined(meta_dir(root).as_str(), "tmp_extract").as_str(), id)
}

} // verus!
