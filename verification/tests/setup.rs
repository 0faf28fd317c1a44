use blk::layout::{
    baseline_path, config_path, extract_dir, manifest_path, meta_dir, sets_dir, snapshot_path,
    snapshots_dir, staging_dir,
};
use blk::models::{BlkConfig, SetManifest};
use blk::scan::ScanItem;
use blk::setup::{engine_auto_init, engine_update_global_path, engine_update_manifest};

fn item(rel: &str, hash: &str) -> ScanItem {
    ScanItem {
        scope: "Root".to_string(),
        path: format!("/r/{rel}"),
        rel: Some(rel.to_string()),
        key: format!("Root::{rel}"),
        size: 1,
        modified: 1,
        hash: Some(hash.to_string()),
    }
}

#[test]
fn layout_under_the_managed_directory() {
    assert_eq!(meta_dir("/r"), "/r/.blk");
    assert_eq!(config_path("/r"), "/r/.blk/config.json");
    assert_eq!(baseline_path("/r"), "/r/.blk/baseline.json");
    assert_eq!(sets_dir("/r"), "/r/.blk/sets");
    assert_eq!(snapshots_dir("/r"), "/r/.blk/snapshots");
    assert_eq!(manifest_path("/r", "edit1"), "/r/.blk/sets/edit1.json");
    assert_eq!(snapshot_path("/r", "edit1"), "/r/.blk/snapshots/edit1.zip");
    assert_eq!(staging_dir("/r", "edit1"), "/r/.blk/staging/edit1");
    assert_eq!(extract_dir("/r", "edit1"), "/r/.blk/tmp_extract/edit1");
}

#[test]
fn initialization_makes_root_scope_and_vanilla_set() {
    let items = vec![item("a.txt", "hA"), item("sub/b.txt", "hB")];
    let plan = engine_auto_init("/r", &items, 77);
    assert_eq!(plan.config.path_map, vec![("Root".to_string(), "/r".to_string())]);
    assert_eq!(
        plan.delta.manifest,
        SetManifest {
            id: "vanilla".to_string(),
            name: "Vanilla".to_string(),
            parent_id: None,
            created_at: 77,
            scopes: vec!["Root".to_string()],
            exclusions: vec![],
            deleted_paths: vec![],
        }
    );
    let staged: Vec<(&str, &str, &str)> = plan
        .delta
        .staged
        .iter()
        .map(|f| (f.source.as_str(), f.scope.as_str(), f.rel.as_str()))
        .collect();
    assert_eq!(staged, vec![("/r/a.txt", "Root", "a.txt"), ("/r/sub/b.txt", "Root", "sub/b.txt")]);
}

#[test]
fn initialization_of_an_empty_directory_stages_nothing() {
    let plan = engine_auto_init("/r", &vec![], 1);
    assert!(plan.delta.staged.is_empty());
    assert!(plan.delta.manifest.deleted_paths.is_empty());
}

#[test]
fn a_scope_directory_is_added_or_replaced() {
    let config = engine_update_global_path(BlkConfig::new(), "AC".to_string(), "/a".to_string());
    assert_eq!(config.get("AC"), Some(&"/a".to_string()));
    let config = engine_update_global_path(config, "Root".to_string(), "/r".to_string());
    let config = engine_update_global_path(config, "AC".to_string(), "/b".to_string());
    assert_eq!(config.get("AC"), Some(&"/b".to_string()));
    assert_eq!(config.get("Root"), Some(&"/r".to_string()));
    assert_eq!(config.path_map.len(), 2);
}

#[test]
fn a_manifest_gets_new_scopes_and_exclusions_only() {
    let before = SetManifest {
        id: "edit1".to_string(),
        name: "Edit 1".to_string(),
        parent_id: Some("vanilla".to_string()),
        created_at: 5,
        scopes: vec!["Root".to_string()],
        exclusions: vec![],
        deleted_paths: vec!["Root::x".to_string()],
    };
    let after = engine_update_manifest(
        before.clone(),
        vec!["Root".to_string(), "AC".to_string()],
        vec!["*.tmp".to_string()],
    );
    assert_eq!(
        after,
        SetManifest {
            scopes: vec!["Root".to_string(), "AC".to_string()],
            exclusions: vec!["*.tmp".to_string()],
            ..before
        }
    );
}
