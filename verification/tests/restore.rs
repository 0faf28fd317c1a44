use blk::models::BlkConfig;
use blk::restore::{
    engine_restore_chain, is_junk_name, locate_key, nuke_scopes, place, prune_action,
    prune_continues, restore_layer, ArchiveState, CopyAction, LayerInput, PruneAction, WipeAction,
};
use blk::scan::WalkedEntry;

fn config() -> BlkConfig {
    let mut c = BlkConfig::new();
    c.insert("Root".to_string(), "/r".to_string());
    c.insert("AC".to_string(), "/games/ac".to_string());
    c
}

fn entry(path: &str, is_dir: bool) -> WalkedEntry {
    WalkedEntry {
        scope: "Root".to_string(),
        path: path.to_string(),
        rel: None,
        is_file: !is_dir,
        is_dir,
        size: 0,
        modified: 0,
    }
}

fn names(items: &[&str]) -> Vec<String> {
    items.iter().map(|s| s.to_string()).collect()
}

fn copy(source: &str, dest: &str) -> CopyAction {
    CopyAction { source: source.to_string(), dest: dest.to_string() }
}

#[test]
fn wipe_removes_what_is_not_protected() {
    let entries = vec![
        entry("/r/a.txt", false),
        entry("/r/.git", true),
        entry("/r/sub", true),
        entry("/r/.blk", true),
        entry("/r/src", true),
        entry("/r/Cargo.toml", false),
        entry("/r/blk", false),
        entry("/r/zz", false),
    ];
    let plan = nuke_scopes(&entries, Some("/r/blk"));
    assert_eq!(
        plan,
        vec![
            WipeAction { path: "/r/a.txt".to_string(), recursive: false },
            WipeAction { path: "/r/sub".to_string(), recursive: true },
            WipeAction { path: "/r/zz".to_string(), recursive: false },
        ]
    );
    assert_eq!(nuke_scopes(&vec![], None), vec![]);
}

#[test]
fn archived_files_go_under_the_directory_of_their_scope() {
    assert_eq!(place(&config(), "Root/a.txt"), Some("/r/a.txt".to_string()));
    assert_eq!(place(&config(), "Root/sub/b.txt"), Some("/r/sub/b.txt".to_string()));
    assert_eq!(place(&config(), "AC/cars/x.dds"), Some("/games/ac/cars/x.dds".to_string()));
    assert_eq!(place(&config(), "Root/日本語/ファイル.txt"), Some("/r/日本語/ファイル.txt".to_string()));
}

#[test]
fn files_of_unknown_scopes_fall_back_to_root_with_their_whole_name() {
    assert_eq!(place(&config(), "Old/a.txt"), Some("/r/Old/a.txt".to_string()));
    assert_eq!(place(&config(), "a.txt"), Some("/r/a.txt".to_string()));
    let mut without_root = BlkConfig::new();
    without_root.insert("AC".to_string(), "/games/ac".to_string());
    assert_eq!(place(&without_root, "Old/a.txt"), None);
    assert_eq!(place(&without_root, "AC/a.txt"), Some("/games/ac/a.txt".to_string()));
}

#[test]
fn a_name_that_is_only_a_scope_has_no_place() {
    assert_eq!(place(&config(), "Root"), None);
    assert_eq!(place(&config(), "Root/"), None);
}

#[test]
fn keys_are_located_under_the_directory_of_their_scope() {
    assert_eq!(locate_key(&config(), "Root::sub/b.txt"), Some("/r/sub/b.txt".to_string()));
    assert_eq!(locate_key(&config(), "AC::x"), Some("/games/ac/x".to_string()));
    assert_eq!(locate_key(&config(), "Gone::x"), None);
    assert_eq!(locate_key(&config(), "no-scope"), None);
}

#[test]
fn layer_copies_then_removes() {
    let layer = LayerInput {
        id: "edit1".to_string(),
        archive: ArchiveState::Listed(names(&["Root/a.txt", "Root/c.txt"])),
        deleted_paths: names(&["Root::sub/b.txt"]),
    };
    let plan = restore_layer(&config(), &layer, None);
    assert_eq!(plan.id, "edit1");
    assert_eq!(
        plan.copies,
        vec![copy("Root/a.txt", "/r/a.txt"), copy("Root/c.txt", "/r/c.txt")]
    );
    assert_eq!(plan.removals, vec!["/r/sub/b.txt"]);
}

#[test]
fn layer_never_touches_protected_paths() {
    let layer = LayerInput {
        id: "evil".to_string(),
        archive: ArchiveState::Listed(names(&[
            "Root/.git/HEAD",
            "Root/ok.txt",
            "Root/.blk/config.json",
            "Root/src/main.rs",
            "Root/tool",
        ])),
        deleted_paths: names(&["Root::.git/HEAD", "Root::Cargo.toml", "Root::gone.txt", "Root::tool"]),
    };
    let plan = restore_layer(&config(), &layer, Some("/r/tool"));
    assert_eq!(plan.copies, vec![copy("Root/ok.txt", "/r/ok.txt")]);
    assert_eq!(plan.removals, vec!["/r/gone.txt"]);
}

#[test]
fn layer_without_archive_still_applies_tombstones() {
    let layer = LayerInput {
        id: "x".to_string(),
        archive: ArchiveState::Missing,
        deleted_paths: names(&["Root::a.txt", "Gone::b", "junk"]),
    };
    let plan = restore_layer(&config(), &layer, None);
    assert!(plan.copies.is_empty());
    assert_eq!(plan.removals, vec!["/r/a.txt"]);
}

#[test]
fn layer_with_unreadable_archive_is_passed_over() {
    let layer = LayerInput {
        id: "x".to_string(),
        archive: ArchiveState::Unreadable,
        deleted_paths: names(&["Root::a.txt"]),
    };
    let plan = restore_layer(&config(), &layer, None);
    assert_eq!(plan.id, "x");
    assert!(plan.copies.is_empty());
    assert!(plan.removals.is_empty());
}

#[test]
fn chain_is_planned_in_order() {
    let layers = vec![
        LayerInput {
            id: "vanilla".to_string(),
            archive: ArchiveState::Listed(names(&["Root/a.txt"])),
            deleted_paths: vec![],
        },
        LayerInput {
            id: "edit1".to_string(),
            archive: ArchiveState::Listed(names(&["Root/a.txt", "AC/x"])),
            deleted_paths: names(&["Root::old"]),
        },
    ];
    let plan = engine_restore_chain(
        &config(),
        &vec![entry("/r/a.txt", false), entry("/r/.git", true)],
        &layers,
        None,
    );
    assert_eq!(plan.wipe, vec![WipeAction { path: "/r/a.txt".to_string(), recursive: false }]);
    assert_eq!(plan.layers.len(), 2);
    assert_eq!(plan.layers[0].id, "vanilla");
    assert_eq!(plan.layers[0].copies, vec![copy("Root/a.txt", "/r/a.txt")]);
    assert!(plan.layers[0].removals.is_empty());
    assert_eq!(plan.layers[1].id, "edit1");
    assert_eq!(
        plan.layers[1].copies,
        vec![copy("Root/a.txt", "/r/a.txt"), copy("AC/x", "/games/ac/x")]
    );
    assert_eq!(plan.layers[1].removals, vec!["/r/old"]);
    let nothing = engine_restore_chain(&config(), &vec![], &vec![], None);
    assert!(nothing.wipe.is_empty() && nothing.layers.is_empty());
}

#[test]
fn junk_names_are_known_in_lowercase() {
    assert!(is_junk_name("thumbs.db"));
    assert!(is_junk_name(".ds_store"));
    assert!(is_junk_name("desktop.ini"));
    assert!(!is_junk_name("Thumbs.db"));
    assert!(!is_junk_name("thumbs.db.bak"));
    assert!(!is_junk_name(""));
}

#[test]
fn pruning_removes_empty_directories() {
    assert_eq!(prune_action("/r/sub", "/r", &vec![], None), PruneAction::RemoveEmpty);
}

#[test]
fn pruning_keeps_the_scope_directory_and_protected_ones() {
    assert_eq!(prune_action("/r", "/r", &vec![], None), PruneAction::Keep);
    assert_eq!(prune_action("/r/.git/objects", "/r", &vec![], None), PruneAction::Keep);
    assert_eq!(prune_action("/r/src", "/r", &names(&["Thumbs.db"]), None), PruneAction::Keep);
}

#[test]
fn pruning_removes_directories_that_hold_only_junk() {
    assert_eq!(prune_action("/r/d", "/r", &names(&["Thumbs.db"]), None), PruneAction::RemoveJunk);
    assert_eq!(
        prune_action("/r/d", "/r", &names(&[".DS_Store", "DESKTOP.INI"]), None),
        PruneAction::RemoveJunk
    );
}

#[test]
fn pruning_keeps_directories_with_anything_else() {
    assert_eq!(prune_action("/r/d", "/r", &names(&["a.txt"]), None), PruneAction::Keep);
    assert_eq!(prune_action("/r/d", "/r", &names(&["Thumbs.db", "a.txt"]), None), PruneAction::Keep);
    assert_eq!(
        prune_action("/r/d", "/r", &names(&["Thumbs.db", ".DS_Store", "desktop.ini"]), None),
        PruneAction::Keep
    );
    // The junk file is the running executable.
    assert_eq!(
        prune_action("/r/d", "/r", &names(&["Thumbs.db"]), Some("/r/d/Thumbs.db")),
        PruneAction::Keep
    );
}

#[test]
fn pruning_goes_round_three_times_at_most() {
    assert!(prune_continues(1, true));
    assert!(prune_continues(2, true));
    assert!(!prune_continues(3, true));
    assert!(!prune_continues(1, false));
    assert!(!prune_continues(0, false));
}
