use blk::hashing::hash_file;
use blk::models::{Baseline, BlkConfig, FileEntry};
use blk::scan::{
    make_key, scan_plan, scan_state, scope_roots, settle_hash, ScanItem, WalkedEntry,
};

fn file(scope: &str, root: &str, rel: &str, size: u64, modified: u64) -> WalkedEntry {
    WalkedEntry {
        scope: scope.to_string(),
        path: format!("{root}/{rel}"),
        rel: Some(rel.to_string()),
        is_file: true,
        is_dir: false,
        size,
        modified,
    }
}

fn dir(scope: &str, root: &str, rel: &str) -> WalkedEntry {
    WalkedEntry {
        scope: scope.to_string(),
        path: if rel.is_empty() { root.to_string() } else { format!("{root}/{rel}") },
        rel: Some(rel.to_string()),
        is_file: false,
        is_dir: true,
        size: 0,
        modified: 0,
    }
}

fn keys(items: &[ScanItem]) -> Vec<&str> {
    items.iter().map(|i| i.key.as_str()).collect()
}

#[test]
fn keys_join_scope_and_relative_path() {
    assert_eq!(make_key("Root", "a.txt"), "Root::a.txt");
    assert_eq!(make_key("AC", "cars\\skin\\x.dds"), "AC::cars/skin/x.dds");
    assert_eq!(make_key("Root", "日本語/ファイル.txt"), "Root::日本語/ファイル.txt");
    assert_eq!(make_key("", ""), "::");
}

#[test]
fn scan_takes_files_only() {
    let walked = vec![
        dir("Root", "/r", ""),
        file("Root", "/r", "a.txt", 1, 10),
        dir("Root", "/r", "sub"),
        file("Root", "/r", "sub/b.txt", 2, 20),
    ];
    let plan = scan_plan(&walked, &vec![], None, None);
    assert_eq!(keys(&plan), vec!["Root::a.txt", "Root::sub/b.txt"]);
    assert_eq!(plan[0].path, "/r/a.txt");
    assert_eq!(plan[0].scope, "Root");
    assert_eq!(plan[0].rel.as_deref(), Some("a.txt"));
    assert_eq!((plan[1].size, plan[1].modified), (2, 20));
    assert!(plan.iter().all(|i| i.hash.is_none()));
}

#[test]
fn scan_leaves_out_protected_and_excluded_files() {
    let walked = vec![
        file("Root", "/r", "a.txt", 1, 10),
        file("Root", "/r", ".git/HEAD", 1, 10),
        file("Root", "/r", ".blk/baseline.json", 1, 10),
        file("Root", "/r", "src/main.rs", 1, 10),
        file("Root", "/r", "Cargo.toml", 1, 10),
        file("Root", "/r", "cache/x.tmp", 1, 10),
        file("Root", "/r", "logs/y.txt", 1, 10),
        file("Root", "/r", "tool", 1, 10),
        file("Root", "/r", "keep/z.txt", 1, 10),
    ];
    let exclusions = vec!["*.tmp".to_string(), "/logs/".to_string()];
    let plan = scan_plan(&walked, &exclusions, None, Some("/r/tool"));
    assert_eq!(keys(&plan), vec!["Root::a.txt", "Root::keep/z.txt"]);
}

#[test]
fn scan_keys_an_entry_outside_its_scope_by_its_whole_path() {
    let stray = WalkedEntry {
        scope: "Root".to_string(),
        path: "/elsewhere\\x.txt".to_string(),
        rel: None,
        is_file: true,
        is_dir: false,
        size: 1,
        modified: 1,
    };
    let plan = scan_plan(&vec![stray], &vec![], None, None);
    assert_eq!(keys(&plan), vec!["Root::/elsewhere/x.txt"]);
    assert_eq!(plan[0].rel, None);
}

#[test]
fn scan_reuses_a_hash_when_size_and_time_are_unchanged() {
    let mut prior = Baseline::new();
    prior.insert(
        "Root::same.txt".to_string(),
        FileEntry { hash: "old-same".to_string(), size: 5, modified: 50 },
    );
    prior.insert(
        "Root::grown.txt".to_string(),
        FileEntry { hash: "old-grown".to_string(), size: 5, modified: 50 },
    );
    prior.insert(
        "Root::touched.txt".to_string(),
        FileEntry { hash: "old-touched".to_string(), size: 5, modified: 50 },
    );
    let walked = vec![
        file("Root", "/r", "same.txt", 5, 50),
        file("Root", "/r", "grown.txt", 6, 50),
        file("Root", "/r", "touched.txt", 5, 51),
        file("Root", "/r", "new.txt", 5, 50),
    ];
    let plan = scan_plan(&walked, &vec![], Some(&prior), None);
    assert_eq!(plan[0].hash.as_deref(), Some("old-same"));
    assert_eq!(plan[1].hash, None);
    assert_eq!(plan[2].hash, None);
    assert_eq!(plan[3].hash, None);
    let afresh = scan_plan(&walked, &vec![], None, None);
    assert!(afresh.iter().all(|i| i.hash.is_none()));
}

#[test]
fn state_records_each_item_under_its_key() {
    let walked = vec![file("Root", "/r", "a.txt", 1, 10), file("Root", "/r", "sub/b.txt", 2, 20)];
    let mut plan = scan_plan(&walked, &vec![], None, None);
    plan[0].hash = Some(hash_file(Some(b"A")));
    // The second file could not be read.
    plan[1].hash = Some(hash_file(None));
    let state = scan_state(&plan);
    assert_eq!(state.len(), 2);
    assert_eq!(
        state.get("Root::a.txt"),
        Some(&FileEntry {
            hash: "559aead08264d5795d3909718cdd05abd49572e84fe55590eef31a88a08fdffd".to_string(),
            size: 1,
            modified: 10,
        })
    );
    assert_eq!(
        state.get("Root::sub/b.txt"),
        Some(&FileEntry { hash: String::new(), size: 2, modified: 20 })
    );
}

#[test]
fn state_records_an_unfilled_hash_as_empty() {
    let plan = scan_plan(&vec![file("Root", "/r", "a.txt", 1, 10)], &vec![], None, None);
    let state = scan_state(&plan);
    assert_eq!(state.get("Root::a.txt").map(|e| e.hash.as_str()), Some(""));
}

#[test]
fn state_keeps_the_later_of_two_items_with_one_key() {
    let walked = vec![file("Root", "/r", "a.txt", 1, 10), file("Root", "/r", "a.txt", 2, 20)];
    let state = scan_state(&scan_plan(&walked, &vec![], None, None));
    assert_eq!(state.len(), 1);
    assert_eq!(state.get("Root::a.txt").map(|e| e.size), Some(2));
}

#[test]
fn empty_walk_gives_empty_state() {
    let plan = scan_plan(&vec![], &vec!["*.tmp".to_string()], None, None);
    assert!(plan.is_empty());
    assert_eq!(scan_state(&plan).len(), 0);
    let dirs_only = scan_plan(&vec![dir("Root", "/r", ""), dir("Root", "/r", "d")], &vec![], None, None);
    assert!(dirs_only.is_empty());
}

#[test]
fn configured_scopes_are_walked_in_the_order_asked() {
    let mut config = BlkConfig::new();
    config.insert("Root".to_string(), "/r".to_string());
    config.insert("AC".to_string(), "/games/ac".to_string());
    let scopes = vec!["AC".to_string(), "Gone".to_string(), "Root".to_string()];
    assert_eq!(
        scope_roots(&config, &scopes),
        vec![
            ("AC".to_string(), "/games/ac".to_string()),
            ("Root".to_string(), "/r".to_string())
        ]
    );
    assert_eq!(scope_roots(&config, &vec![]), vec![]);
    assert_eq!(scope_roots(&BlkConfig::new(), &scopes), vec![]);
}

#[test]
fn configuration_replaces_the_directory_of_a_known_scope() {
    let mut config = BlkConfig::new();
    config.insert("Root".to_string(), "/r".to_string());
    config.insert("AC".to_string(), "/a".to_string());
    config.insert("Root".to_string(), "/r2".to_string());
    assert_eq!(config.get("Root"), Some(&"/r2".to_string()));
    assert_eq!(config.get("AC"), Some(&"/a".to_string()));
    assert_eq!(config.get("root"), None);
    assert_eq!(config.path_map.len(), 2);
    assert_eq!(config.position("AC"), Some(1));
}

#[test]
fn scan_with_a_backslash_exclusion_still_applies_the_others() {
    let walked = vec![
        file("Root", "/r", "a.txt", 1, 10),
        file("Root", "/r", "x.tmp", 1, 10),
        file("Root", "/r", "cache/y", 1, 10),
    ];
    let exclusions = vec!["*.tmp".to_string(), "cache".to_string(), "q\\z".to_string()];
    let plan = scan_plan(&walked, &exclusions, None, None);
    assert!(plan.iter().all(|i| i.key != "Root::x.tmp" && i.key != "Root::cache/y"));
}

#[test]
fn scan_takes_in_names_that_only_hold_a_protected_name() {
    let walked = vec![
        file("Root", "/r", ".gitignore", 1, 10),
        file("Root", "/r", ".github/ci.yml", 1, 10),
        file("Root", "/r", ".git/HEAD", 1, 10),
    ];
    let plan = scan_plan(&walked, &vec![], None, None);
    assert_eq!(keys(&plan), vec!["Root::.gitignore", "Root::.github/ci.yml"]);
}

#[test]
fn settling_gives_a_hash_to_the_items_that_have_none() {
    let plan = scan_plan(&vec![file("Root", "/r", "a.txt", 1, 10)], &vec![], None, None);
    let item = plan[0].clone();
    let read = settle_hash(item.clone(), Some(b"A"));
    assert_eq!(
        read.hash.as_deref(),
        Some("559aead08264d5795d3909718cdd05abd49572e84fe55590eef31a88a08fdffd")
    );
    assert_eq!((read.key.as_str(), read.size, read.modified), ("Root::a.txt", 1, 10));
    assert_eq!(read.path, item.path);
    let unreadable = settle_hash(item, None);
    assert_eq!(unreadable.hash.as_deref(), Some(""));
}

#[test]
fn settling_keeps_a_hash_that_was_taken_over() {
    let mut item = scan_plan(&vec![file("Root", "/r", "a.txt", 1, 10)], &vec![], None, None)
        .remove(0);
    item.hash = Some("taken-over".to_string());
    assert_eq!(settle_hash(item.clone(), Some(b"A")), item);
    assert_eq!(settle_hash(item.clone(), None), item);
}
