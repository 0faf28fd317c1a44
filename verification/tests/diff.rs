use blk::diff::engine_check_changes;
use blk::models::{Baseline, BlkConfig, DiffSummary, FileEntry};

fn entry(hash: &str, size: u64, modified: u64) -> FileEntry {
    FileEntry { hash: hash.to_string(), size, modified }
}

fn state(items: &[(&str, &str)]) -> Baseline {
    let mut b = Baseline::new();
    for (key, hash) in items {
        b.insert(key.to_string(), entry(hash, 1, 1));
    }
    b
}

#[test]
fn equal_states_are_clean() {
    let a = state(&[("Root::a.txt", "h1"), ("Root::sub/b.txt", "h2")]);
    let b = state(&[("Root::sub/b.txt", "h2"), ("Root::a.txt", "h1")]);
    let d = engine_check_changes(&a, &b);
    assert_eq!(
        d,
        DiffSummary { new_files: 0, modified_files: 0, deleted_files: 0, is_dirty: false }
    );
}

#[test]
fn empty_states_are_clean() {
    let d = engine_check_changes(&Baseline::new(), &Baseline::new());
    assert_eq!(d, DiffSummary::default());
    assert!(!d.is_dirty);
}

#[test]
fn new_modified_and_deleted_are_counted() {
    let baseline = state(&[("Root::a.txt", "h1"), ("Root::sub/b.txt", "h2"), ("Root::k", "h3")]);
    let current = state(&[("Root::a.txt", "h1x"), ("Root::c.txt", "h4"), ("Root::k", "h3")]);
    let d = engine_check_changes(&current, &baseline);
    assert_eq!(
        d,
        DiffSummary { new_files: 1, modified_files: 1, deleted_files: 1, is_dirty: true }
    );
}

#[test]
fn only_the_hash_decides_modification() {
    let mut baseline = Baseline::new();
    baseline.insert("Root::a".to_string(), entry("h", 10, 100));
    let mut current = Baseline::new();
    current.insert("Root::a".to_string(), entry("h", 11, 200));
    let d = engine_check_changes(&current, &baseline);
    assert_eq!(d.modified_files, 0);
    assert!(!d.is_dirty);
}

#[test]
fn each_kind_alone_makes_dirty() {
    let base = state(&[("k", "h")]);
    assert!(engine_check_changes(&state(&[("k", "h"), ("n", "h")]), &base).is_dirty);
    assert!(engine_check_changes(&state(&[("k", "other")]), &base).is_dirty);
    assert!(engine_check_changes(&state(&[]), &base).is_dirty);
    assert_eq!(engine_check_changes(&state(&[]), &base).deleted_files, 1);
    assert_eq!(engine_check_changes(&base, &state(&[])).new_files, 1);
}

#[test]
fn baseline_keeps_one_entry_per_key() {
    let mut b = Baseline::new();
    b.insert("k".to_string(), entry("h1", 1, 1));
    b.insert("k".to_string(), entry("h2", 2, 2));
    b.insert("j".to_string(), entry("h3", 3, 3));
    assert_eq!(b.len(), 2);
    assert_eq!(b.get("k"), Some(&entry("h2", 2, 2)));
    assert_eq!(b.get("j"), Some(&entry("h3", 3, 3)));
    assert_eq!(b.get("x"), None);
    assert!(b.contains_key("k"));
    assert!(!b.contains_key("x"));
    assert_eq!(b.find("j"), Some(1));
}

#[test]
fn baselines_compare_as_maps() {
    let a = state(&[("x", "1"), ("y", "2")]);
    let b = state(&[("y", "2"), ("x", "1")]);
    let c = state(&[("y", "2"), ("x", "3")]);
    let d = state(&[("y", "2")]);
    assert!(a.same_as(&b));
    assert!(!a.same_as(&c));
    assert!(!a.same_as(&d));
    assert!(!d.same_as(&a));
    assert!(Baseline::new().same_as(&Baseline::new()));
}

#[test]
fn repeated_keys_are_told() {
    let good = state(&[("x", "1"), ("y", "2")]);
    assert!(good.has_distinct_keys());
    assert!(Baseline::new().has_distinct_keys());
    let bad = Baseline {
        items: vec![
            ("x".to_string(), entry("1", 1, 1)),
            ("y".to_string(), entry("2", 1, 1)),
            ("x".to_string(), entry("3", 1, 1)),
        ],
    };
    assert!(!bad.has_distinct_keys());
}

#[test]
fn defaults_are_empty() {
    assert_eq!(Baseline::default().len(), 0);
    assert!(BlkConfig::default().path_map.is_empty());
    assert_eq!(BlkConfig::default(), BlkConfig::new());
    let d = DiffSummary::default();
    assert_eq!((d.new_files, d.modified_files, d.deleted_files, d.is_dirty), (0, 0, 0, false));
}

#[test]
fn an_entry_is_duplicated_as_it_is() {
    let e = entry("h", 3, 4);
    assert_eq!(e.duplicate(), e);
}
