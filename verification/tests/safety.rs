use blk::safety::{contains_segment, ends_in_segment, is_protected_name, should_ignore};

fn chars(s: &str) -> Vec<char> {
    s.chars().collect()
}

#[test]
fn metadata_directory_is_protected() {
    assert!(should_ignore("/home/u/project/.blk", None));
    assert!(should_ignore("/home/u/project/.blk/baseline.json", None));
    assert!(should_ignore("C:\\games\\mod\\.BLK\\sets\\vanilla.json", None));
}

#[test]
fn version_control_and_editor_directories_are_protected() {
    assert!(should_ignore("/r/.git", None));
    assert!(should_ignore("/r/.git/HEAD", None));
    assert!(should_ignore("/r/.GIT/config", None));
    assert!(should_ignore("/r/.vscode/settings.json", None));
    assert!(should_ignore("/r/a/b/.git/objects/x", None));
    assert!(should_ignore(".git", None));
    assert!(should_ignore("C:\\r\\.VSCode", None));
}

#[test]
fn longer_names_that_hold_a_protected_name_are_not_protected() {
    assert!(!should_ignore("/r/.gitignore", None));
    assert!(!should_ignore("/r/a/.github/workflows/ci.yml", None));
    assert!(!should_ignore("/r/notes.gitlab", None));
    assert!(!should_ignore("/r/.gitx", None));
    assert!(!should_ignore("/r/my.blk.bak", None));
    assert!(!should_ignore("/r/x.blk", None));
    assert!(!should_ignore("/r/.blkx/y", None));
    assert!(!should_ignore("/r/.vscode-server/x", None));
    assert!(!is_protected_name("/r/.gitx"));
    assert!(is_protected_name("/r/.git"));
}

#[test]
fn source_and_build_segments_are_protected() {
    assert!(should_ignore("/r/src", None));
    assert!(should_ignore("/r/src/main.rs", None));
    assert!(should_ignore("/r/Src/main.rs", None));
    assert!(should_ignore("src/main.rs", None));
    assert!(should_ignore("C:\\r\\target\\debug\\x.exe", None));
    assert!(should_ignore("/r/target", None));
    assert!(should_ignore("/r/a\\src/b", None));
}

#[test]
fn longer_names_are_not_source_segments() {
    assert!(!should_ignore("/r/srcs/main.rs", None));
    assert!(!should_ignore("/r/mysrc/main.rs", None));
    assert!(!should_ignore("/r/targets/x", None));
    assert!(!should_ignore("/r/a.src", None));
}

#[test]
fn manifest_and_lock_file_are_protected_as_last_segment() {
    assert!(should_ignore("/r/Cargo.toml", None));
    assert!(should_ignore("/r/cargo.lock", None));
    assert!(should_ignore("Cargo.toml", None));
    assert!(should_ignore("/r/CARGO.TOML/", None));
    assert!(!should_ignore("/r/Cargo.toml.bak", None));
    assert!(!should_ignore("/r/Cargo.toml/inner.txt", None));
    assert!(!should_ignore("/r/xCargo.toml", None));
}

#[test]
fn running_executable_is_protected() {
    assert!(should_ignore("/opt/tool/blk", Some("/opt/tool/blk")));
    assert!(!should_ignore("/opt/tool/blk", Some("/opt/tool/other")));
    assert!(!should_ignore("/opt/tool/blk", None));
    // The comparison with the executable keeps the case.
    assert!(!should_ignore("/opt/tool/BLK", Some("/opt/tool/blk")));
}

#[test]
fn ordinary_paths_are_not_protected() {
    assert!(!should_ignore("/r/a.txt", None));
    assert!(!should_ignore("/r/sub/b.txt", None));
    assert!(!should_ignore("", None));
    assert!(!should_ignore("/r/mods/car/skin.dds", Some("/usr/bin/blk")));
}

#[test]
fn lowercase_is_taken_before_the_rules_apply() {
    // The wrapper must really lower the case: upper case alone matches no rule.
    assert!(!is_protected_name("/R/.BLK/X"));
    assert!(should_ignore("/R/.BLK/X", None));
    assert!(!is_protected_name("/R/SRC/X"));
    assert!(should_ignore("/R/SRC/X", None));
}

#[test]
fn lowercase_follows_unicode() {
    // U+212A, the Kelvin sign, has the small letter k as its lowercase.
    assert!(should_ignore("/r/.BL\u{212A}/x", None));
}

#[test]
fn segment_search_respects_both_separators() {
    assert!(contains_segment(&chars("a/src/b"), &chars("src")));
    assert!(contains_segment(&chars("a\\src\\b"), &chars("src")));
    assert!(contains_segment(&chars("src"), &chars("src")));
    assert!(contains_segment(&chars("a/src"), &chars("src")));
    assert!(!contains_segment(&chars("a/srcb"), &chars("src")));
    assert!(!contains_segment(&chars("asrc/b"), &chars("src")));
    assert!(!contains_segment(&chars("sr"), &chars("src")));
}

#[test]
fn last_segment_ignores_trailing_separators() {
    assert!(ends_in_segment(&chars("a/b"), &chars("b")));
    assert!(ends_in_segment(&chars("a/b/"), &chars("b")));
    assert!(ends_in_segment(&chars("a/b//\\"), &chars("b")));
    assert!(ends_in_segment(&chars("b"), &chars("b")));
    assert!(!ends_in_segment(&chars("a/b/c"), &chars("b")));
    assert!(!ends_in_segment(&chars("a/xb"), &chars("b")));
}
