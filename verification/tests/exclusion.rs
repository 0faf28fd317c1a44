use blk::exclusion::{exclusion_hit, matches_exclusion};

fn list(items: &[&str]) -> Vec<String> {
    items.iter().map(|s| s.to_string()).collect()
}

#[test]
fn no_exclusions_exclude_nothing() {
    assert!(!matches_exclusion("/r/a.txt", &list(&[])));
    assert!(!matches_exclusion("", &list(&[])));
}

#[test]
fn glob_patterns_match_the_whole_path() {
    assert!(matches_exclusion("/r/cache/a.tmp", &list(&["*.tmp"])));
    assert!(matches_exclusion("/r/cache/a.tmp", &list(&["/r/**/*.tmp"])));
    assert!(matches_exclusion("/r/a.log", &list(&["/r/?.log"])));
    assert!(!matches_exclusion("/r/cache/a.txt", &list(&["*.tmp"])));
    assert!(!matches_exclusion("/r/ab.log", &list(&["/r/?.log"])));
}

#[test]
fn plain_strings_exclude_by_containment() {
    // No glob match of the whole path, but a part of it.
    assert!(matches_exclusion("/r/cache/a.txt", &list(&["cache"])));
    assert!(matches_exclusion("/r/cache/a.txt", &list(&["/cache/"])));
    assert!(!matches_exclusion("/r/data/a.txt", &list(&["cache"])));
}

#[test]
fn invalid_patterns_still_exclude_by_containment() {
    // An unclosed bracket does not compile as a pattern.
    assert!(matches_exclusion("/r/a[1.txt", &list(&["a[1"])));
    assert!(!matches_exclusion("/r/b.txt", &list(&["a[1"])));
}

#[test]
fn backslashes_of_the_path_count_as_slashes() {
    assert!(matches_exclusion("C:\\r\\cache\\a.txt", &list(&["/cache/"])));
    assert!(matches_exclusion("C:\\r\\cache\\a.tmp", &list(&["C:/r/cache/*.tmp"])));
}

#[test]
fn any_exclusion_of_the_list_suffices() {
    assert!(matches_exclusion("/r/a.bak", &list(&["*.tmp", "nothing", "*.bak"])));
    assert!(!matches_exclusion("/r/a.txt", &list(&["*.tmp", "nothing", "*.bak"])));
}

#[test]
fn empty_exclusion_excludes_everything() {
    assert!(matches_exclusion("/r/a.txt", &list(&[""])));
}

#[test]
fn glob_is_case_sensitive() {
    assert!(!matches_exclusion("/r/A.TMP", &list(&["*.tmp"])));
}

#[test]
fn one_exclusion_glob_first_then_containment() {
    assert!(exclusion_hit(Some(true), "/r/a", "zzz"));
    assert!(!exclusion_hit(Some(false), "/r/a", "zzz"));
    assert!(!exclusion_hit(None, "/r/a", "zzz"));
    assert!(exclusion_hit(Some(false), "/r/a", "/a"));
    assert!(exclusion_hit(None, "/r/a", "r/"));
}

#[test]
fn an_exclusion_with_a_backslash_does_not_silence_the_others() {
    assert!(matches_exclusion("/r/x.tmp", &list(&["*.tmp", "a\\b"])));
    assert!(matches_exclusion("/r/x.tmp", &list(&["a\\b", "*.tmp"])));
    assert!(matches_exclusion("/r/cache/x", &list(&["a\\b", "cache"])));
}

#[test]
fn adding_an_exclusion_never_lets_a_path_back_in() {
    let paths = ["/r/a.tmp", "/r/cache/b.txt", "/r/c.txt"];
    let short = list(&["*.tmp"]);
    let long = list(&["nothing", "*.tmp", "cache"]);
    for path in paths {
        if matches_exclusion(path, &short) {
            assert!(matches_exclusion(path, &long));
        }
    }
    assert!(!matches_exclusion("/r/c.txt", &long));
    assert!(matches_exclusion("/r/cache/b.txt", &long));
}
