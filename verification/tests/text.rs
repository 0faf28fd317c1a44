use blk::text::{
    append_chars, find_sub, from_chars, has_sub, matches_at, replaced, same_chars, slice_chars,
    stripped_of, to_chars,
};

fn chars(s: &str) -> Vec<char> {
    s.chars().collect()
}

#[test]
fn strings_and_characters_convert_both_ways() {
    assert_eq!(to_chars("héllo"), vec!['h', 'é', 'l', 'l', 'o']);
    assert_eq!(from_chars(&vec!['h', 'é', 'l', 'l', 'o']), "héllo");
    assert_eq!(to_chars(""), Vec::<char>::new());
    assert_eq!(from_chars(&to_chars("日本語/ファイル.txt")), "日本語/ファイル.txt");
}

#[test]
fn leftmost_occurrence_is_found() {
    assert_eq!(find_sub(&chars("a::b::c"), &chars("::")), Some(1));
    assert_eq!(find_sub(&chars("abc"), &chars("::")), None);
    assert_eq!(find_sub(&chars("abc"), &chars("")), Some(0));
    assert_eq!(find_sub(&chars(""), &chars("")), Some(0));
    assert_eq!(find_sub(&chars("ab"), &chars("abc")), None);
    assert_eq!(find_sub(&chars("xxabc"), &chars("abc")), Some(2));
    assert_eq!(find_sub(&chars("aab"), &chars("ab")), Some(1));
}

#[test]
fn containment_and_match_at_an_index() {
    assert!(has_sub(&chars("hello"), &chars("ell")));
    assert!(!has_sub(&chars("hello"), &chars("elo")));
    assert!(matches_at(&chars("hello"), &chars("lo"), 3));
    assert!(!matches_at(&chars("hello"), &chars("lo"), 2));
    assert!(!matches_at(&chars("hello"), &chars("lo"), 4));
    assert!(!matches_at(&chars("hello"), &chars("lo"), 40));
    assert!(matches_at(&chars("hello"), &chars(""), 5));
}

#[test]
fn characters_are_replaced_and_dropped() {
    assert_eq!(replaced(&chars("a\\b\\c"), '\\', '/'), chars("a/b/c"));
    assert_eq!(replaced(&chars("abc"), 'x', 'y'), chars("abc"));
    assert_eq!(stripped_of(&chars("a/b/c"), '/'), chars("abc"));
    assert_eq!(stripped_of(&chars("///"), '/'), chars(""));
}

#[test]
fn slices_and_appends() {
    assert_eq!(slice_chars(&chars("hello"), 1, 3), chars("el"));
    assert_eq!(slice_chars(&chars("hello"), 5, 5), chars(""));
    let mut head = chars("ab");
    append_chars(&mut head, &chars("cd"));
    assert_eq!(head, chars("abcd"));
    assert!(same_chars(&chars("ab"), &chars("ab")));
    assert!(!same_chars(&chars("ab"), &chars("abc")));
    assert!(!same_chars(&chars("ab"), &chars("ac")));
}
