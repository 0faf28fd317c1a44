use blk::console::{
    coverage_for, delete_confirmed, delete_warning, next_index, parent_for_save,
    parse_scope_entry, previous_index, rows_for, selection_after_removal, strip, strips,
    ScopeEntry,
};
use blk::models::{BlkConfig, SetManifest};

fn chars(s: &str) -> Vec<char> {
    s.chars().collect()
}

fn entry(key: &str, path: &str) -> Option<ScopeEntry> {
    Some(ScopeEntry { key: key.to_string(), path: path.to_string() })
}

fn set(id: &str, name: &str) -> SetManifest {
    SetManifest {
        id: id.to_string(),
        name: name.to_string(),
        parent_id: None,
        created_at: 0,
        scopes: vec!["Root".to_string(), "AC".to_string()],
        exclusions: vec!["*.tmp".to_string()],
        deleted_paths: vec![],
    }
}

#[test]
fn selection_moves_down_and_wraps() {
    assert_eq!(next_index(None, 3), 0);
    assert_eq!(next_index(Some(0), 3), 1);
    assert_eq!(next_index(Some(1), 3), 2);
    assert_eq!(next_index(Some(2), 3), 0);
    assert_eq!(next_index(Some(7), 3), 0);
    assert_eq!(next_index(Some(0), 1), 0);
    assert_eq!(next_index(Some(0), 0), 0);
    assert_eq!(next_index(Some(usize::MAX), usize::MAX), 0);
}

#[test]
fn selection_moves_up_and_wraps() {
    assert_eq!(previous_index(None, 3), 0);
    assert_eq!(previous_index(Some(2), 3), 1);
    assert_eq!(previous_index(Some(1), 3), 0);
    assert_eq!(previous_index(Some(0), 3), 2);
    assert_eq!(previous_index(Some(0), 1), 0);
    assert_eq!(previous_index(Some(0), 0), 0);
}

#[test]
fn selection_after_a_row_is_removed() {
    assert_eq!(selection_after_removal(0, 0), None);
    assert_eq!(selection_after_removal(0, 2), Some(0));
    assert_eq!(selection_after_removal(1, 2), Some(0));
    assert_eq!(selection_after_removal(2, 2), Some(1));
}

#[test]
fn white_space_is_what_the_standard_library_calls_white_space() {
    for code in 0..=0x10ffffu32 {
        if let Some(c) = char::from_u32(code) {
            assert_eq!(strips(c, false), c.is_whitespace(), "at {code:#x}");
            assert_eq!(strips(c, true), c == '"');
        }
    }
}

#[test]
fn stripping_takes_only_the_ends() {
    assert_eq!(strip(&chars("  a b \t\n"), false), chars("a b"));
    assert_eq!(strip(&chars("\u{3000}x\u{a0}"), false), chars("x"));
    assert_eq!(strip(&chars("   "), false), chars(""));
    assert_eq!(strip(&chars(""), false), chars(""));
    assert_eq!(strip(&chars("\"\"a\"b\""), true), chars("a\"b"));
    assert_eq!(strip(&chars(" \"a\" "), true), chars(" \"a\" "));
    for text in ["  a b \t\n", "", " ", "x", "\r\n x \u{2003}y\u{2028}"] {
        let stripped: String = strip(&chars(text), false).into_iter().collect();
        assert_eq!(stripped, text.trim());
    }
    for text in ["\"a\"", "\"\"", "a\"", "\"a b\" "] {
        let stripped: String = strip(&chars(text), true).into_iter().collect();
        assert_eq!(stripped, text.trim_matches('"'));
    }
}

#[test]
fn a_leaf_is_deleted_on_y() {
    assert!(delete_confirmed(0, "y"));
    assert!(delete_confirmed(0, "Y"));
    assert!(delete_confirmed(0, "  y \n"));
    assert!(!delete_confirmed(0, "yes"));
    assert!(!delete_confirmed(0, ""));
    assert!(!delete_confirmed(0, "DELETE"));
}

#[test]
fn a_set_with_children_is_deleted_on_the_word() {
    assert!(delete_confirmed(2, "DELETE"));
    assert!(delete_confirmed(1, " DELETE "));
    assert!(!delete_confirmed(2, "delete"));
    assert!(!delete_confirmed(2, "y"));
    assert!(!delete_confirmed(2, ""));
}

#[test]
fn the_question_names_the_set_and_its_children() {
    assert_eq!(delete_warning("Edit 1", 0), "Delete 'Edit 1'? (type 'y')");
    assert_eq!(
        delete_warning("Edit 1", 12),
        "DANGER: Delete 'Edit 1' and 12 children? Type 'DELETE'"
    );
    assert_eq!(delete_warning("", 1), "DANGER: Delete '' and 1 children? Type 'DELETE'");
}

#[test]
fn a_typed_assignment_gives_name_and_directory() {
    assert_eq!(parse_scope_entry("AC=C:\\Games\\Assetto"), entry("AC", "C:\\Games\\Assetto"));
    assert_eq!(parse_scope_entry("  AC =  /games/ac  "), entry("AC", "/games/ac"));
    assert_eq!(parse_scope_entry("a=b=c"), entry("a", "b=c"));
    assert_eq!(parse_scope_entry("=x"), entry("", "x"));
    assert_eq!(parse_scope_entry("AC="), entry("AC", ""));
}

#[test]
fn a_typed_path_names_its_scope_by_its_last_segment() {
    assert_eq!(parse_scope_entry("/games/ac"), entry("ac", "/games/ac"));
    assert_eq!(
        parse_scope_entry("\"C:\\Games\\Assetto Corsa\""),
        entry("Assetto_Corsa", "C:\\Games\\Assetto Corsa")
    );
    assert_eq!(parse_scope_entry("/games/ac/"), entry("ac", "/games/ac/"));
    assert_eq!(parse_scope_entry("/"), entry("Extra", "/"));
    assert_eq!(parse_scope_entry("/a/.."), entry("Extra", "/a/.."));
    assert_eq!(parse_scope_entry("C:"), entry("C:", "C:"));
}

#[test]
fn a_typed_word_is_a_name_alone() {
    assert_eq!(parse_scope_entry("Root"), entry("Root", ""));
    assert_eq!(parse_scope_entry("  \"AC\" "), entry("AC", ""));
}

#[test]
fn white_space_alone_is_no_entry() {
    assert_eq!(parse_scope_entry(""), None);
    assert_eq!(parse_scope_entry("  \t "), None);
}

#[test]
fn a_save_hangs_under_the_selected_set() {
    assert_eq!(parent_for_save("edit1"), Some("edit1".to_string()));
    assert_eq!(parent_for_save(""), None);
}

#[test]
fn rows_show_names_and_keep_identifiers() {
    let rows = rows_for(&vec![set("edit1", "Edit 1"), set("vanilla", "Vanilla")]);
    assert_eq!(rows.items, vec!["Edit 1", "Vanilla"]);
    assert_eq!(rows.ids, vec!["edit1", "vanilla"]);
    let none = rows_for(&vec![]);
    assert_eq!(none.items, vec!["BLK Zero Set"]);
    assert_eq!(none.ids, vec![""]);
}

#[test]
fn comparison_covers_the_active_set_or_everything() {
    let mut config = BlkConfig::new();
    config.insert("Root".to_string(), "/r".to_string());
    config.insert("Extra".to_string(), "/e".to_string());
    let active = set("edit1", "Edit 1");
    let c = coverage_for(Some(&active), &config);
    assert_eq!(c.scopes, vec!["Root", "AC"]);
    assert_eq!(c.exclusions, vec!["*.tmp"]);
    let all = coverage_for(None, &config);
    assert_eq!(all.scopes, vec!["Root", "Extra"]);
    assert!(all.exclusions.is_empty());
}
