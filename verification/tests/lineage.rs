use blk::catalog::order_for_display;
use blk::lineage::{engine_delete_cascade, get_children, position_of, resolve_dependencies};
use blk::models::SetManifest;

fn set(id: &str, parent: Option<&str>, created_at: u64) -> SetManifest {
    SetManifest {
        id: id.to_string(),
        name: id.to_uppercase(),
        parent_id: parent.map(|p| p.to_string()),
        created_at,
        scopes: vec!["Root".to_string()],
        exclusions: vec![],
        deleted_paths: vec![],
    }
}

fn family() -> Vec<SetManifest> {
    vec![
        set("edit2", Some("edit1"), 30),
        set("vanilla", None, 10),
        set("edit1", Some("vanilla"), 20),
        set("side", Some("vanilla"), 25),
        set("leaf", Some("side"), 40),
    ]
}

#[test]
fn chain_runs_from_root_to_target() {
    assert_eq!(resolve_dependencies(&family(), "edit2"), vec!["vanilla", "edit1", "edit2"]);
    assert_eq!(resolve_dependencies(&family(), "vanilla"), vec!["vanilla"]);
    assert_eq!(resolve_dependencies(&family(), "leaf"), vec!["vanilla", "side", "leaf"]);
}

#[test]
fn chain_of_unknown_target_is_empty() {
    assert_eq!(resolve_dependencies(&family(), "nope"), Vec::<String>::new());
    assert_eq!(resolve_dependencies(&vec![], "vanilla"), Vec::<String>::new());
}

#[test]
fn chain_stops_at_a_missing_parent() {
    let sets = vec![set("b", Some("a"), 2), set("c", Some("b"), 3)];
    assert_eq!(resolve_dependencies(&sets, "c"), vec!["b", "c"]);
}

#[test]
fn chain_stops_at_a_cycle() {
    let sets = vec![set("a", Some("b"), 1), set("b", Some("a"), 2)];
    assert_eq!(resolve_dependencies(&sets, "a"), vec!["b", "a"]);
    let own = vec![set("a", Some("a"), 1)];
    assert_eq!(resolve_dependencies(&own, "a"), vec!["a"]);
}

#[test]
fn children_are_the_sets_that_name_the_parent() {
    assert_eq!(get_children(&family(), "vanilla"), vec!["edit1", "side"]);
    assert_eq!(get_children(&family(), "edit1"), vec!["edit2"]);
    assert_eq!(get_children(&family(), "edit2"), Vec::<String>::new());
    assert_eq!(get_children(&family(), "nope"), Vec::<String>::new());
}

#[test]
fn cascade_takes_the_target_and_its_descendants() {
    assert_eq!(engine_delete_cascade("edit1", &family()), vec!["edit1", "edit2"]);
    assert_eq!(engine_delete_cascade("edit2", &family()), vec!["edit2"]);
    assert_eq!(
        engine_delete_cascade("vanilla", &family()),
        vec!["vanilla", "edit1", "side", "edit2", "leaf"]
    );
}

#[test]
fn cascade_of_unknown_target_is_the_target_alone() {
    assert_eq!(engine_delete_cascade("nope", &family()), vec!["nope"]);
}

#[test]
fn cascade_ends_on_cycles() {
    let sets = vec![set("a", Some("b"), 1), set("b", Some("a"), 2)];
    assert_eq!(engine_delete_cascade("a", &sets), vec!["a", "b"]);
}

#[test]
fn first_set_with_an_identifier_is_found() {
    let sets = family();
    assert_eq!(position_of(&sets, &"edit1".to_string()), Some(2));
    assert_eq!(position_of(&sets, &"nope".to_string()), None);
}

#[test]
fn display_shows_newest_first() {
    let ordered = order_for_display(&family());
    let ids: Vec<&str> = ordered.iter().map(|m| m.id.as_str()).collect();
    assert_eq!(ids, vec!["leaf", "edit2", "side", "edit1", "vanilla"]);
}

#[test]
fn display_keeps_sets_of_one_age_in_given_order() {
    let sets = vec![set("a", None, 5), set("b", None, 7), set("c", None, 5), set("d", None, 7)];
    let ordered = order_for_display(&sets);
    let ids: Vec<&str> = ordered.iter().map(|m| m.id.as_str()).collect();
    assert_eq!(ids, vec!["b", "d", "a", "c"]);
    assert_eq!(order_for_display(&vec![]), vec![]);
}
