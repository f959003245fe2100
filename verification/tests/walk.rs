use zdt::search::files::{in_path_order, walk_level, Found};

fn found(path: &str, directory: bool, project: bool) -> Found {
    let name = path.rsplit('/').next().unwrap_or(path).to_string();
    (path.to_string(), name, directory, project)
}

#[test]
fn a_bounded_walk_lists_a_project_without_going_into_it() {
    let level = vec![
        found("/w/thing", true, true),
        found("/w/clients", true, false),
        found("/w/notes.txt", false, false),
    ];
    let (listed, entered) = walk_level(&level, false);
    assert_eq!(listed, ["/w/thing", "/w/clients"]);
    assert_eq!(entered, ["/w/clients"]);
}

#[test]
fn a_bounded_walk_leaves_out_dotted_names_unless_asked() {
    let level = vec![found("/w/.cache", true, false), found("/w/src", true, false)];
    assert_eq!(walk_level(&level, false).0, ["/w/src"]);
    assert_eq!(walk_level(&level, true).0, ["/w/.cache", "/w/src"]);
}

#[test]
fn nothing_found_is_nothing_to_list_or_enter() {
    let (listed, entered) = walk_level(&Vec::new(), true);
    assert!(listed.is_empty() && entered.is_empty());
}

#[test]
fn paths_are_ordered_part_by_part() {
    let found = vec![
        "/w/a-b".to_string(),
        "/w/a/x".to_string(),
        "/w/a".to_string(),
        "/w/B".to_string(),
    ];
    assert_eq!(in_path_order(found), ["/w/B", "/w/a", "/w/a/x", "/w/a-b"]);
}
