use zdt::project::{ancestors, branch_from_head, enclosing, is_root, root_markers, Project};

const CRATE: &str = "/work/zdt/crates/zdt-core";

/// Which of the directories from `path` upwards hold a marker, when the workspace root and the
/// crate inside it are the ones that do.
fn marks(path: &str, marked: &[&str]) -> Vec<bool> {
    ancestors(path)
        .iter()
        .map(|directory| marked.contains(&directory.as_str()))
        .collect()
}

#[test]
fn a_path_inside_the_project_is_shown_from_the_root() {
    let project = Project::at("/home/someone/work");
    assert_eq!(project.relative("/home/someone/work/src/main.rs"), "src/main.rs");
}

#[test]
fn a_path_outside_the_project_is_shown_in_full() {
    let project = Project::at("/home/someone/work");
    assert_eq!(project.relative("/etc/hosts"), "/etc/hosts".to_string());
}

#[test]
fn the_name_is_the_last_component() {
    assert_eq!(Project::at("/home/someone/work").name(), "work");
}

#[test]
fn discovery_climbs_to_the_outermost_marker() {
    let marked = marks(CRATE, &[CRATE, "/work/zdt"]);
    let project = Project::discover(CRATE, true, &marked);
    assert_eq!(project.root(), "/work/zdt");
    assert!(CRATE.starts_with(project.root()), "the crate is inside its project");
}

#[test]
fn a_session_keeps_the_directory_it_was_opened_on() {
    let marked = marks(CRATE, &[CRATE, "/work/zdt"]);
    let project = Project::session(CRATE, true, &marked);
    assert_eq!(project.root(), CRATE);
    assert!(CRATE.starts_with(project.tooling_root()));
    assert_ne!(project.root(), project.tooling_root());
}

#[test]
fn a_discovered_project_has_one_root_under_both_names() {
    let marked = marks(CRATE, &[CRATE, "/work/zdt"]);
    let project = Project::discover(CRATE, true, &marked);
    assert_eq!(project.root(), project.tooling_root());
}

#[test]
fn a_session_with_nothing_above_it_is_its_own_tooling_root() {
    let directory = "/tmp/zdt-session";
    let marked = marks(directory, &[]);
    let project = Project::session(directory, true, &marked);
    assert_eq!(project.root(), directory);
    assert_eq!(project.tooling_root(), directory);
}

#[test]
fn a_directory_with_no_marker_above_it_is_its_own_project() {
    let directory = "/tmp/zdt-rootless";
    let marked = marks(directory, &[]);
    let project = Project::discover(directory, true, &marked);
    assert_eq!(project.root(), directory);
}

#[test]
fn a_file_is_discovered_from_the_directory_it_sits_in() {
    let file = "/work/zdt/crates/zdt-core/src/lib.rs";
    let marked = marks("/work/zdt/crates/zdt-core/src", &["/work/zdt"]);
    let project = Project::discover(file, false, &marked);
    assert_eq!(project.root(), "/work/zdt");
    assert_eq!(project.relative(file), "crates/zdt-core/src/lib.rs");
}

#[test]
fn the_directories_above_a_path_come_nearest_first() {
    assert_eq!(ancestors("/a/b"), vec!["/a/b".to_string(), "/a".to_string(), "/".to_string()]);
    assert_eq!(ancestors("a"), vec!["a".to_string(), "".to_string()]);
}

#[test]
fn the_highest_marked_directory_encloses() {
    let directories = ancestors("/a/b/c");
    assert_eq!(enclosing(&directories, &[true, false, true, false]), Some("/a".to_string()));
    assert_eq!(enclosing(&directories, &[true, false, false, false]), Some("/a/b/c".to_string()));
    assert_eq!(enclosing(&directories, &[false, false, false, false]), None);
}

#[test]
fn any_marker_makes_a_root() {
    assert_eq!(root_markers().len(), 7);
    assert_eq!(root_markers()[0], ".git");
    assert!(is_root(&[false, false, true]));
    assert!(!is_root(&[false, false]));
    assert!(!is_root(&[]));
}

#[test]
fn a_head_on_a_branch_names_it() {
    assert_eq!(branch_from_head("ref: refs/heads/main\n"), Some("main".to_string()));
    assert_eq!(branch_from_head("0123456789abcdef\n"), Some("0123456".to_string()));
    assert_eq!(branch_from_head("abc"), None);
}
