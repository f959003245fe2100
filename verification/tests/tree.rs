use zdt::tree::{Entry, Filter, Standing, Tree};

const ROOT: &str = "/p";

fn entry(path: &str, directory: bool) -> Entry {
    let name = path.rsplit('/').next().unwrap_or(path).to_string();
    Entry {
        path: path.to_string(),
        name,
        directory,
        standing: Standing::default(),
    }
}

/// What reading the sample's root gives, directories first.
fn root_listing() -> Vec<Entry> {
    vec![entry("/p/src", true), entry("/p/Cargo.toml", false)]
}

fn src_listing() -> Vec<Entry> {
    vec![entry("/p/src/lib.rs", false), entry("/p/src/main.rs", false)]
}

fn names(tree: &Tree) -> Vec<String> {
    tree.rows().into_iter().map(|row| row.entry.name).collect()
}

#[test]
fn each_thing_that_sets_an_entry_apart_needs_its_own_permission() {
    let apart = Standing {
        hidden: true,
        ignored: true,
    };
    let hidden = Standing {
        hidden: true,
        ignored: false,
    };
    let plain = Standing::default();

    assert!(Filter::default().keeps(plain));
    assert!(!Filter::default().keeps(hidden));
    assert!(!Filter {
        hidden: true,
        ignored: false
    }
    .keeps(apart));
    assert!(Filter {
        hidden: true,
        ignored: true
    }
    .keeps(apart));
    assert!(apart.is_apart());
    assert!(!plain.is_apart());
}

#[test]
fn mod_a_closed_tree_has_only_what_is_open() {
    let mut tree = Tree::new(ROOT, Filter::default());
    assert!(tree.rows().is_empty(), "nothing has been opened");
    tree.expand(ROOT, true, root_listing());
    assert_eq!(names(&tree), ["src", "Cargo.toml"]);
}

#[test]
fn mod_opening_a_directory_puts_its_children_under_it() {
    let mut tree = Tree::new(ROOT, Filter::default());
    tree.expand(ROOT, true, root_listing());
    tree.expand("/p/src", true, src_listing());
    let described: Vec<(String, usize)> = tree
        .rows()
        .iter()
        .map(|row| (row.entry.name.clone(), row.depth))
        .collect();
    assert_eq!(
        described,
        [
            ("src".to_owned(), 0),
            ("lib.rs".to_owned(), 1),
            ("main.rs".to_owned(), 1),
            ("Cargo.toml".to_owned(), 0),
        ]
    );
    assert!(tree.rows()[0].expanded);
    assert!(!tree.rows()[3].expanded);
}

#[test]
fn mod_closing_a_directory_hides_its_children_and_keeps_what_was_read() {
    let mut tree = Tree::new(ROOT, Filter::default());
    tree.expand(ROOT, true, root_listing());
    tree.expand("/p/src", true, src_listing());
    tree.collapse("/p/src");
    assert_eq!(tree.rows().len(), 2);
    assert!(!tree.is_expanded("/p/src"));
    // Reopening reads nothing: what is handed in is not looked at.
    tree.toggle("/p/src", true, Vec::new());
    assert_eq!(tree.rows().len(), 4);
}

#[test]
fn mod_revealing_a_file_opens_the_way_to_it() {
    let mut tree = Tree::new(ROOT, Filter::default());
    let steps = tree.reveal_path("/p/src/main.rs");
    assert_eq!(steps, ["/p", "/p/src"]);
    for step in steps {
        let listing = if step == ROOT { root_listing() } else { src_listing() };
        tree.expand(&step, true, listing);
    }
    assert!(tree.is_expanded("/p/src"));
    let at = tree.index_of("/p/src/main.rs").expect("it is in the list");
    assert_eq!(tree.rows()[at].entry.name, "main.rs");
    assert_eq!(at, 2);
}

#[test]
fn mod_revealing_something_outside_the_project_does_nothing() {
    let tree = Tree::new(ROOT, Filter::default());
    assert!(tree.reveal_path("/etc/hosts").is_empty());
    assert!(tree.rows().is_empty());
}

#[test]
fn mod_changing_what_is_shown_reads_everything_again() {
    let mut tree = Tree::new(ROOT, Filter::default());
    tree.expand(ROOT, true, root_listing());
    assert_eq!(tree.rows().len(), 2);
    tree.set_filter(Filter {
        hidden: true,
        ignored: true,
    });
    assert!(tree.rows().is_empty(), "what was read under the old rule is forgotten");
    let mut everything = root_listing();
    everything.push(entry("/p/.gitignore", false));
    tree.refresh(vec![(ROOT.to_string(), Some(everything))]);
    assert!(tree.rows().len() > 2);
}

#[test]
fn mod_a_directory_that_has_become_a_file_stops_being_open() {
    let mut tree = Tree::new(ROOT, Filter::default());
    tree.expand(ROOT, true, root_listing());
    tree.expand("/p/src", true, src_listing());
    let open = tree.expanded();
    assert_eq!(open, ["/p", "/p/src"]);
    tree.refresh(vec![
        (ROOT.to_string(), Some(vec![entry("/p/src", false), entry("/p/Cargo.toml", false)])),
        ("/p/src".to_string(), None),
    ]);
    assert!(!tree.is_expanded("/p/src"));
    assert!(tree.is_expanded(ROOT));
}

#[test]
fn opening_something_that_is_not_a_directory_changes_nothing() {
    let mut tree = Tree::new(ROOT, Filter::default());
    tree.expand("/p/Cargo.toml", false, Vec::new());
    assert!(tree.expanded().is_empty());
    assert!(!tree.is_directory("/p/Cargo.toml"));
}

#[test]
fn what_was_open_comes_back_open() {
    let mut tree = Tree::new(ROOT, Filter::default());
    tree.restore_expanded(vec![
        (ROOT.to_string(), true, root_listing()),
        ("/p/src".to_string(), true, src_listing()),
        ("/p/gone".to_string(), false, Vec::new()),
    ]);
    assert_eq!(tree.expanded(), ["/p", "/p/src"]);
    assert_eq!(tree.rows().len(), 4);
}

#[test]
fn parents_are_listed_before_their_children() {
    let mut tree = Tree::new(ROOT, Filter::default());
    tree.expand("/p/a-b", true, Vec::new());
    tree.expand("/p/a/x", true, Vec::new());
    tree.expand("/p/a", true, Vec::new());
    tree.expand(ROOT, true, root_listing());
    assert_eq!(tree.expanded(), ["/p", "/p/a", "/p/a/x", "/p/a-b"]);
}

#[test]
fn toggling_a_read_directory_twice_shows_the_same_rows() {
    let mut tree = Tree::new(ROOT, Filter::default());
    tree.expand(ROOT, true, root_listing());
    tree.expand("/p/src", true, src_listing());
    let before = names(&tree);
    tree.toggle("/p/src", true, Vec::new());
    tree.toggle("/p/src", true, Vec::new());
    assert_eq!(names(&tree), before);
    tree.collapse("/p/src");
    let shut = names(&tree);
    tree.toggle("/p/src", true, Vec::new());
    tree.toggle("/p/src", true, Vec::new());
    assert_eq!(names(&tree), shut);
}

#[test]
fn a_tree_stays_rooted_where_it_was_made_and_shows_what_its_filter_says() {
    let shown = Filter { hidden: true, ignored: false };
    let mut tree = Tree::new(ROOT, Filter::default());
    tree.set_filter(shown);
    tree.expand(ROOT, true, root_listing());
    tree.expand("/p/src", true, src_listing());
    tree.collapse("/p/src");
    tree.toggle("/p/src", true, Vec::new());
    tree.refresh(vec![
        (ROOT.to_string(), Some(root_listing())),
        ("/p/src".to_string(), Some(src_listing())),
    ]);
    assert_eq!(tree.root(), ROOT);
    assert_eq!(tree.filter(), shown);
}

#[test]
fn toggling_an_unread_directory_twice_shows_the_same_rows() {
    let mut tree = Tree::new(ROOT, Filter::default());
    tree.expand(ROOT, true, root_listing());
    let before = names(&tree);
    tree.toggle("/p/src", true, src_listing());
    assert_eq!(tree.rows().len(), 4);
    tree.toggle("/p/src", true, Vec::new());
    assert_eq!(names(&tree), before);
}

#[test]
fn paths_are_the_same_path_component_for_component() {
    let mut tree = Tree::new("/p/", Filter::default());
    assert_eq!(tree.root(), "/p");
    assert!(tree.is_directory("/p"));
    assert!(tree.is_directory("/p//"));
    tree.expand("/p/./", true, root_listing());
    assert!(tree.is_expanded("/p"));
    tree.expand("/p//src/", true, src_listing());
    assert!(tree.is_expanded("/p/src"));
    assert!(tree.is_directory("/p/src/"));
    assert_eq!(tree.index_of("/p/src/./lib.rs"), Some(1));
    tree.collapse("/p/src/");
    assert!(!tree.is_expanded("/p/src"));
    assert!(Tree::new("root", Filter::default()).is_directory("root/"));
}
