use zdt::listing::{listing, standing_of};
use zdt::tree::{Entry, Filter};

const EVERYTHING: Filter = Filter {
    hidden: true,
    ignored: true,
};

fn entry(name: &str, directory: bool, ignored: bool) -> Entry {
    Entry {
        path: format!("/p/{name}"),
        name: name.to_string(),
        directory,
        standing: standing_of(name, ignored),
    }
}

/// What reading the sample directory finds, in the order the system happens to give it: two
/// directories, one of them ignored, and files, one hidden and one both hidden and ignored.
fn found() -> Vec<Entry> {
    vec![
        entry("Cargo.toml", false, false),
        entry(".env", false, true),
        entry("target", true, true),
        entry(".gitignore", false, false),
        entry("src", true, false),
    ]
}

fn names(entries: &[Entry]) -> Vec<&str> {
    entries.iter().map(|entry| entry.name.as_str()).collect()
}

#[test]
fn read_directories_come_first_and_then_names_in_order() {
    let entries = listing(&found(), Filter::default());
    assert_eq!(names(&entries), ["src", "Cargo.toml"]);
    assert!(entries[0].directory);
}

#[test]
fn what_is_set_apart_is_left_out_unless_asked_for() {
    let plain = listing(&found(), Filter::default());
    assert!(!plain.iter().any(|entry| entry.name == "target"));
    let everything = listing(&found(), EVERYTHING);
    assert!(everything.iter().any(|entry| entry.name == "target"));
    assert!(everything.iter().any(|entry| entry.name == ".gitignore"));
}

#[test]
fn every_entry_carries_what_sets_it_apart() {
    let entries = listing(&found(), EVERYTHING);
    let standing = |name: &str| {
        entries
            .iter()
            .find(|entry| entry.name == name)
            .map(|entry| entry.standing)
            .expect("it is in the list")
    };
    assert!(!standing("src").is_apart());
    assert!(standing("target").ignored && !standing("target").hidden);
    assert!(standing(".gitignore").hidden && !standing(".gitignore").ignored);
}

#[test]
fn something_both_hidden_and_ignored_needs_both_permissions() {
    let named = |filter| listing(&found(), filter).into_iter().any(|entry| entry.name == ".env");
    assert!(!named(Filter::default()));
    assert!(!named(Filter {
        hidden: true,
        ignored: false
    }));
    assert!(!named(Filter {
        hidden: false,
        ignored: true
    }));
    assert!(named(EVERYTHING));
}

#[test]
fn names_are_ordered_without_regard_to_case() {
    let found = vec![
        entry("b.rs", false, false),
        entry("README.md", false, false),
        entry("a.rs", false, false),
        entry("Zeta", true, false),
        entry("alpha", true, false),
        entry("A.rs", false, false),
    ];
    let entries = listing(&found, Filter::default());
    assert_eq!(names(&entries), ["alpha", "Zeta", "A.rs", "a.rs", "b.rs", "README.md"]);
}

#[test]
fn everything_shown_is_the_whole_listing() {
    let entries = listing(&found(), EVERYTHING);
    assert_eq!(names(&entries), ["src", "target", ".env", ".gitignore", "Cargo.toml"]);
}
