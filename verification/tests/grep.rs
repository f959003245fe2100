use zdt::search::files::{absolute as joined, in_order, Walk};
use zdt::search::grep::{absolute, hit_of, insensitive, pattern_of, Hit, Query};

fn query(pattern: &str) -> Query {
    Query {
        pattern: pattern.to_owned(),
        ..Query::default()
    }
}

#[test]
fn text_is_escaped_unless_it_is_a_pattern() {
    assert_eq!(pattern_of(&query("beta()")), "beta\\(\\)");
    assert_eq!(pattern_of(&query("a.b-c")), "a\\.b\\-c");
    let regex = Query {
        regex: true,
        ..query("beta()")
    };
    assert_eq!(pattern_of(&regex), "beta()");
}

#[test]
fn a_lower_case_pattern_matches_either_case_and_a_capital_does_not() {
    assert!(insensitive(&query("alpha")));
    assert!(!insensitive(&query("ALPHA")));
    assert!(!insensitive(&query("Élan")));
    let fussy = Query {
        smart_case: false,
        ..query("alpha")
    };
    assert!(!insensitive(&fussy));
}

#[test]
fn a_hit_says_where_in_the_line_it_matched() {
    let hit = hit_of("src/one.rs", Some(2), b"fn beta() {}\n", Some((3, 7)));
    assert_eq!(
        hit,
        Hit {
            path: "src/one.rs".to_owned(),
            line: 2,
            column: 3,
            length: 4,
            text: "fn beta() {}".to_owned(),
        }
    );
}

#[test]
fn a_long_line_is_cut_and_its_breaks_are_dropped() {
    let long = "x".repeat(500) + "\r\n";
    let hit = hit_of("a", None, long.as_bytes(), None);
    assert_eq!(hit.text.chars().count(), 400);
    assert_eq!(hit.line, 0);
    assert_eq!((hit.column, hit.length), (0, 0));
    let broken = hit_of("a", Some(1), b"caf\xe9\n", Some((0, 3)));
    assert_eq!(broken.text, "caf\u{FFFD}");
}

#[test]
fn a_hit_is_found_under_the_root() {
    let hit = hit_of("src/one.rs", Some(1), b"x", None);
    assert_eq!(absolute("/p", &hit), "/p/src/one.rs");
    assert_eq!(joined("/p", "src/two.rs"), "/p/src/two.rs");
}

#[test]
fn the_defaults_are_what_a_search_box_starts_with() {
    let held = Query::default();
    assert!(held.pattern.is_empty());
    assert!(held.smart_case);
    assert!(!held.regex);
    assert_eq!(held.limit, 10_000);
    assert_eq!(Walk::default().limit, 500_000);
}

#[test]
fn a_walk_is_answered_in_order() {
    let found = vec!["src/b.rs".to_owned(), "Cargo.toml".to_owned(), "src/a.rs".to_owned()];
    assert_eq!(in_order(found), ["Cargo.toml", "src/a.rs", "src/b.rs"]);
}
