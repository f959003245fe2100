use zdt::search::fuzzy::reparse_for;
use zdt::search::fuzzy::rank;

fn names() -> Vec<String> {
    [
        "src/ui/picker/mod.rs",
        "src/ui/picker/list.rs",
        "src/ui/tree.rs",
        "Cargo.toml",
        "README.md",
    ]
    .into_iter()
    .map(str::to_owned)
    .collect()
}

#[test]
fn an_empty_pattern_keeps_the_order_it_was_given() {
    let candidates = names();
    let ranked = rank(&candidates, "", 10);
    assert_eq!(ranked.len(), 5);
    assert_eq!(ranked[0].index, 0);
    assert_eq!(ranked[4].index, 4);
}

#[test]
fn the_closest_match_comes_first() {
    let candidates = names();
    let ranked = rank(&candidates, "picker", 10);
    assert_eq!(ranked.len(), 2);
    for held in &ranked {
        assert!(candidates[held.index].contains("picker"));
    }
}

#[test]
fn letters_scattered_through_a_path_still_match() {
    let candidates = names();
    let ranked = rank(&candidates, "utr", 10);
    assert!(
        ranked
            .iter()
            .any(|held| candidates[held.index] == "src/ui/tree.rs"),
        "u-i, t-ree, r-s"
    );
}

#[test]
fn what_matched_is_reported_for_drawing() {
    let candidates = vec!["Cargo.toml".to_owned()];
    let ranked = rank(&candidates, "cargo", 10);
    assert_eq!(ranked.len(), 1);
    assert_eq!(ranked[0].matched, vec![0, 1, 2, 3, 4]);
}

#[test]
fn a_pattern_nothing_matches_is_an_empty_list() {
    let candidates = names();
    assert!(rank(&candidates, "zzzzzz", 10).is_empty());
}

#[test]
fn the_limit_is_kept() {
    let candidates = names();
    assert_eq!(rank(&candidates, "", 2).len(), 2);
    assert_eq!(rank(&candidates, "r", 1).len(), 1);
}

#[test]
fn the_ranking_is_best_first_and_ties_keep_their_order() {
    let candidates = names();
    let ranked = rank(&candidates, "rs", 10);
    assert!(!ranked.is_empty());
    for pair in ranked.windows(2) {
        let (a, b) = (&pair[0], &pair[1]);
        assert!(a.score > b.score || (a.score == b.score && a.index < b.index));
    }
}

#[test]
fn the_same_name_twice_ranks_the_earlier_one_first() {
    let candidates = vec!["a.rs".to_owned(), "b.md".to_owned(), "a.rs".to_owned()];
    let ranked = rank(&candidates, "a.rs", 10);
    assert_eq!(ranked.len(), 2);
    assert_eq!(ranked[0].index, 0);
    assert_eq!(ranked[1].index, 2);
}

#[test]
fn a_ranker_narrows_as_it_is_told_more() {
    assert_eq!(reparse_for("", "p"), Some(true));
    assert_eq!(reparse_for("p", "pi"), Some(true), "typing on narrows what is matched");
    assert_eq!(reparse_for("pick", "pi"), Some(false), "taking away starts over");
    assert_eq!(reparse_for("pi", "pi"), None, "the same pattern again costs nothing");
    assert_eq!(reparse_for("", ""), Some(true), "an empty pattern is always said again");
}
