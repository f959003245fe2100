use zdt::graph::{by_id, lane_tint, lay_out, width};
use zdt::log::Commit;

fn commit(id: &str, parents: &[&str]) -> Commit {
    Commit {
        id: id.to_owned(),
        short: id.to_owned(),
        summary: id.to_owned(),
        body: String::new(),
        author: "Test".to_owned(),
        email: "test@example.com".to_owned(),
        when: 0,
        parents: parents.iter().map(|id| (*id).to_owned()).collect(),
    }
}

#[test]
fn a_straight_history_is_one_column() {
    let history = [commit("c", &["b"]), commit("b", &["a"]), commit("a", &[])];
    let rows = lay_out(&history);
    assert!(rows.iter().all(|row| row.lane == 0), "{rows:#?}");
    assert_eq!(width(&rows), 1);
}

#[test]
fn every_row_carries_its_own_commit() {
    let history = [commit("b", &["a"]), commit("a", &[])];
    let rows = lay_out(&history);
    assert_eq!(
        rows.iter().map(|row| row.id.as_str()).collect::<Vec<_>>(),
        ["b", "a"]
    );
}

#[test]
fn a_merge_fans_out_and_rejoins() {
    let history = [
        commit("m", &["n", "s"]),
        commit("n", &["a"]),
        commit("s", &["a"]),
        commit("a", &[]),
    ];
    let rows = lay_out(&history);

    assert_eq!(rows[0].lane, 0, "the merge is on the trunk");
    assert_eq!(rows[0].edges.len(), 2, "one line to each parent");
    assert!(
        rows[0].edges.iter().any(|edge| edge.to != 0),
        "one of them goes to a lane of its own: {:#?}",
        rows[0].edges
    );
    assert!(width(&rows) >= 2, "the drawing widened for the branch");

    let last = rows.last().expect("there is a last row");
    assert_eq!(last.id, "a");
    assert_eq!(last.width, 1, "the drawing narrowed again: {rows:#?}");
}

#[test]
fn two_tips_get_two_lanes() {
    let history = [commit("x", &["a"]), commit("y", &["a"]), commit("a", &[])];
    let rows = lay_out(&history);
    assert_ne!(rows[0].lane, rows[1].lane, "the tips are side by side");
    assert_eq!(
        rows[2].lane, rows[0].lane,
        "and the shared parent is on the first"
    );
}

#[test]
fn a_lane_is_reused_once_its_branch_has_ended() {
    let history = [
        commit("d", &["c"]),
        commit("c", &["b"]),
        commit("b", &["a"]),
        commit("a", &[]),
    ];
    assert_eq!(width(&lay_out(&history)), 1);
}

#[test]
fn nothing_at_all_lays_out_as_nothing() {
    assert!(lay_out(&[]).is_empty());
    assert_eq!(width(&[]), 0);
}

#[test]
fn the_first_commit_ends_its_lane() {
    let history = [commit("a", &[])];
    let rows = lay_out(&history);
    assert!(
        rows[0].edges.is_empty(),
        "a commit with no parents has nothing below it: {:#?}",
        rows[0].edges
    );
}

#[test]
fn a_merge_is_a_commit_with_two_parents() {
    assert!(commit("m", &["a", "b"]).is_merge());
    assert!(!commit("a", &["b"]).is_merge());
    assert!(!commit("a", &[]).is_merge());
}

#[test]
fn the_tints_go_round() {
    assert_eq!(lane_tint(0), lane_tint(8));
    assert_ne!(lane_tint(0), lane_tint(1));
}

#[test]
fn a_commit_carries_everything_the_panel_draws() {
    let made = Commit::from_parts(
        "0123456789abcdef".to_string(),
        "Fix the thing".to_string(),
        Some("\n  It was broken.\n\n".to_string()),
        "Someone".to_string(),
        "someone@example.com".to_string(),
        1_700_000_000,
        vec!["fedcba".to_string()],
    );
    assert_eq!(made.short, "0123456");
    assert_eq!(made.body, "It was broken.");
    assert_eq!(made.summary, "Fix the thing");
    assert_eq!(made.when, 1_700_000_000);
    assert!(!made.is_merge());

    let bare = Commit::from_parts(
        "abc".to_string(),
        "x".to_string(),
        Some("   \n".to_string()),
        String::new(),
        String::new(),
        0,
        Vec::new(),
    );
    assert_eq!(bare.short, "abc");
    assert_eq!(bare.body, "", "a body of white space is no body");
}

#[test]
fn a_commit_is_found_again_by_its_id() {
    let history = vec![commit("c", &["b"]), commit("b", &["a"]), commit("a", &[])];
    let index = by_id(&history);
    assert_eq!(index.get("c"), Some(0));
    assert_eq!(index.get("b"), Some(1));
    assert_eq!(index.get("a"), Some(2));
    assert_eq!(index.get("z"), None);
}

#[test]
fn an_id_listed_twice_keeps_its_last_place() {
    let history = vec![commit("a", &[]), commit("b", &[]), commit("a", &[])];
    let index = by_id(&history);
    assert_eq!(index.get("a"), Some(2));
    assert_eq!(index.get("b"), Some(1));
}

#[test]
fn a_row_is_as_wide_as_every_line_below_it_needs() {
    // After `a`, lane 1 is free and lane 2 still carries `x` down: three lanes wide, not two.
    let history = vec![
        commit("t1", &["a"]),
        commit("t2", &["a"]),
        commit("t3", &["x"]),
        commit("a", &["r"]),
        commit("x", &["r"]),
        commit("r", &[]),
    ];
    let rows = lay_out(&history);
    assert_eq!(rows[3].id, "a");
    assert_eq!(rows[3].width, 3);
    for row in &rows {
        assert!(row.lane < row.width);
        for edge in &row.edges {
            assert!(edge.to < row.width, "{row:?}");
        }
    }
}
