use zdt::gutter::{after, before, parse, Change, Hunk};

#[test]
fn added_lines_are_where_the_header_says() {
    let hunks = parse("@@ -9,0 +10,2 @@\n+one\n+two\n");
    assert_eq!(
        hunks,
        vec![Hunk {
            line: 9,
            count: 2,
            change: Change::Added
        }]
    );
    assert_eq!(hunks[0].lines(), 9..11);
}

#[test]
fn a_removal_is_marked_on_the_line_below_the_hole() {
    let hunks = parse("@@ -5,3 +4,0 @@\n-gone\n-gone\n-gone\n");
    assert_eq!(
        hunks,
        vec![Hunk {
            line: 4,
            count: 0,
            change: Change::Removed
        }]
    );
    assert_eq!(hunks[0].lines(), 4..5, "drawn on one line all the same");
}

#[test]
fn a_changed_run_covers_the_new_lines() {
    let hunks = parse("@@ -3,2 +3,2 @@\n-old\n-old\n+new\n+new\n");
    assert_eq!(
        hunks,
        vec![Hunk {
            line: 2,
            count: 2,
            change: Change::Changed
        }]
    );
}

#[test]
fn a_header_with_no_count_is_one_line() {
    let hunks = parse("@@ -0,0 +1 @@\n+only\n");
    assert_eq!(hunks[0].count, 1);
    assert_eq!(hunks[0].change, Change::Added);
}

#[test]
fn several_hunks_come_back_in_order() {
    let diff = "\
diff --git a/f b/f
--- a/f
+++ b/f
@@ -1,0 +2,1 @@
+early
@@ -20,1 +22,1 @@
-old
+new
";
    let hunks = parse(diff);
    assert_eq!(hunks.len(), 2);
    assert_eq!(hunks[0].line, 1);
    assert_eq!(hunks[1].line, 21);
}

#[test]
fn everything_that_is_not_a_header_is_ignored() {
    let diff = "diff --git a/f b/f\nindex 0000..1111 100644\n--- a/f\n+++ b/f\n";
    assert!(parse(diff).is_empty());
    assert!(parse("").is_empty());
    assert!(parse("@@ nonsense @@").is_empty());
}

#[test]
fn walking_wraps_at_the_ends() {
    let hunks = parse("@@ -0,0 +2,1 @@\n+a\n@@ -0,0 +9,1 @@\n+b\n");
    assert_eq!(hunks.len(), 2);

    assert_eq!(after(&hunks, 0).unwrap().line, 1);
    assert_eq!(after(&hunks, 1).unwrap().line, 8);
    assert_eq!(after(&hunks, 8).unwrap().line, 1, "past the last wraps");

    assert_eq!(before(&hunks, 8).unwrap().line, 1);
    assert_eq!(before(&hunks, 0).unwrap().line, 8, "and so does before");
}

#[test]
fn walking_nothing_finds_nothing() {
    assert!(after(&[], 0).is_none());
    assert!(before(&[], 0).is_none());
}

#[test]
fn a_hunk_knows_which_lines_it_covers() {
    let hunk = Hunk {
        line: 4,
        count: 3,
        change: Change::Changed,
    };
    assert!(hunk.covers(4));
    assert!(hunk.covers(6));
    assert!(!hunk.covers(7));
}

#[test]
fn a_removal_at_the_top_marks_the_first_line() {
    let hunks = parse("@@ -1,2 +0,0 @@\n-a\n-b\n");
    assert_eq!(
        hunks,
        vec![Hunk {
            line: 0,
            count: 0,
            change: Change::Removed
        }]
    );
    assert!(hunks[0].covers(0));
    assert!(!hunks[0].covers(1));
}
