use zdt::diff::checked_between;
use zdt::diff::{between, is_binary, lines_of, DiffHunk, LineKind};

/// The kinds of the lines of one hunk, as a string: `.` context, `+` added, `-` removed.
fn shape(hunk: &DiffHunk) -> String {
    hunk.lines
        .iter()
        .map(|line| match line.kind {
            LineKind::Context => '.',
            LineKind::Added => '+',
            LineKind::Removed => '-',
        })
        .collect()
}

#[test]
fn diff_a_file_that_did_not_change_has_no_hunks() {
    let found = between("a.txt", Some(b"one\ntwo\n"), Some(b"one\ntwo\n"));
    assert!(found.is_empty());
    assert_eq!(found.counts(), (0, 0));
}

#[test]
fn diff_one_line_changed_is_one_hunk() {
    let found = between(
        "a.txt",
        Some(b"one\ntwo\nthree\n"),
        Some(b"one\nTWO\nthree\n"),
    );
    assert_eq!(found.hunks.len(), 1);
    assert_eq!(found.counts(), (1, 1));
    assert_eq!(shape(&found.hunks[0]), ".-+.");
}

#[test]
fn diff_a_new_file_is_all_additions() {
    let found = between("a.txt", None, Some(b"one\ntwo\n"));
    assert_eq!(found.counts(), (2, 0));
    assert_eq!(shape(&found.hunks[0]), "++");
    assert_eq!(found.hunks[0].new_start, 1);
}

#[test]
fn diff_a_deleted_file_is_all_removals() {
    let found = between("a.txt", Some(b"one\ntwo\n"), None);
    assert_eq!(found.counts(), (0, 2));
    assert_eq!(shape(&found.hunks[0]), "--");
}

#[test]
fn diff_the_line_numbers_are_the_ones_git_would_print() {
    let old = b"a\nb\nc\nd\ne\nf\ng\n";
    let new = b"a\nb\nc\nD\ne\nf\ng\n";
    let found = between("a.txt", Some(old), Some(new));
    let hunk = &found.hunks[0];
    assert_eq!(hunk.old_start, 1);
    assert_eq!(hunk.new_start, 1);
    assert_eq!(shape(hunk), "...-+...");

    let changed = hunk
        .lines
        .iter()
        .find(|line| line.kind == LineKind::Added)
        .expect("one");
    assert_eq!(changed.new, Some(4));
    assert_eq!(changed.old, None);
}

#[test]
fn diff_two_changes_far_apart_are_two_hunks() {
    let old: String = (0..40).map(|n| format!("line {n}\n")).collect();
    let mut new_lines: Vec<String> = (0..40).map(|n| format!("line {n}")).collect();
    new_lines[2] = "changed near the top".to_owned();
    new_lines[35] = "changed near the bottom".to_owned();
    let new: String = new_lines.iter().map(|line| format!("{line}\n")).collect();

    let found = between("a.txt", Some(old.as_bytes()), Some(new.as_bytes()));
    assert_eq!(found.hunks.len(), 2, "far apart, so not joined");
}

#[test]
fn diff_two_changes_close_together_are_one_hunk() {
    let old: String = (0..20).map(|n| format!("line {n}\n")).collect();
    let mut new_lines: Vec<String> = (0..20).map(|n| format!("line {n}")).collect();
    new_lines[8] = "one".to_owned();
    new_lines[10] = "two".to_owned();
    let new: String = new_lines.iter().map(|line| format!("{line}\n")).collect();

    let found = between("a.txt", Some(old.as_bytes()), Some(new.as_bytes()));
    assert_eq!(found.hunks.len(), 1);
}

#[test]
fn diff_a_binary_file_says_so_rather_than_showing_itself() {
    let found = between("a.png", Some(b"\x89PNG\x00\x01"), Some(b"\x89PNG\x00\x02"));
    assert!(found.binary);
    assert!(found.hunks.is_empty(), "there is nothing to draw");
}

#[test]
fn diff_what_counts_as_binary() {
    assert!(is_binary(b"before\x00after"));
    assert!(!is_binary(b"plain text\nwith lines\n"));
    assert!(!is_binary(b""), "an empty file is text");
}

#[test]
fn diff_a_file_with_no_trailing_newline_has_no_phantom_last_line() {
    assert_eq!(lines_of(b"one\ntwo"), ["one", "two"]);
    assert_eq!(lines_of(b"one\ntwo\n"), ["one", "two"]);
    assert!(lines_of(b"").is_empty());
}

#[test]
fn diff_carriage_returns_are_not_part_of_the_line() {
    assert_eq!(lines_of(b"one\r\ntwo\r\n"), ["one", "two"]);
}

#[test]
fn diff_a_hunk_header_reads_as_git_writes_it() {
    let found = between("a.txt", Some(b"one\n"), Some(b"two\n"));
    assert_eq!(found.hunks[0].header(), "@@ -1,1 +1,1 @@");
}

#[test]
fn tests_a_file_that_did_not_change_has_no_hunks() {
    let found = between("a.txt", Some(b"one\ntwo\n"), Some(b"one\ntwo\n"));
    assert!(found.is_empty());
    assert_eq!(found.counts(), (0, 0));
}

#[test]
fn tests_one_line_changed_is_one_hunk() {
    let found = between(
        "a.txt",
        Some(b"one\ntwo\nthree\n"),
        Some(b"one\nTWO\nthree\n"),
    );
    assert_eq!(found.hunks.len(), 1);
    assert_eq!(found.counts(), (1, 1));
    assert_eq!(shape(&found.hunks[0]), ".-+.");
}

#[test]
fn tests_a_new_file_is_all_additions() {
    let found = between("a.txt", None, Some(b"one\ntwo\n"));
    assert_eq!(found.counts(), (2, 0));
    assert_eq!(shape(&found.hunks[0]), "++");
    assert_eq!(found.hunks[0].new_start, 1);
}

#[test]
fn tests_a_deleted_file_is_all_removals() {
    let found = between("a.txt", Some(b"one\ntwo\n"), None);
    assert_eq!(found.counts(), (0, 2));
    assert_eq!(shape(&found.hunks[0]), "--");
}

#[test]
fn tests_the_line_numbers_are_the_ones_git_would_print() {
    let old = b"a\nb\nc\nd\ne\nf\ng\n";
    let new = b"a\nb\nc\nD\ne\nf\ng\n";
    let found = between("a.txt", Some(old), Some(new));
    let hunk = &found.hunks[0];
    assert_eq!(hunk.old_start, 1);
    assert_eq!(hunk.new_start, 1);
    assert_eq!(shape(hunk), "...-+...");

    let changed = hunk
        .lines
        .iter()
        .find(|line| line.kind == LineKind::Added)
        .expect("one");
    assert_eq!(changed.new, Some(4));
    assert_eq!(changed.old, None);
}

#[test]
fn tests_two_changes_far_apart_are_two_hunks() {
    let old: String = (0..40).map(|n| format!("line {n}\n")).collect();
    let mut new_lines: Vec<String> = (0..40).map(|n| format!("line {n}")).collect();
    new_lines[2] = "changed near the top".to_owned();
    new_lines[35] = "changed near the bottom".to_owned();
    let new: String = new_lines.iter().map(|line| format!("{line}\n")).collect();

    let found = between("a.txt", Some(old.as_bytes()), Some(new.as_bytes()));
    assert_eq!(found.hunks.len(), 2, "far apart, so not joined");
}

#[test]
fn tests_two_changes_close_together_are_one_hunk() {
    let old: String = (0..20).map(|n| format!("line {n}\n")).collect();
    let mut new_lines: Vec<String> = (0..20).map(|n| format!("line {n}")).collect();
    new_lines[8] = "one".to_owned();
    new_lines[10] = "two".to_owned();
    let new: String = new_lines.iter().map(|line| format!("{line}\n")).collect();

    let found = between("a.txt", Some(old.as_bytes()), Some(new.as_bytes()));
    assert_eq!(found.hunks.len(), 1);
}

#[test]
fn tests_a_binary_file_says_so_rather_than_showing_itself() {
    let found = between("a.png", Some(b"\x89PNG\x00\x01"), Some(b"\x89PNG\x00\x02"));
    assert!(found.binary);
    assert!(found.hunks.is_empty(), "there is nothing to draw");
}

#[test]
fn tests_what_counts_as_binary() {
    assert!(is_binary(b"before\x00after"));
    assert!(!is_binary(b"plain text\nwith lines\n"));
    assert!(!is_binary(b""), "an empty file is text");
}

#[test]
fn tests_a_file_with_no_trailing_newline_has_no_phantom_last_line() {
    assert_eq!(lines_of(b"one\ntwo"), ["one", "two"]);
    assert_eq!(lines_of(b"one\ntwo\n"), ["one", "two"]);
    assert!(lines_of(b"").is_empty());
}

#[test]
fn tests_carriage_returns_are_not_part_of_the_line() {
    assert_eq!(lines_of(b"one\r\ntwo\r\n"), ["one", "two"]);
}

#[test]
fn tests_a_hunk_header_reads_as_git_writes_it() {
    let found = between("a.txt", Some(b"one\n"), Some(b"two\n"));
    assert_eq!(found.hunks[0].header(), "@@ -1,1 +1,1 @@");
}

#[test]
fn a_change_at_the_last_line_keeps_the_lines_before_as_context() {
    let found = between("a.txt", Some(b"a\nb\nc\nd\ne\n"), Some(b"a\nb\nc\nd\nE\n"));
    assert_eq!(found.hunks.len(), 1);
    let hunk = &found.hunks[0];
    assert_eq!(shape(hunk), "...-+");
    assert_eq!(hunk.header(), "@@ -2,4 +2,4 @@");
    assert_eq!(hunk.counts(), (1, 1));
}

#[test]
fn a_binary_file_on_one_side_only_is_binary() {
    let found = between("a.bin", None, Some(b"\x00\x01"));
    assert!(found.binary);
    assert!(found.hunks.is_empty());
}

#[test]
fn a_line_that_is_not_utf8_is_read_leniently() {
    assert_eq!(lines_of(b"caf\xe9\n"), ["caf\u{FFFD}"]);
}

#[test]
fn a_line_moved_to_the_end_keeps_every_other_line() {
    // The longest run both texts share is `b c d`, so only `a` moves.
    let found = between("a.txt", Some(b"a\nb\nc\nd\n"), Some(b"b\nc\nd\na\n"));
    assert_eq!(found.counts(), (1, 1));
    assert_eq!(found.hunks.len(), 1);
    assert_eq!(shape(&found.hunks[0]), "-...+");
}

#[test]
fn the_diff_keeps_the_longest_shared_run_in_the_middle() {
    // Between the shared first and last lines, `x y` is kept over the single `z`.
    let found = between(
        "a.txt",
        Some(b"top\nz\nx\ny\nend\n"),
        Some(b"top\nx\ny\nz\nend\n"),
    );
    assert_eq!(found.counts(), (1, 1));
}

#[test]
fn a_binary_file_that_changed_is_not_empty() {
    let found = between("a.png", Some(b"\x89PNG\x00\x01"), Some(b"\x89PNG\x00\x02"));
    assert!(found.binary);
    assert!(!found.is_empty(), "something changed, though nothing is drawn");
}

#[test]
fn a_new_file_starts_at_line_zero_on_the_old_side() {
    let found = between("a.txt", None, Some(b"one\ntwo\n"));
    assert_eq!(found.hunks[0].header(), "@@ -0,0 +1,2 @@");
    let gone = between("a.txt", Some(b"one\ntwo\n"), None);
    assert_eq!(gone.hunks[0].header(), "@@ -1,2 +0,0 @@");
}

#[test]
fn of_two_equal_lines_the_second_is_the_one_removed() {
    let found = between("a.txt", Some(b"a\na\n"), Some(b"a\n"));
    assert_eq!(shape(&found.hunks[0]), ".-");
    let removed = found.hunks[0]
        .lines
        .iter()
        .find(|line| line.kind == LineKind::Removed)
        .expect("one");
    assert_eq!(removed.old, Some(2));
}

#[test]
fn a_checked_diff_of_ordinary_sides_is_the_diff() {
    let found = checked_between("a.txt", Some(b"one\n"), Some(b"two\n")).expect("it numbers");
    assert_eq!(found.counts(), (1, 1));
    let binary = checked_between("a.png", Some(b"\x00"), None).expect("binary is not numbered");
    assert!(binary.binary);
}

#[test]
fn a_binary_file_that_did_not_change_is_empty() {
    let found = between("a.png", Some(b"\x89PNG\x00\x01"), Some(b"\x89PNG\x00\x01"));
    assert!(found.binary);
    assert!(!found.differs);
    assert!(found.is_empty(), "nothing changed");
}
