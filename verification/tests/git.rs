use zdt::commit::message_of;
use zdt::refs::short_name;
use zdt::refs::upstream_name;
use zdt::repo::{refusal, Error};
use zdt::checkpoint::{thread_prefix, turn_ref};
use zdt::commit::parse_numstat;
use zdt::diff::between;
use zdt::ignore::{addition, rule_for, Kind};
use zdt::refs::Head;
use zdt::repo::relative;
use zdt::stage::{apply, untracks};
use zdt::status::{status_entries, worktree_state, Entry, State, Summary};
use zdt::watch::{kind_of, to_change, EventClass, Kind as Change};
use zdt::worktree::{parse_list, temp_branch_from};

#[test]
fn a_temporary_branch_name_is_a_zdt_one() {
    let name = temp_branch_from(1_700_000_000_123_456_789, 4242);
    assert!(name.starts_with("zdt/"), "{name}");
    assert_eq!(name.len(), 12, "{name}");
    assert!(name[4..].chars().all(|c| c.is_ascii_hexdigit()));
    assert_eq!(temp_branch_from(0x1234_5678, 0), "zdt/12345678");
}

#[test]
fn a_listing_names_every_worktree_but_the_main_one() {
    let said = "worktree /repo\nHEAD abc\nbranch refs/heads/main\n\nworktree /repo-wt\nHEAD def\nbranch refs/heads/zdt/0000beef\n\nworktree /detached\nHEAD 123\ndetached\n";
    let found = parse_list(said, "/repo");
    assert_eq!(found.len(), 2);
    assert_eq!(found[0].path, "/repo-wt");
    assert_eq!(found[0].branch, "zdt/0000beef");
    assert_eq!(found[1].path, "/detached");
    assert_eq!(found[1].branch, "");
}

#[test]
fn a_name_with_a_pattern_character_in_it_names_only_itself() {
    assert_eq!(rule_for("a[1].txt", Kind::File), "/a\\[1\\].txt");
    assert_eq!(rule_for("target", Kind::Directory), "/target/");
    assert_eq!(rule_for("/build/", Kind::Directory), "/build/");
}

#[test]
fn the_same_rule_twice_is_written_once() {
    let first = addition("", "target", Kind::Directory).expect("something to add");
    assert_eq!(first, "/target/\n");
    assert!(addition(&first, "target", Kind::Directory).is_none());
    assert!(addition("  /target/  \n", "target", Kind::Directory).is_none());
}

#[test]
fn a_file_whose_last_line_has_no_break_gets_one() {
    assert_eq!(addition("first", "second", Kind::File), Some("\n/second\n".to_string()));
}

#[test]
fn a_file_that_is_not_there_is_made() {
    assert_eq!(addition("", "out.o", Kind::File), Some("/out.o\n".to_string()));
}

#[test]
fn a_path_goes_to_the_name_git_uses() {
    assert_eq!(relative("/repo", "/repo/src/a.rs"), Some("src/a.rs".to_string()));
    assert_eq!(relative("/repo", "/repo/"), None);
    assert_eq!(relative("/repo", "/repo"), None);
}

#[test]
fn a_path_outside_the_tree_has_no_name() {
    assert_eq!(relative("/repo", "/elsewhere/a.rs"), None);
    assert_eq!(relative("/repo", "/repository/a.rs"), None);
}

#[test]
fn a_turn_is_kept_under_its_thread() {
    assert_eq!(turn_ref(3, -1, "before"), "refs/zdt/checkpoints/3/-1/before");
    assert_eq!(thread_prefix(3), "refs/zdt/checkpoints/3/");
    assert!(turn_ref(12, 4, "after").starts_with(&thread_prefix(12)));
    assert!(!turn_ref(12, 4, "after").starts_with(&thread_prefix(1)));
}

#[test]
fn numstat_counts_each_file_and_a_binary_one_has_none() {
    let found = parse_numstat("3\t1\tsrc/a.rs\n-\t-\tlogo.png\nnonsense\n10\t0\tdir/with\ttab\n");
    assert_eq!(found.len(), 3);
    assert_eq!(found[0].path, "src/a.rs");
    assert_eq!((found[0].added, found[0].removed, found[0].binary), (3, 1, false));
    assert_eq!(found[1].path, "logo.png");
    assert!(found[1].binary);
    assert_eq!((found[1].added, found[1].removed), (0, 0));
    assert_eq!(found[2].path, "dir/with\ttab");
    assert_eq!(found[2].added, 10);
}

#[test]
fn a_status_is_marked_as_git_marks_it() {
    assert_eq!(State::Modified.mark(), "M");
    assert_eq!(State::Untracked.mark(), "?");
    assert!(!State::Unchanged.is_change());
    assert_eq!(worktree_state(Summary::Added, true), State::Untracked);
    assert_eq!(worktree_state(Summary::Added, false), State::Added);
    let entry = Entry {
        path: "a".to_string(),
        full: "/r/a".to_string(),
        index: State::Unchanged,
        worktree: State::Conflicted,
        from: None,
    };
    assert!(entry.is_conflicted());
    assert!(entry.is_unstaged());
    assert!(!entry.is_staged());
}

#[test]
fn a_detached_head_reads_as_a_commit() {
    let head = Head::Detached("0123456789abcdef".to_string());
    assert_eq!(head.label(), "@0123456");
    assert!(head.name().is_none());
    assert_eq!(Head::Branch("main".to_string()).label(), "main");
    assert_eq!(Head::Unborn("main".to_string()).name(), Some("main"));
}

#[test]
fn a_read_is_not_a_change() {
    assert_eq!(kind_of(EventClass::Access), None);
    assert_eq!(kind_of(EventClass::Create), Some(Change::Moved));
    assert_eq!(kind_of(EventClass::Modify), Some(Change::Written));
}

#[test]
fn a_sync_starts_what_is_new_and_stops_what_is_gone() {
    let wanted = vec!["/a".to_string(), "/b".to_string(), "/c".to_string()];
    let watched = vec!["/b".to_string(), "/d".to_string()];
    let (start, stop) = to_change(&wanted, &watched);
    assert_eq!(start, ["/a", "/c"]);
    assert_eq!(stop, ["/d"]);
}

#[test]
fn staging_every_hunk_is_the_same_as_staging_the_file() {
    let old = b"a\nb\nc\nd\ne\nf\ng\nh\ni\nj\nk\nl\n";
    let new = b"a\nB\nc\nd\ne\nf\ng\nh\ni\nj\nK\nl\nm\n";
    let found = between("f.txt", Some(old), Some(new));
    assert_eq!(found.hunks.len(), 2);
    let staged = apply(old, &found.hunks, false).expect("it applies");
    assert_eq!(staged, new);
    let undone = apply(new, &found.hunks, true).expect("it undoes");
    assert_eq!(undone, old);
}

#[test]
fn staging_one_hunk_stages_exactly_that_hunk() {
    let old = b"a\nb\nc\nd\ne\nf\ng\nh\ni\nj\nk\nl\n";
    let new = b"a\nB\nc\nd\ne\nf\ng\nh\ni\nj\nK\nl\n";
    let found = between("f.txt", Some(old), Some(new));
    let staged = apply(old, &found.hunks[..1], false).expect("it applies");
    assert_eq!(staged, b"a\nB\nc\nd\ne\nf\ng\nh\ni\nj\nk\nl\n");
}

#[test]
fn a_hunk_whose_context_is_gone_is_refused() {
    let found = between("f.txt", Some(b"a\nb\nc\n"), Some(b"a\nB\nc\n"));
    assert!(apply(b"x\ny\nz\n", &found.hunks, false).is_err());
}

#[test]
fn a_file_with_no_trailing_newline_keeps_not_having_one() {
    let old = b"one\ntwo";
    let new = b"one\nTWO";
    let found = between("f.txt", Some(old), Some(new));
    assert_eq!(apply(old, &found.hunks, false).expect("it applies"), new);
}

#[test]
fn a_status_is_in_path_order_with_each_path_once() {
    let worktree = vec![
        ("b.txt".to_string(), State::Modified),
        ("a.txt".to_string(), State::Untracked),
        ("b.txt".to_string(), State::Deleted),
    ];
    let staged = vec![("c.txt".to_string(), State::Added), ("b.txt".to_string(), State::Modified)];
    let found = status_entries("/r", &worktree, &staged);
    let rows: Vec<(&str, State, State)> = found
        .iter()
        .map(|entry| (entry.path.as_str(), entry.index, entry.worktree))
        .collect();
    assert_eq!(
        rows,
        [
            ("a.txt", State::Unchanged, State::Untracked),
            ("b.txt", State::Modified, State::Modified),
            ("c.txt", State::Added, State::Unchanged),
        ]
    );
    assert_eq!(found[0].full, "/r/a.txt");
    assert!(found.iter().all(|entry| entry.from.is_none()));
}

#[test]
fn nothing_changed_is_an_empty_status() {
    assert!(status_entries("/r", &Vec::new(), &Vec::new()).is_empty());
}

fn branch(name: &str, remote: bool) -> zdt::refs::Branch {
    zdt::refs::Branch {
        name: name.to_string(),
        id: "0".repeat(40),
        current: false,
        upstream: None,
        remote,
    }
}

#[test]
fn branches_come_back_in_name_order_with_the_local_ones_first() {
    let found = vec![
        branch("origin/main", true),
        branch("zeta", false),
        branch("main", false),
        branch("origin/alpha", true),
        branch("feature", false),
    ];
    let ordered = zdt::refs::order_branches(found);
    let names: Vec<&str> = ordered.iter().map(|branch| branch.name.as_str()).collect();
    assert_eq!(names, ["feature", "main", "zeta", "origin/alpha", "origin/main"]);
}

#[test]
fn only_heads_and_remotes_are_branches() {
    assert_eq!(short_name("refs/heads/main"), Some(("main".to_string(), false)));
    assert_eq!(short_name("refs/heads/zdt/1234abcd"), Some(("zdt/1234abcd".to_string(), false)));
    assert_eq!(short_name("refs/remotes/origin/main"), Some(("origin/main".to_string(), true)));
    assert_eq!(short_name("refs/remotes/origin/HEAD"), None);
    assert_eq!(short_name("refs/tags/v1"), None);
}

#[test]
fn an_upstream_is_the_remote_and_the_branch() {
    assert_eq!(upstream_name("origin", "refs/heads/main"), "origin/main");
    assert_eq!(upstream_name("origin", "main"), "origin/main");
}

#[test]
fn a_refusal_is_the_first_thing_git_said() {
    match refusal("\n   \n  fatal: not a git repository  \nhint: more\n") {
        Error::Git(said) => assert_eq!(said, "fatal: not a git repository"),
        other => panic!("{other:?}"),
    }
    match refusal(" \n\t\n") {
        Error::Git(said) => assert_eq!(said, "git refused"),
        other => panic!("{other:?}"),
    }
}

#[test]
fn untracking_leaves_a_neighbour_with_the_same_prefix_alone() {
    assert!(untracks("dir", "dir"));
    assert!(untracks("dir", "dir/a.txt"));
    assert!(untracks("dir", "dir/deep/b.txt"));
    assert!(!untracks("dir", "dir-other/a.txt"));
    assert!(!untracks("dir", "directory"));
}

#[test]
fn a_message_of_nothing_is_refused() {
    assert_eq!(message_of("  Fix it \n").expect("a message"), "Fix it");
    match message_of(" \n\t") {
        Err(Error::Git(said)) => assert_eq!(said, "a commit needs a message"),
        other => panic!("{other:?}"),
    }
}

#[test]
fn a_sync_watches_what_is_wanted() {
    let wanted = vec!["/a".to_string(), "/b".to_string()];
    let watched = vec!["/b".to_string(), "/c".to_string(), "/a".to_string()];
    let (start, stop) = to_change(&wanted, &watched);
    let mut after: Vec<String> = watched.into_iter().filter(|held| !stop.contains(held)).collect();
    after.extend(start);
    after.sort();
    assert_eq!(after, ["/a", "/b"]);
}

#[test]
fn a_rule_added_twice_is_added_once() {
    for held in ["", "first", "first\n", "a\n  b  \n"] {
        let more = addition(held, "build", Kind::Directory).expect("something to add");
        let after = format!("{held}{more}");
        assert!(addition(&after, "build", Kind::Directory).is_none(), "{after:?}");
    }
}

#[test]
fn a_repository_name_put_back_under_its_root_reads_back() {
    for root in ["/repo", "/repo/"] {
        for name in ["a.rs", "src/a.rs", "deep/er/still.txt"] {
            let full = zdt::search::files::absolute(root, name);
            assert_eq!(relative(root, &full), Some(name.to_string()));
        }
    }
}

#[test]
fn one_threads_checkpoints_are_not_under_anothers_prefix() {
    for (thread, other) in [(1, 12), (12, 1), (-1, 1), (1, -1), (3, 30)] {
        let reference = turn_ref(other, 2, "before");
        assert!(!reference.starts_with(&thread_prefix(thread)), "{reference}");
        assert!(turn_ref(thread, 2, "before").starts_with(&thread_prefix(thread)));
    }
}
