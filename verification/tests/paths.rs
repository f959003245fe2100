use zdt::paths::{candidate, free_name, NameStep, ATTEMPTS};

/// Steps through `free_name` the way the file system's answers would, with `taken` the names
/// that are there.
fn free(path: &str, taken: &[String]) -> String {
    let mut attempt = 0;
    loop {
        let name = candidate(path, attempt);
        match free_name(path, attempt, taken.contains(&name)) {
            NameStep::Take(name) => return name,
            NameStep::Try(next) => attempt = next,
            NameStep::NoneLeft => panic!("no name left"),
        }
    }
}

#[test]
fn a_free_name_steps_around_what_is_there() {
    let path = "/tmp/free/note.txt";
    let mut taken = vec![path.to_string()];
    let first = free(path, &taken);
    assert_eq!(first, "/tmp/free/note copy.txt");

    taken.push(first);
    assert_eq!(free(path, &taken), "/tmp/free/note copy 2.txt");
}

#[test]
fn a_name_that_is_free_is_kept() {
    assert_eq!(free("/tmp/free/note.txt", &[]), "/tmp/free/note.txt");
}

#[test]
fn a_name_with_no_extension_has_the_copy_at_its_end() {
    assert_eq!(candidate("/tmp/Makefile", 1), "/tmp/Makefile copy");
    assert_eq!(candidate("/tmp/Makefile", 3), "/tmp/Makefile copy 3");
    assert_eq!(candidate("/tmp/a.tar.gz", 1), "/tmp/a.tar copy.gz");
}

#[test]
fn after_the_last_attempt_no_name_is_left() {
    match free_name("/tmp/note.txt", ATTEMPTS - 1, true) {
        NameStep::NoneLeft => {}
        NameStep::Take(name) => panic!("took {name}, which is taken"),
        NameStep::Try(next) => panic!("asked to try {next}"),
    }
    match free_name("/tmp/note.txt", 4, true) {
        NameStep::Try(next) => assert_eq!(next, 5),
        other => panic!("{other:?}"),
    }
}
