use zdt::language::{directory, language_of, of, of_extension, unknown};

const EXTENSIONS: [&str; 37] = [
    "rs", "toml", "md", "markdown", "json", "jsonc", "yaml", "yml", "py", "pyi", "ts", "tsx",
    "js", "jsx", "mjs", "go", "c", "h", "cpp", "cc", "hpp", "lua", "sh", "bash", "zsh", "fish",
    "html", "css", "scss", "txt", "lock", "png", "jpg", "jpeg", "svg", "gif", "webp",
];

#[test]
fn a_rust_file_highlights_as_rust() {
    assert_eq!(language_of("src/main.rs"), Some("rust"));
    assert_eq!(language_of("/tmp/a/b/lib.rs"), Some("rust"));
}

#[test]
fn a_whole_name_beats_its_extension() {
    let lock = of("Cargo.lock");
    assert_eq!(lock.language, Some("toml"));
    assert_ne!(lock.glyph, unknown().glyph);
}

#[test]
fn an_extension_is_matched_whatever_its_case() {
    assert_eq!(language_of("README.MD"), Some("markdown"));
    assert_eq!(language_of("Photo.PNG"), None);
}

#[test]
fn something_unknown_is_still_a_file() {
    let kind = of("notes.qqq");
    assert_eq!(kind.language, None);
    assert_eq!(kind.glyph, unknown().glyph);
}

#[test]
fn a_file_with_no_extension_at_all_is_unknown() {
    assert_eq!(of("notes").glyph, unknown().glyph);
    assert_eq!(language_of("notes"), None);
}

#[test]
fn every_glyph_is_one_character() {
    for extension in EXTENSIONS {
        let kind = of_extension(extension).expect("the table knows it");
        assert_eq!(
            kind.glyph.chars().count(),
            1,
            "the glyph for .{extension} is not one character"
        );
    }
}

#[test]
fn the_table_names_each_extension_once() {
    let mut seen: Vec<&str> = EXTENSIONS.to_vec();
    let count = seen.len();
    seen.sort_unstable();
    seen.dedup();
    assert_eq!(seen.len(), count, "an extension is in the table twice");
    for extension in EXTENSIONS {
        assert!(of_extension(extension).is_some());
    }
}

#[test]
fn a_dotfile_is_known_by_its_whole_name() {
    assert_eq!(of(".gitignore").glyph, "\u{e702}");
    assert_eq!(of("LICENSE").glyph, "\u{f718}");
    assert_eq!(of("src").glyph, unknown().glyph);
    assert_eq!(directory().glyph, "\u{f07b}");
}

#[test]
fn an_extension_asked_for_in_capitals_is_the_same_kind() {
    assert_eq!(of_extension("RS").map(|kind| kind.language), Some(Some("rust")));
    assert!(of_extension("qqq").is_none());
}
