use zdt::theme::{builtin_theme_names, resolve_theme, theme_from_files, theme_names, ThemeSource};

#[test]
fn an_unknown_name_is_not_a_theme() {
    assert!(!builtin_theme_names().iter().any(|(name, _)| *name == "no-such-theme"));
    assert!(resolve_theme(None, None).is_none());
}

#[test]
fn the_built_in_themes_are_offered_in_order() {
    let names = builtin_theme_names();
    assert_eq!(names.len(), 6);
    assert_eq!(names[0], ("oldworld", "Oldworld"));
    assert_eq!(names[2], ("rose-pine", "Rosé Pine"));
    assert_eq!(names[5], ("gruvbox", "Gruvbox"));
}

#[test]
fn a_file_in_the_directory_adds_its_theme_once_and_the_list_is_sorted() {
    let files = vec![
        "mine-light.css".to_string(),
        "mine-dark.css".to_string(),
        "oldworld-dark.css".to_string(),
        "notes.txt".to_string(),
    ];
    assert_eq!(
        theme_names(&files),
        vec!["catppuccin", "gruvbox", "mine", "oldworld", "rose-pine", "tokyonight", "vesper"]
    );
}

#[test]
fn a_theme_with_one_file_uses_it_for_both_surfaces() {
    let theme = theme_from_files("mine", None, Some("--a: 1;".to_string())).expect("a theme");
    assert_eq!(theme.name, "mine");
    assert_eq!(theme.light, "--a: 1;");
    assert_eq!(theme.dark, "--a: 1;");
    assert!(theme_from_files("mine", None, None).is_none());
}

#[test]
fn a_theme_in_the_directory_wins_over_the_built_in_one() {
    let mine = ThemeSource::new("oldworld", "light", "dark");
    let shipped = ThemeSource::new("oldworld", "shipped light", "shipped dark");
    let chosen = resolve_theme(Some(mine), Some(shipped.clone())).expect("a theme");
    assert_eq!(chosen.light, "light");
    let fallback = resolve_theme(None, Some(shipped)).expect("a theme");
    assert_eq!(fallback.dark, "shipped dark");
}
